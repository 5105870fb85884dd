//! What the model's signs and updates mean.

use vstd::prelude::*;

use crate::emit::operator;
use crate::model::{
    arrowed, glyph_text, keyword_text, lemma_name_from, name_index, overlay, tag_text, with_node,
    EdgeKind, FrameKind, Key, NodeStyleView, NodeView, Shape, Visibility,
};

verus! {

/// Edges have a head just where their operator ends in one.
pub proof fn law_heads_follow_the_operator(kind: EdgeKind)
    ensures
        arrowed(kind) == (operator(kind).last() == '>'),
{
    reveal_strlit("-->");
    reveal_strlit("---");
    reveal_strlit("-.->");
    reveal_strlit("-.-");
    reveal_strlit("==>");
    reveal_strlit("===");
    reveal_strlit("~~~");
}

/// Visibilities are marked by the signs of UML: a plus for what everyone
/// sees, a minus for what only the class sees, a hash for what its heirs see
/// too, a tilde for what its package sees too.
pub proof fn law_visibilities_have_their_signs(v: Visibility)
    ensures
        glyph_text(v).contains('+') == (v is Public),
        glyph_text(v).contains('-') == (v is Private),
        glyph_text(v).contains('#') == (v is Protected),
        glyph_text(v).contains('~') == (v is Package),
        glyph_text(v).len() == (if v is Unmarked {
            0int
        } else {
            1
        }),
{
    reveal_strlit("+");
    reveal_strlit("-");
    reveal_strlit("#");
    reveal_strlit("~");
    reveal_strlit("");
    if !(v is Unmarked) {
        assert(glyph_text(v).contains(glyph_text(v)[0]));
    }
}

/// Frames are named by the words that open them: each by its own first
/// letter, and all but loops by three letters.
pub proof fn law_frames_have_their_words(k: FrameKind)
    ensures
        (keyword_text(k)[0] == 'l') == (k is Loop),
        (keyword_text(k)[0] == 'o') == (k is Opt),
        (keyword_text(k)[0] == 'a') == (k is Alt),
        (keyword_text(k)[0] == 'p') == (k is Par),
        (keyword_text(k).len() == 4) == (k is Loop),
        (keyword_text(k).len() == 3) == !(k is Loop),
{
    reveal_strlit("loop");
    reveal_strlit("opt");
    reveal_strlit("alt");
    reveal_strlit("par");
}

/// Keys are tagged by two letters: a `K`, behind the `P` of a primary key,
/// the `F` of a foreign one, or the `U` of a unique one.
pub proof fn law_keys_have_their_tags(k: Key)
    ensures
        tag_text(k).len() == 2,
        tag_text(k)[1] == 'K',
        (tag_text(k)[0] == 'P') == (k is Pk),
        (tag_text(k)[0] == 'F') == (k is Fk),
        (tag_text(k)[0] == 'U') == (k is Uk),
{
    reveal_strlit("PK");
    reveal_strlit("FK");
    reveal_strlit("UK");
}

/// Where the later style sets a field, the field has the later value, and
/// else the earlier.
pub proof fn law_later_style_wins(under: NodeStyleView, over: NodeStyleView)
    ensures
        over.fill is Some ==> overlay(under, over).fill == over.fill,
        over.fill is None ==> overlay(under, over).fill == under.fill,
        over.stroke is Some ==> overlay(under, over).stroke == over.stroke,
        over.stroke is None ==> overlay(under, over).stroke == under.stroke,
        over.stroke_width is Some ==> overlay(under, over).stroke_width == over.stroke_width,
        over.stroke_width is None ==> overlay(under, over).stroke_width == under.stroke_width,
        over.color is Some ==> overlay(under, over).color == over.color,
        over.color is None ==> overlay(under, over).color == under.color,
{
}

/// The ids of nodes in order.
pub open spec fn ids_of(nodes: Seq<NodeView>) -> Seq<Seq<char>> {
    nodes.map_values(|n: NodeView| n.id)
}

/// Asking for a node leaves one of that id. It has the label and the shape
/// that were given. Where none was given, a node that was there keeps its
/// own, and a new one is a rectangle labelled by its id. All other nodes
/// stay as they are, and asking again with nothing given changes nothing.
pub proof fn law_ensured_node_is_there(
    nodes: Seq<NodeView>,
    id: Seq<char>,
    label: Option<Seq<char>>,
    shape: Option<Shape>,
)
    ensures
        ({
            let at = name_index(ids_of(nodes), id);
            let r = with_node(nodes, at, id, label, shape);
            let i = match at {
                Some(i) => i,
                None => nodes.len() as int,
            };
            &&& name_index(ids_of(r), id) == Some(i)
            &&& 0 <= i < r.len()
            &&& r[i].id == id
            &&& r.len() == (if ids_of(nodes).contains(id) {
                nodes.len()
            } else {
                nodes.len() + 1
            })
            &&& label is Some ==> Some(r[i].label) == label
            &&& shape is Some ==> Some(r[i].shape) == shape
            &&& label is None ==> r[i].label == (if ids_of(nodes).contains(id) {
                nodes[i].label
            } else {
                id
            })
            &&& shape is None ==> r[i].shape == (if ids_of(nodes).contains(id) {
                nodes[i].shape
            } else {
                Shape::Rect
            })
            &&& forall|j: int| 0 <= j < nodes.len() && j != i ==> #[trigger] r[j] == nodes[j]
            &&& with_node(r, name_index(ids_of(r), id), id, None, None) == r
        }),
{
    let ids = ids_of(nodes);
    let at = name_index(ids, id);
    lemma_name_from(ids, id, 0);
    let r = with_node(nodes, at, id, label, shape);
    lemma_name_from(ids_of(r), id, 0);
    match at {
        Some(i) => {
            assert(ids[i] == id);
            assert(ids.contains(id));
            assert(ids_of(r) =~= ids);
            assert(with_node(r, Some(i), id, None, None) =~= r);
        },
        None => {
            let n = nodes.len() as int;
            assert(!ids.contains(id));
            assert(ids_of(r) =~= ids.push(id));
            assert(ids_of(r)[n] == id);
            match name_index(ids_of(r), id) {
                Some(k) => {
                    if k < n {
                        assert(ids_of(r)[k] == ids[k]);
                    }
                },
                None => {},
            }
            assert(with_node(r, Some(n), id, None, None) =~= r);
        },
    }
}

} // verus!
