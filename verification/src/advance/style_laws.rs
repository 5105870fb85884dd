//! Which of several styles a node or an edge gets.

use vstd::prelude::*;

use crate::advance::read_text::{
    class_layers, class_style, edge_layers, edge_style, node_style, style_layers, StylesView,
};
use crate::advance::text_parts::{set_edge_prop, set_node_prop};
use crate::advance::{overlay_edge, EdgeStyleView};
use crate::model::{overlay, NodeStyleView};

verus! {

/// The settings of a node style by their numbers.
pub open spec fn setting(s: NodeStyleView, f: int) -> Option<Seq<char>> {
    if f == 0 {
        s.fill
    } else if f == 1 {
        s.stroke
    } else if f == 2 {
        s.stroke_width
    } else {
        s.color
    }
}

/// The settings of an edge style by their numbers.
pub open spec fn edge_setting(s: EdgeStyleView, f: int) -> Option<Seq<char>> {
    if f == 0 {
        s.color
    } else if f == 1 {
        s.stroke_width
    } else if f == 2 {
        s.dash
    } else {
        s.label_fill
    }
}

proof fn lemma_over(under: NodeStyleView, over: NodeStyleView, f: int)
    ensures
        setting(over, f) is Some ==> setting(overlay(under, over), f) == setting(over, f),
        setting(over, f) is None ==> setting(overlay(under, over), f) == setting(under, f),
{
}

proof fn lemma_edge_over(under: EdgeStyleView, over: EdgeStyleView, f: int)
    ensures
        edge_setting(over, f) is Some ==> edge_setting(overlay_edge(under, over), f)
            == edge_setting(over, f),
        edge_setting(over, f) is None ==> edge_setting(overlay_edge(under, over), f)
            == edge_setting(under, f),
{
}

/// Whether style line `k` sets something of a node.
pub open spec fn line_sets(s: StylesView, id: Seq<char>, k: int, f: int) -> bool {
    s.nodes[k].0 == id && setting(s.nodes[k].1, f) is Some
}

proof fn lemma_lines(s: StylesView, id: Seq<char>, f: int, k: int, n: int)
    requires
        0 <= k <= n <= s.nodes.len(),
        forall|j: int| k <= j < n ==> !#[trigger] line_sets(s, id, j, f),
    ensures
        setting(style_layers(s, id, n), f) == setting(style_layers(s, id, k), f),
    decreases n,
{
    if k < n {
        lemma_lines(s, id, f, k, n - 1);
        assert(!line_sets(s, id, n - 1, f));
        lemma_over(style_layers(s, id, n - 1), s.nodes[n - 1].1, f);
    }
}

/// Of the style lines of a node the last one that sets something gives it
/// its value.
pub proof fn law_last_style_line_wins(s: StylesView, id: Seq<char>, f: int, k: int)
    requires
        0 <= k < s.nodes.len(),
        line_sets(s, id, k, f),
        forall|j: int| k < j < s.nodes.len() ==> !#[trigger] line_sets(s, id, j, f),
    ensures
        setting(node_style(s, id), f) == setting(s.nodes[k].1, f),
{
    lemma_lines(s, id, f, k + 1, s.nodes.len() as int);
    lemma_over(style_layers(s, id, k), s.nodes[k].1, f);
}

/// Whether class assignment `k` sets something of a node: through the last
/// definition of its class.
pub open spec fn class_sets(s: StylesView, id: Seq<char>, k: int, f: int) -> bool {
    s.assigns[k].0 == id && (class_style(s.defs, s.assigns[k].1, s.defs.len() as int) matches Some(st)
        && setting(st, f) is Some)
}

proof fn lemma_classes(s: StylesView, id: Seq<char>, f: int, k: int, n: int)
    requires
        0 <= k <= n <= s.assigns.len(),
        forall|j: int| k <= j < n ==> !#[trigger] class_sets(s, id, j, f),
    ensures
        setting(class_layers(s, id, n), f) == setting(class_layers(s, id, k), f),
    decreases n,
{
    if k < n {
        lemma_classes(s, id, f, k, n - 1);
        assert(!class_sets(s, id, n - 1, f));
        if let Some(st) = class_style(s.defs, s.assigns[n - 1].1, s.defs.len() as int) {
            lemma_over(class_layers(s, id, n - 1), st, f);
        }
    }
}

/// What no style line of a node sets comes from its classes: the one that
/// was assigned last of those that set it. Style lines come before classes,
/// and what neither sets is not set.
pub proof fn law_classes_fill_what_lines_leave(s: StylesView, id: Seq<char>, f: int)
    requires
        forall|j: int| 0 <= j < s.nodes.len() ==> !#[trigger] line_sets(s, id, j, f),
    ensures
        forall|k: int|
            0 <= k < s.assigns.len() && #[trigger] class_sets(s, id, k, f) && (forall|j: int|
                k < j < s.assigns.len() ==> !#[trigger] class_sets(s, id, j, f)) ==> setting(
                node_style(s, id),
                f,
            ) == setting(
                class_style(s.defs, s.assigns[k].1, s.defs.len() as int)->0,
                f,
            ),
        (forall|j: int| 0 <= j < s.assigns.len() ==> !#[trigger] class_sets(s, id, j, f)) ==> setting(
            node_style(s, id),
            f,
        ) is None,
{
    let n = s.assigns.len() as int;
    lemma_lines(s, id, f, 0, s.nodes.len() as int);
    assert forall|k: int|
        0 <= k < n && #[trigger] class_sets(s, id, k, f) && (forall|j: int|
            k < j < n ==> !#[trigger] class_sets(s, id, j, f)) implies setting(
        node_style(s, id),
        f,
    ) == setting(class_style(s.defs, s.assigns[k].1, s.defs.len() as int)->0, f) by {
        lemma_classes(s, id, f, k + 1, n);
        lemma_over(
            class_layers(s, id, k),
            class_style(s.defs, s.assigns[k].1, s.defs.len() as int)->0,
            f,
        );
    }
    if forall|j: int| 0 <= j < n ==> !#[trigger] class_sets(s, id, j, f) {
        lemma_classes(s, id, f, 0, n);
    }
}

/// A class means what its last definition says.
pub proof fn law_last_definition_counts(
    defs: Seq<(Seq<char>, NodeStyleView)>,
    name: Seq<char>,
    n: int,
)
    requires
        0 <= n <= defs.len(),
    ensures
        match class_style(defs, name, n) {
            Some(st) => exists|k: int|
                0 <= k < n && (#[trigger] defs[k]).0 == name && defs[k].1 == st && forall|j: int|
                    k < j < n ==> (#[trigger] defs[j]).0 != name,
            None => forall|k: int| 0 <= k < n ==> (#[trigger] defs[k]).0 != name,
        },
    decreases n,
{
    if n > 0 && defs[n - 1].0 != name {
        law_last_definition_counts(defs, name, n - 1);
        if class_style(defs, name, n - 1) is Some {
            let st = class_style(defs, name, n - 1)->0;
            let k = choose|k: int|
                0 <= k < n - 1 && (#[trigger] defs[k]).0 == name && defs[k].1 == st && forall|j: int|
                    k < j < n - 1 ==> (#[trigger] defs[j]).0 != name;
            assert(defs[k].0 == name && defs[k].1 == st);
            assert forall|j: int| k < j < n implies (#[trigger] defs[j]).0 != name by {}
        }
    } else if n > 0 {
        assert(defs[n - 1].0 == name);
    }
}

/// Whether edge style line `k` sets something of the edges between two
/// nodes.
pub open spec fn edge_line_sets(
    s: StylesView,
    from: Seq<char>,
    to: Seq<char>,
    k: int,
    f: int,
) -> bool {
    s.edges[k].0 == from && s.edges[k].1 == to && edge_setting(s.edges[k].2, f) is Some
}

proof fn lemma_edge_lines(s: StylesView, from: Seq<char>, to: Seq<char>, f: int, k: int, n: int)
    requires
        0 <= k <= n <= s.edges.len(),
        forall|j: int| k <= j < n ==> !#[trigger] edge_line_sets(s, from, to, j, f),
    ensures
        edge_setting(edge_layers(s, from, to, n), f) == edge_setting(
            edge_layers(s, from, to, k),
            f,
        ),
    decreases n,
{
    if k < n {
        lemma_edge_lines(s, from, to, f, k, n - 1);
        assert(!edge_line_sets(s, from, to, n - 1, f));
        lemma_edge_over(edge_layers(s, from, to, n - 1), s.edges[n - 1].2, f);
    }
}

/// Of the style lines of an edge, from its source to its target, the last
/// one that sets something gives it its value; what none sets is not set.
pub proof fn law_last_edge_line_wins(s: StylesView, from: Seq<char>, to: Seq<char>, f: int)
    ensures
        forall|k: int|
            0 <= k < s.edges.len() && #[trigger] edge_line_sets(s, from, to, k, f) && (forall|j: int|
                k < j < s.edges.len() ==> !#[trigger] edge_line_sets(s, from, to, j, f))
                ==> edge_setting(edge_style(s, from, to), f) == edge_setting(s.edges[k].2, f),
        (forall|j: int| 0 <= j < s.edges.len() ==> !#[trigger] edge_line_sets(s, from, to, j, f))
            ==> edge_setting(edge_style(s, from, to), f) is None,
{
    let n = s.edges.len() as int;
    assert forall|k: int|
        0 <= k < n && #[trigger] edge_line_sets(s, from, to, k, f) && (forall|j: int|
            k < j < n ==> !#[trigger] edge_line_sets(s, from, to, j, f)) implies edge_setting(
        edge_style(s, from, to),
        f,
    ) == edge_setting(s.edges[k].2, f) by {
        lemma_edge_lines(s, from, to, f, k + 1, n);
        lemma_edge_over(edge_layers(s, from, to, k), s.edges[k].2, f);
    }
    if forall|j: int| 0 <= j < n ==> !#[trigger] edge_line_sets(s, from, to, j, f) {
        lemma_edge_lines(s, from, to, f, 0, n);
    }
}

/// Whether two node styles agree but in one setting.
pub open spec fn differ_in(a: NodeStyleView, b: NodeStyleView, f: int) -> bool {
    forall|g: int| 0 <= g < 4 && g != f ==> #[trigger] setting(a, g) == setting(b, g)
}

/// Whether two edge styles agree but in one setting.
pub open spec fn edges_differ_in(a: EdgeStyleView, b: EdgeStyleView, f: int) -> bool {
    forall|g: int| 0 <= g < 4 && g != f ==> #[trigger] edge_setting(a, g) == edge_setting(b, g)
}

/// The names of the settings of a node style.
pub open spec fn setting_name(f: int) -> Seq<char> {
    if f == 0 {
        "fill"@
    } else if f == 1 {
        "stroke"@
    } else if f == 2 {
        "stroke-width"@
    } else {
        "color"@
    }
}

/// The names of the settings of an edge style.
pub open spec fn edge_setting_name(f: int) -> Seq<char> {
    if f == 0 {
        "color"@
    } else if f == 1 {
        "stroke-width"@
    } else if f == 2 {
        "dash"@
    } else {
        "label-fill"@
    }
}

/// A property of a node sets the setting of its name, and no other.
pub proof fn law_properties_set_their_settings(st: NodeStyleView, f: int, v: Seq<char>)
    requires
        0 <= f < 4,
    ensures
        match set_node_prop(st, setting_name(f), v) {
            Ok(r) => {
                &&& setting(r, f) is Some
                &&& f != 2 ==> setting(r, f) == Some(v)
                &&& differ_in(st, r, f)
            },
            Err(_) => f == 2,
        },
{
    lemma_names();
}

/// A property of an edge sets the setting of its name, and no other.
pub proof fn law_edge_properties_set_their_settings(st: EdgeStyleView, f: int, v: Seq<char>)
    requires
        0 <= f < 4,
    ensures
        match set_edge_prop(st, edge_setting_name(f), v) {
            Ok(r) => {
                &&& edge_setting(r, f) is Some
                &&& f != 1 ==> edge_setting(r, f) == Some(v)
                &&& edges_differ_in(st, r, f)
            },
            Err(_) => f == 1,
        },
{
    lemma_names();
}

proof fn lemma_names()
    ensures
        "fill"@ != "stroke"@,
        "fill"@ != "color"@,
        "fill"@ != "stroke-width"@,
        "stroke"@ != "color"@,
        "stroke"@ != "stroke-width"@,
        "color"@ != "stroke-width"@,
        "dash"@ != "color"@,
        "dash"@ != "stroke-width"@,
        "label-fill"@ != "color"@,
        "label-fill"@ != "stroke-width"@,
        "label-fill"@ != "dash"@,
{
    reveal_strlit("fill");
    reveal_strlit("stroke");
    reveal_strlit("color");
    reveal_strlit("stroke-width");
    reveal_strlit("dash");
    reveal_strlit("label-fill");
    assert("stroke"@.len() == 6 && "stroke-width"@.len() == 12);
    assert("color"@[0] == 'c');
    assert("stroke-width"@[0] == 's');
    assert("label-fill"@[0] == 'l');
    assert("fill"@.len() == 4 && "fill"@[0] == 'f' && "dash"@[0] == 'd');
}

} // verus!
