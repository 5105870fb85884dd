//! How wide texts are.

use vstd::prelude::*;

use crate::layout::labels::{fence_at, law_plain_line_is_one_run, runs};
use crate::layout::width::{
    advance_of, chars_width, line_width, runs_width, weight, widest_line, width,
};
use crate::text::split_seq;
use crate::text_laws::law_pieces_join_back;

verus! {

proof fn lemma_width_of_both(a: Seq<char>, b: Seq<char>, bold: bool, k: int)
    requires
        0 <= k <= b.len(),
    ensures
        chars_width(a + b, bold, a.len() + k) == chars_width(a, bold, a.len() as int) + chars_width(
            b,
            bold,
            k,
        ),
    decreases k,
{
    if k > 0 {
        lemma_width_of_both(a, b, bold, k - 1);
        assert((a + b)[a.len() + k - 1] == b[k - 1]);
    } else {
        lemma_width_of_front(a, b, bold, a.len() as int);
    }
}

proof fn lemma_width_of_front(a: Seq<char>, b: Seq<char>, bold: bool, k: int)
    requires
        0 <= k <= a.len(),
    ensures
        chars_width(a + b, bold, k) == chars_width(a, bold, k),
    decreases k,
{
    if k > 0 {
        lemma_width_of_front(a, b, bold, k - 1);
        assert((a + b)[k - 1] == a[k - 1]);
    }
}

/// Whether a line styles nothing.
pub open spec fn plain(s: Seq<char>) -> bool {
    !s.contains('<') && !s.contains('$')
}

proof fn lemma_plain_width(s: Seq<char>)
    requires
        plain(s),
    ensures
        line_width(s) == chars_width(s, false, s.len() as int),
{
    assert forall|i: int| 0 <= i < s.len() - 1 implies !fence_at(s, i) by {
        assert(s.contains(s[i]));
    }
    law_plain_line_is_one_run(s);
    let r = runs(s);
    assert(r.len() == 1 && r[0] == (s, false, false));
    assert(runs_width(r, 0) == 0);
}

/// Two plain lines behind each other are as wide as both together, and every
/// character takes some room.
pub proof fn law_widths_add_up(a: Seq<char>, b: Seq<char>)
    requires
        plain(a),
        plain(b),
    ensures
        line_width(a + b) == line_width(a) + line_width(b),
        a.len() > 0 ==> line_width(a) > 0,
{
    assert(plain(a + b)) by {
        assert forall|i: int| 0 <= i < (a + b).len() implies (a + b)[i] != '<' && (a + b)[i] != '$' by {
            if i < a.len() {
                assert(a.contains((a + b)[i]));
            } else {
                assert(b.contains((a + b)[i]));
            }
        }
    }
    lemma_plain_width(a);
    lemma_plain_width(b);
    lemma_plain_width(a + b);
    lemma_width_of_both(a, b, false, b.len() as int);
    if a.len() > 0 {
        let n = a.len() as int;
        assert(advance_of(a[n - 1]) > 0);
        assert(advance_of(a[n - 1]) * weight(false) > 0) by (nonlinear_arith)
            requires
                advance_of(a[n - 1]) > 0,
                weight(false) == 100,
        ;
    }
}

proof fn lemma_widest(lines: Seq<Seq<char>>, k: int)
    requires
        0 < k <= lines.len(),
    ensures
        forall|i: int| 0 <= i < k ==> line_width(#[trigger] lines[i]) <= widest_line(lines, k),
        exists|i: int| 0 <= i < k && line_width(#[trigger] lines[i]) == widest_line(lines, k),
    decreases k,
{
    if k > 1 {
        lemma_widest(lines, k - 1);
        let i = choose|i: int|
            0 <= i < k - 1 && line_width(#[trigger] lines[i]) == widest_line(lines, k - 1);
        if widest_line(lines, k - 1) < line_width(lines[k - 1]) {
            assert(line_width(lines[k - 1]) == widest_line(lines, k));
        } else {
            assert(line_width(lines[i]) == widest_line(lines, k));
        }
    } else {
        assert(widest_line(lines, 0) == 0);
        assert(line_width(lines[0]) == widest_line(lines, 1));
    }
}

/// A text is as wide as the widest of its lines.
pub proof fn law_text_is_as_wide_as_its_widest_line(s: Seq<char>)
    ensures
        ({
            let lines = split_seq(s, '\n');
            &&& forall|i: int| 0 <= i < lines.len() ==> line_width(#[trigger] lines[i]) <= width(s)
            &&& exists|i: int| 0 <= i < lines.len() && line_width(#[trigger] lines[i]) == width(s)
        }),
{
    law_pieces_join_back(s, '\n');
    let lines = split_seq(s, '\n');
    lemma_widest(lines, lines.len() as int);
}

/// Letters take the room that they have in print: the slim ones less than
/// any other letter, and an `m` or a `w` more than any other small letter.
pub proof fn law_slim_letters_are_narrow(c: char)
    requires
        'a' <= c <= 'z',
    ensures
        advance_of('i') <= advance_of(c),
        advance_of('l') <= advance_of(c),
        advance_of(c) <= advance_of('m'),
        c != 'm' ==> advance_of(c) <= advance_of('w'),
{
}

} // verus!
