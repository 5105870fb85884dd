//! What a drawn journey shows.

use vstd::prelude::*;

use crate::advance::place::lengths::times;
use crate::advance::route::geometry::FAR;
use crate::advance::scene::shown;
use crate::advance::svg_node::circle;
use crate::emit::text_laws::{holds, lemma_holds_last, lemma_holds_more};
use crate::journey::scene::{
    all_tasks, dot_x, filled, flat, is_band, is_item, is_scene, is_task, item_w, lemma_columns,
    JourneyScene, TaskGlyph, COL_MIN, DOT_STEP, FACE_R,
};
use crate::journey::svg::{curvature, eye, face_svg, FACE_STROKE};
use crate::journey::{score_colour, Journey, JourneySection};
use crate::markup::attribute;
use crate::style::TEXT_COLOR;

verus! {

/// The value of a hexadecimal digit.
pub open spec fn hex(c: char) -> int {
    if '0' <= c <= '9' {
        c as int - '0' as int
    } else {
        c as int - 'a' as int + 10
    }
}

/// How much more red than green a colour has.
pub open spec fn redness(colour: Seq<char>) -> int {
    16 * hex(colour[1]) + hex(colour[2]) - 16 * hex(colour[3]) - hex(colour[4])
}

/// Colours lead from red to green: a better score is less red, and whatever
/// is beyond the best looks like the best.
pub proof fn law_better_scores_are_greener(a: u8, b: u8)
    ensures
        1 <= a < b <= 5 ==> redness(score_colour(a)) > redness(score_colour(b)),
        1 <= a <= 2 ==> redness(score_colour(a)) > 0,
        4 <= a ==> redness(score_colour(a)) < 0,
        5 < a ==> score_colour(a) == score_colour(5),
{
    reveal_strlit("#e8574f");
    reveal_strlit("#f0894e");
    reveal_strlit("#f2c94c");
    reveal_strlit("#9fcf6a");
    reveal_strlit("#57b563");
}

/// Tasks stand from left to right in their order, at least a column apart,
/// and all at one height, as long as the drawing stays in range.
pub proof fn law_tasks_stand_in_order(
    s: JourneyScene,
    d: Journey,
    accents: Seq<String>,
    i: int,
    j: int,
)
    requires
        is_scene(s, d, accents),
        0 <= i < j < s.tasks@.len(),
        s.width < FAR,
    ensures
        s.tasks@[i].cx + COL_MIN <= s.tasks@[j].cx,
        s.tasks@[i].cy == s.tasks@[j].cy,
{
    let n = all_tasks(d).len() as int;
    assert(is_task(s.tasks@[i], d, i, accents));
    assert(is_task(s.tasks@[j], d, j, accents));
    lemma_columns(d, i, i + 1);
    lemma_columns(d, i + 1, j);
    lemma_columns(d, j, j + 1);
    lemma_columns(d, j + 1, n);
}

/// How many tasks the first `k` sections have.
pub open spec fn tasks_before(s: Seq<JourneySection>, k: int) -> int
    decreases k,
{
    if k <= 0 {
        0
    } else {
        tasks_before(s, k - 1) + s[k - 1].tasks@.len()
    }
}

proof fn lemma_flat(s: Seq<JourneySection>, k: int, n: int, j: int)
    requires
        0 <= k < n <= s.len(),
        0 <= j < s[k].tasks@.len(),
    ensures
        flat(s, k).len() == tasks_before(s, k),
        tasks_before(s, k) + j < flat(s, n).len(),
        flat(s, n)[tasks_before(s, k) + j] == (k, j),
    decreases n,
{
    lemma_flat_len(s, k);
    lemma_flat_len(s, n - 1);
    if k < n - 1 {
        lemma_flat(s, k, n - 1, j);
    }
}

proof fn lemma_flat_len(s: Seq<JourneySection>, k: int)
    ensures
        flat(s, k).len() == tasks_before(s, k),
    decreases k,
{
    if k > 0 {
        lemma_flat_len(s, k - 1);
    }
}

proof fn lemma_filled(s: Seq<JourneySection>, n: int, k: int)
    requires
        0 <= k < n,
        s[k].tasks@.len() > 0,
    ensures
        filled(s, n).contains(k),
    decreases n,
{
    if k < n - 1 {
        lemma_filled(s, n - 1, k);
        let before = filled(s, n - 1);
        let i = choose|i: int| 0 <= i < before.len() && before[i] == k;
        assert(filled(s, n)[i] == k);
    } else {
        assert(filled(s, n)[filled(s, n).len() - 1] == k);
    }
}

/// Every task of a section is drawn, with its name and its score, after the
/// tasks of the sections before and in the order of its section, and the
/// band of the section lies behind it, as long as the drawing stays in
/// range.
pub proof fn law_tasks_stand_in_their_sections(
    s: JourneyScene,
    d: Journey,
    accents: Seq<String>,
    k: int,
    j: int,
)
    requires
        is_scene(s, d, accents),
        0 <= k < d.sections@.len(),
        0 <= j < d.sections@[k].tasks@.len(),
        s.width < FAR,
    ensures
        ({
            let i = tasks_before(d.sections@, k) + j;
            let own = d.sections@[k].tasks@[j];
            &&& 0 <= i < s.tasks@.len()
            &&& s.tasks@[i].name@ == own.name@
            &&& s.tasks@[i].score == own.score
            &&& s.tasks@[i].dots@.len() == own.actors@.len()
            &&& exists|b: int|
                0 <= b < s.sections@.len() && (#[trigger] s.sections@[b]).name@
                    == d.sections@[k].name@ && s.sections@[b].x <= s.tasks@[i].cx - FACE_R
                    && s.tasks@[i].cx + FACE_R <= s.sections@[b].x + s.sections@[b].w
        }),
{
    let n = d.sections@.len() as int;
    let first = tasks_before(d.sections@, k);
    let i = first + j;
    let count = d.sections@[k].tasks@.len() as int;
    lemma_flat(d.sections@, k, n, j);
    lemma_flat(d.sections@, k, n, count - 1);
    lemma_flat_len(d.sections@, k);
    lemma_before(d.sections@, k);
    assert(all_tasks(d)[i] == (k, j));
    assert(is_task(s.tasks@[i], d, i, accents));
    lemma_filled(d.sections@, n, k);
    let bands = filled(d.sections@, n);
    let b = choose|b: int| 0 <= b < bands.len() && bands[b] == k;
    assert(is_band(s.sections@[b], d, k, accents));
    let last = first + count - 1;
    let total = all_tasks(d).len() as int;
    lemma_columns(d, first, i);
    lemma_columns(d, i, i + 1);
    lemma_columns(d, i + 1, last + 1);
    lemma_columns(d, last + 1, total);
    lemma_columns(d, last, last + 1);
}

proof fn lemma_before(s: Seq<JourneySection>, k: int)
    ensures
        0 <= tasks_before(s, k),
    decreases k,
{
    if k > 0 {
        lemma_before(s, k - 1);
    }
}

proof fn lemma_dots(cx: int, n: int, k: int)
    requires
        0 <= k < n,
        0 <= cx <= FAR / 4,
        n * DOT_STEP <= FAR / 4,
    ensures
        dot_x(cx, n, k) == cx - (n * DOT_STEP - 256000) / 2 + 256000 + k * DOT_STEP,
        0 < n * DOT_STEP,
        k * DOT_STEP + DOT_STEP <= n * DOT_STEP,
    decreases k,
{
    assert(k * DOT_STEP + DOT_STEP <= n * DOT_STEP) by (nonlinear_arith)
        requires
            k + 1 <= n,
            DOT_STEP == 768000,
    ;
    assert(0 < n * DOT_STEP) by (nonlinear_arith)
        requires
            0 < n,
            DOT_STEP == 768000,
    ;
    if k > 0 {
        lemma_dots(cx, n, k - 1);
        assert((k - 1) * DOT_STEP + DOT_STEP == k * DOT_STEP) by (nonlinear_arith);
    } else {
        assert(0 * DOT_STEP == 0);
        assert(times(n, DOT_STEP as int) == n * DOT_STEP);
    }
}

/// The dots of a task stand in the order of its actors, at equal distances,
/// with the face in their middle, as long as they stay in range.
pub proof fn law_dots_are_centred(
    s: JourneyScene,
    d: Journey,
    accents: Seq<String>,
    i: int,
    k: int,
)
    requires
        is_scene(s, d, accents),
        0 <= i < s.tasks@.len(),
        0 <= k < s.tasks@[i].dots@.len(),
        0 <= s.tasks@[i].cx <= FAR / 4,
        s.tasks@[i].dots@.len() * DOT_STEP <= FAR / 4,
    ensures
        ({
            let t = s.tasks@[i];
            let n = t.dots@.len() as int;
            &&& k + 1 < n ==> t.dots@[k + 1].0 == t.dots@[k].0 + DOT_STEP
            &&& t.dots@[k].0 + t.dots@[n - 1 - k].0 == 2 * t.cx
        }),
{
    let t = s.tasks@[i];
    let n = t.dots@.len() as int;
    assert(is_task(t, d, i, accents));
    lemma_dots(t.cx as int, n, k);
    lemma_dots(t.cx as int, n, n - 1 - k);
    if k + 1 < n {
        lemma_dots(t.cx as int, n, k + 1);
        assert((k + 1) * DOT_STEP == k * DOT_STEP + DOT_STEP) by (nonlinear_arith);
    }
    assert((n - 1 - k) * DOT_STEP + k * DOT_STEP + DOT_STEP == n * DOT_STEP) by (nonlinear_arith);
    assert((n * DOT_STEP - 256000) % 2 == 0) by (nonlinear_arith)
        requires
            DOT_STEP == 768000,
    ;
}

/// The path of a mouth from `(x0, m)` over `(x, c)` to `(x1, m)`.
pub open spec fn mouth(x0: int, x: int, x1: int, m: int, c: int) -> Seq<char> {
    "<path d=\"M "@ + shown(x0) + " "@ + shown(m) + " Q "@ + shown(x) + " "@ + shown(c) + " "@
        + shown(x1) + " "@ + shown(m)
}

/// A text with the first `k` pieces behind it.
spec fn chained(s: Seq<char>, pieces: Seq<Seq<char>>, k: int) -> Seq<char>
    decreases k,
{
    if k <= 0 {
        s
    } else {
        chained(s, pieces, k - 1) + pieces[k - 1]
    }
}

proof fn lemma_pieces(a: Seq<char>, b: Seq<char>, pieces: Seq<Seq<char>>, k: int)
    ensures
        chained(a + b, pieces, k) == a + chained(b, pieces, k),
    decreases k,
{
    if k > 0 {
        lemma_pieces(a, b, pieces, k - 1);
        let s = chained(b, pieces, k - 1);
        assert((a + s) + pieces[k - 1] =~= a + (s + pieces[k - 1]));
    }
}

/// Downwards is larger: below its eyes a face has a mouth, that hangs down
/// in the middle, a smile, just where the score is more than three, and is
/// drawn up, a frown, just where it is less.
pub proof fn law_faces_show_their_scores(t: TaskGlyph)
    ensures
        exists|x0: int, x: int, x1: int, m: int, c: int|
            {
                &&& #[trigger] holds(face_svg(t), mouth(x0, x, x1, m, c))
                &&& x == 4 * t.cx && x0 < x && x0 + x1 == 2 * x
                &&& 4 * t.cy < m < 4 * t.cy + 4 * FACE_R
                &&& (c > m) == (t.score > 3)
                &&& (c < m) == (t.score < 3)
            },
{
    let x = 4 * t.cx as int;
    let m = 4 * t.cy + 1351680;
    let c = m + curvature(t.score);
    let w = 2365440int;
    assert(c - m == (t.score - 3) * 1576960);
    let text = mouth(x - w, x, x + w, m, c);
    let all = face_svg(t);
    let head = circle(
        x,
        4 * t.cy as int,
        4 * FACE_R as int,
        attribute("fill"@, t.color@) + attribute(
            "stroke"@,
            FACE_STROKE@,
        ) + " stroke-width=\"1.4\""@,
    ) + eye(x - 1802240, 4 * t.cy as int) + eye(x + 1802240, 4 * t.cy as int);
    let (a, b, e) = (shown(x - w), shown(x), shown(x + w));
    let pieces = seq![a, " "@, shown(m), " Q "@, b, " "@, shown(c), " "@, e, " "@, shown(m)];
    lemma_pieces(head, "<path d=\"M "@, pieces, 11);
    reveal_with_fuel(chained, 12);
    assert(chained("<path d=\"M "@, pieces, 11) == text);
    lemma_holds_last(head, text);
    let (r1, r2, r3) = (
        "\" fill=\"none\""@,
        attribute("stroke"@, TEXT_COLOR@),
        " stroke-width=\"1.6\" stroke-linecap=\"round\"/>\n"@,
    );
    assert(chained(head + "<path d=\"M "@, pieces, 11) + r1 + r2 + r3 == all);
    lemma_holds_more(head + text, r1, text);
    lemma_holds_more(head + text + r1, r2, text);
    lemma_holds_more(head + text + r1 + r2, r3, text);
    assert(holds(face_svg(t), mouth(x - w, x, x + w, m, c)));
}

/// The entries of the legend stand from left to right in the order of the
/// actors, each with the room that it needs, as long as the drawing stays in
/// range.
pub proof fn law_legend_lists_the_actors(
    s: JourneyScene,
    d: Journey,
    accents: Seq<String>,
    k: int,
)
    requires
        is_scene(s, d, accents),
        0 <= k < s.legend@.len(),
        s.width < FAR,
    ensures
        s.legend@[k].name@ == d.actors@[k]@,
        k + 1 < s.legend@.len() && s.legend@[k + 1].x < FAR ==> s.legend@[k].x + item_w(
            d.actors@[k]@,
        ) <= s.legend@[k + 1].x,
{
    assert(is_item(s.legend@[k], d, k, accents));
    if k + 1 < s.legend@.len() {
        assert(is_item(s.legend@[k + 1], d, k + 1, accents));
    }
}

} // verus!
