//! The geometry of a journey.

use vstd::prelude::*;

use crate::advance::place::lengths::{bounded, diff, minus, multiple, plus, sum, times};
use crate::advance::place::measure::{text_px, width_px};
use crate::advance::route::geometry::{greater, half, most, FAR};
use crate::advance::scene::Px;
use crate::journey::{score_color, score_colour, Journey, JourneySection, JourneyTask};
use crate::model::{copy_opt, opt_text};
use crate::style::{accent, accent_of};

verus! {

/// Canvas margin.
pub const PAD: Px = 1536000;

pub const TITLE_H: Px = 2176000;

pub const LEGEND_H: Px = 1920000;

pub const SECTION_H: Px = 1920000;

/// Gap under the sections.
pub const GAP: Px = 896000;

/// Radius of a face.
pub const FACE_R: Px = 1408000;

/// Radius of a dot.
pub const DOT_R: Px = 256000;

/// Distance of the centres of two dots.
pub const DOT_STEP: Px = 768000;

pub const DOTS_H: Px = 1024000;

pub const LABEL_H: Px = 2176000;

/// The least width of a column.
pub const COL_MIN: Px = 6656000;

/// The tasks of the first `k` sections in order: the number of the section,
/// then the number in it.
pub open spec fn flat(s: Seq<JourneySection>, k: int) -> Seq<(int, int)>
    decreases k,
{
    if k <= 0 {
        Seq::empty()
    } else {
        flat(s, k - 1) + Seq::new(s[k - 1].tasks@.len(), |i: int| (k - 1, i))
    }
}

pub open spec fn all_tasks(d: Journey) -> Seq<(int, int)> {
    flat(d.sections@, d.sections@.len() as int)
}

/// Task number `i` of the whole journey.
pub open spec fn task(d: Journey, i: int) -> JourneyTask {
    d.sections@[all_tasks(d)[i].0].tasks@[all_tasks(d)[i].1]
}

pub open spec fn pairs(v: Seq<(usize, usize)>) -> Seq<(int, int)> {
    v.map_values(|p: (usize, usize)| (p.0 as int, p.1 as int))
}

/// Whether `v` lists the tasks of a journey.
pub open spec fn lists(v: Seq<(usize, usize)>, d: Journey) -> bool {
    &&& pairs(v) == all_tasks(d)
    &&& forall|i: int|
        0 <= i < v.len() ==> (#[trigger] v[i]).0 < d.sections@.len() && v[i].1
            < d.sections@[v[i].0 as int].tasks@.len()
}

fn list_tasks(d: &Journey) -> (r: Vec<(usize, usize)>)
    ensures
        lists(r@, *d),
{
    let mut r: Vec<(usize, usize)> = Vec::new();
    let mut k: usize = 0;
    assert(pairs(r@) =~= flat(d.sections@, 0));
    while k < d.sections.len()
        invariant
            k <= d.sections@.len(),
            pairs(r@) == flat(d.sections@, k as int),
            forall|i: int|
                0 <= i < r@.len() ==> (#[trigger] r@[i]).0 < d.sections@.len() && r@[i].1
                    < d.sections@[r@[i].0 as int].tasks@.len(),
        decreases d.sections@.len() - k,
    {
        let ghost before = pairs(r@);
        let n: usize = d.sections[k].tasks.len();
        let mut j: usize = 0;
        assert(pairs(r@) =~= before + Seq::new(0, |i: int| (k as int, i)));
        while j < n
            invariant
                j <= n,
                k < d.sections@.len(),
                n == d.sections@[k as int].tasks@.len(),
                pairs(r@) == before + Seq::new(j as nat, |i: int| (k as int, i)),
                forall|i: int|
                    0 <= i < r@.len() ==> (#[trigger] r@[i]).0 < d.sections@.len() && r@[i].1
                        < d.sections@[r@[i].0 as int].tasks@.len(),
            decreases n - j,
        {
            let ghost sofar = pairs(r@);
            r.push((k, j));
            assert(pairs(r@) =~= sofar.push((k as int, j as int)));
            j += 1;
            assert(pairs(r@) =~= before + Seq::new(j as nat, |i: int| (k as int, i)));
        }
        assert(flat(d.sections@, k + 1) =~= before + Seq::new(n as nat, |i: int| (k as int, i)));
        k += 1;
    }
    r
}

/// The width of the column of a task.
pub open spec fn column_w(d: Journey, i: int) -> int {
    most(plus(text_px(task(d, i).name@), 1280000), COL_MIN as int)
}

/// The left side of column `i`.
pub open spec fn column_x(d: Journey, i: int) -> int
    decreases i,
{
    if i <= 0 {
        PAD as int
    } else {
        plus(column_x(d, i - 1), column_w(d, i - 1))
    }
}

/// The width of a legend entry.
pub open spec fn item_w(name: Seq<char>) -> int {
    plus(text_px(name), 2176000)
}

fn width_of_item(name: &str) -> (r: Px)
    ensures
        r == item_w(name@),
        bounded(r as int),
{
    sum(width_px(name), 2176000)
}

/// The width of the first `k` legend entries.
pub open spec fn items_w(actors: Seq<String>, k: int) -> int
    decreases k,
{
    if k <= 0 {
        0
    } else {
        plus(items_w(actors, k - 1), item_w(actors[k - 1]@))
    }
}

/// The width of the canvas: room for the tasks, the title and the legend.
pub open spec fn canvas_w(d: Journey) -> int {
    let n = all_tasks(d).len() as int;
    let tasks = if n == 0 {
        2 * PAD + COL_MIN
    } else {
        plus(column_x(d, n), PAD as int)
    };
    let title = match d.title {
        Some(t) => plus(text_px(t@), 2 * PAD),
        None => 0,
    };
    let legend = if d.actors@.len() > 0 {
        plus(items_w(d.actors@, d.actors@.len() as int), 2 * PAD)
    } else {
        0
    };
    most(most(tasks, title), legend)
}

/// The top of the sections, below title and legend.
pub open spec fn sections_y(d: Journey) -> int {
    PAD + (if d.title is Some {
        TITLE_H as int
    } else {
        0
    }) + (if d.actors@.len() > 0 {
        LEGEND_H as int
    } else {
        0
    })
}

/// The centre of the faces.
pub open spec fn face_y(d: Journey) -> int {
    sections_y(d) + SECTION_H + GAP + DOTS_H + FACE_R
}

/// A section behind its tasks.
#[derive(Debug)]
pub struct SectionBand {
    pub x: Px,
    pub y: Px,
    pub w: Px,
    pub name: String,
    pub color: String,
}

/// A task in its place.
#[derive(Debug)]
pub struct TaskGlyph {
    pub cx: Px,
    pub cy: Px,
    pub score: u8,
    pub color: &'static str,
    pub name: String,
    /// Where its actors' dots are, and their colours.
    pub dots: Vec<(Px, String)>,
}

/// An entry of the legend; `x` is its left side.
#[derive(Debug)]
pub struct LegendItem {
    pub x: Px,
    pub y: Px,
    pub name: String,
    pub color: String,
}

/// Everything that is drawn of a journey.
#[derive(Debug)]
pub struct JourneyScene {
    pub width: Px,
    pub height: Px,
    pub title: Option<String>,
    pub sections: Vec<SectionBand>,
    pub tasks: Vec<TaskGlyph>,
    pub legend: Vec<LegendItem>,
    /// The height of the dots.
    pub dots_y: Px,
}

/// The sections with tasks among the first `k`.
pub open spec fn filled(s: Seq<JourneySection>, k: int) -> Seq<int>
    decreases k,
{
    if k <= 0 {
        Seq::empty()
    } else if s[k - 1].tasks@.len() > 0 {
        filled(s, k - 1).push(k - 1)
    } else {
        filled(s, k - 1)
    }
}

/// Whether `b` is section `k`, across the columns of its tasks.
pub open spec fn is_band(b: SectionBand, d: Journey, k: int, accents: Seq<String>) -> bool {
    let first = flat(d.sections@, k).len() as int;
    let last = first + d.sections@[k].tasks@.len() - 1;
    &&& b.x == column_x(d, first)
    &&& b.w == minus(plus(column_x(d, last), column_w(d, last)), column_x(d, first))
    &&& b.y == sections_y(d)
    &&& b.name@ == d.sections@[k].name@
    &&& b.color@ == accent_of(accents, k)
}

/// The centre of task `i`.
pub open spec fn centre_x(d: Journey, i: int) -> int {
    plus(column_x(d, i), column_w(d, i) / 2)
}

/// Where dot `k` of `n` is, for a task at `cx`: dots are centred.
pub open spec fn dot_x(cx: int, n: int, k: int) -> int
    decreases k,
{
    if k <= 0 {
        plus(minus(cx, minus(times(n, DOT_STEP as int), 256000) / 2), DOT_R as int)
    } else {
        plus(dot_x(cx, n, k - 1), DOT_STEP as int)
    }
}

/// Whether `t` is task `i` in its place.
pub open spec fn is_task(t: TaskGlyph, d: Journey, i: int, accents: Seq<String>) -> bool {
    let own = task(d, i);
    &&& t.cx == centre_x(d, i)
    &&& t.cy == face_y(d)
    &&& t.score == own.score
    &&& t.color@ == score_colour(own.score)
    &&& t.name@ == own.name@
    &&& t.dots@.len() == own.actors@.len()
    &&& forall|k: int|
        0 <= k < t.dots@.len() ==> (#[trigger] t.dots@[k]).0 == dot_x(
            centre_x(d, i),
            own.actors@.len() as int,
            k,
        ) && t.dots@[k].1@ == accent_of(accents, own.actors@[k] as int)
}

/// The left side of legend entry `k`: entries are centred.
pub open spec fn item_x(d: Journey, k: int) -> int
    decreases k,
{
    if k <= 0 {
        minus(canvas_w(d), items_w(d.actors@, d.actors@.len() as int)) / 2
    } else {
        plus(item_x(d, k - 1), item_w(d.actors@[k - 1]@))
    }
}

/// The height of the legend.
pub open spec fn legend_y(d: Journey) -> int {
    PAD + (if d.title is Some {
        TITLE_H as int
    } else {
        0
    }) + LEGEND_H / 2
}

/// Whether `l` is actor `k` in the legend.
pub open spec fn is_item(l: LegendItem, d: Journey, k: int, accents: Seq<String>) -> bool {
    &&& l.x == item_x(d, k)
    &&& l.y == legend_y(d)
    &&& l.name@ == d.actors@[k]@
    &&& l.color@ == accent_of(accents, k)
}

/// Whether `s` is what is drawn of a journey.
pub open spec fn is_scene(s: JourneyScene, d: Journey, accents: Seq<String>) -> bool {
    let bands = filled(d.sections@, d.sections@.len() as int);
    &&& s.width == canvas_w(d)
    &&& s.height == face_y(d) + FACE_R + LABEL_H + PAD
    &&& opt_text(s.title) == opt_text(d.title)
    &&& s.dots_y == sections_y(d) + SECTION_H + GAP + DOTS_H / 2
    &&& s.sections@.len() == bands.len()
    &&& forall|i: int|
        0 <= i < s.sections@.len() ==> is_band(#[trigger] s.sections@[i], d, bands[i], accents)
    &&& s.tasks@.len() == all_tasks(d).len()
    &&& forall|i: int|
        0 <= i < s.tasks@.len() ==> is_task(#[trigger] s.tasks@[i], d, i, accents)
    &&& s.legend@.len() == d.actors@.len()
    &&& forall|i: int|
        0 <= i < s.legend@.len() ==> is_item(#[trigger] s.legend@[i], d, i, accents)
}

/// The columns of a journey: left sides and widths.
fn columns(d: &Journey, list: &Vec<(usize, usize)>) -> (r: Vec<(Px, Px)>)
    requires
        lists(list@, *d),
    ensures
        r@.len() == list@.len(),
        forall|i: int|
            0 <= i < r@.len() ==> (#[trigger] r@[i]).0 == column_x(*d, i) && r@[i].1 == column_w(
                *d,
                i,
            ) && bounded(r@[i].0 as int) && bounded(r@[i].1 as int),
{
    let mut r: Vec<(Px, Px)> = Vec::new();
    let mut x: Px = PAD;
    let mut i: usize = 0;
    while i < list.len()
        invariant
            i <= list@.len(),
            lists(list@, *d),
            bounded(x as int),
            x == column_x(*d, i as int),
            r@.len() == i,
            forall|k: int|
                0 <= k < i ==> (#[trigger] r@[k]).0 == column_x(*d, k) && r@[k].1 == column_w(*d, k)
                    && bounded(r@[k].0 as int) && bounded(r@[k].1 as int),
        decreases list@.len() - i,
    {
        let (s, j) = list[i];
        proof {
            assert(pairs(list@)[i as int] == (s as int, j as int));
            assert(list@[i as int].0 < d.sections@.len());
        }
        let name = &d.sections[s].tasks[j].name;
        let w: Px = greater(sum(width_px(name.as_str()), 1280000), COL_MIN);
        r.push((x, w));
        x = sum(x, w);
        i += 1;
    }
    r
}

fn total_items(actors: &Vec<String>) -> (r: Px)
    ensures
        r == items_w(actors@, actors@.len() as int),
        bounded(r as int),
{
    let mut w: Px = 0;
    let mut i: usize = 0;
    while i < actors.len()
        invariant
            i <= actors@.len(),
            bounded(w as int),
            w == items_w(actors@, i as int),
        decreases actors@.len() - i,
    {
        w = sum(w, width_of_item(actors[i].as_str()));
        i += 1;
    }
    w
}

fn width_of(d: &Journey, cols: &Vec<(Px, Px)>, items: Px) -> (r: Px)
    requires
        cols@.len() == all_tasks(*d).len(),
        forall|i: int|
            0 <= i < cols@.len() ==> (#[trigger] cols@[i]).0 == column_x(*d, i) && cols@[i].1
                == column_w(*d, i) && bounded(cols@[i].0 as int) && bounded(cols@[i].1 as int),
        items == items_w(d.actors@, d.actors@.len() as int),
        bounded(items as int),
    ensures
        r == canvas_w(*d),
        bounded(r as int),
{
    let n: usize = cols.len();
    let tasks: Px = if n == 0 {
        2 * PAD + COL_MIN
    } else {
        assert(cols@[n - 1].0 == column_x(*d, n - 1));
        sum(sum(cols[n - 1].0, cols[n - 1].1), PAD)
    };
    let title: Px = match &d.title {
        Some(t) => sum(width_px(t.as_str()), 2 * PAD),
        None => 0,
    };
    let legend: Px = if d.actors.len() > 0 {
        sum(items, 2 * PAD)
    } else {
        0
    };
    greater(greater(tasks, title), legend)
}

fn sections_top(d: &Journey) -> (r: Px)
    ensures
        r == sections_y(*d),
        PAD <= r <= PAD + TITLE_H + LEGEND_H,
{
    let a: Px = if d.title.is_some() {
        TITLE_H
    } else {
        0
    };
    let b: Px = if d.actors.len() > 0 {
        LEGEND_H
    } else {
        0
    };
    PAD + a + b
}

fn bands(d: &Journey, cols: &Vec<(Px, Px)>, accents: &Vec<String>) -> (r: Vec<SectionBand>)
    requires
        accents@.len() > 0,
        cols@.len() == all_tasks(*d).len(),
        forall|i: int|
            0 <= i < cols@.len() ==> (#[trigger] cols@[i]).0 == column_x(*d, i) && cols@[i].1
                == column_w(*d, i) && bounded(cols@[i].0 as int) && bounded(cols@[i].1 as int),
    ensures
        r@.len() == filled(d.sections@, d.sections@.len() as int).len(),
        forall|i: int|
            0 <= i < r@.len() ==> is_band(
                #[trigger] r@[i],
                *d,
                filled(d.sections@, d.sections@.len() as int)[i],
                accents@,
            ),
{
    let y: Px = sections_top(d);
    let total: usize = cols.len();
    let mut r: Vec<SectionBand> = Vec::new();
    let mut first: usize = 0;
    let mut k: usize = 0;
    while k < d.sections.len()
        invariant
            k <= d.sections@.len(),
            accents@.len() > 0,
            y == sections_y(*d),
            total == cols@.len(),
            first == flat(d.sections@, k as int).len(),
            cols@.len() == all_tasks(*d).len(),
            forall|i: int|
                0 <= i < cols@.len() ==> (#[trigger] cols@[i]).0 == column_x(*d, i) && cols@[i].1
                    == column_w(*d, i) && bounded(cols@[i].0 as int) && bounded(cols@[i].1 as int),
            r@.len() == filled(d.sections@, k as int).len(),
            forall|i: int|
                0 <= i < r@.len() ==> is_band(
                    #[trigger] r@[i],
                    *d,
                    filled(d.sections@, k as int)[i],
                    accents@,
                ),
        decreases d.sections@.len() - k,
    {
        let s = &d.sections[k];
        let n: usize = s.tasks.len();
        proof {
            lemma_flat_grows(d.sections@, k + 1, d.sections@.len() as int);
            assert(flat(d.sections@, k + 1).len() == first + n);
            assert(first + n <= total);
        }
        let ghost before = filled(d.sections@, k as int);
        let ghost old_r = r@;
        if n > 0 {
            let last: usize = first + (n - 1);
            assert(cols@[first as int].0 == column_x(*d, first as int));
            assert(cols@[last as int].0 == column_x(*d, last as int));
            let x: Px = cols[first].0;
            let w: Px = diff(sum(cols[last].0, cols[last].1), x);
            r.push(SectionBand { x, y, w, name: s.name.clone(), color: accent(accents, k) });
        }
        proof {
            let after = filled(d.sections@, k + 1);
            assert forall|i: int| 0 <= i < r@.len() implies is_band(
                #[trigger] r@[i],
                *d,
                after[i],
                accents@,
            ) by {
                if i < old_r.len() {
                    assert(r@[i] == old_r[i]);
                    assert(after[i] == before[i]);
                }
            }
        }
        first += n;
        k += 1;
    }
    r
}

proof fn lemma_flat_grows(s: Seq<JourneySection>, a: int, b: int)
    requires
        0 <= a <= b,
    ensures
        flat(s, a).len() <= flat(s, b).len(),
    decreases b,
{
    if a < b {
        lemma_flat_grows(s, a, b - 1);
    }
}

fn dots(actors: &Vec<usize>, cx: Px, accents: &Vec<String>) -> (r: Vec<(Px, String)>)
    requires
        accents@.len() > 0,
        bounded(cx as int),
    ensures
        r@.len() == actors@.len(),
        forall|k: int|
            0 <= k < r@.len() ==> (#[trigger] r@[k]).0 == dot_x(
                cx as int,
                actors@.len() as int,
                k,
            ) && r@[k].1@ == accent_of(accents@, actors@[k] as int),
{
    let n: usize = actors.len();
    let mut x: Px = sum(diff(cx, half(diff(multiple(n, DOT_STEP), 256000))), DOT_R);
    let mut r: Vec<(Px, String)> = Vec::new();
    let mut k: usize = 0;
    while k < n
        invariant
            k <= n,
            n == actors@.len(),
            accents@.len() > 0,
            bounded(x as int),
            x == dot_x(cx as int, n as int, k as int),
            r@.len() == k,
            forall|i: int|
                0 <= i < k ==> (#[trigger] r@[i]).0 == dot_x(cx as int, n as int, i) && r@[i].1@
                    == accent_of(accents@, actors@[i] as int),
        decreases n - k,
    {
        r.push((x, accent(accents, actors[k])));
        x = sum(x, DOT_STEP);
        k += 1;
    }
    r
}

pub proof fn lemma_columns(d: Journey, i: int, j: int)
    requires
        0 <= i <= j,
    ensures
        PAD <= column_x(d, i) <= column_x(d, j),
    decreases j,
{
    if j > i {
        lemma_columns(d, i, j - 1);
    } else if i > 0 {
        lemma_columns(d, i - 1, i - 1);
    }
}

/// Every face of a drawn journey keeps the margin to the left and the right
/// side of the canvas, and has room for its label below, as long as the
/// drawing stays in range.
pub proof fn law_faces_stay_inside(s: JourneyScene, d: Journey, accents: Seq<String>, i: int)
    requires
        is_scene(s, d, accents),
        0 <= i < s.tasks@.len(),
        s.width < FAR,
    ensures
        PAD <= s.tasks@[i].cx - FACE_R,
        s.tasks@[i].cx + FACE_R + PAD <= s.width,
        s.tasks@[i].cy + FACE_R + LABEL_H + PAD <= s.height,
{
    let n = all_tasks(d).len() as int;
    assert(is_task(s.tasks@[i], d, i, accents));
    lemma_columns(d, i, i + 1);
    lemma_columns(d, i + 1, n);
}

/// Compute everything that is drawn of a journey.
pub fn scene(d: &Journey, accents: &Vec<String>) -> (r: JourneyScene)
    requires
        accents@.len() > 0,
    ensures
        is_scene(r, *d, accents@),
{
    let list = list_tasks(d);
    let cols = columns(d, &list);
    assert(pairs(list@).len() == list@.len());
    let items: Px = total_items(&d.actors);
    let width: Px = width_of(d, &cols, items);
    let top: Px = sections_top(d);
    let cy: Px = top + SECTION_H + GAP + DOTS_H + FACE_R;
    let sections = bands(d, &cols, accents);
    let mut tasks: Vec<TaskGlyph> = Vec::new();
    let mut i: usize = 0;
    while i < list.len()
        invariant
            i <= list@.len(),
            lists(list@, *d),
            accents@.len() > 0,
            cols@.len() == list@.len(),
            forall|k: int|
                0 <= k < cols@.len() ==> (#[trigger] cols@[k]).0 == column_x(*d, k) && cols@[k].1
                    == column_w(*d, k) && bounded(cols@[k].0 as int) && bounded(cols@[k].1 as int),
            cy == face_y(*d),
            tasks@.len() == i,
            forall|k: int| 0 <= k < i ==> is_task(#[trigger] tasks@[k], *d, k, accents@),
        decreases list@.len() - i,
    {
        let (s, j) = list[i];
        proof {
            assert(pairs(list@)[i as int] == (s as int, j as int));
            assert(list@[i as int].0 < d.sections@.len());
            assert(cols@[i as int].0 == column_x(*d, i as int));
        }
        let t = &d.sections[s].tasks[j];
        let cx: Px = sum(cols[i].0, half(cols[i].1));
        tasks.push(
            TaskGlyph {
                cx,
                cy,
                score: t.score,
                color: score_color(t.score),
                name: t.name.clone(),
                dots: dots(&t.actors, cx, accents),
            },
        );
        i += 1;
    }
    let ly: Px = PAD + (if d.title.is_some() {
        TITLE_H
    } else {
        0
    }) + LEGEND_H / 2;
    let mut legend: Vec<LegendItem> = Vec::new();
    let mut lx: Px = half(diff(width, items));
    let mut a: usize = 0;
    while a < d.actors.len()
        invariant
            a <= d.actors@.len(),
            accents@.len() > 0,
            bounded(lx as int),
            lx == item_x(*d, a as int),
            ly == legend_y(*d),
            legend@.len() == a,
            forall|k: int| 0 <= k < a ==> is_item(#[trigger] legend@[k], *d, k, accents@),
        decreases d.actors@.len() - a,
    {
        let name = &d.actors[a];
        legend.push(LegendItem { x: lx, y: ly, name: name.clone(), color: accent(accents, a) });
        lx = sum(lx, width_of_item(name.as_str()));
        a += 1;
    }
    JourneyScene {
        width,
        height: cy + FACE_R + LABEL_H + PAD,
        title: copy_opt(&d.title),
        sections,
        tasks,
        legend,
        dots_y: top + SECTION_H + GAP + DOTS_H / 2,
    }
}

} // verus!
