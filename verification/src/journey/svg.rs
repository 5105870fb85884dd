//! Journeys as SVG.

use vstd::prelude::*;

use crate::advance::scene::{in_range, show, shown, Px};
use crate::advance::svg::{opening, svg_open, SvgOptions};
use crate::advance::svg_node::{circle, circle_tag, length, length_attr, rect, rect_tag};
use crate::journey::scene::{
    JourneyScene, LegendItem, SectionBand, TaskGlyph, DOT_R, FACE_R, PAD, SECTION_H, TITLE_H,
};
use crate::markup::{attr, attribute, escape, escaped};
use crate::style::TEXT_COLOR;

verus! {

/// The line behind the faces.
pub const PATH_COLOR: &'static str = "#c2c8dc";

/// The outline of a face.
pub const FACE_STROKE: &'static str = "#2f3550";

/// A text whose place is given in quarter units.
pub open spec fn text(x: int, y: int, more: Seq<char>, fill: Seq<char>, s: Seq<char>) -> Seq<char> {
    "<text"@ + length("x"@, x) + length("y"@, y) + " dy=\"0.33em\""@ + more + attribute(
        "fill"@,
        fill,
    ) + ">"@ + escaped(s) + "</text>\n"@
}

pub fn write_text(x: i128, y: i128, more: &str, fill: &str, t: &str) -> (r: String)
    requires
        in_range(x as int),
        in_range(y as int),
    ensures
        r@ == text(x as int, y as int, more@, fill@, t@),
{
    let mut s = "<text".to_owned();
    s.append(length_attr("x", x).as_str());
    s.append(length_attr("y", y).as_str());
    s.append(" dy=\"0.33em\"");
    s.append(more);
    s.append(attr("fill", fill).as_str());
    s.append(">");
    s.append(escape(t).as_str());
    s.append("</text>\n");
    s
}

/// A section, with its name where it has one.
pub open spec fn band_svg(b: SectionBand) -> Seq<char> {
    rect(
        4 * b.x,
        4 * b.y,
        4 * b.w,
        4 * SECTION_H,
        " rx=\"6\""@ + attribute("fill"@, escaped(b.color@)),
    ) + (if b.name@.len() == 0 {
        ""@
    } else {
        text(
            4 * b.x + 2 * b.w,
            4 * b.y + 2 * SECTION_H,
            " text-anchor=\"middle\" font-weight=\"bold\""@,
            "#ffffff"@,
            b.name@,
        )
    })
}

fn write_band(b: &SectionBand) -> (r: String)
    ensures
        r@ == band_svg(*b),
{
    let x: i128 = b.x as i128;
    let y: i128 = b.y as i128;
    let w: i128 = b.w as i128;
    let h: i128 = SECTION_H as i128;
    let mut more = " rx=\"6\"".to_owned();
    more.append(attr("fill", escape(b.color.as_str()).as_str()).as_str());
    let mut s = rect_tag(4 * x, 4 * y, 4 * w, 4 * h, more.as_str());
    let name = if crate::text::chars_of(b.name.as_str()).len() == 0 {
        "".to_owned()
    } else {
        write_text(
            4 * x + 2 * w,
            4 * y + 2 * h,
            " text-anchor=\"middle\" font-weight=\"bold\"",
            "#ffffff",
            b.name.as_str(),
        )
    };
    s.append(name.as_str());
    s
}

/// The first `k` sections.
pub open spec fn bands_svg(b: Seq<SectionBand>, k: int) -> Seq<char>
    decreases k,
{
    if k <= 0 {
        ""@
    } else {
        bands_svg(b, k - 1) + band_svg(b[k - 1])
    }
}

fn write_bands(b: &Vec<SectionBand>) -> (r: String)
    ensures
        r@ == bands_svg(b@, b@.len() as int),
{
    let mut s = "".to_owned();
    let mut i: usize = 0;
    while i < b.len()
        invariant
            i <= b@.len(),
            s@ == bands_svg(b@, i as int),
        decreases b@.len() - i,
    {
        s.append(write_band(&b[i]).as_str());
        i += 1;
    }
    s
}

/// The centres of the first `k` faces.
pub open spec fn centres(t: Seq<TaskGlyph>, k: int) -> Seq<char>
    decreases k,
{
    if k <= 0 {
        ""@
    } else {
        centres(t, k - 1) + (if k > 1 {
            " "@
        } else {
            ""@
        }) + shown(4 * t[k - 1].cx) + ","@ + shown(4 * t[k - 1].cy)
    }
}

/// The line through the faces, where there are two or more.
pub open spec fn path_svg(t: Seq<TaskGlyph>) -> Seq<char> {
    if t.len() < 2 {
        ""@
    } else {
        "<polyline"@ + attribute("points"@, centres(t, t.len() as int)) + " fill=\"none\""@
            + attribute("stroke"@, PATH_COLOR@) + " stroke-width=\"2\"/>\n"@
    }
}

fn write_path(t: &Vec<TaskGlyph>) -> (r: String)
    ensures
        r@ == path_svg(t@),
{
    if t.len() < 2 {
        return "".to_owned();
    }
    let mut p = "".to_owned();
    let mut i: usize = 0;
    while i < t.len()
        invariant
            i <= t@.len(),
            p@ == centres(t@, i as int),
        decreases t@.len() - i,
    {
        p.append(
            if i > 0 {
                " "
            } else {
                ""
            },
        );
        p.append(show(4 * (t[i].cx as i128)).as_str());
        p.append(",");
        p.append(show(4 * (t[i].cy as i128)).as_str());
        i += 1;
    }
    let mut s = "<polyline".to_owned();
    s.append(attr("points", p.as_str()).as_str());
    s.append(" fill=\"none\"");
    s.append(attr("stroke", PATH_COLOR).as_str());
    s.append(" stroke-width=\"2\"/>\n");
    s
}

/// How far the mouth of a face curves, in quarter units: it frowns below
/// three and smiles above.
pub open spec fn curvature(score: u8) -> int {
    (score - 3) * 1576960
}

/// An eye.
pub open spec fn eye(x: int, y: int) -> Seq<char> {
    circle(x, y - 1013760, 563200, attribute("fill"@, TEXT_COLOR@))
}

fn write_eye(x: i128, y: i128) -> (r: String)
    requires
        -0x100_0000_0000_0000_0000 <= x <= 0x100_0000_0000_0000_0000,
        -0x100_0000_0000_0000_0000 <= y <= 0x100_0000_0000_0000_0000,
    ensures
        r@ == eye(x as int, y as int),
{
    circle_tag(x, y - 1013760, 563200, attr("fill", TEXT_COLOR).as_str())
}

/// A face: a disc, two eyes, and a mouth.
pub open spec fn face_svg(t: TaskGlyph) -> Seq<char> {
    let x = 4 * t.cx;
    let y = 4 * t.cy;
    let m = y + 1351680;
    circle(
        x,
        y,
        4 * FACE_R,
        attribute("fill"@, t.color@) + attribute("stroke"@, FACE_STROKE@)
            + " stroke-width=\"1.4\""@,
    ) + eye(x - 1802240, y) + eye(x + 1802240, y) + "<path d=\"M "@ + shown(x - 2365440) + " "@
        + shown(m) + " Q "@ + shown(x) + " "@ + shown(m + curvature(t.score)) + " "@ + shown(
        x + 2365440,
    ) + " "@ + shown(m) + "\" fill=\"none\""@ + attribute("stroke"@, TEXT_COLOR@)
        + " stroke-width=\"1.6\" stroke-linecap=\"round\"/>\n"@
}

fn write_face(t: &TaskGlyph) -> (r: String)
    ensures
        r@ == face_svg(*t),
{
    let x: i128 = 4 * (t.cx as i128);
    let y: i128 = 4 * (t.cy as i128);
    let m: i128 = y + 1351680;
    let mut more = attr("fill", t.color);
    more.append(attr("stroke", FACE_STROKE).as_str());
    more.append(" stroke-width=\"1.4\"");
    let mut s = circle_tag(x, y, 4 * (FACE_R as i128), more.as_str());
    s.append(write_eye(x - 1802240, y).as_str());
    s.append(write_eye(x + 1802240, y).as_str());
    let bend: i128 = (t.score as i128 - 3) * 1576960;
    s.append("<path d=\"M ");
    s.append(show(x - 2365440).as_str());
    s.append(" ");
    s.append(show(m).as_str());
    s.append(" Q ");
    s.append(show(x).as_str());
    s.append(" ");
    s.append(show(m + bend).as_str());
    s.append(" ");
    s.append(show(x + 2365440).as_str());
    s.append(" ");
    s.append(show(m).as_str());
    s.append("\" fill=\"none\"");
    s.append(attr("stroke", TEXT_COLOR).as_str());
    s.append(" stroke-width=\"1.6\" stroke-linecap=\"round\"/>\n");
    s
}

/// The first `k` dots of a task.
pub open spec fn dots_svg(d: Seq<(Px, String)>, y: int, k: int) -> Seq<char>
    decreases k,
{
    if k <= 0 {
        ""@
    } else {
        dots_svg(d, y, k - 1) + circle(
            4 * d[k - 1].0,
            4 * y,
            4 * DOT_R,
            attribute("fill"@, escaped(d[k - 1].1@)),
        )
    }
}

fn write_dots(d: &Vec<(Px, String)>, y: Px) -> (r: String)
    ensures
        r@ == dots_svg(d@, y as int, d@.len() as int),
{
    let mut s = "".to_owned();
    let mut i: usize = 0;
    while i < d.len()
        invariant
            i <= d@.len(),
            s@ == dots_svg(d@, y as int, i as int),
        decreases d@.len() - i,
    {
        let dot = &d[i];
        let fill = attr("fill", escape(dot.1.as_str()).as_str());
        let c = circle_tag(
            4 * (dot.0 as i128),
            4 * (y as i128),
            4 * (DOT_R as i128),
            fill.as_str(),
        );
        s.append(c.as_str());
        i += 1;
    }
    s
}

/// A task: its dots, its face, and its name below.
#[verifier::opaque]
pub open spec fn task_svg(t: TaskGlyph, dots_y: int) -> Seq<char> {
    dots_svg(t.dots@, dots_y, t.dots@.len() as int) + face_svg(t) + text(
        4 * t.cx,
        4 * (t.cy + FACE_R + 896000),
        " text-anchor=\"middle\""@,
        TEXT_COLOR@,
        t.name@,
    )
}

fn write_task(t: &TaskGlyph, dots_y: Px) -> (r: String)
    ensures
        r@ == task_svg(*t, dots_y as int),
{
    proof {
        reveal(task_svg);
    }
    let mut s = write_dots(&t.dots, dots_y);
    s.append(write_face(t).as_str());
    let y: i128 = t.cy as i128 + FACE_R as i128 + 896000;
    let name = write_text(
        4 * (t.cx as i128),
        4 * y,
        " text-anchor=\"middle\"",
        TEXT_COLOR,
        t.name.as_str(),
    );
    s.append(name.as_str());
    s
}

/// The first `k` tasks.
pub open spec fn tasks_svg(t: Seq<TaskGlyph>, dots_y: int, k: int) -> Seq<char>
    decreases k,
{
    if k <= 0 {
        ""@
    } else {
        tasks_svg(t, dots_y, k - 1) + task_svg(t[k - 1], dots_y)
    }
}

fn write_tasks(t: &Vec<TaskGlyph>, dots_y: Px) -> (r: String)
    ensures
        r@ == tasks_svg(t@, dots_y as int, t@.len() as int),
{
    let mut s = "".to_owned();
    let mut i: usize = 0;
    while i < t.len()
        invariant
            i <= t@.len(),
            s@ == tasks_svg(t@, dots_y as int, i as int),
        decreases t@.len() - i,
    {
        s.append(write_task(&t[i], dots_y).as_str());
        i += 1;
    }
    s
}

/// An entry of the legend.
pub open spec fn item_svg(l: LegendItem) -> Seq<char> {
    "<circle"@ + length("cx"@, 4 * (l.x + 384000)) + length("cy"@, 4 * l.y) + " r=\"6\""@
        + attribute("fill"@, escaped(l.color@)) + "/>\n"@ + text(
        4 * (l.x + 1024000),
        4 * l.y,
        ""@,
        TEXT_COLOR@,
        l.name@,
    )
}

fn write_item(l: &LegendItem) -> (r: String)
    ensures
        r@ == item_svg(*l),
{
    let x: i128 = l.x as i128;
    let y: i128 = l.y as i128;
    let mut s = "<circle".to_owned();
    s.append(length_attr("cx", 4 * (x + 384000)).as_str());
    s.append(length_attr("cy", 4 * y).as_str());
    s.append(" r=\"6\"");
    s.append(attr("fill", escape(l.color.as_str()).as_str()).as_str());
    s.append("/>\n");
    s.append(write_text(4 * (x + 1024000), 4 * y, "", TEXT_COLOR, l.name.as_str()).as_str());
    s
}

/// The first `k` entries of the legend.
pub open spec fn items_svg(l: Seq<LegendItem>, k: int) -> Seq<char>
    decreases k,
{
    if k <= 0 {
        ""@
    } else {
        items_svg(l, k - 1) + item_svg(l[k - 1])
    }
}

fn write_items(l: &Vec<LegendItem>) -> (r: String)
    ensures
        r@ == items_svg(l@, l@.len() as int),
{
    let mut s = "".to_owned();
    let mut i: usize = 0;
    while i < l.len()
        invariant
            i <= l@.len(),
            s@ == items_svg(l@, i as int),
        decreases l@.len() - i,
    {
        s.append(write_item(&l[i]).as_str());
        i += 1;
    }
    s
}

/// The title, in the middle of the top.
pub open spec fn title_svg(j: JourneyScene) -> Seq<char> {
    match j.title {
        Some(t) => text(
            2 * j.width,
            4 * (PAD + TITLE_H / 2),
            " text-anchor=\"middle\" font-weight=\"bold\" font-size=\"17\""@,
            TEXT_COLOR@,
            t@,
        ),
        None => ""@,
    }
}

fn write_title(j: &JourneyScene) -> (r: String)
    ensures
        r@ == title_svg(*j),
{
    match &j.title {
        Some(t) => write_text(
            2 * (j.width as i128),
            4 * (PAD as i128 + TITLE_H as i128 / 2),
            " text-anchor=\"middle\" font-weight=\"bold\" font-size=\"17\"",
            TEXT_COLOR,
            t.as_str(),
        ),
        None => "".to_owned(),
    }
}

/// The picture of a journey.
pub open spec fn journey_svg(j: JourneyScene) -> Seq<char> {
    opening(j.width, j.height, "User journey"@, false, None) + bands_svg(
        j.sections@,
        j.sections@.len() as int,
    ) + path_svg(j.tasks@) + tasks_svg(j.tasks@, j.dots_y as int, j.tasks@.len() as int)
        + title_svg(j) + items_svg(j.legend@, j.legend@.len() as int) + "</svg>\n"@
}

/// Render a journey to an SVG string.
pub fn to_svg(j: &JourneyScene) -> (r: String)
    ensures
        r@ == journey_svg(*j),
{
    let opts = SvgOptions::default();
    let mut s = svg_open(j.width, j.height, "User journey", &opts);
    s.append(write_bands(&j.sections).as_str());
    s.append(write_path(&j.tasks).as_str());
    s.append(write_tasks(&j.tasks, j.dots_y).as_str());
    s.append(write_title(j).as_str());
    s.append(write_items(&j.legend).as_str());
    s.append("</svg>\n");
    s
}

} // verus!
