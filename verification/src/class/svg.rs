//! Class boxes as SVG.

use vstd::prelude::*;

use crate::advance::scene::Px;
use crate::advance::svg_node::{length, length_attr, rect, rect_tag};
use crate::class::{compartment, compartment_h, ClassBox, ClassRow, HEADER_H, PAD, ROW_H};
use crate::journey::svg::{text, write_text};
use crate::markup::{attr, attribute, escape, escaped};
use crate::style::TEXT_COLOR;

verus! {

/// The colour of dividers.
pub const LABEL_BORDER: &'static str = "#d5d9ec";

/// A divider, in quarter units.
pub open spec fn divider(x: int, y: int, w: int) -> Seq<char> {
    "<line"@ + length("x1"@, x) + length("y1"@, y) + length("x2"@, x + w) + length("y2"@, y)
        + attribute("stroke"@, LABEL_BORDER@) + "/>\n"@
}

pub fn write_divider(x: i128, y: i128, w: i128) -> (r: String)
    requires
        -0x1_0000_0000_0000_0000_0000_0000 <= x <= 0x1_0000_0000_0000_0000_0000_0000,
        -0x1_0000_0000_0000_0000_0000_0000 <= y <= 0x1_0000_0000_0000_0000_0000_0000,
        -0x1_0000_0000_0000_0000_0000_0000 <= w <= 0x1_0000_0000_0000_0000_0000_0000,
    ensures
        r@ == divider(x as int, y as int, w as int),
{
    let mut s = "<line".to_owned();
    s.append(length_attr("x1", x).as_str());
    s.append(length_attr("y1", y).as_str());
    s.append(length_attr("x2", x + w).as_str());
    s.append(length_attr("y2", y).as_str());
    s.append(attr("stroke", LABEL_BORDER).as_str());
    s.append("/>\n");
    s
}

/// One row of text, in quarter units.
pub open spec fn row(x: int, y: int, s: Seq<char>) -> Seq<char> {
    "<text"@ + length("x"@, x) + length("y"@, y) + " dy=\"0.33em\""@ + attribute(
        "fill"@,
        TEXT_COLOR@,
    ) + " font-family=\"monospace\">"@ + escaped(s) + "</text>\n"@
}

/// The first `k` rows of a compartment whose top is `top`, in quarter units.
pub open spec fn rows(r: Seq<ClassRow>, x: int, top: int, k: int) -> Seq<char>
    decreases k,
{
    if k <= 0 {
        ""@
    } else {
        rows(r, x, top, k - 1) + row(x, top + (4 * (k - 1) + 2) * ROW_H, r[k - 1].text@)
    }
}

fn write_rows(r: &Vec<ClassRow>, x: i128, top: i128) -> (out: String)
    requires
        -0x1_0000_0000_0000_0000_0000 <= x <= 0x1_0000_0000_0000_0000_0000,
        -0x1_0000_0000_0000_0000_0000 <= top <= 0x1_0000_0000_0000_0000_0000,
    ensures
        out@ == rows(r@, x as int, top as int, r@.len() as int),
{
    let n: usize = r.len();
    let mut s = "".to_owned();
    let mut i: usize = 0;
    while i < n
        invariant
            i <= n,
            n == r@.len(),
            -0x1_0000_0000_0000_0000_0000 <= x <= 0x1_0000_0000_0000_0000_0000,
            -0x1_0000_0000_0000_0000_0000 <= top <= 0x1_0000_0000_0000_0000_0000,
            s@ == rows(r@, x as int, top as int, i as int),
        decreases n - i,
    {
        assert(i <= 0xffff_ffff_ffff_ffff);
        let y: i128 = top + (4 * (i as i128) + 2) * 1280000;
        let mut t = "<text".to_owned();
        t.append(length_attr("x", x).as_str());
        t.append(length_attr("y", y).as_str());
        t.append(" dy=\"0.33em\"");
        t.append(attr("fill", TEXT_COLOR).as_str());
        t.append(" font-family=\"monospace\">");
        t.append(escape(r[i].text.as_str()).as_str());
        t.append("</text>\n");
        s.append(t.as_str());
        i += 1;
    }
    s
}

/// A class box around the centre `(x, y)`: its name, its fields, its
/// methods.
pub open spec fn box_svg(b: ClassBox, x: Px, y: Px, w: Px, h: Px, colour: Seq<char>) -> Seq<char> {
    let l = 4 * x - 2 * w;
    let t = 4 * y - 2 * h;
    let fields = t + 4 * HEADER_H;
    let methods = fields + 4 * compartment(b.fields@.len() as int);
    rect(
        l,
        t,
        4 * w,
        4 * h,
        " rx=\"4\" fill=\"#ffffff\""@ + attribute("stroke"@, escaped(colour))
            + " stroke-width=\"1.6\""@,
    ) + rect(l, t, 4 * w, 4 * HEADER_H, " rx=\"4\""@ + attribute("fill"@, escaped(colour))) + text(
        4 * x,
        t + 2 * HEADER_H,
        " text-anchor=\"middle\" font-weight=\"bold\""@,
        "#ffffff"@,
        b.name@,
    ) + divider(l, fields, 4 * w) + rows(b.fields@, l + 4 * PAD, fields, b.fields@.len() as int)
        + divider(l, methods, 4 * w) + rows(
        b.methods@,
        l + 4 * PAD,
        methods,
        b.methods@.len() as int,
    )
}

/// Draw a class box.
pub fn write_box(b: &ClassBox, x: Px, y: Px, w: Px, h: Px, colour: &str) -> (r: String)
    ensures
        r@ == box_svg(*b, x, y, w, h, colour@),
{
    let (cx, cy, wide, high) = (x as i128, y as i128, w as i128, h as i128);
    let l: i128 = 4 * cx - 2 * wide;
    let t: i128 = 4 * cy - 2 * high;
    let head: i128 = HEADER_H as i128;
    let fields: i128 = t + 4 * head;
    let methods: i128 = fields + 4 * (compartment_h(b.fields.len()) as i128);
    let paint = escape(colour);
    let mut more = " rx=\"4\" fill=\"#ffffff\"".to_owned();
    more.append(attr("stroke", paint.as_str()).as_str());
    more.append(" stroke-width=\"1.6\"");
    let mut s = rect_tag(l, t, 4 * wide, 4 * high, more.as_str());
    let mut fill = " rx=\"4\"".to_owned();
    fill.append(attr("fill", paint.as_str()).as_str());
    s.append(rect_tag(l, t, 4 * wide, 4 * head, fill.as_str()).as_str());
    let name = write_text(
        4 * cx,
        t + 2 * head,
        " text-anchor=\"middle\" font-weight=\"bold\"",
        "#ffffff",
        b.name.as_str(),
    );
    s.append(name.as_str());
    s.append(write_divider(l, fields, 4 * wide).as_str());
    s.append(write_rows(&b.fields, l + 4 * (PAD as i128), fields).as_str());
    s.append(write_divider(l, methods, 4 * wide).as_str());
    s.append(write_rows(&b.methods, l + 4 * (PAD as i128), methods).as_str());
    s
}

} // verus!
