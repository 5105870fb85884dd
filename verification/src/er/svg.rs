//! Tables as SVG.

use vstd::prelude::*;

use crate::advance::scene::Px;
use crate::advance::svg_node::{rect, rect_tag};
use crate::class::svg::{divider, write_divider};
use crate::er::{ErRow, ErTable, COL_GAP, HEADER_H, PAD, ROW_H};
use crate::journey::svg::{text, write_text};
use crate::markup::{attr, attribute, escape, escaped};
use crate::style::{EDGE_COLOR, TEXT_COLOR};
use crate::text::chars_of;

verus! {

/// The colour of types.
pub const TYPE_COLOR: &'static str = "#6a7086";

/// Row `k` of a table whose left side is `l`, whose width is `w`, and whose
/// rows start at `top`, in quarter units.
pub open spec fn row_svg(r: ErRow, k: int, l: int, w: int, top: int, ty_w: int) -> Seq<char> {
    let y = top + 4 * k * ROW_H;
    let mid = y + 2 * ROW_H;
    (if k > 0 {
        divider(l, y, w)
    } else {
        ""@
    }) + text(l + 4 * PAD, mid, ""@, TYPE_COLOR@, r.ty@) + text(
        l + 4 * (PAD + ty_w + COL_GAP),
        mid,
        ""@,
        TEXT_COLOR@,
        r.name@,
    ) + (if r.keys@.len() > 0 {
        text(
            l + w - 4 * PAD,
            mid,
            " text-anchor=\"end\" font-weight=\"bold\""@,
            EDGE_COLOR@,
            r.keys@,
        )
    } else {
        ""@
    })
}

/// The first `k` rows.
pub open spec fn rows_svg(r: Seq<ErRow>, l: int, w: int, top: int, ty_w: int, k: int) -> Seq<char>
    decreases k,
{
    if k <= 0 {
        ""@
    } else {
        rows_svg(r, l, w, top, ty_w, k - 1) + row_svg(r[k - 1], k - 1, l, w, top, ty_w)
    }
}

fn write_row(r: &ErRow, k: usize, l: i128, w: i128, top: i128, ty_w: Px) -> (out: String)
    requires
        -0x100_0000_0000_0000_0000 <= l <= 0x100_0000_0000_0000_0000,
        -0x100_0000_0000_0000_0000 <= w <= 0x100_0000_0000_0000_0000,
        -0x100_0000_0000_0000_0000 <= top <= 0x100_0000_0000_0000_0000,
    ensures
        out@ == row_svg(*r, k as int, l as int, w as int, top as int, ty_w as int),
{
    assert(k <= 0xffff_ffff_ffff_ffff);
    let y: i128 = top + (k as i128) * 5632000;
    let mid: i128 = y + 2816000;
    let mut s = if k > 0 {
        write_divider(l, y, w)
    } else {
        "".to_owned()
    };
    let pad: i128 = PAD as i128;
    s.append(write_text(l + 4 * pad, mid, "", TYPE_COLOR, r.ty.as_str()).as_str());
    let x: i128 = l + 4 * (pad + ty_w as i128 + COL_GAP as i128);
    s.append(write_text(x, mid, "", TEXT_COLOR, r.name.as_str()).as_str());
    let keys = if chars_of(r.keys.as_str()).len() > 0 {
        write_text(
            l + w - 4 * pad,
            mid,
            " text-anchor=\"end\" font-weight=\"bold\"",
            EDGE_COLOR,
            r.keys.as_str(),
        )
    } else {
        "".to_owned()
    };
    s.append(keys.as_str());
    s
}

fn write_rows(r: &Vec<ErRow>, l: i128, w: i128, top: i128, ty_w: Px) -> (out: String)
    requires
        -0x100_0000_0000_0000_0000 <= l <= 0x100_0000_0000_0000_0000,
        -0x100_0000_0000_0000_0000 <= w <= 0x100_0000_0000_0000_0000,
        -0x100_0000_0000_0000_0000 <= top <= 0x100_0000_0000_0000_0000,
    ensures
        out@ == rows_svg(r@, l as int, w as int, top as int, ty_w as int, r@.len() as int),
{
    let mut out = "".to_owned();
    let mut i: usize = 0;
    while i < r.len()
        invariant
            i <= r@.len(),
            -0x100_0000_0000_0000_0000 <= l <= 0x100_0000_0000_0000_0000,
            -0x100_0000_0000_0000_0000 <= w <= 0x100_0000_0000_0000_0000,
            -0x100_0000_0000_0000_0000 <= top <= 0x100_0000_0000_0000_0000,
            out@ == rows_svg(r@, l as int, w as int, top as int, ty_w as int, i as int),
        decreases r@.len() - i,
    {
        out.append(write_row(&r[i], i, l, w, top, ty_w).as_str());
        i += 1;
    }
    out
}

/// A table around the centre `(x, y)`.
pub open spec fn table_svg(t: ErTable, x: Px, y: Px, w: Px, h: Px, colour: Seq<char>) -> Seq<char> {
    let l = 4 * x - 2 * w;
    let top = 4 * y - 2 * h;
    rect(
        l,
        top,
        4 * w,
        4 * h,
        " rx=\"4\" fill=\"#ffffff\""@ + attribute("stroke"@, escaped(colour))
            + " stroke-width=\"1.6\""@,
    ) + rect(l, top, 4 * w, 4 * HEADER_H, " rx=\"4\""@ + attribute("fill"@, escaped(colour)))
        + text(
        4 * x,
        top + 2 * HEADER_H,
        " text-anchor=\"middle\" font-weight=\"bold\""@,
        "#ffffff"@,
        t.name@,
    ) + rows_svg(
        t.rows@,
        l,
        4 * w,
        top + 4 * HEADER_H,
        t.ty_col_w as int,
        t.rows@.len() as int,
    )
}

/// Draw a table.
pub fn write_table(t: &ErTable, x: Px, y: Px, w: Px, h: Px, colour: &str) -> (r: String)
    ensures
        r@ == table_svg(*t, x, y, w, h, colour@),
{
    let (cx, cy, wide, high) = (x as i128, y as i128, w as i128, h as i128);
    let l: i128 = 4 * cx - 2 * wide;
    let top: i128 = 4 * cy - 2 * high;
    let head: i128 = HEADER_H as i128;
    let paint = escape(colour);
    let mut more = " rx=\"4\" fill=\"#ffffff\"".to_owned();
    more.append(attr("stroke", paint.as_str()).as_str());
    more.append(" stroke-width=\"1.6\"");
    let mut s = rect_tag(l, top, 4 * wide, 4 * high, more.as_str());
    let mut fill = " rx=\"4\"".to_owned();
    fill.append(attr("fill", paint.as_str()).as_str());
    s.append(rect_tag(l, top, 4 * wide, 4 * head, fill.as_str()).as_str());
    let name = write_text(
        4 * cx,
        top + 2 * head,
        " text-anchor=\"middle\" font-weight=\"bold\"",
        "#ffffff",
        t.name.as_str(),
    );
    s.append(name.as_str());
    s.append(write_rows(&t.rows, l, 4 * wide, top + 4 * head, t.ty_col_w).as_str());
    s
}

} // verus!
