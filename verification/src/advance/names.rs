//! The names of shapes and edge kinds.

use vstd::prelude::*;

use crate::model::{EdgeKind, Shape};
use crate::text::{cat3, str_eq};

verus! {

/// The name of a shape.
pub open spec fn shape_text(s: Shape) -> Seq<char> {
    match s {
        Shape::Rect => "rect"@,
        Shape::Rounded => "rounded"@,
        Shape::Stadium => "stadium"@,
        Shape::Diamond => "diamond"@,
        Shape::Circle => "circle"@,
        Shape::DoubleCircle => "doublecircle"@,
        Shape::Cylinder => "cylinder"@,
        Shape::Subroutine => "subroutine"@,
        Shape::Hexagon => "hexagon"@,
        Shape::Parallelogram => "parallelogram"@,
        Shape::ParallelogramAlt => "parallelogramalt"@,
        Shape::StateStart => "statestart"@,
        Shape::StateEnd => "stateend"@,
        Shape::ForkBar => "forkbar"@,
    }
}

pub fn shape_name(s: Shape) -> (r: &'static str)
    ensures
        r@ == shape_text(s),
{
    match s {
        Shape::Rect => "rect",
        Shape::Rounded => "rounded",
        Shape::Stadium => "stadium",
        Shape::Diamond => "diamond",
        Shape::Circle => "circle",
        Shape::DoubleCircle => "doublecircle",
        Shape::Cylinder => "cylinder",
        Shape::Subroutine => "subroutine",
        Shape::Hexagon => "hexagon",
        Shape::Parallelogram => "parallelogram",
        Shape::ParallelogramAlt => "parallelogramalt",
        Shape::StateStart => "statestart",
        Shape::StateEnd => "stateend",
        Shape::ForkBar => "forkbar",
    }
}

/// What a name names.
pub open spec fn shape_of(s: Seq<char>) -> Option<Shape> {
    if s == "rect"@ {
        Some(Shape::Rect)
    } else if s == "rounded"@ {
        Some(Shape::Rounded)
    } else if s == "stadium"@ {
        Some(Shape::Stadium)
    } else if s == "diamond"@ {
        Some(Shape::Diamond)
    } else if s == "circle"@ {
        Some(Shape::Circle)
    } else if s == "doublecircle"@ {
        Some(Shape::DoubleCircle)
    } else if s == "cylinder"@ {
        Some(Shape::Cylinder)
    } else if s == "subroutine"@ {
        Some(Shape::Subroutine)
    } else if s == "hexagon"@ {
        Some(Shape::Hexagon)
    } else if s == "parallelogram"@ {
        Some(Shape::Parallelogram)
    } else if s == "parallelogramalt"@ {
        Some(Shape::ParallelogramAlt)
    } else if s == "statestart"@ {
        Some(Shape::StateStart)
    } else if s == "stateend"@ {
        Some(Shape::StateEnd)
    } else if s == "forkbar"@ {
        Some(Shape::ForkBar)
    } else {
        None
    }
}

/// The error for an unknown name.
pub open spec fn shape_of_error(s: Seq<char>) -> Seq<char> {
    "unknown shape '"@ + s
        + "', expected one of rect, rounded, stadium, diamond, circle, doublecircle, cylinder, subroutine, hexagon, parallelogram, parallelogramalt, statestart, stateend, forkbar"@
}

pub fn parse_shape(s: &str) -> (r: Result<Shape, String>)
    ensures
        match shape_of(s@) {
            Some(v) => r is Ok && r->Ok_0 == v,
            None => r is Err && r->Err_0@ == shape_of_error(s@),
        },
{
    if str_eq(s, "rect") {
        Ok(Shape::Rect)
    } else if str_eq(s, "rounded") {
        Ok(Shape::Rounded)
    } else if str_eq(s, "stadium") {
        Ok(Shape::Stadium)
    } else if str_eq(s, "diamond") {
        Ok(Shape::Diamond)
    } else if str_eq(s, "circle") {
        Ok(Shape::Circle)
    } else if str_eq(s, "doublecircle") {
        Ok(Shape::DoubleCircle)
    } else if str_eq(s, "cylinder") {
        Ok(Shape::Cylinder)
    } else if str_eq(s, "subroutine") {
        Ok(Shape::Subroutine)
    } else if str_eq(s, "hexagon") {
        Ok(Shape::Hexagon)
    } else if str_eq(s, "parallelogram") {
        Ok(Shape::Parallelogram)
    } else if str_eq(s, "parallelogramalt") {
        Ok(Shape::ParallelogramAlt)
    } else if str_eq(s, "statestart") {
        Ok(Shape::StateStart)
    } else if str_eq(s, "stateend") {
        Ok(Shape::StateEnd)
    } else if str_eq(s, "forkbar") {
        Ok(Shape::ForkBar)
    } else {
        Err(
            cat3(
                "unknown shape '",
                s,
                "', expected one of rect, rounded, stadium, diamond, circle, doublecircle, cylinder, subroutine, hexagon, parallelogram, parallelogramalt, statestart, stateend, forkbar",
            ),
        )
    }
}

/// Every value is what its name names.
pub proof fn law_shape_name(s: Shape)
    ensures
        shape_of(shape_text(s)) == Some(s),
{
    reveal_strlit("rect");
    assert("rect"@.len() == 4);
    reveal_strlit("rounded");
    assert("rounded"@.len() == 7);
    reveal_strlit("stadium");
    assert("stadium"@.len() == 7);
    reveal_strlit("diamond");
    assert("diamond"@.len() == 7);
    reveal_strlit("circle");
    assert("circle"@.len() == 6);
    reveal_strlit("doublecircle");
    assert("doublecircle"@.len() == 12);
    reveal_strlit("cylinder");
    assert("cylinder"@.len() == 8);
    reveal_strlit("subroutine");
    assert("subroutine"@.len() == 10);
    reveal_strlit("hexagon");
    assert("hexagon"@.len() == 7);
    reveal_strlit("parallelogram");
    assert("parallelogram"@.len() == 13);
    reveal_strlit("parallelogramalt");
    assert("parallelogramalt"@.len() == 16);
    reveal_strlit("statestart");
    assert("statestart"@.len() == 10);
    reveal_strlit("stateend");
    assert("stateend"@.len() == 8);
    reveal_strlit("forkbar");
    assert("forkbar"@.len() == 7);
    assert("rounded"@[0] != "stadium"@[0]);
    assert("rounded"@[0] != "diamond"@[0]);
    assert("rounded"@[0] != "hexagon"@[0]);
    assert("rounded"@[0] != "forkbar"@[0]);
    assert("stadium"@[0] != "diamond"@[0]);
    assert("stadium"@[0] != "hexagon"@[0]);
    assert("stadium"@[0] != "forkbar"@[0]);
    assert("diamond"@[0] != "hexagon"@[0]);
    assert("diamond"@[0] != "forkbar"@[0]);
    assert("cylinder"@[0] != "stateend"@[0]);
    assert("subroutine"@[1] != "statestart"@[1]);
    assert("hexagon"@[0] != "forkbar"@[0]);
}

/// The name of an edge kind.
pub open spec fn edge_kind_text(k: EdgeKind) -> Seq<char> {
    match k {
        EdgeKind::Arrow => "arrow"@,
        EdgeKind::Open => "open"@,
        EdgeKind::Dotted => "dotted"@,
        EdgeKind::DottedOpen => "dottedopen"@,
        EdgeKind::Thick => "thick"@,
        EdgeKind::ThickOpen => "thickopen"@,
        EdgeKind::Invisible => "invisible"@,
    }
}

pub fn edge_kind_name(k: EdgeKind) -> (r: &'static str)
    ensures
        r@ == edge_kind_text(k),
{
    match k {
        EdgeKind::Arrow => "arrow",
        EdgeKind::Open => "open",
        EdgeKind::Dotted => "dotted",
        EdgeKind::DottedOpen => "dottedopen",
        EdgeKind::Thick => "thick",
        EdgeKind::ThickOpen => "thickopen",
        EdgeKind::Invisible => "invisible",
    }
}

/// What a name names.
pub open spec fn edge_kind_of(s: Seq<char>) -> Option<EdgeKind> {
    if s == "arrow"@ {
        Some(EdgeKind::Arrow)
    } else if s == "open"@ {
        Some(EdgeKind::Open)
    } else if s == "dotted"@ {
        Some(EdgeKind::Dotted)
    } else if s == "dottedopen"@ {
        Some(EdgeKind::DottedOpen)
    } else if s == "thick"@ {
        Some(EdgeKind::Thick)
    } else if s == "thickopen"@ {
        Some(EdgeKind::ThickOpen)
    } else if s == "invisible"@ {
        Some(EdgeKind::Invisible)
    } else {
        None
    }
}

/// The error for an unknown name.
pub open spec fn edge_kind_of_error(s: Seq<char>) -> Seq<char> {
    "unknown edge kind '"@ + s
        + "', expected one of arrow, open, dotted, dottedopen, thick, thickopen, invisible"@
}

pub fn parse_edge_kind(s: &str) -> (r: Result<EdgeKind, String>)
    ensures
        match edge_kind_of(s@) {
            Some(v) => r is Ok && r->Ok_0 == v,
            None => r is Err && r->Err_0@ == edge_kind_of_error(s@),
        },
{
    if str_eq(s, "arrow") {
        Ok(EdgeKind::Arrow)
    } else if str_eq(s, "open") {
        Ok(EdgeKind::Open)
    } else if str_eq(s, "dotted") {
        Ok(EdgeKind::Dotted)
    } else if str_eq(s, "dottedopen") {
        Ok(EdgeKind::DottedOpen)
    } else if str_eq(s, "thick") {
        Ok(EdgeKind::Thick)
    } else if str_eq(s, "thickopen") {
        Ok(EdgeKind::ThickOpen)
    } else if str_eq(s, "invisible") {
        Ok(EdgeKind::Invisible)
    } else {
        Err(
            cat3(
                "unknown edge kind '",
                s,
                "', expected one of arrow, open, dotted, dottedopen, thick, thickopen, invisible",
            ),
        )
    }
}

/// Every value is what its name names.
pub proof fn law_edge_kind_name(k: EdgeKind)
    ensures
        edge_kind_of(edge_kind_text(k)) == Some(k),
{
    reveal_strlit("arrow");
    assert("arrow"@.len() == 5);
    reveal_strlit("open");
    assert("open"@.len() == 4);
    reveal_strlit("dotted");
    assert("dotted"@.len() == 6);
    reveal_strlit("dottedopen");
    assert("dottedopen"@.len() == 10);
    reveal_strlit("thick");
    assert("thick"@.len() == 5);
    reveal_strlit("thickopen");
    assert("thickopen"@.len() == 9);
    reveal_strlit("invisible");
    assert("invisible"@.len() == 9);
    assert("arrow"@[0] != "thick"@[0]);
    assert("thickopen"@[0] != "invisible"@[0]);
}

} // verus!
