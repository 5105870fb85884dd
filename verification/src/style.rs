//! Colours shared by all kinds of diagrams.

use vstd::prelude::*;

verus! {

pub const EDGE_COLOR: &'static str = "#44507a";

pub const TEXT_COLOR: &'static str = "#232840";

/// The accent with the given number: the accents repeat.
pub open spec fn accent_of(accents: Seq<String>, i: int) -> Seq<char> {
    accents[i % accents.len() as int]@
}

pub fn accent(accents: &Vec<String>, i: usize) -> (r: String)
    requires
        accents@.len() > 0,
    ensures
        r@ == accent_of(accents@, i as int),
{
    accents[i % accents.len()].clone()
}

} // verus!
