//! User journeys: tasks from left to right, each a face that shows how
//! satisfied its actors are.

pub mod laws;
pub mod scene;
pub mod svg;

use vstd::prelude::*;

verus! {

#[derive(Debug)]
pub struct JourneyTask {
    pub name: String,
    /// Satisfaction from one to five.
    pub score: u8,
    /// Numbers of the actors that take part.
    pub actors: Vec<usize>,
}

#[derive(Debug)]
pub struct JourneySection {
    pub name: String,
    pub tasks: Vec<JourneyTask>,
}

#[derive(Debug)]
pub struct Journey {
    pub title: Option<String>,
    pub actors: Vec<String>,
    pub sections: Vec<JourneySection>,
}

/// The colour of a score, from red to green.
pub open spec fn score_colour(score: u8) -> Seq<char> {
    if score == 1 {
        "#e8574f"@
    } else if score == 2 {
        "#f0894e"@
    } else if score == 3 {
        "#f2c94c"@
    } else if score == 4 {
        "#9fcf6a"@
    } else {
        "#57b563"@
    }
}

/// The colour of a score, from red to green.
pub fn score_color(score: u8) -> (r: &'static str)
    ensures
        r@ == score_colour(score),
{
    match score {
        1 => "#e8574f",
        2 => "#f0894e",
        3 => "#f2c94c",
        4 => "#9fcf6a",
        _ => "#57b563",
    }
}

} // verus!
