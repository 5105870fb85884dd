//! Placing the lanes and nodes of a diagram.
//!
//! Everything is counted in grid units. Lengths and coordinates stay within
//! a fixed range: what would leave it is cut off at its end.

pub mod around_laws;
pub mod canvas;
pub mod containment;
pub mod coverage;
pub mod element_laws;
pub mod elements;
pub mod emit;
pub mod fit;
pub mod lanes;
pub mod layout;
pub mod lengths;
pub mod measure;
pub mod room_laws;
pub mod sequence;
pub mod sizes;
pub mod stacking_laws;
