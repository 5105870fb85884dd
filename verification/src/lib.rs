//! A small diagram engine: it reads, places, routes and draws diagrams. Every
//! function states what it returns in its contract.

pub mod advance;
pub mod architecture;
pub mod class;
pub mod double;
pub mod double_laws;
pub mod emit;
pub mod er;
pub mod fold;
pub mod fraction;
pub mod gitgraph;
pub mod journey;
pub mod json;
pub mod json_laws;
pub mod layout;
pub mod markup;
pub mod md;
pub mod mindmap;
pub mod model;
pub mod model_laws;
pub mod num;
pub mod num_laws;
pub mod peel;
pub mod peel_laws;
pub mod style;
pub mod tangent;
pub mod text;
pub mod text_laws;
pub mod wide;
