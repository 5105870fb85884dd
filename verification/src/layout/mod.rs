//! Layered layout: cycles, layers, crossings, coordinates.

pub mod align;
pub mod align_laws;
pub mod chains;
pub mod clusters;
pub mod compact;
pub mod compact_laws;
pub mod coords;
pub mod crossing_laws;
pub mod cycles;
pub mod engine;
pub mod intrinsic;
pub mod label_laws;
pub mod labels;
pub mod layers;
pub mod minimise;
pub mod order_laws;
pub mod ordering;
pub mod plan;
pub mod size_laws;
pub mod sorting;
pub mod spacing_laws;
pub mod way_laws;
pub mod width;
pub mod width_laws;
