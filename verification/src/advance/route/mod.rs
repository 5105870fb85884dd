//! Orthogonal routes between the nodes of a scene.
//!
//! Routes are computed in grid units. Wherever a rule speaks of one axis,
//! the rule for the other axis is the same with the axes exchanged.

pub mod detour_laws;
pub mod edges;
pub mod geometry;
pub mod label_spots;
pub mod laws;
pub mod paths;
pub mod ports;
pub mod side_laws;
