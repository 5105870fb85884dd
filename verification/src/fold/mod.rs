//! Serpentine layout for long linear chains: a chain that is longer than the
//! flow budget is folded into balanced bands.
//!
//! Lengths are counted in grid units, 64000 to the pixel.

pub mod chain;
pub mod chain_laws;
pub mod place_laws;
pub mod plan;
pub mod points;
pub mod turn;

pub use crate::fold::chain::chain_run;
pub use crate::fold::plan::plan_fold;
pub use crate::fold::points::fold_points;

use crate::model::Direction;

use vstd::prelude::*;

verus! {

/// Why a graph keeps its ordinary layout instead of a folded one.
#[derive(Debug, Clone, Copy, PartialEq, Eq, Structural)]
pub enum FoldSkip {
    /// The ordinary layout already fits the budget.
    AlreadyFits,
    /// There are subgraphs or edges that touch them.
    HasSubgraphs,
    /// A node with more than one way in or out, or a cycle.
    NotLinear,
    /// More than one connected component, or isolated nodes.
    MultipleComponents,
    /// The chain has too few nodes.
    TooShort,
    /// A single node's flow extent exceeds the budget.
    NodeTooLong,
}

/// Chains of fewer nodes are not worth folding.
pub const MIN_RUN: usize = 5;

/// Gap between neighbouring bands, in grid units.
pub const BAND_GAP: u64 = 2816000;

/// How a chain is to be folded.
#[derive(Debug, Clone, Copy, PartialEq, Eq, Structural)]
pub struct CompactOptions {
    /// Budget along the flow axis (height for TD and BT, width for LR and
    /// RL), in grid units.
    pub max_extent: u64,
    /// Chains of fewer nodes are never folded.
    pub min_run: usize,
    /// Gap between neighbouring bands, in grid units.
    pub band_gap: u64,
}

/// The options with the given budget.
pub open spec fn options_for(max_extent: u64) -> CompactOptions {
    CompactOptions { max_extent, min_run: MIN_RUN, band_gap: BAND_GAP }
}

impl CompactOptions {
    /// Fold to fit `max_extent` along the flow axis.
    pub fn for_extent(max_extent: u64) -> (r: CompactOptions)
        ensures
            r == options_for(max_extent),
    {
        CompactOptions { max_extent, min_run: MIN_RUN, band_gap: BAND_GAP }
    }

    /// Fold to fit a viewport: its height where the flow is vertical, its
    /// width where it is horizontal.
    pub fn fit(viewport_w: u64, viewport_h: u64, dir: Direction) -> (r: CompactOptions)
        ensures
            r == options_for(
                match dir {
                    Direction::TD | Direction::BT => viewport_h,
                    Direction::LR | Direction::RL => viewport_w,
                },
            ),
    {
        match dir {
            Direction::TD | Direction::BT => CompactOptions::for_extent(viewport_h),
            Direction::LR | Direction::RL => CompactOptions::for_extent(viewport_w),
        }
    }
}

} // verus!
