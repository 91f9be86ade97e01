//! A record of how a board was routed.
use vstd::prelude::*;

use crate::board::{CellIdx, Cost, Dims};

verus! {

/// How a board was routed.
#[derive(Clone, Debug)]
pub struct RouteTrace {
    /// The extent of the board.
    pub dims: Dims,
    /// The nets.
    pub nets: Vec<TracedNet>,
    /// How many connection groups there are.
    pub n_groups: usize,
    /// The rounds of negotiation.
    pub iterations: Vec<IterSnapshot>,
    /// How the negotiated paths were made to fit.
    pub legalization: Option<LegalizationTrace>,
}

/// A net of a traced board.
#[derive(Clone, Debug)]
pub struct TracedNet {
    /// The name of the net.
    pub net: String,
    /// Where it starts.
    pub src: CellIdx,
    /// Where it ends.
    pub dst: CellIdx,
    /// Its connection group.
    pub group: u32,
    /// The path that it would take alone; empty where it has none.
    pub alone_path: Vec<CellIdx>,
}

/// Where a round of negotiation led.
#[derive(Clone, Debug)]
pub struct IterSnapshot {
    /// The round, from zero.
    pub iter: u32,
    /// The factor of its penalties.
    pub pfac: u32,
    /// The path of each net; empty where it has none.
    pub paths: Vec<Vec<CellIdx>>,
    /// The cells that more than one group shares.
    pub overused_cells: Vec<CellIdx>,
    /// Whether there are any.
    pub any_overuse: bool,
}

/// What one order of committing groups came to.
#[derive(Clone, Debug)]
pub struct CandidateEval {
    /// The order.
    pub order: Vec<usize>,
    /// How many nets were routed.
    pub routed: usize,
    /// What they cost, up to the largest cost.
    pub total_cost: Cost,
}

/// How the negotiated paths were made to fit.
#[derive(Clone, Debug)]
pub struct LegalizationTrace {
    /// The order that won.
    pub chosen_order: Vec<usize>,
    /// What each order came to.
    pub candidates: Vec<CandidateEval>,
    /// The path of each net that was committed.
    pub committed: Vec<Option<Vec<CellIdx>>>,
}

} // verus!
