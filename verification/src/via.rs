//! Where vias may join layers, and what they cost.
use vstd::prelude::*;

use crate::board::Cost;

verus! {

/// Which layers a via may join, and at what price.
#[derive(Clone, Debug, PartialEq, Eq)]
pub struct ViaModel {
    /// Copper layers of the board.
    pub layers: u32,
    /// What a step from one layer to the next costs.
    pub step_cost: Cost,
    /// The steps between adjacent layers that are allowed; all of them where this
    /// is not given.
    pub allowed: Option<Vec<(u32, u32)>>,
    /// How many units around a via other nets keep off, measured over the grid lines.
    pub keepout_cells: u32,
}

impl ViaModel {
    /// What a step from one layer to the next costs where nothing else is said.
    pub const DEFAULT_STEP_COST: Cost = 160;

    /// A via may join layer `a` to layer `b`.
    pub open spec fn legal(&self, a: int, b: int) -> bool {
        &&& 0 <= a < self.layers
        &&& 0 <= b < self.layers
        &&& (a == b + 1 || b == a + 1)
        &&& self.allowed matches Some(steps) ==> steps@.contains((a as u32, b as u32))
            || steps@.contains((b as u32, a as u32))
    }

    /// Every adjacent layer can be reached.
    pub fn through_hole(layers: u32) -> (m: ViaModel)
        ensures
            m == (ViaModel {
                layers,
                step_cost: ViaModel::DEFAULT_STEP_COST,
                allowed: None,
                keepout_cells: 0,
            }),
    {
        ViaModel {
            layers,
            step_cost: ViaModel::DEFAULT_STEP_COST,
            allowed: None,
            keepout_cells: 0,
        }
    }

    /// Only the given steps between adjacent layers, in either direction.
    pub fn with_allowed_steps(layers: u32, step_cost: Cost, steps: Vec<(u32, u32)>) -> (m: ViaModel)
        ensures
            m == (ViaModel { layers, step_cost, allowed: Some(steps), keepout_cells: 0 }),
    {
        ViaModel { layers, step_cost, allowed: Some(steps), keepout_cells: 0 }
    }

    /// Whether a via may join layer `a` to layer `b`.
    pub fn is_step_legal(&self, a: u32, b: u32) -> (r: bool)
        ensures
            r == self.legal(a as int, b as int),
    {
        if a >= self.layers || b >= self.layers {
            return false;
        }
        let lo: u32 = if a < b { a } else { b };
        let hi: u32 = if a < b { b } else { a };
        if hi - lo != 1 {
            return false;
        }
        match &self.allowed {
            None => true,
            Some(steps) => {
                let mut i: usize = 0;
                while i < steps.len()
                    invariant
                        i <= steps@.len(),
                        self.allowed == Some(*steps),
                        forall|j: int|
                            0 <= j < i ==> #[trigger] steps@[j] != (a, b) && steps@[j] != (b, a),
                        a < self.layers,
                        b < self.layers,
                        a == b + 1 || b == a + 1,
                    decreases steps@.len() - i,
                {
                    let (p, q) = steps[i];
                    if (p == a && q == b) || (p == b && q == a) {
                        assert(steps@[i as int] == (a, b) || steps@[i as int] == (b, a));
                        return true;
                    }
                    i += 1;
                }
                false
            },
        }
    }
}

} // verus!
