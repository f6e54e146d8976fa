//! Change detection for the delay network's derived state.
//!
//! The network recomputes its gain vector, its damping cutoffs and its delay lengths only when
//! the controls they come from change. Real-valued controls are held as the bit patterns of
//! their `f64` values, so that a control has changed exactly when a different value was stored.

use vstd::prelude::*;

verus! {

/// The controls that the network's derived state comes from.
#[derive(Clone, Copy, Debug, PartialEq, Eq, Structural)]
pub struct Controls {
    /// Feedback amount, as `f64` bits.
    pub feedback: u64,
    /// Row of the phase sign table.
    pub phase: u16,
    /// Floor cutoff of the damping filters, as `f64` bits.
    pub floor: u64,
    /// Ceiling cutoff of the damping filters, as `f64` bits.
    pub ceiling: u64,
    /// Shape of the prime length distribution, as `f64` bits.
    pub primes: u64,
    /// Fraction of the delay capacity in use, as `f64` bits.
    pub length: u64,
}

/// Which parts of the derived state an update recomputes.
#[derive(Clone, Copy, Debug, PartialEq, Eq, Structural)]
pub struct UpdatePlan {
    /// The per-line gain vector, from feedback and phase.
    pub gains: bool,
    /// The floor cutoff of every line's damping filter.
    pub floor: bool,
    /// The ceiling cutoff of every line's damping filter.
    pub ceiling: bool,
    /// The delay lengths, from the distribution shape and the length.
    pub lengths: bool,
}

/// What an update recomputes after `last` was seen, when `next` arrives: everything when
/// nothing was seen yet, and otherwise each part whose controls differ.
pub open spec fn plan_for(last: Option<Controls>, next: Controls) -> UpdatePlan {
    match last {
        None => UpdatePlan { gains: true, floor: true, ceiling: true, lengths: true },
        Some(p) => UpdatePlan {
            gains: p.feedback != next.feedback || p.phase != next.phase,
            floor: p.floor != next.floor,
            ceiling: p.ceiling != next.ceiling,
            lengths: p.primes != next.primes || p.length != next.length,
        },
    }
}

/// The controls that the derived state was last computed from.
#[derive(Clone, Copy, Debug)]
pub struct ControlCache {
    pub last: Option<Controls>,
}

impl ControlCache {
    /// A cache that has seen no controls, so that the first update recomputes everything.
    pub fn new() -> (r: ControlCache)
        ensures
            r.last is None,
    {
        ControlCache { last: None }
    }

    /// Records `next` and says which parts of the derived state it invalidates.
    pub fn update(&mut self, next: Controls) -> (plan: UpdatePlan)
        ensures
            final(self).last == Some(next),
            plan == plan_for(old(self).last, next),
    {
        let plan = match self.last {
            None => UpdatePlan { gains: true, floor: true, ceiling: true, lengths: true },
            Some(p) => UpdatePlan {
                gains: p.feedback != next.feedback || p.phase != next.phase,
                floor: p.floor != next.floor,
                ceiling: p.ceiling != next.ceiling,
                lengths: p.primes != next.primes || p.length != next.length,
            },
        };
        self.last = Some(next);
        plan
    }
}

} // verus!
