//! Predicates that gate hooks on the value of one side of a transition.

use vstd::prelude::*;

use crate::present;

verus! {

/// A predicate over one side of a transition: the exiting current value or
/// the entering next value.
///
/// `Value` matches one value exactly, `Any` matches whenever the side is
/// present, and `Range` is a guarded pattern that matches any present value
/// whose tag lies in the inclusive range. Every pattern is pure, so it can be
/// re-evaluated any number of times in a tick.
#[derive(Clone, Copy, Debug, PartialEq, Eq, Structural)]
pub enum Pattern {
    /// Matches exactly this value.
    Value(u64),
    /// Matches any present value.
    Any,
    /// Matches a present value between the two bounds, both inclusive.
    Range(u64, u64),
}

/// Whether a pattern admits a present value.
pub open spec fn pat_admits(p: Pattern, v: u64) -> bool {
    match p {
        Pattern::Value(x) => v == x,
        Pattern::Any => true,
        Pattern::Range(lo, hi) => lo <= v && v <= hi,
    }
}

/// Whether a pattern admits one side of a transition: an absent side is
/// never admitted, a present side is admitted by the pattern alone.
pub open spec fn side_admits(p: Pattern, side: Option<u64>) -> bool {
    match side {
        None => false,
        Some(v) => pat_admits(p, v),
    }
}

impl Pattern {
    /// Evaluate the pattern against a present value.
    pub fn admits(&self, v: u64) -> (r: bool)
        ensures
            r == pat_admits(*self, v),
    {
        match self {
            Pattern::Value(x) => v == *x,
            Pattern::Any => true,
            Pattern::Range(lo, hi) => *lo <= v && v <= *hi,
        }
    }

    /// Evaluate the pattern against one side of a transition.
    pub fn admits_side(&self, side: Option<u64>) -> (r: bool)
        ensures
            r == side_admits(*self, side),
    {
        match side {
            None => false,
            Some(v) => self.admits(v),
        }
    }
}

} // verus!
