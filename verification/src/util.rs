//! Small helpers shared by the solvers.
use vstd::prelude::*;

verus! {

/// Integer division rounding toward zero, as Rust's `/` does.
pub open spec fn div_toward_zero(x: int, d: int) -> int {
    if x >= 0 { x / d } else { -((-x) / d) }
}

/// Replaces a value by a better one, reporting whether it did.
pub trait ChangeMinMax: Sized {
    /// Lowers `self` to `x` when `x` is smaller; returns whether it changed.
    fn chmin(&mut self, x: Self) -> bool;

    /// Raises `self` to `x` when `x` is larger; returns whether it changed.
    fn chmax(&mut self, x: Self) -> bool;
}

impl ChangeMinMax for i64 {
    fn chmin(&mut self, x: i64) -> (changed: bool)
        ensures
            changed == (*old(self) > x),
            *final(self) == if changed { x } else { *old(self) },
    {
        if *self > x {
            *self = x;
            true
        } else {
            false
        }
    }

    fn chmax(&mut self, x: i64) -> (changed: bool)
        ensures
            changed == (*old(self) < x),
            *final(self) == if changed { x } else { *old(self) },
    {
        if *self < x {
            *self = x;
            true
        } else {
            false
        }
    }
}

impl ChangeMinMax for usize {
    fn chmin(&mut self, x: usize) -> (changed: bool)
        ensures
            changed == (*old(self) > x),
            *final(self) == if changed { x } else { *old(self) },
    {
        if *self > x {
            *self = x;
            true
        } else {
            false
        }
    }

    fn chmax(&mut self, x: usize) -> (changed: bool)
        ensures
            changed == (*old(self) < x),
            *final(self) == if changed { x } else { *old(self) },
    {
        if *self < x {
            *self = x;
            true
        } else {
            false
        }
    }
}

/// The temperature schedule of a simulated-annealing run.
#[derive(Debug, Clone, Copy, PartialEq, Eq, Structural)]
pub enum SchedulerType {
    /// Geometric interpolation between the first and the last temperature.
    Exp,
    /// Linear interpolation between the first and the last temperature.
    Linear,
}

} // verus!
