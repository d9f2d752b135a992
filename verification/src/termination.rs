//! The status with which a run of the harness ends.

use vstd::prelude::*;
use crate::body::Outcome;

verus! {

/// A value that a run can end with, and the status code it stands for.
pub trait Termination {
    /// The status code of this value: zero for success.
    fn report(self) -> i32;
}

impl Termination for () {
    fn report(self) -> (code: i32)
        ensures
            code == 0,
    {
        0
    }
}

impl Termination for Outcome {
    /// Zero for a run that completed, one for a run that ended in a fault.
    fn report(self) -> (code: i32)
        ensures
            code == status(self),
    {
        match self {
            Outcome::Completed => 0,
            Outcome::Fault { site } => 1,
        }
    }
}

/// The status code of an outcome.
pub open spec fn status(outcome: Outcome) -> i32 {
    match outcome {
        Outcome::Completed => 0i32,
        Outcome::Fault { site } => 1i32,
    }
}

} // verus!
