//! Why a run failed.

use vstd::prelude::*;

verus! {

/// A fatal condition.
#[derive(Clone, Copy, PartialEq, Eq, Structural, Debug)]
pub enum Error {
    /// The search for the instances of generic entities needs more pairs of a
    /// path and arguments than the machine can count.
    InstantiationLimit,
}

impl Error {
    /// The condition in words.
    pub fn message(&self) -> (r: String)
        ensures
            r@ == "the generic entities have more instances than the machine can count"@,
    {
        String::from_str(
            "the generic entities have more instances than the machine can count",
        )
    }
}

} // verus!
