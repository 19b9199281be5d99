//! The two genuine error kinds of the simulation kernel. Ordinary
//! "no effect" outcomes (a blocked move, a failed path search, absent
//! input, re-opening an open door) are normal branches, not errors.

use vstd::prelude::*;

verus! {

/// A failure that aborts the operation that raised it.
#[derive(Clone, Copy, PartialEq, Eq, Structural, Debug)]
pub enum SimError {
    /// A coordinate outside `[0,width) x [0,height)` was passed to the
    /// coordinate mapping; it is rejected outright, never clamped.
    OutOfBounds,
    /// An entity expected to carry a required component during a system
    /// pass does not; a programming-contract violation, treated as fatal.
    MissingComponent,
}

} // verus!
