//! A marker value for scoped instrumentation: constructing one pairs an
//! `enter` with an automatic `leave` at scope exit. The drop hook that
//! performs the `leave` must reach the host's engine instance, which lives
//! outside this library, so the host wires it around this type.

use vstd::prelude::*;

verus! {

/// Marks a scoped region whose `leave` the host issues when the value
/// goes out of scope.
pub struct ScopeTimer {}

impl ScopeTimer {
    /// A fresh scope marker.
    pub fn new() -> ScopeTimer {
        ScopeTimer {  }
    }
}

} // verus!
