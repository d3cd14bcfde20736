//! The state that a deadband check reports. The deadbands themselves compare
//! floating-point measurements and are not part of this library.
use vstd::prelude::*;

verus! {

/// State returned by a deadband check.
#[derive(Debug, Clone, Copy, PartialEq, Eq, Structural)]
pub enum DeadbandState {
    /// Value is within acceptable bounds.
    Normal,
    /// Value is approaching the boundary (for deadbands that support approaching).
    Approaching,
    /// Value has exceeded the deadband.
    Exceeded,
}

} // verus!
