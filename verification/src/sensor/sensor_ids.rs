//! Sensor ID constants for well-known sensors (for convenience, not exhaustive).
use vstd::prelude::*;

verus! {

pub const GPS: &'static str = "gps";

pub const DEPTH: &'static str = "depth";

pub const HEADING: &'static str = "heading";

pub const SPEED: &'static str = "speed";

pub const WIND: &'static str = "wind";

pub const TEMPERATURE: &'static str = "temperature";

} // verus!
