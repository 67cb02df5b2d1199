//! Polar machines: the bed turns and the arm moves along a radius.

use vstd::prelude::*;
use crate::kinematics::{lowercase_of, same_text, to_lowercase};

verus! {

/// Which of the two motions a stepper drives.
#[derive(Debug, Clone, Copy, PartialEq, Eq, Structural)]
pub enum PolarAxis {
    Radius,
    Angle,
}

/// The motion that a lower-case name stands for.
pub open spec fn polar_axis_named(lowered: Seq<char>) -> Option<PolarAxis> {
    if lowered == "r"@ || lowered == "radius"@ {
        Some(PolarAxis::Radius)
    } else if lowered == "a"@ || lowered == "angle"@ {
        Some(PolarAxis::Angle)
    } else {
        None
    }
}

impl PolarAxis {
    /// The motion named by a text already in lower case.
    pub fn from_lowered(lowered: &str) -> (axis: Option<PolarAxis>)
        ensures
            axis == polar_axis_named(lowered@),
    {
        if same_text(lowered, "r") || same_text(lowered, "radius") {
            Some(PolarAxis::Radius)
        } else if same_text(lowered, "a") || same_text(lowered, "angle") {
            Some(PolarAxis::Angle)
        } else {
            None
        }
    }

    /// The motion named by `s`, in either case.
    pub fn parse(s: &str) -> (axis: Option<PolarAxis>)
        ensures
            axis == polar_axis_named(lowercase_of(s@)),
    {
        let lowered = to_lowercase(s);
        PolarAxis::from_lowered(lowered.as_str())
    }
}

} // verus!
