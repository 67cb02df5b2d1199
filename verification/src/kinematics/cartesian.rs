//! Cartesian machines: each stepper drives one axis.

use vstd::prelude::*;
use crate::itersolve::ActiveFlags;
use crate::kinematics::{lowercase_of, same_text, to_lowercase};

verus! {

/// The axis that a stepper drives.
#[derive(Debug, Clone, Copy, PartialEq, Eq, Structural)]
pub enum Axis {
    X,
    Y,
    Z,
}

/// The axis that a lower-case name stands for.
pub open spec fn axis_named(lowered: Seq<char>) -> Option<Axis> {
    if lowered == "x"@ {
        Some(Axis::X)
    } else if lowered == "y"@ {
        Some(Axis::Y)
    } else if lowered == "z"@ {
        Some(Axis::Z)
    } else {
        None
    }
}

impl Axis {
    /// The axis named by a text already in lower case.
    pub fn from_lowered(lowered: &str) -> (axis: Option<Axis>)
        ensures
            axis == axis_named(lowered@),
    {
        if same_text(lowered, "x") {
            Some(Axis::X)
        } else if same_text(lowered, "y") {
            Some(Axis::Y)
        } else if same_text(lowered, "z") {
            Some(Axis::Z)
        } else {
            None
        }
    }

    /// The axis named by `s`, in either case.
    pub fn parse(s: &str) -> (axis: Option<Axis>)
        ensures
            axis == axis_named(lowercase_of(s@)),
    {
        let lowered = to_lowercase(s);
        Axis::from_lowered(lowered.as_str())
    }
}

/// A stepper of a Cartesian machine.
pub struct CartesianKin {
    axis: Axis,
}

impl CartesianKin {
    pub closed spec fn spec_axis(&self) -> Axis {
        self.axis
    }

    pub fn new(axis: Axis) -> (kin: Self)
        ensures
            kin.spec_axis() == axis,
    {
        CartesianKin { axis }
    }

    pub fn axis(&self) -> (axis: Axis)
        ensures
            axis == self.spec_axis(),
    {
        self.axis
    }

    /// The stepper's own axis and no other.
    pub fn active_flags(&self) -> (flags: ActiveFlags)
        ensures
            flags.active_x() == (self.spec_axis() == Axis::X),
            flags.active_y() == (self.spec_axis() == Axis::Y),
            flags.active_z() == (self.spec_axis() == Axis::Z),
    {
        match self.axis {
            Axis::X => ActiveFlags::new().with_x(),
            Axis::Y => ActiveFlags::new().with_y(),
            Axis::Z => ActiveFlags::new().with_z(),
        }
    }
}

} // verus!
