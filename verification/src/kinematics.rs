//! Which stepper of a machine a configuration entry names.
//!
//! Each topology says here which Cartesian axes reach one of its steppers.

use vstd::prelude::*;
use crate::itersolve::ActiveFlags;
use crate::kinematics::cartesian::Axis;

pub mod cartesian;
pub mod corexy;
pub mod corexz;
pub mod polar;

verus! {

/// The lower-case form of a text, as `str::to_lowercase` gives it.
pub uninterp spec fn lowercase_of(text: Seq<char>) -> Seq<char>;

/// `str::to_lowercase`: the text with every character replaced by its
/// lower-case form. The contract only names the result; it is the same
/// for the same text.
#[verifier::external_body]
pub(crate) fn to_lowercase(text: &str) -> (lowered: String)
    ensures
        lowered@ == lowercase_of(text@),
{
    text.to_lowercase()
}

/// Whether two texts hold the same characters.
pub fn same_text(a: &str, b: &str) -> (same: bool)
    ensures
        same == (a@ == b@),
{
    a.to_owned() == b.to_owned()
}

/// The kinds of stepper, as far as the axes that reach them go.
#[derive(Debug, Clone, Copy, PartialEq, Eq, Structural)]
pub enum Topology {
    /// One axis of a Cartesian machine.
    Cartesian(Axis),
    /// A belt of a CoreXY machine.
    CoreXY,
    /// A belt of a CoreXZ machine.
    CoreXZ,
    /// A tower of a delta machine.
    Delta,
    /// A tower of a deltesian machine.
    Deltesian,
    /// Radius or angle of a polar machine.
    Polar,
    /// An arm of a rotary delta machine.
    RotaryDelta,
    /// A winch that pulls by a cable.
    Winch,
    /// A weighted sum of the axes; an axis counts where its weight is not zero.
    Generic { x: bool, y: bool, z: bool },
}

impl Topology {
    /// Whether motion along X reaches a stepper of this kind.
    pub open spec fn reached_by_x(self) -> bool {
        match self {
            Topology::Cartesian(axis) => axis == Axis::X,
            Topology::Generic { x, y, z } => x,
            _ => true,
        }
    }

    /// Whether motion along Y reaches a stepper of this kind.
    pub open spec fn reached_by_y(self) -> bool {
        match self {
            Topology::Cartesian(axis) => axis == Axis::Y,
            Topology::CoreXY => true,
            Topology::Delta => true,
            Topology::Polar => true,
            Topology::RotaryDelta => true,
            Topology::Winch => true,
            Topology::Generic { x, y, z } => y,
            _ => false,
        }
    }

    /// Whether motion along Z reaches a stepper of this kind.
    pub open spec fn reached_by_z(self) -> bool {
        match self {
            Topology::Cartesian(axis) => axis == Axis::Z,
            Topology::CoreXZ => true,
            Topology::Delta => true,
            Topology::Deltesian => true,
            Topology::RotaryDelta => true,
            Topology::Winch => true,
            Topology::Generic { x, y, z } => z,
            _ => false,
        }
    }

    /// The axes that reach a stepper of this kind.
    pub fn active_flags(&self) -> (flags: ActiveFlags)
        ensures
            flags.active_x() == self.reached_by_x(),
            flags.active_y() == self.reached_by_y(),
            flags.active_z() == self.reached_by_z(),
    {
        let none = ActiveFlags::new();
        match self {
            Topology::Cartesian(axis) => match axis {
                Axis::X => none.with_x(),
                Axis::Y => none.with_y(),
                Axis::Z => none.with_z(),
            },
            Topology::CoreXY => none.with_x().with_y(),
            Topology::CoreXZ => none.with_x().with_z(),
            Topology::Delta => none.with_x().with_y().with_z(),
            Topology::Deltesian => none.with_x().with_z(),
            Topology::Polar => none.with_x().with_y(),
            Topology::RotaryDelta => none.with_x().with_y().with_z(),
            Topology::Winch => none.with_x().with_y().with_z(),
            Topology::Generic { x, y, z } => {
                let mut flags = none;
                if *x {
                    flags = flags.with_x();
                }
                if *y {
                    flags = flags.with_y();
                }
                if *z {
                    flags = flags.with_z();
                }
                flags
            },
        }
    }
}

} // verus!
