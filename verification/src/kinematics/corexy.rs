//! CoreXY machines: two steppers drive X and Y together.

use vstd::prelude::*;
use crate::itersolve::ActiveFlags;
use crate::kinematics::same_text;

verus! {

/// Which of the two belts a stepper drives.
#[derive(Debug, Clone, Copy, PartialEq, Eq, Structural)]
pub enum StepperType {
    /// Position is X + Y.
    Plus,
    /// Position is X - Y.
    Minus,
}

/// The stepper that a name stands for.
pub open spec fn stepper_named(name: Seq<char>) -> Option<StepperType> {
    if name == "+"@ || name == "plus"@ {
        Some(StepperType::Plus)
    } else if name == "-"@ || name == "minus"@ {
        Some(StepperType::Minus)
    } else {
        None
    }
}

impl StepperType {
    pub fn parse(s: &str) -> (stepper: Option<StepperType>)
        ensures
            stepper == stepper_named(s@),
    {
        if same_text(s, "+") || same_text(s, "plus") {
            Some(StepperType::Plus)
        } else if same_text(s, "-") || same_text(s, "minus") {
            Some(StepperType::Minus)
        } else {
            None
        }
    }
}

/// A stepper of a CoreXY machine.
pub struct CoreXYKin {
    stepper_type: StepperType,
}

impl CoreXYKin {
    pub closed spec fn spec_stepper_type(&self) -> StepperType {
        self.stepper_type
    }

    pub fn new(stepper_type: StepperType) -> (kin: Self)
        ensures
            kin.spec_stepper_type() == stepper_type,
    {
        CoreXYKin { stepper_type }
    }

    pub fn stepper_type(&self) -> (stepper: StepperType)
        ensures
            stepper == self.spec_stepper_type(),
    {
        self.stepper_type
    }

    /// X and Y, whichever belt it is.
    pub fn active_flags(&self) -> (flags: ActiveFlags)
        ensures
            flags.active_x(),
            flags.active_y(),
            !flags.active_z(),
    {
        ActiveFlags::new().with_x().with_y()
    }
}

} // verus!
