use scherzo_core::itersolve::ActiveFlags;
use scherzo_core::kinematics::cartesian::{Axis, CartesianKin};
use scherzo_core::kinematics::corexy;
use scherzo_core::kinematics::corexz;
use scherzo_core::kinematics::polar::PolarAxis;
use scherzo_core::kinematics::Topology;

#[test]
fn axis_parse() {
    assert_eq!(Axis::parse("x"), Some(Axis::X));
    assert_eq!(Axis::parse("X"), Some(Axis::X));
    assert_eq!(Axis::parse("y"), Some(Axis::Y));
    assert_eq!(Axis::parse("z"), Some(Axis::Z));
    assert_eq!(Axis::parse("w"), None);
}

#[test]
fn cartesian_active_flags() {
    assert!(CartesianKin::new(Axis::X).active_flags().has_x());
    assert!(!CartesianKin::new(Axis::X).active_flags().has_y());
    assert!(CartesianKin::new(Axis::Y).active_flags().has_y());
    assert!(CartesianKin::new(Axis::Z).active_flags().has_z());
}

#[test]
fn corexy_stepper_type_parse() {
    assert_eq!(corexy::StepperType::parse("+"), Some(corexy::StepperType::Plus));
    assert_eq!(corexy::StepperType::parse("plus"), Some(corexy::StepperType::Plus));
    assert_eq!(corexy::StepperType::parse("-"), Some(corexy::StepperType::Minus));
    assert_eq!(corexy::StepperType::parse("minus"), Some(corexy::StepperType::Minus));
    assert_eq!(corexy::StepperType::parse("x"), None);
}

#[test]
fn corexz_stepper_type_parse() {
    assert_eq!(corexz::StepperType::parse("+"), Some(corexz::StepperType::Plus));
    assert_eq!(corexz::StepperType::parse("plus"), Some(corexz::StepperType::Plus));
    assert_eq!(corexz::StepperType::parse("-"), Some(corexz::StepperType::Minus));
    assert_eq!(corexz::StepperType::parse("minus"), Some(corexz::StepperType::Minus));
    assert_eq!(corexz::StepperType::parse("x"), None);
}

#[test]
fn polar_axis_parse() {
    assert_eq!(PolarAxis::parse("r"), Some(PolarAxis::Radius));
    assert_eq!(PolarAxis::parse("radius"), Some(PolarAxis::Radius));
    assert_eq!(PolarAxis::parse("a"), Some(PolarAxis::Angle));
    assert_eq!(PolarAxis::parse("angle"), Some(PolarAxis::Angle));
    assert_eq!(PolarAxis::parse("x"), None);
}

#[test]
fn parse_ignores_case_of_longer_names() {
    assert_eq!(PolarAxis::parse("RADIUS"), Some(PolarAxis::Radius));
    assert_eq!(PolarAxis::parse("Angle"), Some(PolarAxis::Angle));
    assert_eq!(Axis::parse("Z"), Some(Axis::Z));
    assert_eq!(Axis::parse("xy"), None);
    assert_eq!(Axis::parse(""), None);
}

#[test]
fn lowered_names_are_matched_as_given() {
    assert_eq!(Axis::from_lowered("x"), Some(Axis::X));
    assert_eq!(Axis::from_lowered("X"), None);
    assert_eq!(PolarAxis::from_lowered("radius"), Some(PolarAxis::Radius));
    assert_eq!(PolarAxis::from_lowered("Radius"), None);
}

#[test]
fn stepper_type_is_case_sensitive() {
    assert_eq!(corexy::StepperType::parse("Plus"), None);
    assert_eq!(corexz::StepperType::parse("MINUS"), None);
}

#[test]
fn corexy_and_corexz_flags() {
    let xy = corexy::CoreXYKin::new(corexy::StepperType::Minus).active_flags();
    assert!(xy.has_x() && xy.has_y() && !xy.has_z());
    let xz = corexz::CoreXZKin::new(corexz::StepperType::Plus).active_flags();
    assert!(xz.has_x() && !xz.has_y() && xz.has_z());
}

#[test]
fn flags_start_empty_and_add_up() {
    let none = ActiveFlags::new();
    assert!(!none.has_x() && !none.has_y() && !none.has_z());
    let yz = ActiveFlags::new().with_y().with_z();
    assert!(!yz.has_x() && yz.has_y() && yz.has_z());
    let all = yz.with_x();
    assert!(all.has_x() && all.has_y() && all.has_z());
    let d = ActiveFlags::default();
    assert!(!d.has_x() && !d.has_y() && !d.has_z());
}

#[test]
fn y_stepper_is_not_reached_by_x_only_move() {
    let flags = ActiveFlags::new().with_y();
    assert!(!flags.check_active(true, false, false));
    assert!(flags.check_active(true, true, false));
    assert!(flags.check_active(false, true, true));
    assert!(!flags.check_active(false, false, true));
}

#[test]
fn active_axis_by_letter() {
    let flags = ActiveFlags::new().with_x().with_z();
    assert!(flags.is_active_axis('x'));
    assert!(flags.is_active_axis('X'));
    assert!(!flags.is_active_axis('y'));
    assert!(!flags.is_active_axis('Y'));
    assert!(flags.is_active_axis('z'));
    assert!(flags.is_active_axis('Z'));
    assert!(!flags.is_active_axis('e'));
}

fn axes(t: Topology) -> (bool, bool, bool) {
    let f = t.active_flags();
    (f.has_x(), f.has_y(), f.has_z())
}

#[test]
fn each_kind_of_stepper_has_its_axes() {
    assert_eq!(axes(Topology::Cartesian(Axis::X)), (true, false, false));
    assert_eq!(axes(Topology::Cartesian(Axis::Y)), (false, true, false));
    assert_eq!(axes(Topology::Cartesian(Axis::Z)), (false, false, true));
    assert_eq!(axes(Topology::CoreXY), (true, true, false));
    assert_eq!(axes(Topology::CoreXZ), (true, false, true));
    assert_eq!(axes(Topology::Delta), (true, true, true));
    assert_eq!(axes(Topology::Deltesian), (true, false, true));
    assert_eq!(axes(Topology::Polar), (true, true, false));
    assert_eq!(axes(Topology::RotaryDelta), (true, true, true));
    assert_eq!(axes(Topology::Winch), (true, true, true));
}

#[test]
fn generic_active_flags_respects_coefficients() {
    // weights 1, 0, 3: X and Z count
    assert_eq!(axes(Topology::Generic { x: true, y: false, z: true }), (true, false, true));
    assert_eq!(axes(Topology::Generic { x: false, y: false, z: false }), (false, false, false));
    assert_eq!(axes(Topology::Generic { x: false, y: true, z: false }), (false, true, false));
}

#[test]
fn rotary_delta_has_all_axes_active() {
    let flags = Topology::RotaryDelta.active_flags();
    assert!(flags.has_x());
    assert!(flags.has_y());
    assert!(flags.has_z());
}
