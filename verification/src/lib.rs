//! Motion-control core for machines that move a toolhead by stepper motors.
//!
//! A planner hands over trapezoid segments; `trap_queue` keeps them on one
//! timeline. For each stepper, `itersolve` picks the stretches of the queued
//! segments in which its steps are to be looked for, and `step_compressor`
//! turns the clocks of the steps found into runs of evenly changing intervals
//! that a microcontroller replays. `stream` states what holds of the commands
//! that come out. `step_run` and `bisect` hold the geometry of a run and the
//! search for the run that reaches furthest; `arith` the rounding divisions
//! that the search needs. `kinematics` names the steppers of each kind of
//! machine. `config` and `plugin` hold the rules for the runtime's
//! configuration and for what plugins register.

pub mod arith;
pub mod bisect;
pub mod config;
pub mod itersolve;
pub mod kinematics;
pub mod plugin;
pub mod step_compressor;
pub mod step_run;
pub mod stream;
pub mod trap_queue;
