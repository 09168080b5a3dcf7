//! Motion sequencing for a network-attached hobby servo.
//!
//! A command payload (`angle0,wait1,angle1,...`) is parsed into a timeline,
//! each angle is mapped onto a calibrated duty-cycle range, and the resulting
//! actuator commands are executed one job at a time by a single owner of the
//! pulse-width output.
pub mod command;
pub mod duty;
pub mod netconfig;
pub mod sequencer;
