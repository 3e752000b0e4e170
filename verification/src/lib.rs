//! Loudness metering for a microphone overlay.
//!
//! Numbers are binary32 values held as bit patterns ([`single`]), and every
//! operation on them is specified as the exact result rounded to nearest
//! ([`rounding`], [`root`], [`convert`]). On them stand the normalisation of samples
//! ([`samples`]), the reading of a buffer ([`level`]) and the calibration of an alert
//! threshold ([`calibration`]). The course of a capture is a state machine
//! ([`listener`]) over a shared state ([`state`]), with the choice of devices
//! ([`devices`]) and the rate of readings sent to the display ([`throttle`]).
//!
//! The modules whose names end in `laws`, [`precision`] and [`accuracy`] hold what is
//! proved of several functions together.

pub mod accuracy;
pub mod amplitude_laws;
pub mod arithmetic_laws;
pub mod calibration;
pub mod calibration_laws;
pub mod capture_laws;
pub mod convert;
pub mod course_laws;
pub mod devices;
pub mod figure_laws;
pub mod format_laws;
pub mod level;
pub mod level_laws;
pub mod listener;
pub mod loudness_laws;
pub mod positive;
pub mod precision;
pub mod root;
pub mod rounding;
pub mod sample_laws;
pub mod samples;
pub mod single;
pub mod state;
pub mod step_laws;
pub mod threshold_laws;
pub mod throttle;
