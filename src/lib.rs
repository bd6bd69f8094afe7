//! A side-scrolling reflex game's simulation: a sine-wave front that the
//! player dampens at the cost of a life meter, a scrolling trail and drifting,
//! spinning obstacles.
//!
//! All quantities are exact integers: time in microseconds, positions in
//! micropixels, life in millionths of a point and rotation in millionths of a
//! turn. The front's sine is a rational approximation in millionths (see
//! `wave::sine_spec`), so a whole period returns the front exactly to where it
//! started.
//!
//! `field` holds the session, its mathematical model and the verified
//! sub-step and frame; `wave` the sine and the life meter; `laws` the
//! properties that relate several steps.

mod chance;
pub mod field;
pub mod laws;
pub mod wave;

use vstd::prelude::*;

verus! {

} // verus!
