//! DFPWM audio encoding and the `rip` container format.
//!
//! [`dfpwm`] turns signed 8-bit PCM samples into a one-bit-per-sample
//! adaptive delta bitstream; [`rip`] frames such a bitstream together with
//! track metadata.

pub mod dfpwm;
pub mod rip;
