//! Transport driver for the BNO080 sensor hub.
//!
//! The sensor hub frames every transfer with a four-byte header whose
//! length field tells how many bytes the whole packet holds.  A packet
//! longer than one bus transaction is delivered in segments, each with a
//! fresh header, and this crate reassembles those segments into one
//! contiguous packet for the protocol layer above.

use vstd::prelude::*;

pub mod interface;
pub mod sensorhub;

verus! {

/// Errors reported by this crate.
#[derive(Debug)]
pub enum Error<CommE, PinE> {
    /// Sensor communication error
    Comm(CommE),
    /// Pin setting error
    Pin(PinE),
    /// The sensor is not responding
    SensorUnresponsive,
}

} // verus!
