//! Decoding of button codes sent by 433 MHz on/off-keyed remote controls.
//!
//! Such a remote sends a packet as a train of pulses: each bit is a mark and
//! a space, one of them three times as long as the other, and a long break
//! separates the repeats of the packet. [`decode`] recovers the code from the
//! durations of the pulses without knowing the remote's timing beforehand.

pub mod code;
pub mod decoder;
pub mod hex;
pub mod packet;
pub mod pulse;
pub mod radix;
pub mod repeats;
pub mod scaling;

pub use code::Code;
pub use decoder::{decode, Error};
pub use hex::HexError;
pub use pulse::{round_div, BREAK_PULSE_LENGTH};
