//! Consistent Overhead Byte Stuffing (COBS).
//!
//! A COBS frame carries an arbitrary byte buffer over a channel that uses a
//! single marker value as a frame delimiter. Encoding removes every occurrence
//! of the marker from the payload and appends the marker exactly once, as a
//! terminator. Runs of payload bytes are prefixed by a distance byte giving
//! the offset to the next distance byte or to the terminator; a run is capped
//! at 254 bytes, a distance byte of 0xff signalling that a forced break, not a
//! removed marker, follows.
//!
//! The crate offers [`stuff`] to encode and [`unstuff`] to decode, both
//! verified against the sequence-level model in [`frame`].

pub mod decode;
pub mod encode;
pub mod frame;
pub mod laws;

pub use decode::unstuff;
pub use decode::UnstuffError;
pub use encode::stuff;
pub use encode::MarkerInfo;
