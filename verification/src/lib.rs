//! Emulator core and memory-image codec for the Brother KH-940 knitting
//! machine's external floppy drive.
//!
//! The crate has two verified cores: a byte-level state machine that speaks
//! the FDD-19 wire dialect against an in-memory disk of 80 sectors, and a
//! codec that translates between the machine's packed 32 KiB RAM image and a
//! collection of monochrome knitting patterns.

pub mod disk;
pub mod fdcemu;
pub mod nibble;
pub mod kh940;
pub mod pattern;
pub mod util;

use vstd::prelude::*;

verus! {

/// The error kinds the library surfaces.
#[derive(Clone, Copy, Debug, PartialEq, Eq)]
pub enum KhError {
    /// A byte string has the wrong length for the format it should hold.
    Io,
    /// The wire protocol was violated: unexpected byte, bad framing, or an
    /// out-of-range sector number.
    ProtocolViolation,
    /// A value cannot be encoded: bad BCD digits or oversize dimensions.
    Encoding,
    /// A serialized image would not have its prescribed size.
    Invariant,
}

} // verus!
