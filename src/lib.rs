//! Bounds-checked codecs for two small binary wire formats: a packet-capture
//! container (global header, record headers, Ethernet II frames) and the
//! fixed header of a name-resolution query message.

pub mod bits;
pub mod cursor;
pub mod query;
pub mod message;
pub mod capture;
pub mod mac;
pub mod blob;

use vstd::prelude::*;

verus! {

/// The ways a decode or an encode can fail.
#[derive(Debug, Clone, Copy, PartialEq, Eq, Structural)]
pub enum WireError {
    /// The buffer is shorter than the field or record that was asked for.
    Truncated,
    /// A capture record's captured length differs from its original length.
    LengthMismatch,
    /// An enumerated field holds a value outside its defined range.
    UnrecognizedField,
    /// A value does not fit in the field it is to be written into.
    FieldOverflow,
}

} // verus!
