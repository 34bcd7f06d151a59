//! What can be wrong with encoded bytes.

use vstd::prelude::*;
use vstd::string::StringExecFns;

use crate::text::{decimal, push_decimal};

verus! {

/// Why a buffer could not be decoded.
#[derive(Debug, PartialEq, Eq)]
pub enum WireError {
    /// The buffer ends in the middle of a value.
    Truncated,
    /// A varint runs past ten bytes.
    BadVarint,
    /// A length-delimited field is longer than what is left of the buffer.
    BadLength,
    /// An end-of-group marker with no open group, or an undefined wire type.
    UnmatchedGroup(u8),
}

/// The message of an error.
pub open spec fn wire_message(e: WireError) -> Seq<char> {
    match e {
        WireError::Truncated => "truncated protobuf"@,
        WireError::BadVarint => "malformed varint (more than 10 bytes)"@,
        WireError::BadLength => "length-delimited field longer than the buffer"@,
        WireError::UnmatchedGroup(wire_type) => "unsupported wire type "@ + decimal(
            wire_type as nat,
        ) + " in a group"@,
    }
}

impl WireError {
    /// The message of the error.
    pub fn to_string(&self) -> (r: String)
        ensures
            r@ == wire_message(*self),
    {
        match self {
            WireError::Truncated => "truncated protobuf".to_owned(),
            WireError::BadVarint => "malformed varint (more than 10 bytes)".to_owned(),
            WireError::BadLength => "length-delimited field longer than the buffer".to_owned(),
            WireError::UnmatchedGroup(wire_type) => {
                let mut out = "unsupported wire type ".to_owned();
                push_decimal(&mut out, *wire_type as u64);
                out.append(" in a group");
                out
            },
        }
    }
}

} // verus!
