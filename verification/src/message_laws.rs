//! The words in which errors are told.

use vstd::prelude::*;

use crate::fragment::error::{fragment_message, FragmentErrorView};
use crate::text::decimal;
use crate::wire::error::{wire_message, WireError};

verus! {

/// The messages of the wire errors.
pub proof fn law_wire_messages(wire_type: u8)
    ensures
        wire_message(WireError::Truncated) == "truncated protobuf"@,
        wire_message(WireError::BadVarint) == "malformed varint (more than 10 bytes)"@,
        wire_message(WireError::BadLength) == "length-delimited field longer than the buffer"@,
        wire_message(WireError::UnmatchedGroup(wire_type)) == "unsupported wire type "@ + decimal(
            wire_type as nat,
        ) + " in a group"@,
{
}

/// The messages of the fragment errors.
pub proof fn law_fragment_messages(words: Seq<char>)
    ensures
        fragment_message(FragmentErrorView::TooShort)
            == "fragment shorter than its 10-byte header"@,
        fragment_message(FragmentErrorView::AssemblyTooLarge)
            == "reassembled payload over the size cap"@,
        fragment_message(FragmentErrorView::IndexTooLarge)
            == "fragment index beyond the 15-bit wire limit"@,
        fragment_message(FragmentErrorView::Inflate(words))
            == "compressed stream failed to inflate: "@ + words,
        fragment_message(FragmentErrorView::Parse(words))
            == "inflated instruction failed to parse: "@ + words,
{
}

} // verus!
