//! Embedded messages are read back as they were written.

use vstd::prelude::*;

use crate::wire::block::{last_bytes_field, last_varint_field, size_fields};
use crate::wire::field_laws::{lemma_read_bytes_field, lemma_read_varint_field};
use crate::wire::writer::{bytes_field_bytes, varint_field_bytes};

verus! {

/// A block that holds one length-delimited field gives its bytes back.
pub proof fn law_bytes_block_round_trip(field: u32, bytes: Seq<u8>)
    requires
        bytes.len() <= u64::MAX,
    ensures
        last_bytes_field(bytes_field_bytes(field, bytes), field, None) == Some(bytes),
{
    reveal_with_fuel(last_bytes_field, 3);
    lemma_read_bytes_field(field, bytes, Seq::empty());
    assert(bytes_field_bytes(field, bytes) + Seq::<u8>::empty() == bytes_field_bytes(field, bytes));
}

/// A block that holds one varint field gives its value back.
pub proof fn law_varint_block_round_trip(field: u32, value: u64)
    ensures
        last_varint_field(varint_field_bytes(field, value), field, None) == Some(value),
{
    reveal_with_fuel(last_varint_field, 3);
    lemma_read_varint_field(field, value, Seq::empty());
    assert(varint_field_bytes(field, value) + Seq::<u8>::empty() == varint_field_bytes(
        field,
        value,
    ));
}

/// A resize block gives its width and height back, negative ones included.
pub proof fn law_size_block_round_trip(width: i32, height: i32)
    ensures
        size_fields(
            varint_field_bytes(5, width as u64) + varint_field_bytes(6, height as u64),
            (0, 0),
        ) == (width, height),
{
    reveal_with_fuel(size_fields, 4);
    let second = varint_field_bytes(6, height as u64);
    lemma_read_varint_field(5, width as u64, second);
    lemma_read_varint_field(6, height as u64, Seq::empty());
    assert(second + Seq::<u8>::empty() == second);
    assert((width as u64) as i32 == width) by (bit_vector);
    assert((height as u64) as i32 == height) by (bit_vector);
}

} // verus!
