//! What holds of the transport instruction's encoding as a whole.

use vstd::prelude::*;

use crate::wire::error::WireError;
use crate::wire::field::{lemma_varint_prefix_bounds, parse_tag, skip_value};
use crate::wire::field_laws::{
    lemma_bytes_extend, lemma_read_bytes_field, lemma_read_varint_field, lemma_skip_value_extends,
    lemma_varint_prefix_extends,
};
use crate::wire::transport::{
    apply_transport_field, blank_transport, is_transport_field, lemma_apply_transport_bounds,
    merge_transport, transport_bytes, with_bytes, with_number, TransportView,
};
use crate::wire::writer::{bytes_field_bytes, varint_field_bytes};

verus! {

/// A numeric field in front of `rest` is set and `rest` is merged behind it.
pub proof fn lemma_merge_number(inst: TransportView, field: u32, value: u64, rest: Seq<u8>)
    requires
        1 <= field <= 5,
    ensures
        merge_transport(inst, varint_field_bytes(field, value) + rest) == merge_transport(
            with_number(inst, field, value),
            rest,
        ),
{
    reveal(merge_transport);
    lemma_read_varint_field(field, value, rest);
}

/// A byte-string field in front of `rest` is set and `rest` is merged behind it.
pub proof fn lemma_merge_bytes(inst: TransportView, field: u32, value: Seq<u8>, rest: Seq<u8>)
    requires
        6 <= field <= 7,
        value.len() <= u64::MAX,
    ensures
        merge_transport(inst, bytes_field_bytes(field, value) + rest) == merge_transport(
            with_bytes(inst, field, value),
            rest,
        ),
{
    reveal(merge_transport);
    lemma_read_bytes_field(field, value, rest);
}

/// Concatenation is associative, for seven byte strings.
pub proof fn lemma_seven_fields(
    f1: Seq<u8>,
    f2: Seq<u8>,
    f3: Seq<u8>,
    f4: Seq<u8>,
    f5: Seq<u8>,
    f6: Seq<u8>,
    f7: Seq<u8>,
)
    ensures
        f1 + f2 + f3 + f4 + f5 + f6 + f7 == f1 + (f2 + (f3 + (f4 + (f5 + (f6 + (f7
            + Seq::<u8>::empty())))))),
{
    assert(f7 + Seq::<u8>::empty() == f7);
    assert(f1 + f2 + f3 + f4 + f5 + f6 + f7 == f1 + f2 + f3 + f4 + f5 + (f6 + f7));
    assert(f1 + f2 + f3 + f4 + f5 + (f6 + f7) == f1 + f2 + f3 + f4 + (f5 + (f6 + f7)));
    assert(f1 + f2 + f3 + f4 + (f5 + (f6 + f7)) == f1 + f2 + f3 + (f4 + (f5 + (f6 + f7))));
    assert(f1 + f2 + f3 + (f4 + (f5 + (f6 + f7))) == f1 + f2 + (f3 + (f4 + (f5 + (f6 + f7)))));
    assert(f1 + f2 + (f3 + (f4 + (f5 + (f6 + f7)))) == f1 + (f2 + (f3 + (f4 + (f5 + (f6 + f7))))));
}

/// An encoded instruction decodes to itself.
pub proof fn law_transport_round_trip(inst: TransportView)
    requires
        inst.diff.len() <= usize::MAX,
        inst.chaff.len() <= usize::MAX,
    ensures
        merge_transport(blank_transport(), transport_bytes(inst)) == Ok::<TransportView, WireError>(
            inst,
        ),
{
    let f1 = varint_field_bytes(1, inst.protocol_version as u64);
    let f2 = varint_field_bytes(2, inst.old_num);
    let f3 = varint_field_bytes(3, inst.new_num);
    let f4 = varint_field_bytes(4, inst.ack_num);
    let f5 = varint_field_bytes(5, inst.throwaway_num);
    let f6 = bytes_field_bytes(6, inst.diff);
    let f7 = bytes_field_bytes(7, inst.chaff);
    let none = Seq::<u8>::empty();
    let s7 = f7 + none;
    let s6 = f6 + s7;
    let s5 = f5 + s6;
    let s4 = f4 + s5;
    let s3 = f3 + s4;
    let s2 = f2 + s3;
    let s1 = f1 + s2;
    lemma_seven_fields(f1, f2, f3, f4, f5, f6, f7);
    let i0 = blank_transport();
    let i1 = with_number(i0, 1, inst.protocol_version as u64);
    let i2 = with_number(i1, 2, inst.old_num);
    let i3 = with_number(i2, 3, inst.new_num);
    let i4 = with_number(i3, 4, inst.ack_num);
    let i5 = with_number(i4, 5, inst.throwaway_num);
    let i6 = with_bytes(i5, 6, inst.diff);
    let i7 = with_bytes(i6, 7, inst.chaff);
    lemma_merge_number(i0, 1, inst.protocol_version as u64, s2);
    lemma_merge_number(i1, 2, inst.old_num, s3);
    lemma_merge_number(i2, 3, inst.new_num, s4);
    lemma_merge_number(i3, 4, inst.ack_num, s5);
    lemma_merge_number(i4, 5, inst.throwaway_num, s6);
    lemma_merge_bytes(i5, 6, inst.diff, s7);
    lemma_merge_bytes(i6, 7, inst.chaff, none);
    assert(i7 == inst);
    assert(merge_transport(i7, none) == Ok::<TransportView, WireError>(i7)) by {
        reveal(merge_transport);
    }
}

/// Merging two runs of fields one behind the other is merging the first and
/// then the second.
pub proof fn law_transport_merge_appends(inst: TransportView, first: Seq<u8>, second: Seq<u8>)
    ensures
        merge_transport(inst, first) matches Ok(mid) ==> merge_transport(inst, first + second)
            == merge_transport(mid, second),
    decreases first.len(),
{
    reveal(merge_transport);
    if merge_transport(inst, first) is Ok {
        if first.len() == 0 {
            assert(first + second == second);
        } else {
            let whole = first + second;
            let (tag, n) = parse_tag(first);
            lemma_varint_prefix_bounds(first, 10);
            lemma_varint_prefix_extends(first, 10, second);
            let (field, wire_type) = tag->Ok_0;
            let value = first.skip(n as int);
            assert(whole.skip(n as int) == value + second);
            lemma_apply_transport_bounds(inst, field, wire_type, value);
            lemma_varint_prefix_extends(value, 10, second);
            lemma_bytes_extend(value, second);
            lemma_skip_value_extends(value, wire_type, second);
            let (next, m) = apply_transport_field(inst, field, wire_type, value)->Ok_0;
            assert((value + second).skip(m as int) == value.skip(m as int) + second);
            law_transport_merge_appends(next, value.skip(m as int), second);
        }
    }
}

/// Whether `s` is exactly one well-formed field that a transport instruction
/// gives no meaning to.
pub open spec fn is_unknown_transport_field(s: Seq<u8>) -> bool {
    let (tag, n) = parse_tag(s);
    match tag {
        Err(_) => false,
        Ok((field, wire_type)) => {
            &&& !is_transport_field(field, wire_type)
            &&& skip_value(s.skip(n as int), wire_type) == Ok::<nat, WireError>(
                (s.len() - n) as nat,
            )
        },
    }
}

/// An unknown field on its own changes nothing.
proof fn lemma_merge_unknown(mid: TransportView, unknown: Seq<u8>)
    requires
        is_unknown_transport_field(unknown),
    ensures
        merge_transport(mid, unknown) == Ok::<TransportView, WireError>(mid),
{
    reveal(merge_transport);
    let (tag, n) = parse_tag(unknown);
    lemma_varint_prefix_bounds(unknown, 10);
    let value = unknown.skip(n as int);
    let end = value.skip(value.len() as int);
    assert(end.len() == 0);
    assert(merge_transport(mid, end) == Ok::<TransportView, WireError>(mid));
}

/// An unknown field between two runs of fields changes nothing.
pub proof fn law_unknown_transport_fields_are_skipped(
    before: Seq<u8>,
    unknown: Seq<u8>,
    after: Seq<u8>,
)
    requires
        merge_transport(blank_transport(), before) is Ok,
        is_unknown_transport_field(unknown),
    ensures
        merge_transport(blank_transport(), before + unknown + after) == merge_transport(
            blank_transport(),
            before + after,
        ),
{
    let mid = merge_transport(blank_transport(), before)->Ok_0;
    lemma_merge_unknown(mid, unknown);
    law_transport_merge_appends(mid, unknown, after);
    assert(before + unknown + after == before + (unknown + after));
    law_transport_merge_appends(blank_transport(), before, unknown + after);
    law_transport_merge_appends(blank_transport(), before, after);
}

} // verus!
