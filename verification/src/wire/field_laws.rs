//! How the field readers and writers relate: what is written is read back, and
//! a reader that succeeds does not depend on the bytes behind what it used.

use vstd::arithmetic::power2::{lemma2_to64, lemma2_to64_rest, lemma_pow2_adds, pow2};
use vstd::prelude::*;

use crate::wire::error::WireError;
use crate::wire::field::{
    lemma_skip_scalar_bounds, lemma_varint_prefix_bounds, parse_bytes, parse_tag, parse_varint,
    skip_groups, skip_scalar, skip_value, varint_prefix,
};
use crate::wire::writer::{bytes_field_bytes, tag_bytes, tag_key, varint_bytes, varint_field_bytes};

verus! {

/// A varint of `room` bytes holds every value below `128^room`.
proof fn lemma_varint_prefix_of_bytes(value: nat, room: nat, rest: Seq<u8>)
    requires
        value < pow2(7 * room),
        room > 0,
    ensures
        varint_prefix(varint_bytes(value) + rest, room) == (
            Ok::<nat, WireError>(value),
            varint_bytes(value).len(),
        ),
    decreases room,
{
    let s = varint_bytes(value) + rest;
    if value >= 0x80 {
        lemma2_to64();
        if room == 1 {
            assert(false);
        }
        lemma_pow2_adds(7, (7 * (room - 1)) as nat);
        assert(value / 0x80 < pow2((7 * (room - 1)) as nat));
        lemma_varint_prefix_of_bytes(value / 0x80, (room - 1) as nat, rest);
        assert(s.skip(1) == varint_bytes(value / 0x80) + rest);
    }
}

/// Every 64-bit value survives being written as a varint and read back, whatever
/// follows it.
pub proof fn law_varint_round_trip(value: u64, rest: Seq<u8>)
    ensures
        parse_varint(varint_bytes(value as nat) + rest) == (
            Ok::<u64, WireError>(value),
            varint_bytes(value as nat).len(),
        ),
{
    lemma2_to64_rest();
    lemma_pow2_adds(64, 6);
    lemma2_to64();
    lemma_varint_prefix_of_bytes(value as nat, 10, rest);
}

/// A field number and a wire type survive being written as a key and read back.
pub proof fn law_tag_round_trip(field: u32, wire_type: u8, rest: Seq<u8>)
    requires
        wire_type < 8,
    ensures
        parse_tag(tag_bytes(field, wire_type) + rest) == (
            Ok::<(u32, u8), WireError>((field, wire_type)),
            tag_bytes(field, wire_type).len(),
        ),
{
    let key = tag_key(field, wire_type);
    assert(key == ((field as u64) << 3) | (wire_type as u64));
    assert((((field as u64) << 3) | (wire_type as u64)) == 8 * field + wire_type) by (bit_vector)
        requires
            wire_type < 8,
    ;
    law_varint_round_trip(key, rest);
}

/// A byte string survives being written with its length and read back.
pub proof fn law_bytes_round_trip(bytes: Seq<u8>, rest: Seq<u8>)
    requires
        bytes.len() <= u64::MAX,
    ensures
        parse_bytes(varint_bytes(bytes.len()) + bytes + rest) == (
            Ok::<Seq<u8>, WireError>(bytes),
            varint_bytes(bytes.len()).len() + bytes.len(),
        ),
{
    let head = varint_bytes(bytes.len());
    let s = head + bytes + rest;
    law_varint_round_trip(bytes.len() as u64, bytes + rest);
    assert(s == head + (bytes + rest));
    assert(s.subrange(head.len() as int, (head.len() + bytes.len()) as int) == bytes);
}

/// How an encoded varint field in front of `rest` is read.
pub proof fn lemma_read_varint_field(field: u32, value: u64, rest: Seq<u8>)
    ensures
        ({
            let s = varint_field_bytes(field, value) + rest;
            let n = tag_bytes(field, 0).len();
            let m = varint_bytes(value as nat).len();
            &&& s.len() > 0
            &&& parse_tag(s) == (Ok::<(u32, u8), WireError>((field, 0)), n)
            &&& parse_varint(s.skip(n as int)) == (Ok::<u64, WireError>(value), m)
            &&& s.skip(n as int).skip(m as int) == rest
        }),
{
    let tag = tag_bytes(field, 0);
    let body = varint_bytes(value as nat);
    let s = varint_field_bytes(field, value) + rest;
    assert(s == tag + (body + rest));
    law_tag_round_trip(field, 0, body + rest);
    assert(s.skip(tag.len() as int) == body + rest);
    law_varint_round_trip(value, rest);
    assert((body + rest).skip(body.len() as int) == rest);
}

/// How an encoded length-delimited field in front of `rest` is read.
pub proof fn lemma_read_bytes_field(field: u32, value: Seq<u8>, rest: Seq<u8>)
    requires
        value.len() <= u64::MAX,
    ensures
        ({
            let s = bytes_field_bytes(field, value) + rest;
            let n = tag_bytes(field, 2).len();
            let m = varint_bytes(value.len()).len() + value.len();
            &&& s.len() > 0
            &&& parse_tag(s) == (Ok::<(u32, u8), WireError>((field, 2)), n)
            &&& parse_bytes(s.skip(n as int)) == (Ok::<Seq<u8>, WireError>(value), m)
            &&& s.skip(n as int).skip(m as int) == rest
        }),
{
    let tag = tag_bytes(field, 2);
    let body = varint_bytes(value.len()) + value;
    let s = bytes_field_bytes(field, value) + rest;
    assert(s == tag + (body + rest));
    law_tag_round_trip(field, 2, body + rest);
    assert(s.skip(tag.len() as int) == body + rest);
    law_bytes_round_trip(value, rest);
    assert((body + rest).skip(body.len() as int) == rest);
}

/// A varint that was read is read the same with more bytes behind it.
pub proof fn lemma_varint_prefix_extends(s: Seq<u8>, room: nat, more: Seq<u8>)
    ensures
        varint_prefix(s, room).0 is Ok ==> varint_prefix(s + more, room) == varint_prefix(s, room),
    decreases room,
{
    if room > 0 && s.len() > 0 && s[0] >= 0x80 {
        lemma_varint_prefix_extends(s.skip(1), (room - 1) as nat, more);
        assert((s + more).skip(1) == s.skip(1) + more);
    }
}

/// A length-delimited value that was read is read the same with more bytes
/// behind it.
pub proof fn lemma_bytes_extend(s: Seq<u8>, more: Seq<u8>)
    ensures
        parse_bytes(s).0 is Ok ==> parse_bytes(s + more) == parse_bytes(s),
{
    lemma_varint_prefix_extends(s, 10, more);
    lemma_varint_prefix_bounds(s, 10);
    let (len, n) = parse_varint(s);
    if let Ok(l) = len {
        if l <= s.len() - n {
            assert((s + more).subrange(n as int, n + l) == s.subrange(n as int, n + l));
        }
    }
}

/// A scalar that was skipped is skipped the same with more bytes behind it.
pub proof fn lemma_skip_scalar_extends(s: Seq<u8>, wire_type: u8, more: Seq<u8>)
    ensures
        skip_scalar(s, wire_type) is Ok ==> skip_scalar(s + more, wire_type) == skip_scalar(
            s,
            wire_type,
        ),
{
    lemma_varint_prefix_extends(s, 10, more);
    lemma_bytes_extend(s, more);
}

/// Groups that were skipped lie within the bytes they were found in, and are
/// skipped the same with more bytes behind them.
pub proof fn lemma_skip_groups_extend(s: Seq<u8>, depth: nat, more: Seq<u8>)
    ensures
        skip_groups(s, depth) matches Ok(n) ==> n <= s.len(),
        skip_groups(s, depth) is Ok ==> skip_groups(s + more, depth) == skip_groups(s, depth),
    decreases s.len(),
{
    reveal(skip_groups);
    if depth > 0 && skip_groups(s, depth) is Ok {
        let (tag, n) = parse_tag(s);
        lemma_varint_prefix_bounds(s, 10);
        lemma_varint_prefix_extends(s, 10, more);
        let wire_type = tag->Ok_0.1;
        let tail = s.skip(n as int);
        assert((s + more).skip(n as int) == tail + more);
        if wire_type == 4 {
            lemma_skip_groups_extend(tail, (depth - 1) as nat, more);
        } else if wire_type == 3 {
            lemma_skip_groups_extend(tail, depth + 1, more);
        } else {
            lemma_skip_scalar_extends(tail, wire_type, more);
            lemma_skip_scalar_bounds(tail, wire_type);
            let m = skip_scalar(tail, wire_type)->Ok_0;
            lemma_skip_groups_extend(tail.skip(m as int), depth, more);
            assert((tail + more).skip(m as int) == tail.skip(m as int) + more);
        }
    }
}

/// A value that was skipped lies within the bytes it was found in, and is
/// skipped the same with more bytes behind it.
pub proof fn lemma_skip_value_extends(s: Seq<u8>, wire_type: u8, more: Seq<u8>)
    ensures
        skip_value(s, wire_type) matches Ok(n) ==> n <= s.len(),
        skip_value(s, wire_type) is Ok ==> skip_value(s + more, wire_type) == skip_value(
            s,
            wire_type,
        ),
{
    if wire_type == 3 {
        lemma_skip_groups_extend(s, 1, more);
    } else {
        lemma_skip_scalar_extends(s, wire_type, more);
        lemma_skip_scalar_bounds(s, wire_type);
    }
}

/// A varint that is cut off is truncated.
proof fn lemma_cut_varint_prefix(value: nat, room: nat, k: int)
    requires
        0 <= k < varint_bytes(value).len(),
        k < room,
    ensures
        varint_prefix(varint_bytes(value).take(k), room) == (
            Err::<nat, WireError>(WireError::Truncated),
            k as nat,
        ),
    decreases k,
{
    if k > 0 {
        let s = varint_bytes(value).take(k);
        lemma_cut_varint_prefix(value / 0x80, (room - 1) as nat, k - 1);
        assert(s.skip(1) =~= varint_bytes(value / 0x80).take(k - 1));
    }
}

/// A 64-bit varint that is cut off is truncated.
pub proof fn law_cut_varint_is_truncated(value: u64, k: int)
    requires
        0 <= k < varint_bytes(value as nat).len(),
    ensures
        parse_varint(varint_bytes(value as nat).take(k)) == (
            Err::<u64, WireError>(WireError::Truncated),
            k as nat,
        ),
{
    let whole = varint_bytes(value as nat);
    let none = Seq::<u8>::empty();
    law_varint_round_trip(value, none);
    assert(whole + none =~= whole);
    lemma_varint_prefix_bounds(whole, 10);
    lemma_cut_varint_prefix(value as nat, 10, k);
}

/// A length-delimited value that is cut off is truncated, or too short for its
/// length.
pub proof fn law_cut_bytes_are_refused(bytes: Seq<u8>, k: int)
    requires
        bytes.len() <= u64::MAX,
        0 <= k < varint_bytes(bytes.len()).len() + bytes.len(),
    ensures
        parse_bytes((varint_bytes(bytes.len()) + bytes).take(k)).0 == Err::<Seq<u8>, WireError>(
            if k < varint_bytes(bytes.len()).len() {
                WireError::Truncated
            } else {
                WireError::BadLength
            },
        ),
{
    let head = varint_bytes(bytes.len());
    let s = (head + bytes).take(k);
    if k < head.len() {
        law_cut_varint_is_truncated(bytes.len() as u64, k);
        assert(s =~= head.take(k));
    } else {
        let rest = bytes.take(k - head.len());
        law_varint_round_trip(bytes.len() as u64, rest);
        assert(s =~= head + rest);
    }
}

/// A key that never ends cannot be read.
pub proof fn law_endless_tag_is_unreadable(s: Seq<u8>)
    requires
        forall|i: int| 0 <= i < s.len() ==> #[trigger] s[i] >= 0x80,
    ensures
        parse_tag(s).0 is Err,
{
    lemma_endless_varint(s, 10);
}

/// A varint that never ends cannot be read.
proof fn lemma_endless_varint(s: Seq<u8>, room: nat)
    requires
        forall|i: int| 0 <= i < s.len() ==> #[trigger] s[i] >= 0x80,
    ensures
        varint_prefix(s, room).0 is Err,
    decreases room,
{
    if room > 0 && s.len() > 0 {
        assert forall|i: int| 0 <= i < s.skip(1).len() implies #[trigger] s.skip(1)[i] >= 0x80 by {
            assert(s.skip(1)[i] == s[i + 1]);
        }
        lemma_endless_varint(s.skip(1), (room - 1) as nat);
    }
}

} // verus!
