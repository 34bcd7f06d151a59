//! What the primitives of the wire format are in plain arithmetic on bytes.

use vstd::arithmetic::div_mod::{lemma_div_basics, lemma_div_denominator};
use vstd::arithmetic::power2::{lemma2_to64, lemma_pow2_adds, lemma_pow2_pos, pow2};
use vstd::prelude::*;

use crate::wire::error::WireError;
use crate::wire::field::{
    groups_used, parse_bytes, parse_tag, parse_varint, skip_groups, skip_value, value_used,
    varint_prefix,
};
use crate::wire::writer::{
    bytes_field_bytes, tag_bytes, tag_key, varint_bytes, varint_field_bytes,
};

verus! {

/// Dividing by 128 and then by a power of it is dividing by the next power.
proof fn lemma_next_group(value: nat, i: int)
    requires
        i > 0,
    ensures
        (value / 0x80) / pow2((7 * (i - 1)) as nat) == value / pow2((7 * i) as nat),
{
    lemma2_to64();
    lemma_pow2_pos((7 * (i - 1)) as nat);
    lemma_pow2_adds(7, (7 * (i - 1)) as nat);
    lemma_div_denominator(value as int, 0x80, pow2((7 * (i - 1)) as nat) as int);
}

/// Byte `i` of a written varint holds bits `7 * i` to `7 * i + 6` of the value,
/// with the high bit set on all but the last, and there is no byte too many.
pub proof fn law_varint_bytes_hold_the_bits(value: nat, i: int)
    requires
        0 <= i < varint_bytes(value).len(),
    ensures
        varint_bytes(value)[i] == (value / pow2((7 * i) as nat)) % 128 + (if i
            < varint_bytes(value).len() - 1 {
            128int
        } else {
            0
        }),
        value < pow2(7 * varint_bytes(value).len()),
        varint_bytes(value).len() > 1 ==> value >= pow2(
            (7 * (varint_bytes(value).len() - 1)) as nat,
        ),
    decreases value,
{
    let v = varint_bytes(value);
    lemma2_to64();
    lemma_div_basics(value as int);
    if value >= 0x80 {
        let rest = varint_bytes(value / 0x80);
        let n = rest.len() as int;
        if i > 0 {
            law_varint_bytes_hold_the_bits(value / 0x80, i - 1);
            assert(v[i] == rest[i - 1]);
            lemma_next_group(value, i);
        } else {
            lemma_varint_not_empty(value / 0x80);
            law_varint_bytes_hold_the_bits(value / 0x80, 0);
        }
        lemma_pow2_adds(7, 7 * rest.len());
        lemma_pow2_adds(7, (7 * (n - 1)) as nat);
    }
}

/// A written varint is not empty.
proof fn lemma_varint_not_empty(value: nat)
    ensures
        varint_bytes(value).len() >= 1,
{
}

/// A run of bytes with the high bit set, and one behind it without, is read as a
/// number: byte `i` gives its bits `7 * i` to `7 * i + 6`, of which 64 are kept.
pub proof fn law_varint_reads_the_bits(s: Seq<u8>, k: int)
    requires
        0 <= k < 10,
        k < s.len(),
        forall|i: int| 0 <= i < k ==> #[trigger] s[i] >= 0x80,
        s[k] < 0x80,
    ensures
        ({
            let value = varint_prefix(s, 10).0->Ok_0;
            &&& value < pow2((7 * (k + 1)) as nat)
            &&& forall|i: int|
                0 <= i <= k ==> (value / pow2((7 * i) as nat)) % 128 == (#[trigger] s[i]) % 128
            &&& parse_varint(s) == (
                Ok::<u64, WireError>((value % 0x1_0000_0000_0000_0000) as u64),
                (k + 1) as nat,
            )
        }),
{
    lemma_prefix_reads_the_bits(s, k, 10);
}

/// The same, with any room for the bytes.
proof fn lemma_prefix_reads_the_bits(s: Seq<u8>, k: int, room: nat)
    requires
        0 <= k < room,
        k < s.len(),
        forall|i: int| 0 <= i < k ==> #[trigger] s[i] >= 0x80,
        s[k] < 0x80,
    ensures
        ({
            let (r, n) = varint_prefix(s, room);
            let value = r->Ok_0;
            &&& r is Ok
            &&& n == k + 1
            &&& value < pow2((7 * (k + 1)) as nat)
            &&& forall|i: int|
                0 <= i <= k ==> (value / pow2((7 * i) as nat)) % 128 == (#[trigger] s[i]) % 128
        }),
    decreases k,
{
    lemma2_to64();
    let value = varint_prefix(s, room).0->Ok_0;
    lemma_div_basics(value as int);
    if k > 0 {
        let rest = s.skip(1);
        assert(s[0] >= 0x80);
        assert forall|i: int| 0 <= i < k - 1 implies #[trigger] rest[i] >= 0x80 by {
            assert(rest[i] == s[i + 1]);
        }
        lemma_prefix_reads_the_bits(rest, k - 1, (room - 1) as nat);
        let high = varint_prefix(rest, (room - 1) as nat).0->Ok_0;
        assert(value == s[0] - 0x80 + 0x80 * high);
        assert(value / 0x80 == high);
        lemma_pow2_adds(7, (7 * k) as nat);
        assert forall|i: int| 0 <= i <= k implies (value / pow2((7 * i) as nat)) % 128 == (
        #[trigger] s[i]) % 128 by {
            if i > 0 {
                lemma_next_group(value, i);
                assert(rest[i - 1] == s[i]);
            }
        }
    }
}

/// Bytes that all have the high bit set are no varint: too few are truncated, ten
/// are too many.
pub proof fn law_varint_without_an_end(s: Seq<u8>)
    requires
        forall|i: int| 0 <= i < s.len() && i < 10 ==> #[trigger] s[i] >= 0x80,
    ensures
        s.len() < 10 ==> parse_varint(s) == (
            Err::<u64, WireError>(WireError::Truncated),
            s.len(),
        ),
        s.len() >= 10 ==> parse_varint(s) == (Err::<u64, WireError>(WireError::BadVarint), 10nat),
{
    lemma_prefix_without_an_end(s, 10);
}

/// The same, with any room for the bytes.
proof fn lemma_prefix_without_an_end(s: Seq<u8>, room: nat)
    requires
        forall|i: int| 0 <= i < s.len() && i < room ==> #[trigger] s[i] >= 0x80,
    ensures
        s.len() < room ==> varint_prefix(s, room) == (
            Err::<nat, WireError>(WireError::Truncated),
            s.len(),
        ),
        s.len() >= room ==> varint_prefix(s, room) == (
            Err::<nat, WireError>(WireError::BadVarint),
            room,
        ),
    decreases room,
{
    if room > 0 && s.len() > 0 {
        assert(s[0] >= 0x80);
        assert forall|i: int| 0 <= i < s.skip(1).len() && i < room - 1 implies #[trigger] s.skip(
            1,
        )[i] >= 0x80 by {
            assert(s.skip(1)[i] == s[i + 1]);
        }
        lemma_prefix_without_an_end(s.skip(1), (room - 1) as nat);
    }
}

/// A key is eight times the field number and the wire type, written and read; of
/// the field number 32 bits are kept.
pub proof fn law_key_is_eight_times_the_field(field: u32, wire_type: u8, s: Seq<u8>)
    requires
        wire_type < 8,
    ensures
        tag_bytes(field, wire_type) == varint_bytes((8 * field + wire_type) as nat),
        match parse_varint(s) {
            (Ok(key), n) => parse_tag(s) == (
                Ok::<(u32, u8), WireError>(
                    (((key / 8) % 0x1_0000_0000) as u32, (key % 8) as u8),
                ),
                n,
            ),
            (Err(e), n) => parse_tag(s) == (Err::<(u32, u8), WireError>(e), n),
        },
{
    assert((((field as u64) << 3) | (wire_type as u64)) == 8 * field + wire_type) by (bit_vector)
        requires
            wire_type < 8,
    ;
    assert(tag_key(field, wire_type) == 8 * field + wire_type);
}

/// A length-delimited value is the bytes behind its length, as many as it says. A
/// length that says too much is used up, the bytes are not.
pub proof fn law_length_counts_the_bytes(s: Seq<u8>)
    ensures
        match parse_varint(s) {
            (Ok(len), n) => parse_bytes(s) == (if n + len <= s.len() {
                (
                    Ok::<Seq<u8>, WireError>(s.subrange(n as int, (n + len) as int)),
                    (n + len) as nat,
                )
            } else {
                (Err(WireError::BadLength), n)
            }),
            (Err(e), n) => parse_bytes(s) == (Err::<Seq<u8>, WireError>(e), n),
        },
{
}

/// A written field is its key, its length where it is a byte string, and its value.
pub proof fn law_fields_are_key_and_value(field: u32, value: u64, bytes: Seq<u8>)
    ensures
        varint_field_bytes(field, value) == varint_bytes((8 * field) as nat) + varint_bytes(
            value as nat,
        ),
        bytes_field_bytes(field, bytes) == varint_bytes((8 * field + 2) as nat) + varint_bytes(
            bytes.len(),
        ) + bytes,
{
    law_key_is_eight_times_the_field(field, 0, bytes);
    law_key_is_eight_times_the_field(field, 2, bytes);
}

/// The wire type says how long an unknown value is: a varint, eight bytes, a
/// length and as many bytes, or four bytes; 4, 6 and 7 say nothing. A reader that
/// fails has moved over the varint or the length that it read, and nothing else.
pub proof fn law_wire_type_says_the_length(s: Seq<u8>, wire_type: u8)
    requires
        wire_type < 8,
        wire_type != 3,
    ensures
        wire_type == 0 ==> value_used(s, wire_type) == parse_varint(s).1 && skip_value(s, wire_type)
            == (match parse_varint(s).0 {
            Ok(_) => Ok(parse_varint(s).1),
            Err(e) => Err(e),
        }),
        wire_type == 2 ==> value_used(s, wire_type) == parse_bytes(s).1 && skip_value(s, wire_type)
            == (match parse_bytes(s).0 {
            Ok(_) => Ok(parse_bytes(s).1),
            Err(e) => Err(e),
        }),
        wire_type == 1 ==> if s.len() >= 8 {
            value_used(s, wire_type) == 8 && skip_value(s, wire_type) == Ok::<nat, WireError>(8)
        } else {
            value_used(s, wire_type) == 0 && skip_value(s, wire_type) == Err::<nat, WireError>(
                WireError::Truncated,
            )
        },
        wire_type == 5 ==> if s.len() >= 4 {
            value_used(s, wire_type) == 4 && skip_value(s, wire_type) == Ok::<nat, WireError>(4)
        } else {
            value_used(s, wire_type) == 0 && skip_value(s, wire_type) == Err::<nat, WireError>(
                WireError::Truncated,
            )
        },
        wire_type == 4 || wire_type >= 6 ==> value_used(s, wire_type) == 0 && skip_value(
            s,
            wire_type,
        ) == Err::<nat, WireError>(WireError::UnmatchedGroup(wire_type)),
{
}

/// A group reaches to the end marker that matches its start: a start marker opens
/// one more, an end marker closes one, and any other value is passed over.
pub proof fn law_group_reaches_to_its_end(s: Seq<u8>, depth: nat)
    ensures
        skip_value(s, 3) == skip_groups(s, 1),
        value_used(s, 3) == groups_used(s, 1),
        skip_groups(s, 0) == Ok::<nat, WireError>(0),
        depth > 0 ==> match parse_tag(s) {
            (Err(e), n) => {
                &&& skip_groups(s, depth) == Err::<nat, WireError>(e)
                &&& groups_used(s, depth) == n
            },
            (Ok((_, wire_type)), n) => {
                let value = s.skip(n as int);
                if wire_type == 4 {
                    match skip_groups(value, (depth - 1) as nat) {
                        Ok(m) => skip_groups(s, depth) == Ok::<nat, WireError>(n + m),
                        Err(e) => skip_groups(s, depth) == Err::<nat, WireError>(e),
                    }
                } else if wire_type == 3 {
                    match skip_groups(value, depth + 1) {
                        Ok(m) => skip_groups(s, depth) == Ok::<nat, WireError>(n + m),
                        Err(e) => skip_groups(s, depth) == Err::<nat, WireError>(e),
                    }
                } else {
                    match skip_value(value, wire_type) {
                        Err(e) => {
                            &&& skip_groups(s, depth) == Err::<nat, WireError>(e)
                            &&& groups_used(s, depth) == n + value_used(value, wire_type)
                        },
                        Ok(used) => match skip_groups(value.skip(used as int), depth) {
                            Ok(m) => skip_groups(s, depth) == Ok::<nat, WireError>(n + used + m),
                            Err(e) => skip_groups(s, depth) == Err::<nat, WireError>(e),
                        },
                    }
                }
            },
        },
{
    reveal(skip_groups);
    reveal(groups_used);
}

} // verus!
