//! Fields of the proto2 wire format: varints, tags, length-delimited values,
//! and the rule for skipping what a reader does not know.
//!
//! Every reader is described on the bytes that are still unread: a spec
//! function maps them to a result and to the number of bytes consumed.

use vstd::arithmetic::power2::{lemma2_to64, lemma2_to64_rest, lemma_pow2_adds, pow2};
use vstd::bits::lemma_u64_shl_is_mul;
use vstd::prelude::*;

use crate::wire::error::WireError;

verus! {

/// One more than the largest 64-bit value.
pub open spec fn two_pow_64() -> nat {
    0x1_0000_0000_0000_0000
}

/// The varint at the front of `s`, of which at most `room` bytes may be used:
/// little-endian base 128, the high bit of a byte set on all but the last.
pub open spec fn varint_prefix(s: Seq<u8>, room: nat) -> (Result<nat, WireError>, nat)
    decreases room,
{
    if room == 0 {
        (Err(WireError::BadVarint), 0)
    } else if s.len() == 0 {
        (Err(WireError::Truncated), 0)
    } else if s[0] < 0x80 {
        (Ok(s[0] as nat), 1)
    } else {
        let (rest, n) = varint_prefix(s.skip(1), (room - 1) as nat);
        match rest {
            Ok(high) => (Ok((s[0] - 0x80 + 0x80 * high) as nat), n + 1),
            Err(e) => (Err(e), n + 1),
        }
    }
}

/// A varint of at most ten bytes, reduced to 64 bits.
pub open spec fn parse_varint(s: Seq<u8>) -> (Result<u64, WireError>, nat) {
    let (value, n) = varint_prefix(s, 10);
    match value {
        Ok(v) => (Ok((v % two_pow_64()) as u64), n),
        Err(e) => (Err(e), n),
    }
}

/// A failed or successful varint consumes no more than there is, and a
/// successful one consumes something.
pub proof fn lemma_varint_prefix_bounds(s: Seq<u8>, room: nat)
    ensures
        varint_prefix(s, room).1 <= s.len(),
        varint_prefix(s, room).1 <= room,
        varint_prefix(s, room).0 is Ok ==> varint_prefix(s, room).1 > 0,
    decreases room,
{
    if room > 0 && s.len() > 0 && s[0] >= 0x80 {
        lemma_varint_prefix_bounds(s.skip(1), (room - 1) as nat);
    }
}

/// Setting seven bits above the ones in use is an addition.
proof fn lemma_append_seven_bits(value: u64, group: u64, shift: u64)
    requires
        shift <= 56,
        value < pow2(shift as nat),
        group < 128,
    ensures
        value | (group << shift) == value + group * pow2(shift as nat),
        (value | (group << shift)) < pow2(shift as nat + 7),
{
    lemma_pow2_adds(shift as nat, 7);
    lemma2_to64();
    assert(pow2(shift as nat) <= pow2(56)) by {
        if shift < 56 {
            vstd::arithmetic::power2::lemma_pow2_strictly_increases(shift as nat, 56);
        }
    }
    assert(pow2(56) == 0x100_0000_0000_0000) by {
        lemma2_to64_rest();
    }
    assert(group * pow2(shift as nat) <= 127 * pow2(shift as nat)) by (nonlinear_arith)
        requires
            group < 128,
    ;
    lemma_u64_shl_is_mul(1, shift);
    lemma_u64_shl_is_mul(group, shift);
    assert(1u64 << shift == pow2(shift as nat));
    assert(value | (group << shift) == value + (group << shift)) by (bit_vector)
        requires
            shift <= 56,
            value < (1u64 << shift),
            group < 128,
    ;
}

/// The tenth byte of a varint has room for one bit only.
proof fn lemma_append_top_bit(value: u64, group: u64)
    requires
        value < 0x8000_0000_0000_0000,
    ensures
        value | (group << 63) == (value + 0x8000_0000_0000_0000 * group) % two_pow_64() as int,
{
    assert(value | (group << 63) == value + (group % 2) * 0x8000_0000_0000_0000) by (bit_vector)
        requires
            value < 0x8000_0000_0000_0000,
    ;
    let half = 0x8000_0000_0000_0000int;
    assert(value + half * group == (value + (group % 2) * half) + (group / 2) * two_pow_64());
    vstd::arithmetic::div_mod::lemma_fundamental_div_mod_converse(
        value + half * group,
        two_pow_64() as int,
        (group / 2) as int,
        value + (group % 2) * half,
    );
}

/// Reads the varint at `*pos` and moves `*pos` past the bytes it used.
pub(crate) fn read_varint(buf: &[u8], pos: &mut usize) -> (r: Result<u64, WireError>)
    requires
        *old(pos) <= buf.len(),
    ensures
        *old(pos) <= *final(pos) <= buf.len(),
        (r, (*final(pos) - *old(pos)) as nat) == parse_varint(buf@.skip(*old(pos) as int)),
{
    let ghost start = *pos as int;
    let ghost all = buf@.skip(start);
    let mut value: u64 = 0;
    let mut i: u64 = 0;
    proof {
        lemma2_to64();
        assert(all.skip(0) == all);
    }
    while i < 10
        invariant
            start == *old(pos),
            start <= *pos <= buf.len(),
            *pos == start + i,
            0 <= i <= 10,
            all == buf@.skip(start),
            i <= 9 ==> value < pow2((7 * i) as nat),
            ({
                let (whole, n) = varint_prefix(all, 10);
                let (rest, m) = varint_prefix(buf@.skip(*pos as int), (10 - i) as nat);
                &&& n == m + i
                &&& match rest {
                    Ok(high) => i <= 9 && whole == Ok::<nat, WireError>(
                        (value + pow2((7 * i) as nat) * high) as nat,
                    ),
                    Err(e) => whole == Err::<nat, WireError>(e),
                }
            }),
        decreases 10 - i,
    {
        let ghost unread = buf@.skip(*pos as int);
        if *pos >= buf.len() {
            return Err(WireError::Truncated);
        }
        let byte: u8 = buf[*pos];
        proof {
            assert(unread[0] == byte);
            assert(unread.skip(1) == buf@.skip(*pos + 1));
            assert((byte & 0x7f) as u64 == byte % 128) by (bit_vector);
            assert(byte & 0x80 == 0 <==> byte < 0x80) by (bit_vector);
        }
        *pos = *pos + 1;
        let group: u64 = (byte & 0x7f) as u64;
        let ghost before = value;
        value = value | (group << (7 * i));
        proof {
            if i <= 8 {
                lemma_append_seven_bits(before, group, (7 * i) as u64);
            } else {
                lemma2_to64_rest();
                lemma_append_top_bit(before, group);
            }
        }
        if byte & 0x80 == 0 {
            proof {
                assert(varint_prefix(unread, (10 - i) as nat) == (
                    Ok::<nat, WireError>(byte as nat),
                    1nat,
                ));
                if i <= 8 {
                    vstd::arithmetic::mul::lemma_mul_is_commutative(
                        pow2((7 * i) as nat) as int,
                        byte as int,
                    );
                }
            }
            return Ok(value);
        }
        proof {
            if i <= 8 {
                lemma2_to64();
                lemma_pow2_adds((7 * i) as nat, 7);
                let (rest, m) = varint_prefix(unread.skip(1), (9 - i) as nat);
                if let Ok(high) = rest {
                    let p = pow2((7 * i) as nat) as int;
                    assert(p * (group + 128 * high) == p * group + (p * 128) * high)
                        by (nonlinear_arith);
                    assert(p * group == group * p) by (nonlinear_arith);
                }
            }
        }
        i = i + 1;
    }
    Err(WireError::BadVarint)
}

/// A field key splits into a field number and a three-bit wire type.
pub open spec fn parse_tag(s: Seq<u8>) -> (Result<(u32, u8), WireError>, nat) {
    let (key, n) = parse_varint(s);
    match key {
        Ok(k) => (Ok((((k / 8) % 0x1_0000_0000) as u32, (k % 8) as u8)), n),
        Err(e) => (Err(e), n),
    }
}

/// A length followed by that many bytes. A length that overruns the buffer is
/// consumed; the bytes after it are not.
pub open spec fn parse_bytes(s: Seq<u8>) -> (Result<Seq<u8>, WireError>, nat) {
    let (len, n) = parse_varint(s);
    match len {
        Ok(l) => if l > s.len() - n {
            (Err(WireError::BadLength), n)
        } else {
            (Ok(s.subrange(n as int, n + l)), n + l as nat)
        },
        Err(e) => (Err(e), n),
    }
}

/// How many bytes a value of wire type `wire_type` takes at the front of `s`,
/// for the wire types that do not nest.
pub open spec fn skip_scalar(s: Seq<u8>, wire_type: u8) -> Result<nat, WireError> {
    if wire_type == 0 {
        let (value, n) = parse_varint(s);
        match value {
            Ok(_) => Ok(n),
            Err(e) => Err(e),
        }
    } else if wire_type == 1 {
        if s.len() < 8 {
            Err(WireError::Truncated)
        } else {
            Ok(8)
        }
    } else if wire_type == 2 {
        let (value, n) = parse_bytes(s);
        match value {
            Ok(_) => Ok(n),
            Err(e) => Err(e),
        }
    } else if wire_type == 5 {
        if s.len() < 4 {
            Err(WireError::Truncated)
        } else {
            Ok(4)
        }
    } else {
        Err(WireError::UnmatchedGroup(wire_type))
    }
}

/// How many bytes it takes to reach the end marker that closes the last of
/// `depth` open groups.
#[verifier::opaque]
pub open spec fn skip_groups(s: Seq<u8>, depth: nat) -> Result<nat, WireError>
    decreases s.len(),
{
    if depth == 0 {
        Ok(0)
    } else {
        let (tag, n) = parse_tag(s);
        match tag {
            Err(e) => Err(e),
            Ok((_, wire_type)) => {
                proof {
                    lemma_varint_prefix_bounds(s, 10);
                }
                if wire_type == 4 {
                    add_skipped(n, skip_groups(s.skip(n as int), (depth - 1) as nat))
                } else if wire_type == 3 {
                    add_skipped(n, skip_groups(s.skip(n as int), depth + 1))
                } else {
                    match skip_scalar(s.skip(n as int), wire_type) {
                        Err(e) => Err(e),
                        Ok(m) => {
                            proof {
                                lemma_skip_scalar_bounds(s.skip(n as int), wire_type);
                            }
                            add_skipped(n + m, skip_groups(s.skip(n as int).skip(m as int), depth))
                        },
                    }
                }
            },
        }
    }
}

/// `n` bytes more than `rest`, where `rest` succeeded.
pub open spec fn add_skipped(n: nat, rest: Result<nat, WireError>) -> Result<nat, WireError> {
    match rest {
        Ok(m) => Ok(n + m),
        Err(e) => Err(e),
    }
}

/// How many bytes a value of wire type `wire_type` takes at the front of `s`.
/// A group (wire type 3) reaches to its matching end marker.
pub open spec fn skip_value(s: Seq<u8>, wire_type: u8) -> Result<nat, WireError> {
    if wire_type == 3 {
        skip_groups(s, 1)
    } else {
        skip_scalar(s, wire_type)
    }
}

/// How far a reader moves over a value of a wire type that does not nest, whether
/// or not it can be read.
pub open spec fn scalar_used(s: Seq<u8>, wire_type: u8) -> nat {
    if wire_type == 0 {
        parse_varint(s).1
    } else if wire_type == 1 && s.len() >= 8 {
        8
    } else if wire_type == 2 {
        parse_bytes(s).1
    } else if wire_type == 5 && s.len() >= 4 {
        4
    } else {
        0
    }
}

/// How far a reader moves over `depth` open groups, whether or not they can be
/// read.
#[verifier::opaque]
pub open spec fn groups_used(s: Seq<u8>, depth: nat) -> nat
    decreases s.len(),
{
    if depth == 0 {
        0
    } else {
        let (tag, n) = parse_tag(s);
        match tag {
            Err(_) => n,
            Ok((_, wire_type)) => {
                let value = s.skip(n as int);
                proof {
                    lemma_varint_prefix_bounds(s, 10);
                    lemma_varint_prefix_bounds(value, 10);
                }
                if wire_type == 4 {
                    n + groups_used(value, (depth - 1) as nat)
                } else if wire_type == 3 {
                    n + groups_used(value, depth + 1)
                } else {
                    let m = scalar_used(value, wire_type);
                    match skip_scalar(value, wire_type) {
                        Err(_) => n + m,
                        Ok(_) => n + m + groups_used(value.skip(m as int), depth),
                    }
                }
            },
        }
    }
}

/// How far a reader moves over a value, whether or not it can be read.
pub open spec fn value_used(s: Seq<u8>, wire_type: u8) -> nat {
    if wire_type == 3 {
        groups_used(s, 1)
    } else {
        scalar_used(s, wire_type)
    }
}

/// What one more key means inside open groups.
proof fn lemma_groups_step(s: Seq<u8>, depth: nat)
    ensures
        depth == 0 ==> skip_groups(s, depth) == Ok::<nat, WireError>(0) && groups_used(s, depth)
            == 0,
        depth > 0 ==> match parse_tag(s) {
            (Err(e), n) => {
                &&& skip_groups(s, depth) == Err::<nat, WireError>(e)
                &&& groups_used(s, depth) == n
            },
            (Ok((_, wire_type)), n) => {
                let value = s.skip(n as int);
                if wire_type == 4 {
                    &&& skip_groups(s, depth) == add_skipped(
                        n,
                        skip_groups(value, (depth - 1) as nat),
                    )
                    &&& groups_used(s, depth) == n + groups_used(value, (depth - 1) as nat)
                } else if wire_type == 3 {
                    &&& skip_groups(s, depth) == add_skipped(n, skip_groups(value, depth + 1))
                    &&& groups_used(s, depth) == n + groups_used(value, depth + 1)
                } else {
                    let m = scalar_used(value, wire_type);
                    match skip_scalar(value, wire_type) {
                        Err(e) => {
                            &&& skip_groups(s, depth) == Err::<nat, WireError>(e)
                            &&& groups_used(s, depth) == n + m
                        },
                        Ok(_) => {
                            &&& skip_groups(s, depth) == add_skipped(
                                n + m,
                                skip_groups(value.skip(m as int), depth),
                            )
                            &&& groups_used(s, depth) == n + m + groups_used(
                                value.skip(m as int),
                                depth,
                            )
                        },
                    }
                }
            },
        },
{
    reveal(skip_groups);
    reveal(groups_used);
}

/// A skipped scalar lies within the bytes it was found in.
pub proof fn lemma_skip_scalar_bounds(s: Seq<u8>, wire_type: u8)
    ensures
        skip_scalar(s, wire_type) matches Ok(n) ==> n <= s.len(),
{
    lemma_varint_prefix_bounds(s, 10);
}

/// Reads the field key at `*pos` and moves `*pos` past it.
pub(crate) fn read_tag(buf: &[u8], pos: &mut usize) -> (r: Result<(u32, u8), WireError>)
    requires
        *old(pos) <= buf.len(),
    ensures
        *old(pos) <= *final(pos) <= buf.len(),
        r is Ok ==> *old(pos) < *final(pos),
        (r, (*final(pos) - *old(pos)) as nat) == parse_tag(buf@.skip(*old(pos) as int)),
{
    proof {
        lemma_varint_prefix_bounds(buf@.skip(*pos as int), 10);
    }
    let key: u64 = match read_varint(buf, pos) {
        Ok(key) => key,
        Err(e) => {
            return Err(e);
        },
    };
    proof {
        assert((key >> 3) as u32 == (key / 8) % 0x1_0000_0000) by (bit_vector);
        assert((key & 0x7) as u8 == key % 8) by (bit_vector);
    }
    Ok(((key >> 3) as u32, (key & 0x7) as u8))
}

/// Reads the length-delimited value at `*pos` and moves `*pos` past it, or past
/// its length where that overruns the buffer.
pub(crate) fn read_length_delimited<'b>(buf: &'b [u8], pos: &mut usize) -> (r: Result<
    &'b [u8],
    WireError,
>)
    requires
        *old(pos) <= buf.len(),
    ensures
        *old(pos) <= *final(pos) <= buf.len(),
        ({
            let (value, n) = parse_bytes(buf@.skip(*old(pos) as int));
            &&& *final(pos) - *old(pos) == n
            &&& match r {
                Ok(bytes) => value == Ok::<Seq<u8>, WireError>(bytes@),
                Err(e) => value == Err::<Seq<u8>, WireError>(e),
            }
        }),
{
    let ghost start = *pos as int;
    proof {
        lemma_varint_prefix_bounds(buf@.skip(start), 10);
    }
    let len: u64 = match read_varint(buf, pos) {
        Ok(len) => len,
        Err(e) => {
            return Err(e);
        },
    };
    let begin: usize = *pos;
    if len > (buf.len() - begin) as u64 {
        return Err(WireError::BadLength);
    }
    let end: usize = begin + len as usize;
    *pos = end;
    proof {
        assert(buf@.skip(start).subrange(begin - start, end - start) == buf@.subrange(
            begin as int,
            end as int,
        ));
    }
    Ok(vstd::slice::slice_subrange(buf, begin, end))
}

/// Moves `*pos` past a value of a wire type that does not nest.
fn skip_scalar_field(buf: &[u8], pos: &mut usize, wire_type: u8) -> (r: Result<(), WireError>)
    requires
        *old(pos) <= buf.len(),
    ensures
        *old(pos) <= *final(pos) <= buf.len(),
        *final(pos) - *old(pos) == scalar_used(buf@.skip(*old(pos) as int), wire_type),
        match r {
            Ok(_) => skip_scalar(buf@.skip(*old(pos) as int), wire_type) == Ok::<nat, WireError>(
                (*final(pos) - *old(pos)) as nat,
            ),
            Err(e) => skip_scalar(buf@.skip(*old(pos) as int), wire_type) == Err::<nat, WireError>(
                e,
            ),
        },
{
    proof {
        lemma_varint_prefix_bounds(buf@.skip(*pos as int), 10);
    }
    if wire_type == 0 {
        match read_varint(buf, pos) {
            Ok(_) => Ok(()),
            Err(e) => Err(e),
        }
    } else if wire_type == 1 {
        if buf.len() - *pos < 8 {
            return Err(WireError::Truncated);
        }
        *pos = *pos + 8;
        Ok(())
    } else if wire_type == 2 {
        match read_length_delimited(buf, pos) {
            Ok(_) => Ok(()),
            Err(e) => Err(e),
        }
    } else if wire_type == 5 {
        if buf.len() - *pos < 4 {
            return Err(WireError::Truncated);
        }
        *pos = *pos + 4;
        Ok(())
    } else {
        Err(WireError::UnmatchedGroup(wire_type))
    }
}

/// Moves `*pos` past one value of the given wire type. Nested groups are
/// counted, not recursed into, so no input can exhaust the stack.
pub(crate) fn skip_field(buf: &[u8], pos: &mut usize, wire_type: u8) -> (r: Result<(), WireError>)
    requires
        *old(pos) <= buf.len(),
    ensures
        *old(pos) <= *final(pos) <= buf.len(),
        *final(pos) - *old(pos) == value_used(buf@.skip(*old(pos) as int), wire_type),
        match r {
            Ok(_) => skip_value(buf@.skip(*old(pos) as int), wire_type) == Ok::<nat, WireError>(
                (*final(pos) - *old(pos)) as nat,
            ),
            Err(e) => skip_value(buf@.skip(*old(pos) as int), wire_type) == Err::<nat, WireError>(
                e,
            ),
        },
{
    if wire_type != 3 {
        return skip_scalar_field(buf, pos, wire_type);
    }
    let ghost start = *pos as int;
    // the groups that are open around the innermost one
    let mut enclosing: usize = 0;
    loop
        invariant
            wire_type == 3,
            start == *old(pos),
            start <= *pos <= buf.len(),
            enclosing <= *pos - start,
            skip_groups(buf@.skip(start), 1) == add_skipped(
                (*pos - start) as nat,
                skip_groups(buf@.skip(*pos as int), (enclosing + 1) as nat),
            ),
            groups_used(buf@.skip(start), 1) == (*pos - start) + groups_used(
                buf@.skip(*pos as int),
                (enclosing + 1) as nat,
            ),
        decreases buf.len() - *pos,
    {
        let ghost unread = buf@.skip(*pos as int);
        let ghost before = *pos as int;
        proof {
            lemma_groups_step(unread, (enclosing + 1) as nat);
        }
        let (_, inner_type) = match read_tag(buf, pos) {
            Ok(tag) => tag,
            Err(e) => {
                return Err(e);
            },
        };
        proof {
            assert(unread.skip(*pos - before) == buf@.skip(*pos as int));
        }
        if inner_type == 4 {
            if enclosing == 0 {
                proof {
                    lemma_groups_step(buf@.skip(*pos as int), 0);
                }
                return Ok(());
            }
            enclosing = enclosing - 1;
        } else if inner_type == 3 {
            enclosing = enclosing + 1;
        } else {
            let ghost after_tag = *pos as int;
            match skip_scalar_field(buf, pos, inner_type) {
                Ok(_) => {},
                Err(e) => {
                    return Err(e);
                },
            }
            proof {
                assert(buf@.skip(after_tag).skip(*pos - after_tag) == buf@.skip(*pos as int));
            }
        }
    }
}

} // verus!
