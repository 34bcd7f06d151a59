//! Embedded messages, read tolerantly: a malformed field ends the scan or is
//! passed over, and what was understood so far stands.

use vstd::prelude::*;

use crate::wire::field::{
    lemma_varint_prefix_bounds, parse_bytes, parse_tag, parse_varint, read_length_delimited,
    read_tag, read_varint, skip_field, skip_value,
};
use crate::wire::field_laws::lemma_skip_value_extends;

verus! {

/// The last readable length-delimited field number `field` of `s`, or `found`
/// where there is none. A value that cannot be read is passed over; a key or an
/// unrelated value that cannot be read ends the scan.
#[verifier::opaque]
pub open spec fn last_bytes_field(s: Seq<u8>, field: u32, found: Option<Seq<u8>>) -> Option<Seq<u8>>
    decreases s.len(),
{
    if s.len() == 0 {
        found
    } else {
        let (tag, n) = parse_tag(s);
        match tag {
            Err(_) => found,
            Ok((number, wire_type)) => {
                let value = s.skip(n as int);
                proof {
                    lemma_varint_prefix_bounds(s, 10);
                    lemma_varint_prefix_bounds(value, 10);
                    lemma_skip_value_extends(value, wire_type, Seq::empty());
                }
                if number == field && wire_type == 2 {
                    let (bytes, m) = parse_bytes(value);
                    match bytes {
                        Ok(b) => last_bytes_field(value.skip(m as int), field, Some(b)),
                        Err(_) => last_bytes_field(value.skip(m as int), field, found),
                    }
                } else {
                    match skip_value(value, wire_type) {
                        Err(_) => found,
                        Ok(m) => last_bytes_field(value.skip(m as int), field, found),
                    }
                }
            },
        }
    }
}

/// The last readable varint field number `field` of `s`, or `found` where there
/// is none, by the rules of `last_bytes_field`.
#[verifier::opaque]
pub open spec fn last_varint_field(s: Seq<u8>, field: u32, found: Option<u64>) -> Option<u64>
    decreases s.len(),
{
    if s.len() == 0 {
        found
    } else {
        let (tag, n) = parse_tag(s);
        match tag {
            Err(_) => found,
            Ok((number, wire_type)) => {
                let value = s.skip(n as int);
                proof {
                    lemma_varint_prefix_bounds(s, 10);
                    lemma_varint_prefix_bounds(value, 10);
                    lemma_skip_value_extends(value, wire_type, Seq::empty());
                }
                if number == field && wire_type == 0 {
                    let (v, m) = parse_varint(value);
                    match v {
                        Ok(v) => last_varint_field(value.skip(m as int), field, Some(v)),
                        Err(_) => last_varint_field(value.skip(m as int), field, found),
                    }
                } else {
                    match skip_value(value, wire_type) {
                        Err(_) => found,
                        Ok(m) => last_varint_field(value.skip(m as int), field, found),
                    }
                }
            },
        }
    }
}

/// The width (field 5) and height (field 6) that `s` leaves of `size`, by the
/// rules of `last_bytes_field`. Each keeps the low 32 bits of its varint.
#[verifier::opaque]
pub open spec fn size_fields(s: Seq<u8>, size: (i32, i32)) -> (i32, i32)
    decreases s.len(),
{
    if s.len() == 0 {
        size
    } else {
        let (tag, n) = parse_tag(s);
        match tag {
            Err(_) => size,
            Ok((number, wire_type)) => {
                let value = s.skip(n as int);
                proof {
                    lemma_varint_prefix_bounds(s, 10);
                    lemma_varint_prefix_bounds(value, 10);
                    lemma_skip_value_extends(value, wire_type, Seq::empty());
                }
                if (number == 5 || number == 6) && wire_type == 0 {
                    let (v, m) = parse_varint(value);
                    match v {
                        Ok(v) => size_fields(
                            value.skip(m as int),
                            if number == 5 {
                                (v as i32, size.1)
                            } else {
                                (size.0, v as i32)
                            },
                        ),
                        Err(_) => size_fields(value.skip(m as int), size),
                    }
                } else {
                    match skip_value(value, wire_type) {
                        Err(_) => size,
                        Ok(m) => size_fields(value.skip(m as int), size),
                    }
                }
            },
        }
    }
}

/// Copies out the last readable length-delimited field number `field`.
pub(crate) fn find_last_bytes(block: &[u8], field: u32) -> (r: Option<Vec<u8>>)
    ensures
        match r {
            Some(bytes) => last_bytes_field(block@, field, None) == Some(bytes@),
            None => last_bytes_field(block@, field, None) is None,
        },
{
    let mut found: Option<&[u8]> = None;
    let ghost mut seen: Option<Seq<u8>> = None;
    let mut pos: usize = 0;
    proof {
        assert(block@.skip(0) == block@);
    }
    loop
        invariant_except_break
            pos <= block.len(),
            last_bytes_field(block@, field, None) == last_bytes_field(
                block@.skip(pos as int),
                field,
                seen,
            ),
        invariant
            match found {
                Some(bytes) => seen == Some(bytes@),
                None => seen is None,
            },
        ensures
            last_bytes_field(block@, field, None) == seen,
        decreases block.len() - pos,
    {
        proof {
            reveal(last_bytes_field);
        }
        if pos >= block.len() {
            break;
        }
        let ghost unread = block@.skip(pos as int);
        let ghost start = pos as int;
        let (number, wire_type) = match read_tag(block, &mut pos) {
            Ok(tag) => tag,
            Err(_) => {
                break;
            },
        };
        let ghost value = block@.skip(pos as int);
        let ghost value_start = pos as int;
        proof {
            assert(unread.skip(pos - start) == value);
        }
        if number == field && wire_type == 2 {
            match read_length_delimited(block, &mut pos) {
                Ok(bytes) => {
                    found = Some(bytes);
                    proof {
                        seen = Some(bytes@);
                    }
                },
                Err(_) => {},
            }
        } else {
            match skip_field(block, &mut pos, wire_type) {
                Ok(_) => {},
                Err(_) => {
                    break;
                },
            }
        }
        proof {
            assert(value.skip(pos - value_start) == block@.skip(pos as int));
        }
    }
    match found {
        Some(bytes) => Some(vstd::slice::slice_to_vec(bytes)),
        None => None,
    }
}

/// Returns the last readable varint field number `field`.
pub(crate) fn find_last_varint(block: &[u8], field: u32) -> (r: Option<u64>)
    ensures
        r == last_varint_field(block@, field, None),
{
    let mut found: Option<u64> = None;
    let mut pos: usize = 0;
    proof {
        assert(block@.skip(0) == block@);
    }
    loop
        invariant_except_break
            pos <= block.len(),
            last_varint_field(block@, field, None) == last_varint_field(
                block@.skip(pos as int),
                field,
                found,
            ),
        ensures
            last_varint_field(block@, field, None) == found,
        decreases block.len() - pos,
    {
        proof {
            reveal(last_varint_field);
        }
        if pos >= block.len() {
            break;
        }
        let ghost unread = block@.skip(pos as int);
        let ghost start = pos as int;
        let (number, wire_type) = match read_tag(block, &mut pos) {
            Ok(tag) => tag,
            Err(_) => {
                break;
            },
        };
        let ghost value = block@.skip(pos as int);
        let ghost value_start = pos as int;
        proof {
            assert(unread.skip(pos - start) == value);
        }
        if number == field && wire_type == 0 {
            match read_varint(block, &mut pos) {
                Ok(v) => {
                    found = Some(v);
                },
                Err(_) => {},
            }
        } else {
            match skip_field(block, &mut pos, wire_type) {
                Ok(_) => {},
                Err(_) => {
                    break;
                },
            }
        }
        proof {
            assert(value.skip(pos - value_start) == block@.skip(pos as int));
        }
    }
    found
}

/// Returns the width and height of a resize block, zero where absent.
pub(crate) fn find_size(block: &[u8]) -> (r: (i32, i32))
    ensures
        r == size_fields(block@, (0, 0)),
{
    let mut width: i32 = 0;
    let mut height: i32 = 0;
    let mut pos: usize = 0;
    proof {
        assert(block@.skip(0) == block@);
    }
    loop
        invariant_except_break
            pos <= block.len(),
            size_fields(block@, (0, 0)) == size_fields(block@.skip(pos as int), (width, height)),
        ensures
            size_fields(block@, (0, 0)) == (width, height),
        decreases block.len() - pos,
    {
        proof {
            reveal(size_fields);
        }
        if pos >= block.len() {
            break;
        }
        let ghost unread = block@.skip(pos as int);
        let ghost start = pos as int;
        let (number, wire_type) = match read_tag(block, &mut pos) {
            Ok(tag) => tag,
            Err(_) => {
                break;
            },
        };
        let ghost value = block@.skip(pos as int);
        let ghost value_start = pos as int;
        proof {
            assert(unread.skip(pos - start) == value);
        }
        if (number == 5 || number == 6) && wire_type == 0 {
            match read_varint(block, &mut pos) {
                Ok(v) => {
                    if number == 5 {
                        width = v as i32;
                    } else {
                        height = v as i32;
                    }
                },
                Err(_) => {},
            }
        } else {
            match skip_field(block, &mut pos, wire_type) {
                Ok(_) => {},
                Err(_) => {
                    break;
                },
            }
        }
        proof {
            assert(value.skip(pos - value_start) == block@.skip(pos as int));
        }
    }
    (width, height)
}

} // verus!
