//! Writing proto2 fields: the byte strings that the readers take apart.

use vstd::prelude::*;

verus! {

/// The shortest varint of `value`.
pub open spec fn varint_bytes(value: nat) -> Seq<u8>
    decreases value,
{
    if value < 0x80 {
        seq![value as u8]
    } else {
        seq![(value % 0x80 + 0x80) as u8] + varint_bytes(value / 0x80)
    }
}

/// The key of a field: its number above three bits of wire type.
pub open spec fn tag_key(field: u32, wire_type: u8) -> u64 {
    ((field as u64) << 3) | (wire_type as u64)
}

/// An encoded field key.
pub open spec fn tag_bytes(field: u32, wire_type: u8) -> Seq<u8> {
    varint_bytes(tag_key(field, wire_type) as nat)
}

/// A varint field: key, then value.
pub open spec fn varint_field_bytes(field: u32, value: u64) -> Seq<u8> {
    tag_bytes(field, 0) + varint_bytes(value as nat)
}

/// A length-delimited field: key, then length, then the bytes themselves.
pub open spec fn bytes_field_bytes(field: u32, bytes: Seq<u8>) -> Seq<u8> {
    tag_bytes(field, 2) + varint_bytes(bytes.len()) + bytes
}

/// Appends `bytes` to `out`.
pub(crate) fn append_bytes(out: &mut Vec<u8>, bytes: &[u8])
    ensures
        final(out)@ == old(out)@ + bytes@,
{
    out.extend_from_slice(bytes);
    proof {
        assert(out@ =~= old(out)@ + bytes@);
    }
}

/// Appends the shortest varint of `value`.
pub fn write_varint(out: &mut Vec<u8>, value: u64)
    ensures
        final(out)@ == old(out)@ + varint_bytes(value as nat),
{
    let mut rest: u64 = value;
    proof {
        assert(out@ + Seq::<u8>::empty() == out@);
    }
    while rest >= 0x80
        invariant
            old(out)@ + varint_bytes(value as nat) == out@ + varint_bytes(rest as nat),
        decreases rest,
    {
        let ghost before = out@;
        let byte: u8 = (rest % 0x80) as u8 + 0x80;
        out.push(byte);
        proof {
            assert(before + (seq![byte] + varint_bytes((rest / 0x80) as nat)) == out@
                + varint_bytes((rest / 0x80) as nat));
        }
        rest = rest / 0x80;
    }
    out.push(rest as u8);
}

/// Appends the key of a field.
pub fn write_tag(out: &mut Vec<u8>, field: u32, wire_type: u8)
    ensures
        final(out)@ == old(out)@ + tag_bytes(field, wire_type),
{
    write_varint(out, ((field as u64) << 3) | wire_type as u64);
}

/// Appends a length-delimited field.
pub fn write_bytes_field(out: &mut Vec<u8>, field: u32, bytes: &[u8])
    ensures
        final(out)@ == old(out)@ + bytes_field_bytes(field, bytes@),
{
    write_tag(out, field, 2);
    write_varint(out, bytes.len() as u64);
    append_bytes(out, bytes);
    proof {
        assert(out@ == old(out)@ + bytes_field_bytes(field, bytes@));
    }
}

/// Appends a varint field.
pub fn write_varint_field(out: &mut Vec<u8>, field: u32, value: u64)
    ensures
        final(out)@ == old(out)@ + varint_field_bytes(field, value),
{
    write_tag(out, field, 0);
    write_varint(out, value);
    proof {
        assert(out@ == old(out)@ + varint_field_bytes(field, value));
    }
}

} // verus!
