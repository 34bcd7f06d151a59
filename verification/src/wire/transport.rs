//! `TransportBuffers.Instruction`, the envelope of every state change.

use vstd::prelude::*;

use crate::wire::error::WireError;
use crate::wire::field::{
    lemma_varint_prefix_bounds, parse_bytes, parse_tag, parse_varint, read_length_delimited,
    read_tag, read_varint, skip_field, skip_value,
};
use crate::wire::field_laws::lemma_skip_value_extends;
use crate::wire::writer::{
    bytes_field_bytes, varint_field_bytes, write_bytes_field, write_varint_field,
};

verus! {

/// The protocol version that both sides must speak.
pub const MOSH_PROTOCOL_VERSION: u32 = 2;

/// The state number that announces a shutdown.
pub const SHUTDOWN_NUM: u64 = 0xFFFF_FFFF_FFFF_FFFF;

/// One instruction of the transport layer. `new_num == SHUTDOWN_NUM` is the
/// shutdown convention.
#[derive(Clone, PartialEq, Eq, Debug)]
pub struct TransportInstruction {
    pub protocol_version: u32,
    pub old_num: u64,
    pub new_num: u64,
    pub ack_num: u64,
    pub throwaway_num: u64,
    pub diff: Vec<u8>,
    pub chaff: Vec<u8>,
}

/// What a `TransportInstruction` says.
#[verifier::ext_equal]
pub struct TransportView {
    pub protocol_version: u32,
    pub old_num: u64,
    pub new_num: u64,
    pub ack_num: u64,
    pub throwaway_num: u64,
    pub diff: Seq<u8>,
    pub chaff: Seq<u8>,
}

impl View for TransportInstruction {
    type V = TransportView;

    open spec fn view(&self) -> TransportView {
        TransportView {
            protocol_version: self.protocol_version,
            old_num: self.old_num,
            new_num: self.new_num,
            ack_num: self.ack_num,
            throwaway_num: self.throwaway_num,
            diff: self.diff@,
            chaff: self.chaff@,
        }
    }
}

/// All numbers zero, nothing to apply: what an empty buffer says.
pub open spec fn blank_transport() -> TransportView {
    TransportView {
        protocol_version: 0,
        old_num: 0,
        new_num: 0,
        ack_num: 0,
        throwaway_num: 0,
        diff: Seq::empty(),
        chaff: Seq::empty(),
    }
}

/// The seven fields, in the order of their numbers, each written even where it
/// is zero or empty.
pub open spec fn transport_bytes(inst: TransportView) -> Seq<u8> {
    varint_field_bytes(1, inst.protocol_version as u64) + varint_field_bytes(2, inst.old_num)
        + varint_field_bytes(3, inst.new_num) + varint_field_bytes(4, inst.ack_num)
        + varint_field_bytes(5, inst.throwaway_num) + bytes_field_bytes(6, inst.diff)
        + bytes_field_bytes(7, inst.chaff)
}

/// Whether a field of this number and wire type means something here.
pub open spec fn is_transport_field(field: u32, wire_type: u8) -> bool {
    ||| wire_type == 0 && 1 <= field <= 5
    ||| wire_type == 2 && 6 <= field <= 7
}

/// `inst` with its numeric field `field` set. The protocol version keeps the
/// low 32 bits.
pub open spec fn with_number(inst: TransportView, field: u32, value: u64) -> TransportView {
    if field == 1 {
        TransportView { protocol_version: (value % 0x1_0000_0000) as u32, ..inst }
    } else if field == 2 {
        TransportView { old_num: value, ..inst }
    } else if field == 3 {
        TransportView { new_num: value, ..inst }
    } else if field == 4 {
        TransportView { ack_num: value, ..inst }
    } else {
        TransportView { throwaway_num: value, ..inst }
    }
}

/// `inst` with its byte-string field `field` set.
pub open spec fn with_bytes(inst: TransportView, field: u32, value: Seq<u8>) -> TransportView {
    if field == 6 {
        TransportView { diff: value, ..inst }
    } else {
        TransportView { chaff: value, ..inst }
    }
}

/// One field's value at the front of `s` applied to `inst`, and its length. A
/// field that means nothing here is skipped.
pub open spec fn apply_transport_field(
    inst: TransportView,
    field: u32,
    wire_type: u8,
    s: Seq<u8>,
) -> Result<(TransportView, nat), WireError> {
    if wire_type == 0 && 1 <= field <= 5 {
        let (value, n) = parse_varint(s);
        match value {
            Ok(v) => Ok((with_number(inst, field, v), n)),
            Err(e) => Err(e),
        }
    } else if wire_type == 2 && 6 <= field <= 7 {
        let (value, n) = parse_bytes(s);
        match value {
            Ok(v) => Ok((with_bytes(inst, field, v), n)),
            Err(e) => Err(e),
        }
    } else {
        match skip_value(s, wire_type) {
            Ok(n) => Ok((inst, n)),
            Err(e) => Err(e),
        }
    }
}

/// A field's value lies within the bytes it was found in.
pub proof fn lemma_apply_transport_bounds(
    inst: TransportView,
    field: u32,
    wire_type: u8,
    s: Seq<u8>,
)
    ensures
        apply_transport_field(inst, field, wire_type, s) matches Ok((_, n)) ==> n <= s.len(),
{
    lemma_varint_prefix_bounds(s, 10);
    lemma_skip_value_extends(s, wire_type, Seq::empty());
}

/// The fields of `s`, one after the other, applied to `inst`: a later field
/// overrides an earlier one.
#[verifier::opaque]
pub open spec fn merge_transport(inst: TransportView, s: Seq<u8>) -> Result<
    TransportView,
    WireError,
>
    decreases s.len(),
{
    if s.len() == 0 {
        Ok(inst)
    } else {
        let (tag, n) = parse_tag(s);
        match tag {
            Err(e) => Err(e),
            Ok((field, wire_type)) => {
                let value = s.skip(n as int);
                match apply_transport_field(inst, field, wire_type, value) {
                    Err(e) => Err(e),
                    Ok((next, m)) => {
                        proof {
                            lemma_varint_prefix_bounds(s, 10);
                            lemma_apply_transport_bounds(inst, field, wire_type, value);
                        }
                        merge_transport(next, value.skip(m as int))
                    },
                }
            },
        }
    }
}

impl Default for TransportInstruction {
    fn default() -> (r: Self)
        ensures
            r@ == blank_transport(),
    {
        TransportInstruction {
            protocol_version: 0,
            old_num: 0,
            new_num: 0,
            ack_num: 0,
            throwaway_num: 0,
            diff: Vec::new(),
            chaff: Vec::new(),
        }
    }
}

impl TransportInstruction {
    /// Encodes exactly the seven fields that mosh always sets.
    pub fn encode(&self) -> (r: Vec<u8>)
        ensures
            r@ == transport_bytes(self@),
    {
        let mut out: Vec<u8> = Vec::new();
        write_varint_field(&mut out, 1, self.protocol_version as u64);
        write_varint_field(&mut out, 2, self.old_num);
        write_varint_field(&mut out, 3, self.new_num);
        write_varint_field(&mut out, 4, self.ack_num);
        write_varint_field(&mut out, 5, self.throwaway_num);
        write_bytes_field(&mut out, 6, self.diff.as_slice());
        write_bytes_field(&mut out, 7, self.chaff.as_slice());
        proof {
            assert(out@ == transport_bytes(self@));
        }
        out
    }

    /// Decodes any bytes: the fields they hold, or the first thing wrong with
    /// them. Absent fields are zero or empty.
    pub fn decode(buf: &[u8]) -> (r: Result<Self, WireError>)
        ensures
            match r {
                Ok(inst) => merge_transport(blank_transport(), buf@) == Ok::<
                    TransportView,
                    WireError,
                >(inst@),
                Err(e) => merge_transport(blank_transport(), buf@) == Err::<
                    TransportView,
                    WireError,
                >(e),
            },
    {
        let mut out = TransportInstruction::default();
        let mut pos: usize = 0;
        proof {
            assert(buf@.skip(0) == buf@);
        }
        while pos < buf.len()
            invariant
                pos <= buf.len(),
                merge_transport(blank_transport(), buf@) == merge_transport(
                    out@,
                    buf@.skip(pos as int),
                ),
            decreases buf.len() - pos,
        {
            let ghost unread = buf@.skip(pos as int);
            let ghost start = pos as int;
            let ghost before = out@;
            proof {
                reveal(merge_transport);
            }
            let (field, wire_type) = match read_tag(buf, &mut pos) {
                Ok(tag) => tag,
                Err(e) => {
                    return Err(e);
                },
            };
            let ghost value = buf@.skip(pos as int);
            let ghost value_start = pos as int;
            proof {
                assert(unread.skip(pos - start) == value);
            }
            if wire_type == 0 && 1 <= field && field <= 5 {
                let number: u64 = match read_varint(buf, &mut pos) {
                    Ok(number) => number,
                    Err(e) => {
                        return Err(e);
                    },
                };
                if field == 1 {
                    proof {
                        assert(number as u32 == number % 0x1_0000_0000) by (bit_vector);
                    }
                    out.protocol_version = number as u32;
                } else if field == 2 {
                    out.old_num = number;
                } else if field == 3 {
                    out.new_num = number;
                } else if field == 4 {
                    out.ack_num = number;
                } else {
                    out.throwaway_num = number;
                }
            } else if wire_type == 2 && 6 <= field && field <= 7 {
                let bytes: &[u8] = match read_length_delimited(buf, &mut pos) {
                    Ok(bytes) => bytes,
                    Err(e) => {
                        return Err(e);
                    },
                };
                if field == 6 {
                    out.diff = vstd::slice::slice_to_vec(bytes);
                } else {
                    out.chaff = vstd::slice::slice_to_vec(bytes);
                }
            } else {
                match skip_field(buf, &mut pos, wire_type) {
                    Ok(_) => {},
                    Err(e) => {
                        return Err(e);
                    },
                }
            }
            proof {
                assert(value.skip(pos - value_start) == buf@.skip(pos as int));
                assert(apply_transport_field(before, field, wire_type, value) == Ok::<
                    (TransportView, nat),
                    WireError,
                >((out@, (pos - value_start) as nat)));
            }
        }
        proof {
            reveal(merge_transport);
        }
        Ok(out)
    }
}

} // verus!
