//! `HostBuffers.HostMessage`: what the server's terminal did.

use vstd::prelude::*;

use crate::wire::block::{
    find_last_bytes, find_last_varint, find_size, last_bytes_field, last_varint_field, size_fields,
};
use crate::wire::error::WireError;
use crate::wire::field::{
    lemma_varint_prefix_bounds, parse_bytes, parse_tag, read_length_delimited, read_tag, skip_field,
    skip_value,
};
use crate::wire::field_laws::lemma_skip_value_extends;
use crate::wire::writer::{
    bytes_field_bytes, varint_field_bytes, write_bytes_field, write_varint_field,
};

verus! {

/// One thing the server's terminal did.
#[derive(Clone, PartialEq, Eq, Debug)]
pub enum HostInstruction {
    /// Escape-sequence bytes for the client's terminal emulator.
    HostBytes(Vec<u8>),
    /// The terminal took a new size.
    Resize { width: i32, height: i32 },
    /// How far through the user's stream the server had echoed.
    EchoAck(u64),
}

/// A run of host instructions.
#[derive(Clone, PartialEq, Eq, Debug)]
pub struct HostMessage {
    pub instructions: Vec<HostInstruction>,
}

/// What a `HostInstruction` says.
#[verifier::ext_equal]
pub enum HostInstructionView {
    HostBytes(Seq<u8>),
    Resize { width: i32, height: i32 },
    EchoAck(u64),
}

impl View for HostInstruction {
    type V = HostInstructionView;

    open spec fn view(&self) -> HostInstructionView {
        match *self {
            HostInstruction::HostBytes(bytes) => HostInstructionView::HostBytes(bytes@),
            HostInstruction::Resize { width, height } => HostInstructionView::Resize {
                width,
                height,
            },
            HostInstruction::EchoAck(num) => HostInstructionView::EchoAck(num),
        }
    }
}

/// What a `HostMessage` says: its instructions in order.
impl View for HostMessage {
    type V = Seq<HostInstructionView>;

    open spec fn view(&self) -> Seq<HostInstructionView> {
        Seq::new(self.instructions@.len(), |i: int| self.instructions@[i]@)
    }
}

/// An encoded instruction: a host-bytes block (field 2) that holds the bytes
/// (field 4), a resize block (field 3) that holds width and height (fields 5 and
/// 6, negative ones extended to 64 bits), or an echo-ack block (field 7) that
/// holds the counter (field 8).
pub open spec fn host_instruction_bytes(instruction: HostInstructionView) -> Seq<u8> {
    match instruction {
        HostInstructionView::HostBytes(bytes) => bytes_field_bytes(2, bytes_field_bytes(4, bytes)),
        HostInstructionView::Resize { width, height } => bytes_field_bytes(
            3,
            varint_field_bytes(5, width as u64) + varint_field_bytes(6, height as u64),
        ),
        HostInstructionView::EchoAck(num) => bytes_field_bytes(7, varint_field_bytes(8, num)),
    }
}

/// The instructions one after the other, each in a field 1 of its own.
pub open spec fn host_message_bytes(instructions: Seq<HostInstructionView>) -> Seq<u8>
    decreases instructions.len(),
{
    if instructions.len() == 0 {
        Seq::empty()
    } else {
        bytes_field_bytes(1, host_instruction_bytes(instructions[0])) + host_message_bytes(
            instructions.skip(1),
        )
    }
}

/// Whether a field of this number and wire type is a block of an instruction.
pub open spec fn is_host_block(field: u32, wire_type: u8) -> bool {
    wire_type == 2 && (field == 2 || field == 3 || field == 7)
}

/// What block number `field`, with contents `block`, makes of `result`. A
/// host-bytes block without bytes and an echo-ack block without a counter leave
/// it as it is.
pub open spec fn read_host_block(
    field: u32,
    block: Seq<u8>,
    result: HostInstructionView,
) -> HostInstructionView {
    if field == 2 {
        match last_bytes_field(block, 4, None) {
            Some(bytes) => HostInstructionView::HostBytes(bytes),
            None => result,
        }
    } else if field == 3 {
        let (width, height) = size_fields(block, (0, 0));
        HostInstructionView::Resize { width, height }
    } else {
        match last_varint_field(block, 8, None) {
            Some(num) => HostInstructionView::EchoAck(num),
            None => result,
        }
    }
}

/// The instruction that `s` leaves of `result`. Blocks that cannot be read are
/// passed over; a key or an unrelated value that cannot be read ends the scan.
#[verifier::opaque]
pub open spec fn read_host_instruction(
    s: Seq<u8>,
    result: HostInstructionView,
) -> HostInstructionView
    decreases s.len(),
{
    if s.len() == 0 {
        result
    } else {
        let (tag, n) = parse_tag(s);
        match tag {
            Err(_) => result,
            Ok((field, wire_type)) => {
                let value = s.skip(n as int);
                proof {
                    lemma_varint_prefix_bounds(s, 10);
                    lemma_varint_prefix_bounds(value, 10);
                    lemma_skip_value_extends(value, wire_type, Seq::empty());
                }
                if is_host_block(field, wire_type) {
                    let (block, m) = parse_bytes(value);
                    match block {
                        Ok(b) => read_host_instruction(
                            value.skip(m as int),
                            read_host_block(field, b, result),
                        ),
                        Err(_) => read_host_instruction(value.skip(m as int), result),
                    }
                } else {
                    match skip_value(value, wire_type) {
                        Err(_) => result,
                        Ok(m) => read_host_instruction(value.skip(m as int), result),
                    }
                }
            },
        }
    }
}

/// The instructions of `s` behind those of `before`: every length-delimited
/// field 1 is one, every other field is skipped.
#[verifier::opaque]
pub open spec fn merge_host_message(before: Seq<HostInstructionView>, s: Seq<u8>) -> Result<
    Seq<HostInstructionView>,
    WireError,
>
    decreases s.len(),
{
    if s.len() == 0 {
        Ok(before)
    } else {
        let (tag, n) = parse_tag(s);
        match tag {
            Err(e) => Err(e),
            Ok((field, wire_type)) => {
                let value = s.skip(n as int);
                proof {
                    lemma_varint_prefix_bounds(s, 10);
                    lemma_varint_prefix_bounds(value, 10);
                    lemma_skip_value_extends(value, wire_type, Seq::empty());
                }
                if field == 1 && wire_type == 2 {
                    let (block, m) = parse_bytes(value);
                    match block {
                        Ok(b) => merge_host_message(
                            before.push(
                                read_host_instruction(
                                    b,
                                    HostInstructionView::HostBytes(Seq::empty()),
                                ),
                            ),
                            value.skip(m as int),
                        ),
                        Err(e) => Err(e),
                    }
                } else {
                    match skip_value(value, wire_type) {
                        Err(e) => Err(e),
                        Ok(m) => merge_host_message(before, value.skip(m as int)),
                    }
                }
            },
        }
    }
}

/// Encodes one instruction, without the field around it.
fn encode_host_instruction(instruction: &HostInstruction) -> (r: Vec<u8>)
    ensures
        r@ == host_instruction_bytes(instruction@),
{
    let mut block: Vec<u8> = Vec::new();
    let mut out: Vec<u8> = Vec::new();
    let ghost none = Seq::<u8>::empty();
    match instruction {
        HostInstruction::HostBytes(bytes) => {
            write_bytes_field(&mut block, 4, bytes.as_slice());
            proof {
                assert(none + bytes_field_bytes(4, bytes@) == bytes_field_bytes(4, bytes@));
            }
            write_bytes_field(&mut out, 2, block.as_slice());
        },
        HostInstruction::Resize { width, height } => {
            write_varint_field(&mut block, 5, *width as u64);
            write_varint_field(&mut block, 6, *height as u64);
            proof {
                assert(none + varint_field_bytes(5, *width as u64) == varint_field_bytes(
                    5,
                    *width as u64,
                ));
            }
            write_bytes_field(&mut out, 3, block.as_slice());
        },
        HostInstruction::EchoAck(num) => {
            write_varint_field(&mut block, 8, *num);
            proof {
                assert(none + varint_field_bytes(8, *num) == varint_field_bytes(8, *num));
            }
            write_bytes_field(&mut out, 7, block.as_slice());
        },
    }
    proof {
        assert(none + host_instruction_bytes(instruction@) == host_instruction_bytes(instruction@));
    }
    out
}

/// Decodes one instruction. Unknown or missing contents decode to an empty
/// run of host bytes.
fn decode_host_instruction(buf: &[u8]) -> (r: HostInstruction)
    ensures
        r@ == read_host_instruction(buf@, HostInstructionView::HostBytes(Seq::empty())),
{
    let mut result = HostInstruction::HostBytes(Vec::new());
    let ghost first = HostInstructionView::HostBytes(Seq::empty());
    let mut pos: usize = 0;
    proof {
        assert(buf@.skip(0) == buf@);
        assert(result@ == first);
    }
    loop
        invariant_except_break
            pos <= buf.len(),
            read_host_instruction(buf@, first) == read_host_instruction(
                buf@.skip(pos as int),
                result@,
            ),
        ensures
            read_host_instruction(buf@, first) == result@,
        decreases buf.len() - pos,
    {
        let ghost unread = buf@.skip(pos as int);
        let ghost start = pos as int;
        let ghost before = result@;
        proof {
            reveal(read_host_instruction);
        }
        if pos >= buf.len() {
            break;
        }
        let (field, wire_type) = match read_tag(buf, &mut pos) {
            Ok(tag) => tag,
            Err(_) => {
                break;
            },
        };
        let ghost value = buf@.skip(pos as int);
        let ghost value_start = pos as int;
        proof {
            assert(unread.skip(pos - start) == value);
        }
        if wire_type == 2 && (field == 2 || field == 3 || field == 7) {
            match read_length_delimited(buf, &mut pos) {
                Ok(block) => {
                    if field == 2 {
                        match find_last_bytes(block, 4) {
                            Some(bytes) => {
                                result = HostInstruction::HostBytes(bytes);
                            },
                            None => {},
                        }
                    } else if field == 3 {
                        let (width, height) = find_size(block);
                        result = HostInstruction::Resize { width, height };
                    } else {
                        match find_last_varint(block, 8) {
                            Some(num) => {
                                result = HostInstruction::EchoAck(num);
                            },
                            None => {},
                        }
                    }
                    proof {
                        assert(result@ == read_host_block(field, block@, before));
                    }
                },
                Err(_) => {},
            }
        } else {
            match skip_field(buf, &mut pos, wire_type) {
                Ok(_) => {},
                Err(_) => {
                    break;
                },
            }
        }
        proof {
            assert(value.skip(pos - value_start) == buf@.skip(pos as int));
        }
    }
    result
}

impl Default for HostMessage {
    fn default() -> (r: Self)
        ensures
            r@ == Seq::<HostInstructionView>::empty(),
    {
        let r = HostMessage { instructions: Vec::new() };
        proof {
            assert(r@ == Seq::<HostInstructionView>::empty());
        }
        r
    }
}

impl HostMessage {
    /// Encodes the instructions in order.
    pub fn encode(&self) -> (r: Vec<u8>)
        ensures
            r@ == host_message_bytes(self@),
    {
        let mut out: Vec<u8> = Vec::new();
        let mut i: usize = 0;
        proof {
            assert(self@.skip(0) == self@);
            assert(out@ + host_message_bytes(self@) == host_message_bytes(self@));
        }
        while i < self.instructions.len()
            invariant
                i <= self.instructions.len(),
                out@ + host_message_bytes(self@.skip(i as int)) == host_message_bytes(self@),
            decreases self.instructions.len() - i,
        {
            let ghost before = out@;
            let ghost rest = self@.skip(i as int);
            let inner: Vec<u8> = encode_host_instruction(&self.instructions[i]);
            write_bytes_field(&mut out, 1, inner.as_slice());
            proof {
                assert(rest[0] == self.instructions@[i as int]@);
                assert(rest.skip(1) == self@.skip(i + 1));
                assert(before + (bytes_field_bytes(1, inner@) + host_message_bytes(rest.skip(1)))
                    == out@ + host_message_bytes(rest.skip(1)));
            }
            i = i + 1;
        }
        proof {
            assert(self@.skip(i as int) == Seq::<HostInstructionView>::empty());
            assert(out@ + Seq::<u8>::empty() == out@);
        }
        out
    }

    /// Decodes any bytes: the instructions they hold, or the first thing wrong
    /// with the message around them.
    pub fn decode(buf: &[u8]) -> (r: Result<Self, WireError>)
        ensures
            match r {
                Ok(message) => merge_host_message(Seq::empty(), buf@) == Ok::<
                    Seq<HostInstructionView>,
                    WireError,
                >(message@),
                Err(e) => merge_host_message(Seq::empty(), buf@) == Err::<
                    Seq<HostInstructionView>,
                    WireError,
                >(e),
            },
    {
        let mut out = HostMessage::default();
        let mut pos: usize = 0;
        proof {
            assert(buf@.skip(0) == buf@);
        }
        while pos < buf.len()
            invariant
                pos <= buf.len(),
                merge_host_message(Seq::empty(), buf@) == merge_host_message(
                    out@,
                    buf@.skip(pos as int),
                ),
            decreases buf.len() - pos,
        {
            let ghost unread = buf@.skip(pos as int);
            let ghost start = pos as int;
            let ghost before = out@;
            proof {
                reveal(merge_host_message);
            }
            let (field, wire_type) = match read_tag(buf, &mut pos) {
                Ok(tag) => tag,
                Err(e) => {
                    return Err(e);
                },
            };
            let ghost value = buf@.skip(pos as int);
            let ghost value_start = pos as int;
            proof {
                assert(unread.skip(pos - start) == value);
            }
            if field == 1 && wire_type == 2 {
                let block: &[u8] = match read_length_delimited(buf, &mut pos) {
                    Ok(block) => block,
                    Err(e) => {
                        return Err(e);
                    },
                };
                let instruction = decode_host_instruction(block);
                let ghost decoded = instruction@;
                out.instructions.push(instruction);
                proof {
                    assert(out@ == before.push(decoded));
                }
            } else {
                match skip_field(buf, &mut pos, wire_type) {
                    Ok(_) => {},
                    Err(e) => {
                        return Err(e);
                    },
                }
            }
            proof {
                assert(value.skip(pos - value_start) == buf@.skip(pos as int));
            }
        }
        proof {
            reveal(merge_host_message);
        }
        Ok(out)
    }
}

} // verus!
