//! `ClientBuffers.UserMessage`: what the user did.

use vstd::prelude::*;

use crate::wire::block::{find_last_bytes, find_size, last_bytes_field, size_fields};
use crate::wire::error::WireError;
use crate::wire::field::{
    lemma_varint_prefix_bounds, parse_bytes, parse_tag, read_length_delimited, read_tag, skip_field,
    skip_value,
};
use crate::wire::field_laws::lemma_skip_value_extends;
use crate::wire::writer::{
    bytes_field_bytes, varint_field_bytes, write_bytes_field, write_varint_field,
};

verus! {

/// One thing the user did.
#[derive(Clone, PartialEq, Eq, Debug)]
pub enum UserInstruction {
    /// Bytes the user pressed.
    Keystroke(Vec<u8>),
    /// The terminal took a new size.
    Resize { width: i32, height: i32 },
}

/// A run of user instructions.
#[derive(Clone, PartialEq, Eq, Debug)]
pub struct UserMessage {
    pub instructions: Vec<UserInstruction>,
}

/// What a `UserInstruction` says.
#[verifier::ext_equal]
pub enum UserInstructionView {
    Keystroke(Seq<u8>),
    Resize { width: i32, height: i32 },
}

impl View for UserInstruction {
    type V = UserInstructionView;

    open spec fn view(&self) -> UserInstructionView {
        match *self {
            UserInstruction::Keystroke(keys) => UserInstructionView::Keystroke(keys@),
            UserInstruction::Resize { width, height } => UserInstructionView::Resize {
                width,
                height,
            },
        }
    }
}

/// What a `UserMessage` says: its instructions in order.
impl View for UserMessage {
    type V = Seq<UserInstructionView>;

    open spec fn view(&self) -> Seq<UserInstructionView> {
        Seq::new(self.instructions@.len(), |i: int| self.instructions@[i]@)
    }
}

/// An encoded instruction: a keystroke block (field 2) that holds the keys
/// (field 4), or a resize block (field 3) that holds width and height (fields 5
/// and 6, negative ones extended to 64 bits).
pub open spec fn user_instruction_bytes(instruction: UserInstructionView) -> Seq<u8> {
    match instruction {
        UserInstructionView::Keystroke(keys) => bytes_field_bytes(2, bytes_field_bytes(4, keys)),
        UserInstructionView::Resize { width, height } => bytes_field_bytes(
            3,
            varint_field_bytes(5, width as u64) + varint_field_bytes(6, height as u64),
        ),
    }
}

/// The instructions one after the other, each in a field 1 of its own.
pub open spec fn user_message_bytes(instructions: Seq<UserInstructionView>) -> Seq<u8>
    decreases instructions.len(),
{
    if instructions.len() == 0 {
        Seq::empty()
    } else {
        bytes_field_bytes(1, user_instruction_bytes(instructions[0])) + user_message_bytes(
            instructions.skip(1),
        )
    }
}

/// Whether a field of this number and wire type is a block of an instruction.
pub open spec fn is_user_block(field: u32, wire_type: u8) -> bool {
    wire_type == 2 && (field == 2 || field == 3)
}

/// What block number `field`, with contents `block`, makes of `result`. A
/// keystroke block without keys leaves it as it is.
pub open spec fn read_user_block(
    field: u32,
    block: Seq<u8>,
    result: UserInstructionView,
) -> UserInstructionView {
    if field == 2 {
        match last_bytes_field(block, 4, None) {
            Some(keys) => UserInstructionView::Keystroke(keys),
            None => result,
        }
    } else {
        let (width, height) = size_fields(block, (0, 0));
        UserInstructionView::Resize { width, height }
    }
}

/// The instruction that `s` leaves of `result`. Blocks that cannot be read are
/// passed over; a key or an unrelated value that cannot be read ends the scan.
#[verifier::opaque]
pub open spec fn read_user_instruction(
    s: Seq<u8>,
    result: UserInstructionView,
) -> UserInstructionView
    decreases s.len(),
{
    if s.len() == 0 {
        result
    } else {
        let (tag, n) = parse_tag(s);
        match tag {
            Err(_) => result,
            Ok((field, wire_type)) => {
                let value = s.skip(n as int);
                proof {
                    lemma_varint_prefix_bounds(s, 10);
                    lemma_varint_prefix_bounds(value, 10);
                    lemma_skip_value_extends(value, wire_type, Seq::empty());
                }
                if is_user_block(field, wire_type) {
                    let (block, m) = parse_bytes(value);
                    match block {
                        Ok(b) => read_user_instruction(
                            value.skip(m as int),
                            read_user_block(field, b, result),
                        ),
                        Err(_) => read_user_instruction(value.skip(m as int), result),
                    }
                } else {
                    match skip_value(value, wire_type) {
                        Err(_) => result,
                        Ok(m) => read_user_instruction(value.skip(m as int), result),
                    }
                }
            },
        }
    }
}

/// The instructions of `s` behind those of `before`: every length-delimited
/// field 1 is one, every other field is skipped.
#[verifier::opaque]
pub open spec fn merge_user_message(before: Seq<UserInstructionView>, s: Seq<u8>) -> Result<
    Seq<UserInstructionView>,
    WireError,
>
    decreases s.len(),
{
    if s.len() == 0 {
        Ok(before)
    } else {
        let (tag, n) = parse_tag(s);
        match tag {
            Err(e) => Err(e),
            Ok((field, wire_type)) => {
                let value = s.skip(n as int);
                proof {
                    lemma_varint_prefix_bounds(s, 10);
                    lemma_varint_prefix_bounds(value, 10);
                    lemma_skip_value_extends(value, wire_type, Seq::empty());
                }
                if field == 1 && wire_type == 2 {
                    let (block, m) = parse_bytes(value);
                    match block {
                        Ok(b) => merge_user_message(
                            before.push(
                                read_user_instruction(
                                    b,
                                    UserInstructionView::Keystroke(Seq::empty()),
                                ),
                            ),
                            value.skip(m as int),
                        ),
                        Err(e) => Err(e),
                    }
                } else {
                    match skip_value(value, wire_type) {
                        Err(e) => Err(e),
                        Ok(m) => merge_user_message(before, value.skip(m as int)),
                    }
                }
            },
        }
    }
}

/// Encodes one instruction, without the field around it.
fn encode_user_instruction(instruction: &UserInstruction) -> (r: Vec<u8>)
    ensures
        r@ == user_instruction_bytes(instruction@),
{
    let mut block: Vec<u8> = Vec::new();
    let mut out: Vec<u8> = Vec::new();
    let ghost none = Seq::<u8>::empty();
    match instruction {
        UserInstruction::Keystroke(keys) => {
            write_bytes_field(&mut block, 4, keys.as_slice());
            proof {
                assert(none + bytes_field_bytes(4, keys@) == bytes_field_bytes(4, keys@));
            }
            write_bytes_field(&mut out, 2, block.as_slice());
        },
        UserInstruction::Resize { width, height } => {
            write_varint_field(&mut block, 5, *width as u64);
            write_varint_field(&mut block, 6, *height as u64);
            proof {
                assert(none + varint_field_bytes(5, *width as u64) == varint_field_bytes(
                    5,
                    *width as u64,
                ));
            }
            write_bytes_field(&mut out, 3, block.as_slice());
        },
    }
    proof {
        assert(none + user_instruction_bytes(instruction@) == user_instruction_bytes(instruction@));
    }
    out
}

/// Decodes one instruction. Unknown or missing contents decode to an empty
/// keystroke.
fn decode_user_instruction(buf: &[u8]) -> (r: UserInstruction)
    ensures
        r@ == read_user_instruction(buf@, UserInstructionView::Keystroke(Seq::empty())),
{
    let mut result = UserInstruction::Keystroke(Vec::new());
    let ghost first = UserInstructionView::Keystroke(Seq::empty());
    let mut pos: usize = 0;
    proof {
        assert(buf@.skip(0) == buf@);
        assert(result@ == first);
    }
    loop
        invariant_except_break
            pos <= buf.len(),
            read_user_instruction(buf@, first) == read_user_instruction(
                buf@.skip(pos as int),
                result@,
            ),
        ensures
            read_user_instruction(buf@, first) == result@,
        decreases buf.len() - pos,
    {
        let ghost unread = buf@.skip(pos as int);
        let ghost start = pos as int;
        let ghost before = result@;
        proof {
            reveal(read_user_instruction);
        }
        if pos >= buf.len() {
            break;
        }
        let (field, wire_type) = match read_tag(buf, &mut pos) {
            Ok(tag) => tag,
            Err(_) => {
                break;
            },
        };
        let ghost value = buf@.skip(pos as int);
        let ghost value_start = pos as int;
        proof {
            assert(unread.skip(pos - start) == value);
        }
        if wire_type == 2 && (field == 2 || field == 3) {
            match read_length_delimited(buf, &mut pos) {
                Ok(block) => {
                    if field == 2 {
                        match find_last_bytes(block, 4) {
                            Some(keys) => {
                                result = UserInstruction::Keystroke(keys);
                            },
                            None => {},
                        }
                    } else {
                        let (width, height) = find_size(block);
                        result = UserInstruction::Resize { width, height };
                    }
                    proof {
                        assert(result@ == read_user_block(field, block@, before));
                    }
                },
                Err(_) => {},
            }
        } else {
            match skip_field(buf, &mut pos, wire_type) {
                Ok(_) => {},
                Err(_) => {
                    break;
                },
            }
        }
        proof {
            assert(value.skip(pos - value_start) == buf@.skip(pos as int));
        }
    }
    result
}

impl Default for UserMessage {
    fn default() -> (r: Self)
        ensures
            r@ == Seq::<UserInstructionView>::empty(),
    {
        let r = UserMessage { instructions: Vec::new() };
        proof {
            assert(r@ == Seq::<UserInstructionView>::empty());
        }
        r
    }
}

impl UserMessage {
    /// Encodes the instructions in order.
    pub fn encode(&self) -> (r: Vec<u8>)
        ensures
            r@ == user_message_bytes(self@),
    {
        let mut out: Vec<u8> = Vec::new();
        let mut i: usize = 0;
        proof {
            assert(self@.skip(0) == self@);
            assert(out@ + user_message_bytes(self@) == user_message_bytes(self@));
        }
        while i < self.instructions.len()
            invariant
                i <= self.instructions.len(),
                out@ + user_message_bytes(self@.skip(i as int)) == user_message_bytes(self@),
            decreases self.instructions.len() - i,
        {
            let ghost before = out@;
            let ghost rest = self@.skip(i as int);
            let inner: Vec<u8> = encode_user_instruction(&self.instructions[i]);
            write_bytes_field(&mut out, 1, inner.as_slice());
            proof {
                assert(rest[0] == self.instructions@[i as int]@);
                assert(rest.skip(1) == self@.skip(i + 1));
                assert(before + (bytes_field_bytes(1, inner@) + user_message_bytes(rest.skip(1)))
                    == out@ + user_message_bytes(rest.skip(1)));
            }
            i = i + 1;
        }
        proof {
            assert(self@.skip(i as int) == Seq::<UserInstructionView>::empty());
            assert(out@ + Seq::<u8>::empty() == out@);
        }
        out
    }

    /// Decodes any bytes: the instructions they hold, or the first thing wrong
    /// with the message around them.
    pub fn decode(buf: &[u8]) -> (r: Result<Self, WireError>)
        ensures
            match r {
                Ok(message) => merge_user_message(Seq::empty(), buf@) == Ok::<
                    Seq<UserInstructionView>,
                    WireError,
                >(message@),
                Err(e) => merge_user_message(Seq::empty(), buf@) == Err::<
                    Seq<UserInstructionView>,
                    WireError,
                >(e),
            },
    {
        let mut out = UserMessage::default();
        let mut pos: usize = 0;
        proof {
            assert(buf@.skip(0) == buf@);
        }
        while pos < buf.len()
            invariant
                pos <= buf.len(),
                merge_user_message(Seq::empty(), buf@) == merge_user_message(
                    out@,
                    buf@.skip(pos as int),
                ),
            decreases buf.len() - pos,
        {
            let ghost unread = buf@.skip(pos as int);
            let ghost start = pos as int;
            let ghost before = out@;
            proof {
                reveal(merge_user_message);
            }
            let (field, wire_type) = match read_tag(buf, &mut pos) {
                Ok(tag) => tag,
                Err(e) => {
                    return Err(e);
                },
            };
            let ghost value = buf@.skip(pos as int);
            let ghost value_start = pos as int;
            proof {
                assert(unread.skip(pos - start) == value);
            }
            if field == 1 && wire_type == 2 {
                let block: &[u8] = match read_length_delimited(buf, &mut pos) {
                    Ok(block) => block,
                    Err(e) => {
                        return Err(e);
                    },
                };
                let instruction = decode_user_instruction(block);
                let ghost decoded = instruction@;
                out.instructions.push(instruction);
                proof {
                    assert(out@ == before.push(decoded));
                }
            } else {
                match skip_field(buf, &mut pos, wire_type) {
                    Ok(_) => {},
                    Err(e) => {
                        return Err(e);
                    },
                }
            }
            proof {
                assert(value.skip(pos - value_start) == buf@.skip(pos as int));
            }
        }
        proof {
            reveal(merge_user_message);
        }
        Ok(out)
    }
}

} // verus!
