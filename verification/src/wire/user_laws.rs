//! What holds of user messages as a whole.

use vstd::prelude::*;

use crate::wire::block_laws::{law_bytes_block_round_trip, law_size_block_round_trip};
use crate::wire::error::WireError;
use crate::wire::field::{lemma_varint_prefix_bounds, parse_bytes, parse_tag, skip_value};
use crate::wire::field_laws::{
    lemma_bytes_extend, lemma_read_bytes_field, lemma_skip_value_extends,
    lemma_varint_prefix_extends,
};
use crate::wire::user::{
    is_user_block, merge_user_message, read_user_instruction, user_instruction_bytes,
    user_message_bytes, UserInstructionView,
};
use crate::wire::writer::{bytes_field_bytes, varint_field_bytes};

verus! {

/// An encoded instruction overrides what came before it, and what comes behind it
/// is read on.
pub proof fn law_user_instruction_overrides(
    result: UserInstructionView,
    instruction: UserInstructionView,
    rest: Seq<u8>,
)
    requires
        user_instruction_bytes(instruction).len() <= u64::MAX,
    ensures
        read_user_instruction(user_instruction_bytes(instruction) + rest, result)
            == read_user_instruction(rest, instruction),
{
    reveal(read_user_instruction);
    match instruction {
        UserInstructionView::Keystroke(keys) => {
            let block = bytes_field_bytes(4, keys);
            lemma_read_bytes_field(2, block, rest);
            law_bytes_block_round_trip(4, keys);
        },
        UserInstructionView::Resize { width, height } => {
            let block = varint_field_bytes(5, width as u64)
                + varint_field_bytes(6, height as u64);
            lemma_read_bytes_field(3, block, rest);
            law_size_block_round_trip(width, height);
        },
    }
}

/// Nothing to read leaves what was read before.
pub proof fn law_nothing_leaves_the_user_instruction(result: UserInstructionView)
    ensures
        read_user_instruction(Seq::empty(), result) == result,
{
    reveal(read_user_instruction);
}

/// Of two encoded instructions in one block the last wins.
pub proof fn law_last_user_instruction_wins(
    first: UserInstructionView,
    second: UserInstructionView,
)
    requires
        user_instruction_bytes(first).len() <= u64::MAX,
        user_instruction_bytes(second).len() <= u64::MAX,
    ensures
        read_user_instruction(
            user_instruction_bytes(first) + user_instruction_bytes(second),
            UserInstructionView::Keystroke(Seq::empty()),
        ) == second,
{
    let none = Seq::<u8>::empty();
    let s = user_instruction_bytes(second);
    law_user_instruction_overrides(UserInstructionView::Keystroke(Seq::empty()), first, s);
    law_user_instruction_overrides(first, second, none);
    law_nothing_leaves_the_user_instruction(second);
    assert(s + none =~= s);
}

/// An encoded instruction decodes to itself, whatever unreadable bytes come
/// behind it.
pub proof fn law_malformed_user_tail_is_tolerated(
    instruction: UserInstructionView,
    tail: Seq<u8>,
)
    requires
        user_instruction_bytes(instruction).len() <= u64::MAX,
        parse_tag(tail).0 is Err,
    ensures
        read_user_instruction(
            user_instruction_bytes(instruction) + tail,
            UserInstructionView::Keystroke(Seq::empty()),
        ) == instruction,
{
    law_user_instruction_overrides(UserInstructionView::Keystroke(Seq::empty()), instruction, tail);
    reveal(read_user_instruction);
}

/// An encoded instruction decodes to itself.
pub proof fn law_user_instruction_round_trip(instruction: UserInstructionView)
    requires
        user_instruction_bytes(instruction).len() <= u64::MAX,
    ensures
        read_user_instruction(
            user_instruction_bytes(instruction),
            UserInstructionView::Keystroke(Seq::empty()),
        ) == instruction,
{
    let none = Seq::<u8>::empty();
    let s = user_instruction_bytes(instruction);
    assert(s + none == s);
    law_malformed_user_tail_is_tolerated(instruction, none);
}

/// Whether `s` is exactly one well-formed field that an instruction gives no
/// meaning to.
pub open spec fn is_unknown_user_content(s: Seq<u8>) -> bool {
    let (tag, n) = parse_tag(s);
    match tag {
        Err(_) => false,
        Ok((field, wire_type)) => {
            &&& !is_user_block(field, wire_type)
            &&& skip_value(s.skip(n as int), wire_type) == Ok::<nat, WireError>(
                (s.len() - n) as nat,
            )
        },
    }
}

/// An unknown field inside an instruction is skipped.
pub proof fn law_unknown_user_contents_are_skipped(
    unknown: Seq<u8>,
    rest: Seq<u8>,
    result: UserInstructionView,
)
    requires
        is_unknown_user_content(unknown),
    ensures
        read_user_instruction(unknown + rest, result) == read_user_instruction(rest, result),
{
    reveal(read_user_instruction);
    let s = unknown + rest;
    let (tag, n) = parse_tag(unknown);
    lemma_varint_prefix_bounds(unknown, 10);
    lemma_varint_prefix_extends(unknown, 10, rest);
    let (_, wire_type) = tag->Ok_0;
    let value = unknown.skip(n as int);
    assert(s.skip(n as int) == value + rest);
    lemma_skip_value_extends(value, wire_type, rest);
    assert((value + rest).skip(value.len() as int) == rest);
}

/// An encoded message decodes to itself. Its encoding has to fit in memory.
pub proof fn law_user_message_round_trip(message: Seq<UserInstructionView>)
    requires
        user_message_bytes(message).len() <= usize::MAX,
    ensures
        merge_user_message(Seq::empty(), user_message_bytes(message)) == Ok::<
            Seq<UserInstructionView>,
            WireError,
        >(message),
{
    lemma_merge_encoded(Seq::empty(), message);
    assert(Seq::<UserInstructionView>::empty() + message == message);
}

/// An encoded message decodes behind what was decoded before it.
proof fn lemma_merge_encoded(
    before: Seq<UserInstructionView>,
    message: Seq<UserInstructionView>,
)
    requires
        user_message_bytes(message).len() <= usize::MAX,
    ensures
        merge_user_message(before, user_message_bytes(message)) == Ok::<
            Seq<UserInstructionView>,
            WireError,
        >(before + message),
    decreases message.len(),
{
    reveal(merge_user_message);
    if message.len() == 0 {
        assert(before + message == before);
    } else {
        let inner = user_instruction_bytes(message[0]);
        let rest = user_message_bytes(message.skip(1));
        lemma_read_bytes_field(1, inner, rest);
        law_user_instruction_round_trip(message[0]);
        lemma_merge_encoded(before.push(message[0]), message.skip(1));
        assert(before.push(message[0]) + message.skip(1) == before + message);
    }
}

/// Decoding two runs of fields one behind the other is decoding the first and
/// then the second.
pub proof fn law_user_merge_appends(
    before: Seq<UserInstructionView>,
    first: Seq<u8>,
    second: Seq<u8>,
)
    ensures
        merge_user_message(before, first) matches Ok(mid) ==> merge_user_message(
            before,
            first + second,
        ) == merge_user_message(mid, second),
    decreases first.len(),
{
    reveal(merge_user_message);
    if merge_user_message(before, first) is Ok {
        if first.len() == 0 {
            assert(first + second == second);
        } else {
            let whole = first + second;
            let (tag, n) = parse_tag(first);
            lemma_varint_prefix_bounds(first, 10);
            lemma_varint_prefix_extends(first, 10, second);
            let (field, wire_type) = tag->Ok_0;
            let value = first.skip(n as int);
            assert(whole.skip(n as int) == value + second);
            lemma_varint_prefix_bounds(value, 10);
            lemma_bytes_extend(value, second);
            lemma_skip_value_extends(value, wire_type, second);
            if field == 1 && wire_type == 2 {
                let (block, m) = parse_bytes(value);
                let instruction = read_user_instruction(
                    block->Ok_0,
                    UserInstructionView::Keystroke(Seq::empty()),
                );
                assert((value + second).skip(m as int) == value.skip(m as int) + second);
                law_user_merge_appends(before.push(instruction), value.skip(m as int), second);
            } else {
                let m = skip_value(value, wire_type)->Ok_0;
                assert((value + second).skip(m as int) == value.skip(m as int) + second);
                law_user_merge_appends(before, value.skip(m as int), second);
            }
        }
    }
}

/// Whether `s` is exactly one well-formed field other than an instruction.
pub open spec fn is_unknown_user_field(s: Seq<u8>) -> bool {
    let (tag, n) = parse_tag(s);
    match tag {
        Err(_) => false,
        Ok((field, wire_type)) => {
            &&& !(field == 1 && wire_type == 2)
            &&& skip_value(s.skip(n as int), wire_type) == Ok::<nat, WireError>(
                (s.len() - n) as nat,
            )
        },
    }
}

/// An unknown field on its own adds nothing.
proof fn lemma_merge_unknown(mid: Seq<UserInstructionView>, unknown: Seq<u8>)
    requires
        is_unknown_user_field(unknown),
    ensures
        merge_user_message(mid, unknown) == Ok::<Seq<UserInstructionView>, WireError>(mid),
{
    reveal(merge_user_message);
    let (tag, n) = parse_tag(unknown);
    lemma_varint_prefix_bounds(unknown, 10);
    let value = unknown.skip(n as int);
    let end = value.skip(value.len() as int);
    assert(end.len() == 0);
    assert(merge_user_message(mid, end) == Ok::<Seq<UserInstructionView>, WireError>(mid));
}

/// An unknown field between two runs of fields changes nothing.
pub proof fn law_unknown_user_fields_are_skipped(
    before: Seq<u8>,
    unknown: Seq<u8>,
    after: Seq<u8>,
)
    requires
        merge_user_message(Seq::empty(), before) is Ok,
        is_unknown_user_field(unknown),
    ensures
        merge_user_message(Seq::empty(), before + unknown + after) == merge_user_message(
            Seq::empty(),
            before + after,
        ),
{
    let mid = merge_user_message(Seq::empty(), before)->Ok_0;
    lemma_merge_unknown(mid, unknown);
    law_user_merge_appends(mid, unknown, after);
    assert(before + unknown + after == before + (unknown + after));
    law_user_merge_appends(Seq::empty(), before, unknown + after);
    law_user_merge_appends(Seq::empty(), before, after);
}

} // verus!
