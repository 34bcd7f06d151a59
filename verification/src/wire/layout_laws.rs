//! What the messages are on the wire, byte by byte, and what each field number
//! means to their readers.

use vstd::prelude::*;

use crate::wire::block::{last_bytes_field, last_varint_field, size_fields};
use crate::wire::bytes_laws::law_fields_are_key_and_value;
use crate::wire::error::WireError;
use crate::wire::field::{
    lemma_varint_prefix_bounds, parse_bytes, parse_tag, parse_varint, skip_value,
};
use crate::wire::field_laws::{
    law_varint_round_trip, lemma_read_bytes_field, lemma_read_varint_field,
};
use crate::wire::host::{
    host_instruction_bytes, host_message_bytes, merge_host_message, read_host_instruction,
    HostInstruction, HostInstructionView, HostMessage,
};
use crate::wire::transport::{
    blank_transport, merge_transport, transport_bytes, TransportInstruction, TransportView,
};
use crate::wire::transport_laws::{lemma_merge_bytes, lemma_merge_number};
use crate::wire::user::{
    merge_user_message, read_user_instruction, user_instruction_bytes, user_message_bytes,
    UserInstruction, UserInstructionView, UserMessage,
};
use crate::wire::writer::{bytes_field_bytes, varint_bytes, varint_field_bytes};

verus! {

/// The keys of the fields in use are one byte each.
proof fn lemma_key_bytes(field: u32, value: u64, bytes: Seq<u8>)
    requires
        field < 16,
    ensures
        varint_field_bytes(field, value) == seq![(8 * field) as u8] + varint_bytes(value as nat),
        bytes_field_bytes(field, bytes) == seq![(8 * field + 2) as u8] + varint_bytes(bytes.len())
            + bytes,
{
    law_fields_are_key_and_value(field, value, bytes);
}

/// Three runs of bytes one behind the other, in either grouping.
proof fn lemma_regroup(a: Seq<u8>, b: Seq<u8>, c: Seq<u8>)
    ensures
        a + (b + c) == a + b + c,
{
    assert(a + (b + c) =~= a + b + c);
}

/// A 64-bit varint takes at most ten bytes.
proof fn lemma_varint_len(value: u64)
    ensures
        varint_bytes(value as nat).len() <= 10,
{
    let none = Seq::<u8>::empty();
    law_varint_round_trip(value, none);
    lemma_varint_prefix_bounds(varint_bytes(value as nat) + none, 10);
}

/// Signed 32-bit numbers in 64 bits and back.
proof fn lemma_signed(n: i32, v: u64)
    ensures
        n as u64 == (if n >= 0 {
            n as int
        } else {
            n + 0x1_0000_0000_0000_0000
        }),
        v as i32 == (if v % 0x1_0000_0000 < 0x8000_0000 {
            (v % 0x1_0000_0000) as int
        } else {
            v % 0x1_0000_0000 - 0x1_0000_0000
        }),
{
    assert(n >= 0 ==> n as u64 == n) by (bit_vector);
    assert(n < 0 ==> n as u64 == n + 0x1_0000_0000_0000_0000) by (bit_vector);
    assert(v % 0x1_0000_0000 < 0x8000_0000 ==> v as i32 == v % 0x1_0000_0000) by (bit_vector);
    assert(v % 0x1_0000_0000 >= 0x8000_0000 ==> v as i32 == v % 0x1_0000_0000 - 0x1_0000_0000)
        by (bit_vector);
}

/// An instruction says what its fields say.
pub proof fn law_transport_view(inst: TransportInstruction)
    ensures
        inst@.protocol_version == inst.protocol_version,
        inst@.old_num == inst.old_num,
        inst@.new_num == inst.new_num,
        inst@.ack_num == inst.ack_num,
        inst@.throwaway_num == inst.throwaway_num,
        inst@.diff == inst.diff@,
        inst@.chaff == inst.chaff@,
{
}

/// The blank instruction is all zero and empty.
pub proof fn law_blank_transport()
    ensures
        blank_transport().protocol_version == 0,
        blank_transport().old_num == 0,
        blank_transport().new_num == 0,
        blank_transport().ack_num == 0,
        blank_transport().throwaway_num == 0,
        blank_transport().diff.len() == 0,
        blank_transport().chaff.len() == 0,
{
}

/// The seven fields of an instruction on the wire, each behind its key.
pub proof fn law_transport_layout(inst: TransportView)
    ensures
        transport_bytes(inst) == seq![0x08u8] + varint_bytes(inst.protocol_version as nat)
            + seq![0x10u8] + varint_bytes(inst.old_num as nat) + seq![0x18u8] + varint_bytes(
            inst.new_num as nat,
        ) + seq![0x20u8] + varint_bytes(inst.ack_num as nat) + seq![0x28u8] + varint_bytes(
            inst.throwaway_num as nat,
        ) + seq![0x32u8] + varint_bytes(inst.diff.len()) + inst.diff + seq![0x3Au8] + varint_bytes(
            inst.chaff.len(),
        ) + inst.chaff,
{
    let f1 = varint_field_bytes(1, inst.protocol_version as u64);
    let f2 = varint_field_bytes(2, inst.old_num);
    let f3 = varint_field_bytes(3, inst.new_num);
    let f4 = varint_field_bytes(4, inst.ack_num);
    let f5 = varint_field_bytes(5, inst.throwaway_num);
    let f6 = bytes_field_bytes(6, inst.diff);
    lemma_key_bytes(1, inst.protocol_version as u64, inst.diff);
    lemma_key_bytes(2, inst.old_num, inst.diff);
    lemma_key_bytes(3, inst.new_num, inst.diff);
    lemma_key_bytes(4, inst.ack_num, inst.diff);
    lemma_key_bytes(5, inst.throwaway_num, inst.diff);
    lemma_key_bytes(6, 0, inst.diff);
    lemma_key_bytes(7, 0, inst.chaff);
    lemma_regroup(f1, seq![0x10u8], varint_bytes(inst.old_num as nat));
    let p2 = f1 + f2;
    lemma_regroup(p2, seq![0x18u8], varint_bytes(inst.new_num as nat));
    let p3 = p2 + f3;
    lemma_regroup(p3, seq![0x20u8], varint_bytes(inst.ack_num as nat));
    let p4 = p3 + f4;
    lemma_regroup(p4, seq![0x28u8], varint_bytes(inst.throwaway_num as nat));
    let p5 = p4 + f5;
    lemma_regroup(p5, seq![0x32u8] + varint_bytes(inst.diff.len()), inst.diff);
    lemma_regroup(p5, seq![0x32u8], varint_bytes(inst.diff.len()));
    let p6 = p5 + f6;
    lemma_regroup(p6, seq![0x3Au8] + varint_bytes(inst.chaff.len()), inst.chaff);
    lemma_regroup(p6, seq![0x3Au8], varint_bytes(inst.chaff.len()));
}

/// A field in front of others sets what it is for, and nothing else.
pub proof fn law_transport_fields_are_read(
    inst: TransportView,
    v: u64,
    b: Seq<u8>,
    rest: Seq<u8>,
)
    requires
        b.len() <= u64::MAX,
    ensures
        merge_transport(inst, Seq::empty()) == Ok::<TransportView, WireError>(inst),
        merge_transport(inst, seq![0x08u8] + varint_bytes(v as nat) + rest) == merge_transport(
            TransportView { protocol_version: (v % 0x1_0000_0000) as u32, ..inst },
            rest,
        ),
        merge_transport(inst, seq![0x10u8] + varint_bytes(v as nat) + rest) == merge_transport(
            TransportView { old_num: v, ..inst },
            rest,
        ),
        merge_transport(inst, seq![0x18u8] + varint_bytes(v as nat) + rest) == merge_transport(
            TransportView { new_num: v, ..inst },
            rest,
        ),
        merge_transport(inst, seq![0x20u8] + varint_bytes(v as nat) + rest) == merge_transport(
            TransportView { ack_num: v, ..inst },
            rest,
        ),
        merge_transport(inst, seq![0x28u8] + varint_bytes(v as nat) + rest) == merge_transport(
            TransportView { throwaway_num: v, ..inst },
            rest,
        ),
        merge_transport(inst, seq![0x32u8] + varint_bytes(b.len()) + b + rest) == merge_transport(
            TransportView { diff: b, ..inst },
            rest,
        ),
        merge_transport(inst, seq![0x3Au8] + varint_bytes(b.len()) + b + rest) == merge_transport(
            TransportView { chaff: b, ..inst },
            rest,
        ),
{
    lemma_key_bytes(1, v, b);
    lemma_key_bytes(2, v, b);
    lemma_key_bytes(3, v, b);
    lemma_key_bytes(4, v, b);
    lemma_key_bytes(5, v, b);
    lemma_key_bytes(6, v, b);
    lemma_key_bytes(7, v, b);
    lemma_merge_number(inst, 1, v, rest);
    lemma_merge_number(inst, 2, v, rest);
    lemma_merge_number(inst, 3, v, rest);
    lemma_merge_number(inst, 4, v, rest);
    lemma_merge_number(inst, 5, v, rest);
    lemma_merge_bytes(inst, 6, b, rest);
    lemma_merge_bytes(inst, 7, b, rest);
    assert(merge_transport(inst, Seq::empty()) == Ok::<TransportView, WireError>(inst)) by {
        reveal(merge_transport);
    }
}

/// Which field a number means, however its key and its value are written: numbers
/// 1 to 5 are varints, 6 and 7 byte strings, and all others are skipped. The first
/// thing that cannot be read is the error.
pub proof fn law_transport_field_numbers(inst: TransportView, s: Seq<u8>)
    requires
        s.len() > 0,
    ensures
        match parse_tag(s) {
            (Err(e), _) => merge_transport(inst, s) == Err::<TransportView, WireError>(e),
            (Ok((field, wire_type)), n) => {
                let value = s.skip(n as int);
                if wire_type == 0 && 1 <= field <= 5 {
                    match parse_varint(value) {
                        (Err(e), _) => merge_transport(inst, s) == Err::<TransportView, WireError>(
                            e,
                        ),
                        (Ok(v), m) => {
                            let rest = value.skip(m as int);
                            &&& field == 1 ==> merge_transport(inst, s) == merge_transport(
                                TransportView {
                                    protocol_version: (v % 0x1_0000_0000) as u32,
                                    ..inst
                                },
                                rest,
                            )
                            &&& field == 2 ==> merge_transport(inst, s) == merge_transport(
                                TransportView { old_num: v, ..inst },
                                rest,
                            )
                            &&& field == 3 ==> merge_transport(inst, s) == merge_transport(
                                TransportView { new_num: v, ..inst },
                                rest,
                            )
                            &&& field == 4 ==> merge_transport(inst, s) == merge_transport(
                                TransportView { ack_num: v, ..inst },
                                rest,
                            )
                            &&& field == 5 ==> merge_transport(inst, s) == merge_transport(
                                TransportView { throwaway_num: v, ..inst },
                                rest,
                            )
                        },
                    }
                } else if wire_type == 2 && 6 <= field <= 7 {
                    match parse_bytes(value) {
                        (Err(e), _) => merge_transport(inst, s) == Err::<TransportView, WireError>(
                            e,
                        ),
                        (Ok(b), m) => {
                            let rest = value.skip(m as int);
                            &&& field == 6 ==> merge_transport(inst, s) == merge_transport(
                                TransportView { diff: b, ..inst },
                                rest,
                            )
                            &&& field == 7 ==> merge_transport(inst, s) == merge_transport(
                                TransportView { chaff: b, ..inst },
                                rest,
                            )
                        },
                    }
                } else {
                    match skip_value(value, wire_type) {
                        Err(e) => merge_transport(inst, s) == Err::<TransportView, WireError>(e),
                        Ok(m) => merge_transport(inst, s) == merge_transport(
                            inst,
                            value.skip(m as int),
                        ),
                    }
                }
            },
        },
{
    reveal(merge_transport);
}

/// What a block is searched for: the last value of a field number that can be
/// read. A value of that field that cannot be read is passed over; anything else
/// that cannot be read ends the search.
pub proof fn law_block_search(
    s: Seq<u8>,
    field: u32,
    bytes: Option<Seq<u8>>,
    number: Option<u64>,
)
    ensures
        last_bytes_field(Seq::empty(), field, bytes) == bytes,
        last_varint_field(Seq::empty(), field, number) == number,
        s.len() > 0 ==> match parse_tag(s) {
            (Err(_), _) => {
                &&& last_bytes_field(s, field, bytes) == bytes
                &&& last_varint_field(s, field, number) == number
            },
            (Ok((f, wire_type)), n) => {
                let value = s.skip(n as int);
                let bytes_rest = value.skip(parse_bytes(value).1 as int);
                let number_rest = value.skip(parse_varint(value).1 as int);
                &&& f == field && wire_type == 2 ==> match parse_bytes(value).0 {
                    Ok(b) => last_bytes_field(s, field, bytes) == last_bytes_field(
                        bytes_rest,
                        field,
                        Some(b),
                    ),
                    Err(_) => last_bytes_field(s, field, bytes) == last_bytes_field(
                        bytes_rest,
                        field,
                        bytes,
                    ),
                }
                &&& f == field && wire_type == 0 ==> match parse_varint(value).0 {
                    Ok(v) => last_varint_field(s, field, number) == last_varint_field(
                        number_rest,
                        field,
                        Some(v),
                    ),
                    Err(_) => last_varint_field(s, field, number) == last_varint_field(
                        number_rest,
                        field,
                        number,
                    ),
                }
                &&& !(f == field && wire_type == 2) ==> match skip_value(value, wire_type) {
                    Ok(m) => last_bytes_field(s, field, bytes) == last_bytes_field(
                        value.skip(m as int),
                        field,
                        bytes,
                    ),
                    Err(_) => last_bytes_field(s, field, bytes) == bytes,
                }
                &&& !(f == field && wire_type == 0) ==> match skip_value(value, wire_type) {
                    Ok(m) => last_varint_field(s, field, number) == last_varint_field(
                        value.skip(m as int),
                        field,
                        number,
                    ),
                    Err(_) => last_varint_field(s, field, number) == number,
                }
            },
        },
{
    reveal(last_bytes_field);
    reveal(last_varint_field);
}

/// What a resize block is searched for: varint field 5 is the width and varint
/// field 6 the height, each the low 32 bits as a signed number.
pub proof fn law_size_search(s: Seq<u8>, width: i32, height: i32)
    ensures
        size_fields(Seq::empty(), (width, height)) == (width, height),
        s.len() > 0 ==> match parse_tag(s) {
            (Err(_), _) => size_fields(s, (width, height)) == (width, height),
            (Ok((field, wire_type)), n) => {
                let value = s.skip(n as int);
                if wire_type == 0 && (field == 5 || field == 6) {
                    let rest = value.skip(parse_varint(value).1 as int);
                    match parse_varint(value).0 {
                        Err(_) => size_fields(s, (width, height)) == size_fields(
                            rest,
                            (width, height),
                        ),
                        Ok(v) => {
                            let low = v % 0x1_0000_0000;
                            let signed = (if low < 0x8000_0000 {
                                low as int
                            } else {
                                low - 0x1_0000_0000
                            }) as i32;
                            &&& field == 5 ==> size_fields(s, (width, height)) == size_fields(
                                rest,
                                (signed, height),
                            )
                            &&& field == 6 ==> size_fields(s, (width, height)) == size_fields(
                                rest,
                                (width, signed),
                            )
                        },
                    }
                } else {
                    match skip_value(value, wire_type) {
                        Err(_) => size_fields(s, (width, height)) == (width, height),
                        Ok(m) => size_fields(s, (width, height)) == size_fields(
                            value.skip(m as int),
                            (width, height),
                        ),
                    }
                }
            },
        },
{
    reveal(size_fields);
    if s.len() > 0 {
        let (tag, n) = parse_tag(s);
        if let Ok(v) = parse_varint(s.skip(n as int)).0 {
            lemma_signed(0, v);
        }
    }
}

/// A resize block with a width and a height, in either order.
proof fn lemma_size_block(w: u64, h: u64)
    ensures
        ({
            let first = seq![0x28u8] + varint_bytes(w as nat) + seq![0x30u8] + varint_bytes(
                h as nat,
            );
            let second = seq![0x30u8] + varint_bytes(h as nat) + seq![0x28u8] + varint_bytes(
                w as nat,
            );
            &&& size_fields(first, (0, 0)) == (w as i32, h as i32)
            &&& size_fields(second, (0, 0)) == (w as i32, h as i32)
            &&& first.len() <= 22
            &&& second.len() <= 22
        }),
{
    reveal_with_fuel(size_fields, 4);
    let none = Seq::<u8>::empty();
    let width = varint_field_bytes(5, w);
    let height = varint_field_bytes(6, h);
    lemma_key_bytes(5, w, none);
    lemma_key_bytes(6, h, none);
    lemma_read_varint_field(5, w, height);
    lemma_read_varint_field(5, w, none);
    lemma_read_varint_field(6, h, width);
    lemma_read_varint_field(6, h, none);
    assert(width + none =~= width);
    assert(height + none =~= height);
    lemma_regroup(width, seq![0x30u8], varint_bytes(h as nat));
    lemma_regroup(height, seq![0x28u8], varint_bytes(w as nat));
    lemma_varint_len(w);
    lemma_varint_len(h);
}

/// A user instruction says what its variant and fields say.
pub proof fn law_user_views(instruction: UserInstruction, message: UserMessage, i: int)
    ensures
        match instruction {
            UserInstruction::Keystroke(keys) => instruction@ == UserInstructionView::Keystroke(keys@),
            UserInstruction::Resize { width, height } => instruction@ == (UserInstructionView::Resize {
                width,
                height,
            }),
        },
        message@.len() == message.instructions@.len(),
        0 <= i < message@.len() ==> message@[i] == message.instructions@[i]@,
{
}

/// A user instruction on the wire: blocks behind their keys and lengths, with the
/// fields inside them behind theirs. A negative size is extended to 64 bits.
pub proof fn law_user_instruction_layout(instruction: UserInstructionView)
    ensures
        match instruction {
            UserInstructionView::Keystroke(keys) => {
                let block = seq![0x22u8] + varint_bytes(keys.len()) + keys;
                user_instruction_bytes(instruction) == seq![0x12u8] + varint_bytes(block.len())
                    + block
            },
            UserInstructionView::Resize { width, height } => {
                let w = (if width >= 0 {
                    width as int
                } else {
                    width + 0x1_0000_0000_0000_0000
                }) as nat;
                let h = (if height >= 0 {
                    height as int
                } else {
                    height + 0x1_0000_0000_0000_0000
                }) as nat;
                let block = seq![0x28u8] + varint_bytes(w) + seq![0x30u8] + varint_bytes(h);
                user_instruction_bytes(instruction) == seq![0x1Au8] + varint_bytes(block.len())
                    + block
            },
        },
{
    let none = Seq::<u8>::empty();
    match instruction {
        UserInstructionView::Keystroke(keys) => {
            lemma_key_bytes(4, 0, keys);
            lemma_key_bytes(2, 0, bytes_field_bytes(4, keys));
        },
        UserInstructionView::Resize { width, height } => {
            let w = varint_field_bytes(5, width as u64);
            let h = varint_field_bytes(6, height as u64);
            lemma_signed(width, 0);
            lemma_signed(height, 0);
            lemma_key_bytes(5, width as u64, none);
            lemma_key_bytes(6, height as u64, none);
            lemma_regroup(w, seq![0x30u8], varint_bytes((height as u64) as nat));
            lemma_key_bytes(3, 0, w + h);
        },
    }
}

/// A user message on the wire: its instructions in order, each behind its key and
/// length.
pub proof fn law_user_message_layout(
    instruction: UserInstructionView,
    others: Seq<UserInstructionView>,
)
    ensures
        user_message_bytes(Seq::empty()) == Seq::<u8>::empty(),
        ({
            let b = user_instruction_bytes(instruction);
            user_message_bytes(seq![instruction] + others) == seq![0x0Au8] + varint_bytes(b.len())
                + b + user_message_bytes(others)
        }),
{
    let all = seq![instruction] + others;
    assert(all.skip(1) =~= others);
    lemma_key_bytes(1, 0, user_instruction_bytes(instruction));
}

/// A block of a user instruction that holds bytes in field 4 gives those bytes.
pub proof fn law_user_bytes_are_read(result: UserInstructionView, b: Seq<u8>, rest: Seq<u8>)
    requires
        (seq![0x22u8] + varint_bytes(b.len()) + b).len() <= u64::MAX,
    ensures
        ({
            let block = seq![0x22u8] + varint_bytes(b.len()) + b;
            read_user_instruction(
                seq![0x12u8] + varint_bytes(block.len()) + block + rest,
                result,
            ) == read_user_instruction(rest, UserInstructionView::Keystroke(b))
        }),
{
    reveal(read_user_instruction);
    reveal_with_fuel(last_bytes_field, 3);
    let none = Seq::<u8>::empty();
    let block = bytes_field_bytes(4, b);
    lemma_key_bytes(4, 0, b);
    lemma_key_bytes(2, 0, block);
    lemma_read_bytes_field(2, block, rest);
    lemma_read_bytes_field(4, b, none);
    assert(block + none =~= block);
}

/// A block of a user instruction that holds varint field 5 and varint field 6, in
/// either order, gives the first as the width and the second as the height.
pub proof fn law_user_size_is_read(result: UserInstructionView, w: u64, h: u64, rest: Seq<u8>)
    ensures
        ({
            let low_w = w % 0x1_0000_0000;
            let low_h = h % 0x1_0000_0000;
            let size = UserInstructionView::Resize {
                width: (if low_w < 0x8000_0000 {
                    low_w as int
                } else {
                    low_w - 0x1_0000_0000
                }) as i32,
                height: (if low_h < 0x8000_0000 {
                    low_h as int
                } else {
                    low_h - 0x1_0000_0000
                }) as i32,
            };
            let one = seq![0x28u8] + varint_bytes(w as nat) + seq![0x30u8] + varint_bytes(
                h as nat,
            );
            let other = seq![0x30u8] + varint_bytes(h as nat) + seq![0x28u8] + varint_bytes(
                w as nat,
            );
            &&& read_user_instruction(seq![0x1Au8] + varint_bytes(one.len()) + one + rest, result)
                == read_user_instruction(rest, size)
            &&& read_user_instruction(
                seq![0x1Au8] + varint_bytes(other.len()) + other + rest,
                result,
            ) == read_user_instruction(rest, size)
        }),
{
    reveal(read_user_instruction);
    let one = seq![0x28u8] + varint_bytes(w as nat) + seq![0x30u8] + varint_bytes(h as nat);
    let other = seq![0x30u8] + varint_bytes(h as nat) + seq![0x28u8] + varint_bytes(w as nat);
    lemma_size_block(w, h);
    lemma_signed(0, w);
    lemma_signed(0, h);
    lemma_key_bytes(3, 0, one);
    lemma_key_bytes(3, 0, other);
    lemma_read_bytes_field(3, one, rest);
    lemma_read_bytes_field(3, other, rest);
}

/// A size in a user message is delivered as it was sent.
pub proof fn law_user_size_is_delivered(
    before: Seq<UserInstructionView>,
    width: i32,
    height: i32,
    rest: Seq<u8>,
)
    ensures
        ({
            let w = (if width >= 0 {
                width as int
            } else {
                width + 0x1_0000_0000_0000_0000
            }) as nat;
            let h = (if height >= 0 {
                height as int
            } else {
                height + 0x1_0000_0000_0000_0000
            }) as nat;
            let size = seq![0x28u8] + varint_bytes(w) + seq![0x30u8] + varint_bytes(h);
            let block = seq![0x1Au8] + varint_bytes(size.len()) + size;
            merge_user_message(
                before,
                seq![0x0Au8] + varint_bytes(block.len()) + block + rest,
            ) == merge_user_message(before.push(UserInstructionView::Resize { width, height }), rest)
        }),
{
    let w = width as u64;
    let h = height as u64;
    let none = Seq::<u8>::empty();
    lemma_signed(width, w);
    lemma_signed(height, h);
    let size = seq![0x28u8] + varint_bytes(w as nat) + seq![0x30u8] + varint_bytes(h as nat);
    let block = seq![0x1Au8] + varint_bytes(size.len()) + size;
    lemma_size_block(w, h);
    lemma_varint_len(size.len() as u64);
    law_user_size_is_read(UserInstructionView::Keystroke(Seq::empty()), w, h, none);
    assert(block + none =~= block);
    law_user_message_blocks(before, block, rest);
    assert(read_user_instruction(none, UserInstructionView::Resize { width, height }) == (UserInstructionView::Resize {
        width,
        height,
    })) by {
        reveal(read_user_instruction);
    }
}

/// Field 1 of a user message is an instruction, read from nothing.
pub proof fn law_user_message_blocks(
    before: Seq<UserInstructionView>,
    block: Seq<u8>,
    rest: Seq<u8>,
)
    requires
        block.len() <= u64::MAX,
    ensures
        merge_user_message(before, Seq::empty()) == Ok::<Seq<UserInstructionView>, WireError>(before),
        merge_user_message(before, seq![0x0Au8] + varint_bytes(block.len()) + block + rest)
            == merge_user_message(
            before.push(
                read_user_instruction(block, UserInstructionView::Keystroke(Seq::empty())),
            ),
            rest,
        ),
{
    reveal(merge_user_message);
    lemma_key_bytes(1, 0, block);
    lemma_read_bytes_field(1, block, rest);
}

/// Which block a number means, however it is written: 2 holds bytes in field 4, 3
/// a size; all others are skipped. A block that cannot be read is
/// passed over, and anything else that cannot be read ends the instruction.
pub proof fn law_user_block_numbers(s: Seq<u8>, result: UserInstructionView)
    ensures
        read_user_instruction(Seq::empty(), result) == result,
        s.len() > 0 ==> match parse_tag(s) {
            (Err(_), _) => read_user_instruction(s, result) == result,
            (Ok((field, wire_type)), n) => {
                let value = s.skip(n as int);
                if wire_type == 2 && (field == 2 || field == 3) {
                    let rest = value.skip(parse_bytes(value).1 as int);
                    match parse_bytes(value).0 {
                        Err(_) => read_user_instruction(s, result) == read_user_instruction(
                            rest,
                            result,
                        ),
                        Ok(block) => {
                            &&& field == 2 ==> match last_bytes_field(block, 4, None) {
                                Some(b) => read_user_instruction(s, result)
                                    == read_user_instruction(rest, UserInstructionView::Keystroke(b)),
                                None => read_user_instruction(s, result) == read_user_instruction(
                                    rest,
                                    result,
                                ),
                            }
                            &&& field == 3 ==> read_user_instruction(s, result)
                                == read_user_instruction(
                                rest,
                                UserInstructionView::Resize {
                                    width: size_fields(block, (0, 0)).0,
                                    height: size_fields(block, (0, 0)).1,
                                },
                            )
                        },
                    }
                } else {
                    match skip_value(value, wire_type) {
                        Err(_) => read_user_instruction(s, result) == result,
                        Ok(m) => read_user_instruction(s, result) == read_user_instruction(
                            value.skip(m as int),
                            result,
                        ),
                    }
                }
            },
        },
{
    reveal(read_user_instruction);
}

/// Which field of a user message is an instruction, however it is written: number 1
/// where it is a byte string, and all others are skipped. The first thing that
/// cannot be read is the error.
pub proof fn law_user_message_fields(before: Seq<UserInstructionView>, s: Seq<u8>)
    requires
        s.len() > 0,
    ensures
        match parse_tag(s) {
            (Err(e), _) => merge_user_message(before, s) == Err::<Seq<UserInstructionView>, WireError>(e),
            (Ok((field, wire_type)), n) => {
                let value = s.skip(n as int);
                if field == 1 && wire_type == 2 {
                    match parse_bytes(value) {
                        (Err(e), _) => merge_user_message(before, s) == Err::<
                            Seq<UserInstructionView>,
                            WireError,
                        >(e),
                        (Ok(block), m) => merge_user_message(before, s) == merge_user_message(
                            before.push(
                                read_user_instruction(
                                    block,
                                    UserInstructionView::Keystroke(Seq::empty()),
                                ),
                            ),
                            value.skip(m as int),
                        ),
                    }
                } else {
                    match skip_value(value, wire_type) {
                        Err(e) => merge_user_message(before, s) == Err::<
                            Seq<UserInstructionView>,
                            WireError,
                        >(e),
                        Ok(m) => merge_user_message(before, s) == merge_user_message(
                            before,
                            value.skip(m as int),
                        ),
                    }
                }
            },
        },
{
    reveal(merge_user_message);
}

/// A host instruction says what its variant and fields say.
pub proof fn law_host_views(instruction: HostInstruction, message: HostMessage, i: int)
    ensures
        match instruction {
            HostInstruction::HostBytes(bytes) => instruction@ == HostInstructionView::HostBytes(bytes@),
            HostInstruction::Resize { width, height } => instruction@ == (HostInstructionView::Resize {
                width,
                height,
            }),
            HostInstruction::EchoAck(num) => instruction@ == HostInstructionView::EchoAck(num),
        },
        message@.len() == message.instructions@.len(),
        0 <= i < message@.len() ==> message@[i] == message.instructions@[i]@,
{
}

/// A host instruction on the wire: blocks behind their keys and lengths, with the
/// fields inside them behind theirs. A negative size is extended to 64 bits.
pub proof fn law_host_instruction_layout(instruction: HostInstructionView)
    ensures
        match instruction {
            HostInstructionView::HostBytes(bytes) => {
                let block = seq![0x22u8] + varint_bytes(bytes.len()) + bytes;
                host_instruction_bytes(instruction) == seq![0x12u8] + varint_bytes(block.len())
                    + block
            },
            HostInstructionView::Resize { width, height } => {
                let w = (if width >= 0 {
                    width as int
                } else {
                    width + 0x1_0000_0000_0000_0000
                }) as nat;
                let h = (if height >= 0 {
                    height as int
                } else {
                    height + 0x1_0000_0000_0000_0000
                }) as nat;
                let block = seq![0x28u8] + varint_bytes(w) + seq![0x30u8] + varint_bytes(h);
                host_instruction_bytes(instruction) == seq![0x1Au8] + varint_bytes(block.len())
                    + block
            },
            HostInstructionView::EchoAck(num) => {
                let block = seq![0x40u8] + varint_bytes(num as nat);
                host_instruction_bytes(instruction) == seq![0x3Au8] + varint_bytes(block.len())
                    + block
            },
        },
{
    let none = Seq::<u8>::empty();
    match instruction {
        HostInstructionView::HostBytes(bytes) => {
            lemma_key_bytes(4, 0, bytes);
            lemma_key_bytes(2, 0, bytes_field_bytes(4, bytes));
        },
        HostInstructionView::Resize { width, height } => {
            let w = varint_field_bytes(5, width as u64);
            let h = varint_field_bytes(6, height as u64);
            lemma_signed(width, 0);
            lemma_signed(height, 0);
            lemma_key_bytes(5, width as u64, none);
            lemma_key_bytes(6, height as u64, none);
            lemma_regroup(w, seq![0x30u8], varint_bytes((height as u64) as nat));
            lemma_key_bytes(3, 0, w + h);
        },
        HostInstructionView::EchoAck(num) => {
            lemma_key_bytes(8, num, none);
            lemma_key_bytes(7, 0, varint_field_bytes(8, num));
        },
    }
}

/// A host message on the wire: its instructions in order, each behind its key and
/// length.
pub proof fn law_host_message_layout(
    instruction: HostInstructionView,
    others: Seq<HostInstructionView>,
)
    ensures
        host_message_bytes(Seq::empty()) == Seq::<u8>::empty(),
        ({
            let b = host_instruction_bytes(instruction);
            host_message_bytes(seq![instruction] + others) == seq![0x0Au8] + varint_bytes(b.len())
                + b + host_message_bytes(others)
        }),
{
    let all = seq![instruction] + others;
    assert(all.skip(1) =~= others);
    lemma_key_bytes(1, 0, host_instruction_bytes(instruction));
}

/// A block of a host instruction that holds bytes in field 4 gives those bytes.
pub proof fn law_host_bytes_are_read(result: HostInstructionView, b: Seq<u8>, rest: Seq<u8>)
    requires
        (seq![0x22u8] + varint_bytes(b.len()) + b).len() <= u64::MAX,
    ensures
        ({
            let block = seq![0x22u8] + varint_bytes(b.len()) + b;
            read_host_instruction(
                seq![0x12u8] + varint_bytes(block.len()) + block + rest,
                result,
            ) == read_host_instruction(rest, HostInstructionView::HostBytes(b))
        }),
{
    reveal(read_host_instruction);
    reveal_with_fuel(last_bytes_field, 3);
    let none = Seq::<u8>::empty();
    let block = bytes_field_bytes(4, b);
    lemma_key_bytes(4, 0, b);
    lemma_key_bytes(2, 0, block);
    lemma_read_bytes_field(2, block, rest);
    lemma_read_bytes_field(4, b, none);
    assert(block + none =~= block);
}

/// A block of a host instruction that holds varint field 5 and varint field 6, in
/// either order, gives the first as the width and the second as the height.
pub proof fn law_host_size_is_read(result: HostInstructionView, w: u64, h: u64, rest: Seq<u8>)
    ensures
        ({
            let low_w = w % 0x1_0000_0000;
            let low_h = h % 0x1_0000_0000;
            let size = HostInstructionView::Resize {
                width: (if low_w < 0x8000_0000 {
                    low_w as int
                } else {
                    low_w - 0x1_0000_0000
                }) as i32,
                height: (if low_h < 0x8000_0000 {
                    low_h as int
                } else {
                    low_h - 0x1_0000_0000
                }) as i32,
            };
            let one = seq![0x28u8] + varint_bytes(w as nat) + seq![0x30u8] + varint_bytes(
                h as nat,
            );
            let other = seq![0x30u8] + varint_bytes(h as nat) + seq![0x28u8] + varint_bytes(
                w as nat,
            );
            &&& read_host_instruction(seq![0x1Au8] + varint_bytes(one.len()) + one + rest, result)
                == read_host_instruction(rest, size)
            &&& read_host_instruction(
                seq![0x1Au8] + varint_bytes(other.len()) + other + rest,
                result,
            ) == read_host_instruction(rest, size)
        }),
{
    reveal(read_host_instruction);
    let one = seq![0x28u8] + varint_bytes(w as nat) + seq![0x30u8] + varint_bytes(h as nat);
    let other = seq![0x30u8] + varint_bytes(h as nat) + seq![0x28u8] + varint_bytes(w as nat);
    lemma_size_block(w, h);
    lemma_signed(0, w);
    lemma_signed(0, h);
    lemma_key_bytes(3, 0, one);
    lemma_key_bytes(3, 0, other);
    lemma_read_bytes_field(3, one, rest);
    lemma_read_bytes_field(3, other, rest);
}

/// A size in a host message is delivered as it was sent.
pub proof fn law_host_size_is_delivered(
    before: Seq<HostInstructionView>,
    width: i32,
    height: i32,
    rest: Seq<u8>,
)
    ensures
        ({
            let w = (if width >= 0 {
                width as int
            } else {
                width + 0x1_0000_0000_0000_0000
            }) as nat;
            let h = (if height >= 0 {
                height as int
            } else {
                height + 0x1_0000_0000_0000_0000
            }) as nat;
            let size = seq![0x28u8] + varint_bytes(w) + seq![0x30u8] + varint_bytes(h);
            let block = seq![0x1Au8] + varint_bytes(size.len()) + size;
            merge_host_message(
                before,
                seq![0x0Au8] + varint_bytes(block.len()) + block + rest,
            ) == merge_host_message(before.push(HostInstructionView::Resize { width, height }), rest)
        }),
{
    let w = width as u64;
    let h = height as u64;
    let none = Seq::<u8>::empty();
    lemma_signed(width, w);
    lemma_signed(height, h);
    let size = seq![0x28u8] + varint_bytes(w as nat) + seq![0x30u8] + varint_bytes(h as nat);
    let block = seq![0x1Au8] + varint_bytes(size.len()) + size;
    lemma_size_block(w, h);
    lemma_varint_len(size.len() as u64);
    law_host_size_is_read(HostInstructionView::HostBytes(Seq::empty()), w, h, none);
    assert(block + none =~= block);
    law_host_message_blocks(before, block, rest);
    assert(read_host_instruction(none, HostInstructionView::Resize { width, height }) == (HostInstructionView::Resize {
        width,
        height,
    })) by {
        reveal(read_host_instruction);
    }
}

/// Field 1 of a host message is an instruction, read from nothing.
pub proof fn law_host_message_blocks(
    before: Seq<HostInstructionView>,
    block: Seq<u8>,
    rest: Seq<u8>,
)
    requires
        block.len() <= u64::MAX,
    ensures
        merge_host_message(before, Seq::empty()) == Ok::<Seq<HostInstructionView>, WireError>(before),
        merge_host_message(before, seq![0x0Au8] + varint_bytes(block.len()) + block + rest)
            == merge_host_message(
            before.push(
                read_host_instruction(block, HostInstructionView::HostBytes(Seq::empty())),
            ),
            rest,
        ),
{
    reveal(merge_host_message);
    lemma_key_bytes(1, 0, block);
    lemma_read_bytes_field(1, block, rest);
}

/// Which block a number means, however it is written: 2 holds bytes in field 4, 3
/// a size, and 7 a counter in field 8; all others are skipped. A block that cannot be read is
/// passed over, and anything else that cannot be read ends the instruction.
pub proof fn law_host_block_numbers(s: Seq<u8>, result: HostInstructionView)
    ensures
        read_host_instruction(Seq::empty(), result) == result,
        s.len() > 0 ==> match parse_tag(s) {
            (Err(_), _) => read_host_instruction(s, result) == result,
            (Ok((field, wire_type)), n) => {
                let value = s.skip(n as int);
                if wire_type == 2 && (field == 2 || field == 3 || field == 7) {
                    let rest = value.skip(parse_bytes(value).1 as int);
                    match parse_bytes(value).0 {
                        Err(_) => read_host_instruction(s, result) == read_host_instruction(
                            rest,
                            result,
                        ),
                        Ok(block) => {
                            &&& field == 2 ==> match last_bytes_field(block, 4, None) {
                                Some(b) => read_host_instruction(s, result)
                                    == read_host_instruction(rest, HostInstructionView::HostBytes(b)),
                                None => read_host_instruction(s, result) == read_host_instruction(
                                    rest,
                                    result,
                                ),
                            }
                            &&& field == 3 ==> read_host_instruction(s, result)
                                == read_host_instruction(
                                rest,
                                HostInstructionView::Resize {
                                    width: size_fields(block, (0, 0)).0,
                                    height: size_fields(block, (0, 0)).1,
                                },
                            )
                            &&& field == 7 ==> match last_varint_field(block, 8, None) {
                                Some(num) => read_host_instruction(s, result)
                                    == read_host_instruction(rest, HostInstructionView::EchoAck(num)),
                                None => read_host_instruction(s, result) == read_host_instruction(
                                    rest,
                                    result,
                                ),
                            }
                        },
                    }
                } else {
                    match skip_value(value, wire_type) {
                        Err(_) => read_host_instruction(s, result) == result,
                        Ok(m) => read_host_instruction(s, result) == read_host_instruction(
                            value.skip(m as int),
                            result,
                        ),
                    }
                }
            },
        },
{
    reveal(read_host_instruction);
}

/// Which field of a host message is an instruction, however it is written: number 1
/// where it is a byte string, and all others are skipped. The first thing that
/// cannot be read is the error.
pub proof fn law_host_message_fields(before: Seq<HostInstructionView>, s: Seq<u8>)
    requires
        s.len() > 0,
    ensures
        match parse_tag(s) {
            (Err(e), _) => merge_host_message(before, s) == Err::<Seq<HostInstructionView>, WireError>(e),
            (Ok((field, wire_type)), n) => {
                let value = s.skip(n as int);
                if field == 1 && wire_type == 2 {
                    match parse_bytes(value) {
                        (Err(e), _) => merge_host_message(before, s) == Err::<
                            Seq<HostInstructionView>,
                            WireError,
                        >(e),
                        (Ok(block), m) => merge_host_message(before, s) == merge_host_message(
                            before.push(
                                read_host_instruction(
                                    block,
                                    HostInstructionView::HostBytes(Seq::empty()),
                                ),
                            ),
                            value.skip(m as int),
                        ),
                    }
                } else {
                    match skip_value(value, wire_type) {
                        Err(e) => merge_host_message(before, s) == Err::<
                            Seq<HostInstructionView>,
                            WireError,
                        >(e),
                        Ok(m) => merge_host_message(before, s) == merge_host_message(
                            before,
                            value.skip(m as int),
                        ),
                    }
                }
            },
        },
{
    reveal(merge_host_message);
}

/// A block of a host instruction that holds varint field 8 gives the counter.
pub proof fn law_echo_ack_is_read(result: HostInstructionView, num: u64, rest: Seq<u8>)
    ensures
        ({
            let block = seq![0x40u8] + varint_bytes(num as nat);
            read_host_instruction(
                seq![0x3Au8] + varint_bytes(block.len()) + block + rest,
                result,
            ) == read_host_instruction(rest, HostInstructionView::EchoAck(num))
        }),
{
    reveal(read_host_instruction);
    reveal_with_fuel(last_varint_field, 3);
    let none = Seq::<u8>::empty();
    let block = varint_field_bytes(8, num);
    lemma_key_bytes(8, num, none);
    lemma_key_bytes(7, 0, block);
    lemma_varint_len(num);
    lemma_read_bytes_field(7, block, rest);
    lemma_read_varint_field(8, num, none);
    assert(block + none =~= block);
}

} // verus!
