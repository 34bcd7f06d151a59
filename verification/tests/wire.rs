use mosh_proto::wire::writer::{write_bytes_field, write_tag, write_varint, write_varint_field};
use mosh_proto::wire::{
    HostInstruction, HostMessage, TransportInstruction, UserInstruction, UserMessage, WireError,
    SHUTDOWN_NUM,
};

#[test]
fn transport_instruction_roundtrip_with_all_fields() {
    let inst = TransportInstruction {
        protocol_version: 2,
        old_num: 7,
        new_num: 8,
        ack_num: 3,
        throwaway_num: 2,
        diff: vec![1, 2, 3, 255],
        chaff: vec![9; 16],
    };
    let bytes = inst.encode();
    assert_eq!(TransportInstruction::decode(&bytes).unwrap(), inst);

    // shutdown convention survives the wire
    let shutdown = TransportInstruction {
        protocol_version: 2,
        old_num: 5,
        new_num: SHUTDOWN_NUM,
        ack_num: 9,
        throwaway_num: 4,
        diff: vec![],
        chaff: vec![],
    };
    assert_eq!(
        TransportInstruction::decode(&shutdown.encode())
            .unwrap()
            .new_num,
        SHUTDOWN_NUM
    );
}

#[test]
fn transport_instruction_skips_unknown_fields() {
    let mut bytes = Vec::new();
    // unknown varint field 15
    write_varint_field(&mut bytes, 15, 12345);
    // our field 3 (new_num)
    write_varint_field(&mut bytes, 3, 42);
    // unknown length-delimited field 99
    write_bytes_field(&mut bytes, 99, b"junk");
    // unknown fixed64 field 16
    write_tag(&mut bytes, 16, 1);
    bytes.extend_from_slice(&[0u8; 8]);
    // unknown fixed32 field 17
    write_tag(&mut bytes, 17, 5);
    bytes.extend_from_slice(&[0u8; 4]);

    let decoded = TransportInstruction::decode(&bytes).unwrap();
    assert_eq!(decoded.new_num, 42);
}

#[test]
fn transport_instruction_rejects_truncation_and_bad_lengths() {
    let inst = TransportInstruction {
        protocol_version: 2,
        old_num: 1,
        new_num: 2,
        ack_num: 3,
        throwaway_num: 4,
        diff: vec![0xAA; 300],
        chaff: vec![],
    };
    let bytes = inst.encode();
    // cut=0 is a legal empty message in proto2; the rest must error
    for cut in [1, 5, bytes.len() - 1] {
        assert!(TransportInstruction::decode(&bytes[..cut]).is_err());
    }
    // a length field claiming more than the buffer holds
    let mut evil = Vec::new();
    write_tag(&mut evil, 6, 2);
    write_varint(&mut evil, 0xFFFF_FFFF);
    assert!(TransportInstruction::decode(&evil).is_err());
    // a varint that never ends
    let mut evil = Vec::new();
    write_tag(&mut evil, 2, 0); // field 2 (old_num), varint
    evil.extend_from_slice(&[0xFF; 11]);
    assert!(TransportInstruction::decode(&evil).is_err());
}

#[test]
fn user_message_roundtrip_and_coalescing_shape() {
    let msg = UserMessage {
        instructions: vec![
            UserInstruction::Keystroke(b"ech".to_vec()),
            UserInstruction::Keystroke(b"o hi\r".to_vec()),
            UserInstruction::Resize {
                width: 100,
                height: 30,
            },
            UserInstruction::Keystroke(Vec::new()),
        ],
    };
    let decoded = UserMessage::decode(&msg.encode()).unwrap();
    assert_eq!(decoded, msg);
}

#[test]
fn host_message_roundtrip_all_three_variants() {
    let msg = HostMessage {
        instructions: vec![
            HostInstruction::HostBytes(b"\x1b[2Jhello".to_vec()),
            HostInstruction::Resize {
                width: 80,
                height: 24,
            },
            HostInstruction::EchoAck(17),
        ],
    };
    assert_eq!(HostMessage::decode(&msg.encode()).unwrap(), msg);
}

/// Decoding returns on any bytes.
#[test]
fn decode_never_panics_on_arbitrary_bytes() {
    let mut state: u64 = 0x243F_6A88_85A3_08D3;
    let mut next = move || {
        state ^= state << 13;
        state ^= state >> 7;
        state ^= state << 17;
        state
    };
    for _ in 0..20_000 {
        let len = (next() % 64) as usize;
        let bytes: Vec<u8> = (0..len).map(|_| (next() & 0xFF) as u8).collect();
        let _ = TransportInstruction::decode(&bytes);
        let _ = UserMessage::decode(&bytes);
        let _ = HostMessage::decode(&bytes);
    }
}

/// The protocol version comes first.
#[test]
fn golden_shapes_stay_compatible() {
    let bytes = TransportInstruction::default().encode();
    assert_eq!(bytes[0], 1 << 3); // tag: field 1, varint
    assert_eq!(bytes[1], 0); // value 0
}

fn numbered(new_num: u64) -> TransportInstruction {
    TransportInstruction {
        new_num,
        ..TransportInstruction::default()
    }
}

#[test]
fn transport_encoding_is_exact() {
    let inst = TransportInstruction {
        protocol_version: 2,
        old_num: 1,
        new_num: 300,
        ack_num: 0,
        throwaway_num: 127,
        diff: vec![0xAA, 0xBB],
        chaff: vec![],
    };
    assert_eq!(
        inst.encode(),
        vec![
            0x08, 2, 0x10, 1, 0x18, 0xAC, 0x02, 0x20, 0, 0x28, 127, 0x32, 2, 0xAA, 0xBB, 0x3A, 0
        ]
    );
}

#[test]
fn varints_are_shortest() {
    for (value, bytes) in [
        (0u64, vec![0u8]),
        (127, vec![0x7F]),
        (128, vec![0x80, 0x01]),
        (16383, vec![0xFF, 0x7F]),
        (
            u64::MAX,
            vec![0xFF, 0xFF, 0xFF, 0xFF, 0xFF, 0xFF, 0xFF, 0xFF, 0xFF, 0x01],
        ),
    ] {
        let mut out = Vec::new();
        write_varint(&mut out, value);
        assert_eq!(out, bytes);
        let mut field = Vec::new();
        write_varint_field(&mut field, 3, value);
        assert_eq!(
            TransportInstruction::decode(&field).unwrap(),
            numbered(value)
        );
    }
}

#[test]
fn varint_of_ten_bytes_keeps_64_bits() {
    // the tenth byte has room for one bit only
    let mut bytes = vec![0x18];
    bytes.extend_from_slice(&[0x80; 9]);
    bytes.push(0x7F);
    assert_eq!(
        TransportInstruction::decode(&bytes).unwrap(),
        numbered(1 << 63)
    );
}

#[test]
fn protocol_version_keeps_32_bits() {
    let mut bytes = Vec::new();
    write_varint_field(&mut bytes, 1, 0x1_0000_0002);
    let inst = TransportInstruction::decode(&bytes).unwrap();
    assert_eq!(inst.protocol_version, 2);
}

#[test]
fn empty_buffer_is_the_blank_instruction() {
    assert_eq!(
        TransportInstruction::decode(&[]).unwrap(),
        TransportInstruction::default()
    );
    assert_eq!(UserMessage::decode(&[]).unwrap(), UserMessage::default());
    assert_eq!(HostMessage::decode(&[]).unwrap(), HostMessage::default());
}

#[test]
fn later_fields_override_earlier_ones() {
    let mut bytes = numbered(1).encode();
    bytes.extend_from_slice(&numbered(2).encode());
    assert_eq!(TransportInstruction::decode(&bytes).unwrap(), numbered(2));
    // appending one encoded message to another appends its instructions
    let first = UserMessage {
        instructions: vec![UserInstruction::Keystroke(b"a".to_vec())],
    };
    let second = UserMessage {
        instructions: vec![UserInstruction::Keystroke(b"b".to_vec())],
    };
    let mut bytes = first.encode();
    bytes.extend_from_slice(&second.encode());
    assert_eq!(
        UserMessage::decode(&bytes).unwrap().instructions,
        vec![
            UserInstruction::Keystroke(b"a".to_vec()),
            UserInstruction::Keystroke(b"b".to_vec())
        ]
    );
}

#[test]
fn each_wire_error_has_its_input() {
    assert_eq!(
        TransportInstruction::decode(&[0x18]).unwrap_err(),
        WireError::Truncated
    );
    assert_eq!(
        TransportInstruction::decode(&[0x80; 10]).unwrap_err(),
        WireError::BadVarint
    );
    assert_eq!(
        TransportInstruction::decode(&[0x80; 9]).unwrap_err(),
        WireError::Truncated
    );
    assert_eq!(
        TransportInstruction::decode(&[0x32, 2, 0xAA]).unwrap_err(),
        WireError::BadLength
    );
    assert_eq!(
        UserMessage::decode(&[0x0A, 1]).unwrap_err(),
        WireError::BadLength
    );
    assert_eq!(
        HostMessage::decode(&[0x79, 0, 0, 0, 0, 0, 0, 0]).unwrap_err(),
        WireError::Truncated
    );
    // an end of group that closes nothing, and wire types that mean nothing
    for wire_type in [4u8, 6, 7] {
        assert_eq!(
            HostMessage::decode(&[(15 << 3) | wire_type]).unwrap_err(),
            WireError::UnmatchedGroup(wire_type)
        );
    }
}

#[test]
fn wire_error_messages() {
    assert_eq!(WireError::Truncated.to_string(), "truncated protobuf");
    assert_eq!(
        WireError::BadVarint.to_string(),
        "malformed varint (more than 10 bytes)"
    );
    assert_eq!(
        WireError::BadLength.to_string(),
        "length-delimited field longer than the buffer"
    );
    assert_eq!(
        WireError::UnmatchedGroup(7).to_string(),
        "unsupported wire type 7 in a group"
    );
    assert_eq!(
        WireError::UnmatchedGroup(255).to_string(),
        "unsupported wire type 255 in a group"
    );
}

#[test]
fn groups_are_skipped_to_their_matching_end() {
    let mut bytes = Vec::new();
    write_tag(&mut bytes, 20, 3);
    write_varint_field(&mut bytes, 3, 99);
    write_tag(&mut bytes, 21, 3);
    write_bytes_field(&mut bytes, 3, b"inner");
    write_tag(&mut bytes, 21, 4);
    write_tag(&mut bytes, 20, 4);
    write_varint_field(&mut bytes, 3, 42);
    assert_eq!(TransportInstruction::decode(&bytes).unwrap(), numbered(42));
    // a group that is never closed
    assert_eq!(
        TransportInstruction::decode(&[0xA3, 0x01, 0xA3, 0x01]).unwrap_err(),
        WireError::Truncated
    );
    // no depth of nesting is too much
    let mut deep = Vec::new();
    for _ in 0..200_000 {
        write_tag(&mut deep, 20, 3);
    }
    for _ in 0..200_000 {
        write_tag(&mut deep, 20, 4);
    }
    write_varint_field(&mut deep, 3, 7);
    assert_eq!(TransportInstruction::decode(&deep).unwrap(), numbered(7));
}

#[test]
fn user_encoding_is_exact() {
    let msg = UserMessage {
        instructions: vec![
            UserInstruction::Keystroke(b"hi".to_vec()),
            UserInstruction::Resize {
                width: 80,
                height: 24,
            },
        ],
    };
    assert_eq!(
        msg.encode(),
        vec![
            0x0A, 6, 0x12, 4, 0x22, 2, b'h', b'i', 0x0A, 6, 0x1A, 4, 0x28, 80, 0x30, 24
        ]
    );
}

#[test]
fn host_encoding_is_exact() {
    let msg = HostMessage {
        instructions: vec![
            HostInstruction::HostBytes(b"ok".to_vec()),
            HostInstruction::EchoAck(300),
        ],
    };
    assert_eq!(
        msg.encode(),
        vec![0x0A, 6, 0x12, 4, 0x22, 2, b'o', b'k', 0x0A, 5, 0x3A, 3, 0x40, 0xAC, 0x02]
    );
}

#[test]
fn negative_sizes_survive_the_wire() {
    let user = UserMessage {
        instructions: vec![UserInstruction::Resize {
            width: -1,
            height: i32::MIN,
        }],
    };
    assert_eq!(UserMessage::decode(&user.encode()).unwrap(), user);
    let host = HostMessage {
        instructions: vec![HostInstruction::Resize {
            width: i32::MAX,
            height: -80,
        }],
    };
    assert_eq!(HostMessage::decode(&host.encode()).unwrap(), host);
}

fn user_instruction(block: &[u8]) -> UserInstruction {
    let mut bytes = Vec::new();
    write_bytes_field(&mut bytes, 1, block);
    UserMessage::decode(&bytes).unwrap().instructions.remove(0)
}

fn host_instruction(block: &[u8]) -> HostInstruction {
    let mut bytes = Vec::new();
    write_bytes_field(&mut bytes, 1, block);
    HostMessage::decode(&bytes).unwrap().instructions.remove(0)
}

#[test]
fn unset_contents_decode_to_defaults() {
    assert_eq!(
        user_instruction(&[]),
        UserInstruction::Keystroke(Vec::new())
    );
    assert_eq!(
        host_instruction(&[]),
        HostInstruction::HostBytes(Vec::new())
    );
    // an empty resize block is a resize to nothing
    assert_eq!(
        user_instruction(&[0x1A, 0]),
        UserInstruction::Resize {
            width: 0,
            height: 0
        }
    );
    // an echo-ack block without its counter leaves what was there
    assert_eq!(
        host_instruction(&[0x12, 3, 0x22, 1, b'x', 0x3A, 0]),
        HostInstruction::HostBytes(b"x".to_vec())
    );
}

#[test]
fn malformed_tail_of_an_instruction_is_tolerated() {
    // a keystroke, then a key that never ends
    assert_eq!(
        user_instruction(&[0x12, 3, 0x22, 1, b'x', 0x80]),
        UserInstruction::Keystroke(b"x".to_vec())
    );
    // a length that overruns is passed over, and what follows it is read
    assert_eq!(
        host_instruction(&[0x12, 9, 0x3A, 2, 0x40, 5]),
        HostInstruction::EchoAck(5)
    );
    // inside a block too: the width is cut off, the height before it stands
    assert_eq!(
        host_instruction(&[0x1A, 4, 0x30, 24, 0x28, 0x80]),
        HostInstruction::Resize {
            width: 0,
            height: 24
        }
    );
    // a value of an undefined wire type ends the scan of the block
    assert_eq!(
        user_instruction(&[0x12, 4, 0x0F, 0x22, 1, b'x']),
        UserInstruction::Keystroke(Vec::new())
    );
}

#[test]
fn unknown_fields_between_instructions_are_skipped() {
    let msg = HostMessage {
        instructions: vec![HostInstruction::EchoAck(1), HostInstruction::EchoAck(2)],
    };
    let bytes = msg.encode();
    let half = bytes.len() / 2;
    let mut mixed = bytes[..half].to_vec();
    write_varint_field(&mut mixed, 1, 9);
    write_bytes_field(&mut mixed, 2, b"unknown");
    mixed.extend_from_slice(&bytes[half..]);
    assert_eq!(HostMessage::decode(&mixed).unwrap(), msg);
}

#[test]
fn unknown_fields_inside_an_instruction_are_skipped() {
    let mut block = Vec::new();
    write_varint_field(&mut block, 2, 9);
    write_bytes_field(&mut block, 9, b"unknown");
    assert_eq!(
        user_instruction(&block),
        UserInstruction::Keystroke(Vec::new())
    );
    block.extend_from_slice(&[0x12, 3, 0x22, 1, b'x']);
    assert_eq!(
        user_instruction(&block),
        UserInstruction::Keystroke(b"x".to_vec())
    );
    write_bytes_field(&mut block, 7, &[0x40, 8]);
    assert_eq!(host_instruction(&block), HostInstruction::EchoAck(8));
}

#[test]
fn every_prefix_of_an_encoding() {
    let inst = TransportInstruction {
        protocol_version: 2,
        old_num: 300,
        new_num: u64::MAX,
        ack_num: 5,
        throwaway_num: 0,
        diff: vec![0x80; 200],
        chaff: vec![7; 3],
    };
    let bytes = inst.encode();
    // what the fields take: key and value, with a length before bytes
    let mut ends = vec![0];
    for len in [2, 3, 11, 2, 2, 203, 5] {
        ends.push(ends[ends.len() - 1] + len);
    }
    assert_eq!(ends[7], bytes.len());
    for k in 0..=bytes.len() {
        let got = TransportInstruction::decode(&bytes[..k]);
        match ends.iter().position(|end| *end == k) {
            Some(m) => {
                let mut expected = TransportInstruction::default();
                if m >= 1 {
                    expected.protocol_version = 2;
                }
                if m >= 2 {
                    expected.old_num = 300;
                }
                if m >= 3 {
                    expected.new_num = u64::MAX;
                }
                if m >= 4 {
                    expected.ack_num = 5;
                }
                if m >= 6 {
                    expected.diff = inst.diff.clone();
                }
                if m >= 7 {
                    expected.chaff = inst.chaff.clone();
                }
                assert_eq!(got.unwrap(), expected);
            }
            None => assert!(matches!(
                got.unwrap_err(),
                WireError::Truncated | WireError::BadLength
            )),
        }
    }
}

#[test]
fn last_instruction_of_a_block_wins() {
    let host = [
        HostInstruction::HostBytes(b"bytes".to_vec()),
        HostInstruction::HostBytes(Vec::new()),
        HostInstruction::Resize {
            width: 80,
            height: 24,
        },
        HostInstruction::EchoAck(9),
    ];
    let block = |instruction: &HostInstruction| {
        let msg = HostMessage {
            instructions: vec![instruction.clone()],
        };
        msg.encode()[2..].to_vec()
    };
    for first in &host {
        for second in &host {
            let mut both = block(first);
            both.extend_from_slice(&block(second));
            assert_eq!(host_instruction(&both), *second);
        }
        // a key that never ends leaves what was read
        for len in [1, 9, 10, 11, 30] {
            let mut tail = block(first);
            tail.extend_from_slice(&vec![0x80; len]);
            assert_eq!(host_instruction(&tail), *first);
        }
    }
    // two keystrokes, then a resize
    assert_eq!(
        user_instruction(&[0x12, 3, 0x22, 1, b'x', 0x12, 3, 0x22, 1, b'y']),
        UserInstruction::Keystroke(b"y".to_vec())
    );
    assert_eq!(
        user_instruction(&[0x12, 3, 0x22, 1, b'x', 0x1A, 4, 0x28, 1, 0x30, 2]),
        UserInstruction::Resize {
            width: 1,
            height: 2
        }
    );
}
