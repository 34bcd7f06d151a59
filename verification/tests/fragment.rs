use mosh_proto::fragment::assembly::parse_instruction;
use mosh_proto::fragment::fragmenter::split_payload;
use mosh_proto::fragment::zlib::cap_inflated;
use mosh_proto::fragment::{zlib_compress, zlib_decompress, DECOMPRESS_LIMIT, FRAG_HEADER_LEN};
use mosh_proto::{Fragment, FragmentAssembly, FragmentError, Fragmenter, TransportInstruction};

fn sample_instruction(diff: &[u8], ack: u64) -> TransportInstruction {
    TransportInstruction {
        protocol_version: 2,
        old_num: 1,
        new_num: 2,
        ack_num: ack,
        throwaway_num: 0,
        diff: diff.to_vec(),
        chaff: vec![1, 2, 3],
    }
}

#[test]
fn single_fragment_roundtrip() {
    let mut fragmenter = Fragmenter::default();
    let inst = sample_instruction(b"hello diff", 5);
    let fragments = fragmenter.make_fragments(&inst, 1400).unwrap();
    assert_eq!(fragments.len(), 1);
    assert!(fragments[0].final_);
    assert_eq!(fragments[0].fragment_num, 0);
    assert_eq!(fragments[0].id, 1, "first id is 1, not 0");

    let mut assembly = FragmentAssembly::new();
    let parsed = assembly.add_fragment(fragments[0].clone()).unwrap();
    assert_eq!(parsed, inst);
}

#[test]
fn multi_fragment_out_of_order_and_duplicated() {
    let mut fragmenter = Fragmenter::default();
    // incompressible payload: identical bytes would zlib down to one
    // fragment no matter the MTU
    let mut mix: u64 = 0x243F_6A88_85A3_08D3;
    let big_diff: Vec<u8> = (0..5000)
        .map(|_| {
            mix = mix
                .wrapping_mul(6364136223846793005)
                .wrapping_add(1442695040888963407);
            (mix >> 56) as u8
        })
        .collect();
    let inst = sample_instruction(&big_diff, 1);
    let fragments = fragmenter.make_fragments(&inst, 200).unwrap();
    assert!(fragments.len() >= 10, "sliced into many fragments");

    let mut assembly = FragmentAssembly::new();
    // reverse order: completion lands on the last-fed fragment (index
    // 0), not on the final-flagged one
    let mut completions = 0;
    for frag in fragments.iter().rev() {
        if let Some(parsed) = assembly.add_fragment(frag.clone()) {
            assert_eq!(parsed, inst);
            completions += 1;
        }
    }
    assert_eq!(completions, 1, "exactly one completion per instruction");
    // a partial duplicate (missing piece 0) never completes; a full
    // duplicate would — completion resets the buffer — which is fine:
    // idempotency across retransmissions is the SSP layer's job
    for frag in &fragments[1..] {
        assert!(assembly.add_fragment(frag.clone()).is_none());
    }
}

#[test]
fn id_bumps_only_on_change() {
    let mut fragmenter = Fragmenter::default();
    let a = sample_instruction(b"x", 1);
    let b = sample_instruction(b"x", 1); // identical -> same id
    let c = sample_instruction(b"x", 2); // ack changed -> new id

    let fa = fragmenter.make_fragments(&a, 1400).unwrap();
    let fb = fragmenter.make_fragments(&b, 1400).unwrap();
    let fc = fragmenter.make_fragments(&c, 1400).unwrap();
    assert_eq!(fa[0].id, fb[0].id, "identical retransmit keeps the id");
    assert_eq!(fc[0].id, fa[0].id + 1);

    // MTU change alone also re-ids
    let fd = fragmenter.make_fragments(&c, 700).unwrap();
    assert_eq!(fd[0].id, fc[0].id + 1);
}

#[test]
fn conflicting_retransmission_is_dropped_not_fatal() {
    let mut fragmenter = Fragmenter::default();
    let inst = sample_instruction(b"payload", 1);
    let frag = fragmenter.make_fragments(&inst, 1400).unwrap().remove(0);

    let mut assembly = FragmentAssembly::new();
    assert!(assembly.add_fragment(frag.clone()).is_some());

    let mut evil = frag.clone();
    evil.contents[0] ^= 0xFF;
    assert!(assembly.add_fragment(evil).is_none());
}

#[test]
fn zlib_roundtrip_and_corruption() {
    let data = b"the quick brown fox".repeat(100);
    let compressed = zlib_compress(&data);
    assert_eq!(zlib_decompress(&compressed).unwrap(), data);

    let mut bad = compressed.clone();
    let mid = bad.len() / 2;
    bad[mid] ^= 0x40;
    assert!(zlib_decompress(&bad).is_err());
    assert!(zlib_decompress(b"not zlib at all").is_err());
}

#[test]
fn decompression_bomb_is_capped() {
    // highly compressible 40 MiB of zeros inflates past the 4 MiB cap
    let bomb = zlib_compress(&vec![0u8; 40 * 1024 * 1024]);
    assert_eq!(
        zlib_decompress(&bomb).unwrap_err(),
        FragmentError::AssemblyTooLarge
    );
}

#[test]
fn fragment_parse_rejects_short_input() {
    assert_eq!(
        Fragment::parse(&[0u8; 9]).unwrap_err(),
        FragmentError::TooShort
    );
    let frag = Fragment::parse(&[0x01, 0, 0, 0, 0, 0, 0, 2, 0x80, 0x01, 0xAA]).unwrap();
    assert_eq!(frag.id, 0x0100_0000_0000_0002);
    assert!(frag.final_);
    assert_eq!(frag.fragment_num, 1);
    assert_eq!(frag.contents, vec![0xAA]);
}

fn noise(len: usize) -> Vec<u8> {
    let mut mix: u64 = 0x9E37_79B9_7F4A_7C15;
    (0..len)
        .map(|_| {
            mix = mix
                .wrapping_mul(6364136223846793005)
                .wrapping_add(1442695040888963407);
            (mix >> 56) as u8
        })
        .collect()
}

fn piece(id: u64, fragment_num: u16, final_: bool, contents: &[u8]) -> Fragment {
    Fragment {
        id,
        fragment_num,
        final_,
        contents: contents.to_vec(),
    }
}

#[test]
fn fragment_bytes_are_exact() {
    let frag = piece(0x0102_0304_0506_0708, 0x0123, true, &[0xAA, 0xBB]);
    let bytes = frag.tostring();
    assert_eq!(
        bytes,
        vec![1, 2, 3, 4, 5, 6, 7, 8, 0x81, 0x23, 0xAA, 0xBB]
    );
    assert_eq!(Fragment::parse(&bytes).unwrap(), frag);
    let frag = piece(u64::MAX, 0x7FFF, false, &[]);
    let bytes = frag.tostring();
    assert_eq!(bytes.len(), FRAG_HEADER_LEN);
    assert_eq!(bytes[8..], [0x7F, 0xFF]);
    assert_eq!(Fragment::parse(&bytes).unwrap(), frag);
    // any ten bytes are a fragment, and are written back
    let bytes = [9u8, 8, 7, 6, 5, 4, 3, 2, 0xC0, 0x01];
    assert_eq!(Fragment::parse(&bytes).unwrap().tostring(), bytes);
}

#[test]
fn compressed_bytes_are_exact() {
    assert_eq!(
        zlib_compress(&[]),
        vec![0x78, 0x9C, 0x03, 0x00, 0x00, 0x00, 0x00, 0x01]
    );
    assert_eq!(zlib_decompress(&zlib_compress(&[])).unwrap(), vec![]);
}

#[test]
fn decompression_cap_is_exact() {
    let at_cap = vec![7u8; DECOMPRESS_LIMIT];
    assert_eq!(zlib_decompress(&zlib_compress(&at_cap)).unwrap(), at_cap);
    let over = vec![7u8; DECOMPRESS_LIMIT + 1];
    assert_eq!(
        zlib_decompress(&zlib_compress(&over)).unwrap_err(),
        FragmentError::AssemblyTooLarge
    );
    assert_eq!(cap_inflated(Ok(vec![1, 2])).unwrap(), vec![1, 2]);
    assert_eq!(
        cap_inflated(Ok(over)).unwrap_err(),
        FragmentError::AssemblyTooLarge
    );
    assert_eq!(
        cap_inflated(Err("corrupt".to_string())).unwrap_err(),
        FragmentError::Inflate("corrupt".to_string())
    );
}

#[test]
fn corrupt_stream_carries_the_decompressor_words() {
    let err = zlib_decompress(b"not zlib at all").unwrap_err();
    assert!(matches!(&err, FragmentError::Inflate(words) if !words.is_empty()));
    assert!(err
        .to_string()
        .starts_with("compressed stream failed to inflate: "));
    // a stream that stops short
    let compressed = zlib_compress(&noise(1000));
    assert!(matches!(
        zlib_decompress(&compressed[..500]),
        Err(FragmentError::Inflate(_))
    ));
}

#[test]
fn fragment_error_messages() {
    assert_eq!(
        FragmentError::TooShort.to_string(),
        "fragment shorter than its 10-byte header"
    );
    assert_eq!(
        FragmentError::AssemblyTooLarge.to_string(),
        "reassembled payload over the size cap"
    );
    assert_eq!(
        FragmentError::IndexTooLarge.to_string(),
        "fragment index beyond the 15-bit wire limit"
    );
    assert_eq!(
        FragmentError::Inflate("x".to_string()).to_string(),
        "compressed stream failed to inflate: x"
    );
    assert_eq!(
        FragmentError::Parse("y".to_string()).to_string(),
        "inflated instruction failed to parse: y"
    );
    assert_eq!(
        parse_instruction(&[0x18]).unwrap_err(),
        FragmentError::Parse("truncated protobuf".to_string())
    );
}

#[test]
fn payload_is_cut_into_full_pieces() {
    assert_eq!(
        split_payload(5, &[1, 2, 3, 4, 5], 2).unwrap(),
        vec![
            piece(5, 0, false, &[1, 2]),
            piece(5, 1, false, &[3, 4]),
            piece(5, 2, true, &[5])
        ]
    );
    // no empty piece behind a payload that fills the last one
    assert_eq!(
        split_payload(5, &[1, 2, 3, 4], 2).unwrap(),
        vec![piece(5, 0, false, &[1, 2]), piece(5, 1, true, &[3, 4])]
    );
    // an empty payload is one empty piece, whatever the room
    assert_eq!(split_payload(5, &[], 0).unwrap(), vec![piece(5, 0, true, &[])]);
    assert_eq!(split_payload(5, &[], 9).unwrap(), vec![piece(5, 0, true, &[])]);
}

#[test]
fn index_limit_is_exact() {
    let fits = vec![0u8; 0x8000];
    let fragments = split_payload(1, &fits, 1).unwrap();
    assert_eq!(fragments.len(), 0x8000);
    assert_eq!(fragments[0x7FFF].fragment_num, 0x7FFF);
    assert!(fragments[0x7FFF].final_);
    let over = vec![0u8; 0x8001];
    assert_eq!(
        split_payload(1, &over, 1).unwrap_err(),
        FragmentError::IndexTooLarge
    );
    assert_eq!(
        split_payload(1, &[0], 0).unwrap_err(),
        FragmentError::IndexTooLarge
    );
}

#[test]
fn too_small_an_mtu_is_refused_and_spends_an_id() {
    let mut fragmenter = Fragmenter::default();
    let inst = sample_instruction(b"x", 4);
    assert_eq!(fragmenter.last_ack_sent(), None);
    for mtu in [0, FRAG_HEADER_LEN] {
        assert_eq!(
            fragmenter.make_fragments(&inst, mtu).unwrap_err(),
            FragmentError::IndexTooLarge
        );
    }
    assert_eq!(fragmenter.last_ack_sent(), Some(4));
    // both left the same room, so they shared an id; this is the next
    let fragments = fragmenter.make_fragments(&inst, 1400).unwrap();
    assert_eq!(fragments[0].id, 2);
}

#[test]
fn every_header_field_takes_a_new_id_and_the_diff_does_not() {
    let base = sample_instruction(b"x", 1);
    let mut changed = Vec::new();
    for field in 0..6 {
        let mut inst = base.clone();
        match field {
            0 => inst.protocol_version = 3,
            1 => inst.old_num = 9,
            2 => inst.new_num = 9,
            3 => inst.ack_num = 9,
            4 => inst.throwaway_num = 9,
            _ => inst.chaff = vec![1, 2, 4],
        }
        changed.push(inst);
    }
    for inst in &changed {
        let mut fragmenter = Fragmenter::default();
        assert_eq!(fragmenter.make_fragments(&base, 900).unwrap()[0].id, 1);
        assert_eq!(fragmenter.make_fragments(inst, 900).unwrap()[0].id, 2);
    }
    let mut other_diff = base.clone();
    other_diff.diff = b"another".to_vec();
    let mut fragmenter = Fragmenter::default();
    assert_eq!(fragmenter.make_fragments(&base, 900).unwrap()[0].id, 1);
    assert_eq!(fragmenter.make_fragments(&other_diff, 900).unwrap()[0].id, 1);
}

#[test]
fn fragments_fit_the_mtu_and_survive_the_wire() {
    let inst = sample_instruction(&noise(3000), 1);
    let mut fragmenter = Fragmenter::default();
    let fragments = fragmenter.make_fragments(&inst, 500).unwrap();
    assert!(fragments.len() > 5);
    let mut assembly = FragmentAssembly::new();
    let mut last = None;
    for fragment in &fragments {
        let bytes = fragment.tostring();
        assert!(bytes.len() <= 500);
        assert!(last.is_none());
        last = assembly.add_fragment(Fragment::parse(&bytes).unwrap());
    }
    assert_eq!(last.unwrap(), inst);
}

#[test]
fn any_order_with_duplicates_completes_once() {
    let inst = sample_instruction(&noise(80), 1);
    let mut fragmenter = Fragmenter::default();
    let fragments = fragmenter.make_fragments(&inst, 40).unwrap();
    assert_eq!(fragments.len(), 4);
    for order in [
        vec![0, 1, 2, 3],
        vec![3, 2, 1, 0],
        vec![3, 3, 0, 0, 2, 0, 3, 1],
        vec![1, 3, 1, 0, 1, 2],
        vec![2, 0, 0, 1, 3],
    ] {
        let mut assembly = FragmentAssembly::new();
        for round in 0..2 {
            for (k, i) in order.iter().enumerate() {
                let out = assembly.add_fragment(fragments[*i].clone());
                if k + 1 == order.len() {
                    // a completed instruction leaves the assembly ready for all of it again
                    assert_eq!(out, Some(inst.clone()), "round {}", round);
                } else {
                    assert_eq!(out, None);
                }
            }
        }
    }
}

#[test]
fn new_id_forgets_the_instruction_before() {
    let mut fragmenter = Fragmenter::default();
    let first = sample_instruction(&noise(100), 1);
    let second = sample_instruction(&noise(100), 2);
    let a = fragmenter.make_fragments(&first, 70).unwrap();
    let b = fragmenter.make_fragments(&second, 70).unwrap();
    let mut assembly = FragmentAssembly::new();
    assert!(assembly.add_fragment(a[0].clone()).is_none());
    for fragment in &b[..b.len() - 1] {
        assert!(assembly.add_fragment(fragment.clone()).is_none());
    }
    assert_eq!(
        assembly.add_fragment(b[b.len() - 1].clone()),
        Some(second)
    );
    // the piece of the first that had come is gone
    for fragment in &a[1..] {
        assert!(assembly.add_fragment(fragment.clone()).is_none());
    }
}

#[test]
fn conflicting_duplicate_leaves_the_first_in_place() {
    let inst = sample_instruction(&noise(100), 1);
    let mut fragmenter = Fragmenter::default();
    let fragments = fragmenter.make_fragments(&inst, 70).unwrap();
    assert_eq!(fragments.len(), 3);
    let mut assembly = FragmentAssembly::new();
    assert!(assembly.add_fragment(fragments[0].clone()).is_none());
    let mut evil = fragments[0].clone();
    evil.contents[3] ^= 1;
    assert!(assembly.add_fragment(evil).is_none());
    let mut early_end = fragments[0].clone();
    early_end.final_ = true;
    assert!(assembly.add_fragment(early_end).is_none());
    assert!(assembly.add_fragment(fragments[2].clone()).is_none());
    assert_eq!(assembly.add_fragment(fragments[1].clone()), Some(inst));
}

#[test]
fn pieces_behind_the_final_one_are_cut_off() {
    let inst = sample_instruction(b"short", 1);
    let payload = zlib_compress(&inst.encode());
    let fragments = split_payload(9, &payload, payload.len() / 2 + 1).unwrap();
    assert_eq!(fragments.len(), 2);
    let mut assembly = FragmentAssembly::new();
    assert!(assembly
        .add_fragment(piece(9, 5, false, b"stray"))
        .is_none());
    assert!(assembly.add_fragment(fragments[1].clone()).is_none());
    assert_eq!(assembly.add_fragment(fragments[0].clone()), Some(inst));
}

#[test]
fn enough_pieces_with_a_hole_clear_the_assembly() {
    let inst = sample_instruction(b"short", 1);
    let payload = zlib_compress(&inst.encode());
    let fragments = split_payload(9, &payload, payload.len() / 2 + 1).unwrap();
    let mut assembly = FragmentAssembly::new();
    assert!(assembly.add_fragment(fragments[1].clone()).is_none());
    // two pieces of two, but the first is missing
    assert!(assembly
        .add_fragment(piece(9, 5, false, b"stray"))
        .is_none());
    // nothing of it is left
    assert!(assembly.add_fragment(fragments[0].clone()).is_none());
    assert_eq!(assembly.add_fragment(fragments[1].clone()), Some(inst));
}

#[test]
fn garbage_that_completes_stays_until_a_new_id() {
    let inst = sample_instruction(b"later", 1);
    let mut assembly = FragmentAssembly::new();
    assert!(assembly.add_fragment(piece(3, 0, true, b"junk")).is_none());
    // the right piece conflicts with the garbage in its place
    let right = split_payload(3, &zlib_compress(&inst.encode()), 1000).unwrap();
    assert!(assembly.add_fragment(right[0].clone()).is_none());
    let next = split_payload(4, &zlib_compress(&inst.encode()), 1000).unwrap();
    assert_eq!(assembly.add_fragment(next[0].clone()), Some(inst));
}

#[test]
fn concluding_clears_only_on_an_instruction() {
    let inst = sample_instruction(b"diff", 1);
    let payload = zlib_compress(&inst.encode());
    let fragments = split_payload(6, &payload, payload.len() / 2 + 1).unwrap();
    let mut assembly = FragmentAssembly::new();
    assert!(assembly.add_fragment(fragments[0].clone()).is_none());
    assert!(assembly
        .conclude(Err(FragmentError::AssemblyTooLarge))
        .is_none());
    assert!(assembly.conclude(Ok(vec![0x18])).is_none());
    // the piece is still there
    assert_eq!(
        assembly.add_fragment(fragments[1].clone()),
        Some(inst.clone())
    );
    assert!(assembly.add_fragment(fragments[0].clone()).is_none());
    assert_eq!(assembly.conclude(Ok(inst.encode())), Some(inst.clone()));
    // the piece is gone
    assert!(assembly.add_fragment(fragments[1].clone()).is_none());
    assert_eq!(assembly.add_fragment(fragments[0].clone()), Some(inst));
}

#[test]
fn oversized_assembly_is_dropped_whole() {
    let inst = sample_instruction(b"after", 1);
    let chunk = vec![0u8; 1024 * 1024];
    let mut assembly = FragmentAssembly::new();
    for i in 0..8u16 {
        assert!(assembly.add_fragment(piece(2, i, false, &chunk)).is_none());
    }
    assert!(assembly.add_fragment(piece(2, 8, true, &[1])).is_none());
    // it was cleared: the same id starts afresh
    let right = split_payload(2, &zlib_compress(&inst.encode()), 1000).unwrap();
    assert_eq!(assembly.add_fragment(right[0].clone()), Some(inst));
}

#[test]
fn repeated_final_fragment_changes_nothing() {
    let inst = sample_instruction(&noise(60), 1);
    let fragments = split_payload(9, &zlib_compress(&inst.encode()), 30).unwrap();
    assert_eq!(fragments.len(), 3);
    for repeats in 0..3 {
        let mut assembly = FragmentAssembly::new();
        assert!(assembly.add_fragment(fragments[2].clone()).is_none());
        assert!(assembly
            .add_fragment(piece(9, 5, false, b"stray"))
            .is_none());
        for _ in 0..repeats {
            assert!(assembly.add_fragment(fragments[2].clone()).is_none());
        }
        // the stray still counts as the third of three, so there is a hole
        assert!(assembly.add_fragment(fragments[0].clone()).is_none());
        assert!(assembly.add_fragment(fragments[1].clone()).is_none());
        // cleared at the hole; what came since is held
        assert!(assembly.add_fragment(fragments[0].clone()).is_none());
        assert_eq!(assembly.add_fragment(fragments[2].clone()), Some(inst.clone()));
    }
}

#[test]
fn repeats_of_garbage_never_clear_it() {
    let inst = sample_instruction(b"late", 1);
    let garbage = piece(3, 0, true, &vec![0xAB; 1024 * 1024]);
    let right = split_payload(3, &zlib_compress(&inst.encode()), 1000).unwrap();
    let mut assembly = FragmentAssembly::new();
    for _ in 0..20 {
        assert!(assembly.add_fragment(garbage.clone()).is_none());
        assert!(assembly.add_fragment(right[0].clone()).is_none());
    }
}

#[test]
fn compressed_length_is_bounded() {
    for len in [0usize, 1, 31, 47, 48, 1000, 31_744, 31_745, 65_536, 300_000] {
        for input in [noise(len), vec![0u8; len], vec![b'x'; len]] {
            let stream = zlib_compress(&input);
            assert!(stream.len() > 6);
            assert!(stream.len() <= len * 31 / 16 + 1024);
        }
    }
}

#[test]
fn encoding_at_the_cap_is_delivered() {
    let mut inst = sample_instruction(&[], 1);
    let overhead = inst.encode().len() + 3;
    inst.diff = noise(DECOMPRESS_LIMIT - overhead);
    assert_eq!(inst.encode().len(), DECOMPRESS_LIMIT);
    let mut fragmenter = Fragmenter::default();
    let fragments = fragmenter.make_fragments(&inst, 1400).unwrap();
    let mut assembly = FragmentAssembly::new();
    let mut outs: Vec<_> = fragments
        .into_iter()
        .map(|fragment| assembly.add_fragment(fragment))
        .collect();
    assert!(outs.pop().unwrap() == Some(inst));
    assert!(outs.iter().all(|out| out.is_none()));
}

#[test]
fn id_follows_the_mtu() {
    let inst = sample_instruction(&noise(100), 1);
    let mut fragmenter = Fragmenter::default();
    for (mtu, id) in [(50, 1), (50, 1), (51, 2), (50, 3), (500, 4), (500, 4)] {
        for fragment in fragmenter.make_fragments(&inst, mtu).unwrap() {
            assert_eq!(fragment.id, id);
            assert!(!fragment.contents.is_empty());
        }
    }
}

#[test]
fn lost_fragment_completes_when_fed_again() {
    let mut fragmenter = Fragmenter::default();
    let first = sample_instruction(&noise(100), 1);
    let v1 = fragmenter.make_fragments(&first, 70).unwrap();
    let v2 = fragmenter
        .make_fragments(&sample_instruction(&noise(100), 2), 70)
        .unwrap();
    assert!(v1.len() >= 2 && v2.len() >= 2);
    let mut assembly = FragmentAssembly::new();
    assert!(assembly.add_fragment(v1[0].clone()).is_none());
    assert!(assembly.add_fragment(v2[0].clone()).is_none());
    for fragment in &v1[1..] {
        assert!(assembly.add_fragment(fragment.clone()).is_none());
    }
    assert_eq!(assembly.add_fragment(v1[0].clone()), Some(first));
}

#[test]
fn every_round_delivers() {
    let inst = sample_instruction(&noise(80), 1);
    let fragments = split_payload(4, &zlib_compress(&inst.encode()), 40).unwrap();
    let n = fragments.len();
    assert_eq!(n, 3);
    let mut assembly = FragmentAssembly::new();
    let mut seen = vec![false; n];
    for byte in noise(500) {
        let i = byte as usize % n;
        seen[i] = true;
        let out = assembly.add_fragment(fragments[i].clone());
        if seen.iter().all(|came| *came) {
            assert_eq!(out, Some(inst.clone()));
            seen = vec![false; n];
        } else {
            assert_eq!(out, None);
        }
    }
}

#[test]
fn no_history_wedges_the_assembly() {
    let inst = sample_instruction(&noise(80), 1);
    let mut assembly = FragmentAssembly::new();
    let bytes = noise(4000);
    let mut outs = 0;
    for chunk in bytes.chunks(4) {
        let frag = piece(
            u64::from(chunk[0] % 3),
            u16::from(chunk[1] % 6),
            chunk[2] % 3 == 0,
            &chunk[3..],
        );
        if assembly.add_fragment(frag).is_some() {
            outs += 1;
        }
    }
    assert_eq!(outs, 0);
    let fragments = split_payload(77, &zlib_compress(&inst.encode()), 40).unwrap();
    let (last, earlier) = fragments.split_last().unwrap();
    for fragment in earlier {
        assert!(assembly.add_fragment(fragment.clone()).is_none());
    }
    assert_eq!(assembly.add_fragment(last.clone()), Some(inst));
}
