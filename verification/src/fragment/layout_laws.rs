//! What fragments are byte by byte, when an id advances field by field, and what
//! an assembly holds slot by slot.

use vstd::arithmetic::div_mod::{lemma_div_basics, lemma_div_denominator};
use vstd::arithmetic::power2::{
    lemma2_to64, lemma2_to64_rest, lemma_pow2_adds, lemma_pow2_pos, pow2,
};
use vstd::prelude::*;

use crate::fragment::assembly::{
    arrived, bounded, concluded, decoded, empty_assembly, fed, has_hole, instruction_view, joined,
    parsed, stored, AssemblyView, ASSEMBLY_LIMIT,
};
use crate::fragment::error::{FragmentError, FragmentErrorView};
use crate::fragment::frame::{
    be_bytes, be_value, fragment_bytes, fragment_flags, lemma_be_value_bound, parse_fragment,
    Fragment, FragmentView, FRAG_HEADER_LEN, MAX_FRAGMENT_INDEX,
};
use crate::fragment::frame_laws::lemma_be_bytes_len;
use crate::fragment::fragmenter::{
    carries, fits, fragments_view, framed, idle_fragmenter, last_ack, lemma_piece_count,
    payload_of, piece_count, pieces, room_for, FragmenterView,
};
use crate::fragment::zlib::{
    capped, decompressed, decompressed_view, inflated_view, zlib_deflated, zlib_inflated,
    DECOMPRESS_LIMIT,
};
use crate::wire::error::wire_message;
use crate::wire::transport::{
    blank_transport, merge_transport, transport_bytes, TransportInstruction, TransportView,
};

verus! {

/// A fragment says what its fields say, and a list what its fragments say.
pub proof fn law_fragment_view(fragment: Fragment, list: Seq<Fragment>, i: int)
    ensures
        fragment@.id == fragment.id,
        fragment@.fragment_num == fragment.fragment_num,
        fragment@.final_ == fragment.final_,
        fragment@.contents == fragment.contents@,
        fragments_view(list).len() == list.len(),
        0 <= i < list.len() ==> fragments_view(list)[i] == list[i]@,
{
}

/// An error says what its variant and its words say.
pub proof fn law_fragment_error_view(e: FragmentError)
    ensures
        match e {
            FragmentError::TooShort => e@ == FragmentErrorView::TooShort,
            FragmentError::AssemblyTooLarge => e@ == FragmentErrorView::AssemblyTooLarge,
            FragmentError::IndexTooLarge => e@ == FragmentErrorView::IndexTooLarge,
            FragmentError::Inflate(words) => e@ == FragmentErrorView::Inflate(words@),
            FragmentError::Parse(words) => e@ == FragmentErrorView::Parse(words@),
        },
{
}

/// Byte `i` of a big-endian number.
proof fn lemma_be_byte(value: nat, width: nat, i: int)
    requires
        0 <= i < width,
    ensures
        be_bytes(value, width).len() == width,
        be_bytes(value, width)[i] == (value / pow2((8 * (width - 1 - i)) as nat)) % 256,
    decreases width,
{
    lemma2_to64();
    lemma_be_bytes_len(value, width);
    lemma_be_bytes_len(value / 0x100, (width - 1) as nat);
    if i == width - 1 {
        lemma_div_basics(value as int);
    } else {
        let bits = (8 * (width - 2 - i)) as nat;
        lemma_be_byte(value / 0x100, (width - 1) as nat, i);
        lemma_pow2_pos(bits);
        lemma_pow2_adds(8, bits);
        lemma_div_denominator(value as int, 0x100, pow2(bits) as int);
        assert(be_bytes(value, width)[i] == be_bytes(value / 0x100, (width - 1) as nat)[i]);
    }
}

/// A fragment on the wire: bytes 0 to 7 are the id, most significant first; byte 8
/// is the upper part of the index, with its top bit set on the final fragment;
/// byte 9 is the lower part of the index; the rest are the contents.
pub proof fn law_fragment_layout(fragment: FragmentView, i: int)
    ensures
        ({
            let s = fragment_bytes(fragment);
            &&& s.len() == 10 + fragment.contents.len()
            &&& 0 <= i < 8 ==> s[i] == (fragment.id as nat / pow2((8 * (7 - i)) as nat)) % 256
            &&& fragment.fragment_num <= 0x7FFF ==> s[8] == fragment.fragment_num / 256 + (
            if fragment.final_ {
                128int
            } else {
                0
            })
            &&& fragment.fragment_num > 0x7FFF ==> s[8] == fragment.fragment_num / 256
            &&& fragment.fragment_num <= 0x7FFF ==> (s[8] >= 0x80 <==> fragment.final_)
            &&& s[9] == fragment.fragment_num % 256
            &&& s.skip(10) == fragment.contents
        }),
{
    let s = fragment_bytes(fragment);
    let num = fragment.fragment_num;
    let flags = fragment_flags(fragment.final_, num);
    assert(num <= 0x7FFF ==> 0x8000u16 | num == 0x8000 + num) by (bit_vector);
    assert(num > 0x7FFF ==> 0x8000u16 | num == num) by (bit_vector);
    lemma2_to64();
    lemma_div_basics(flags as int);
    lemma_be_bytes_len(fragment.id as nat, 8);
    lemma_be_byte(flags as nat, 2, 0);
    lemma_be_byte(flags as nat, 2, 1);
    if 0 <= i < 8 {
        lemma_be_byte(fragment.id as nat, 8, i);
    }
    assert(s[8] == be_bytes(flags as nat, 2)[0]);
    assert(s[9] == be_bytes(flags as nat, 2)[1]);
    assert(s.skip(10) =~= fragment.contents);
}

/// Any ten bytes or more are a fragment: the id in bytes 0 to 7, final where byte 8
/// has its top bit set, the index in the rest of it and byte 9, and the contents
/// behind them. Fewer are none.
pub proof fn law_fragment_is_read(s: Seq<u8>)
    ensures
        s.len() < 10 ==> parse_fragment(s) == Err::<FragmentView, FragmentErrorView>(
            FragmentErrorView::TooShort,
        ),
        s.len() >= 10 ==> {
            &&& parse_fragment(s) is Ok
            &&& parse_fragment(s)->Ok_0.id == s[0] * 0x100_0000_0000_0000 + s[1]
                * 0x1_0000_0000_0000 + s[2] * 0x100_0000_0000 + s[3] * 0x1_0000_0000 + s[4]
                * 0x100_0000 + s[5] * 0x1_0000 + s[6] * 0x100 + s[7]
            &&& parse_fragment(s)->Ok_0.final_ <==> s[8] >= 0x80
            &&& parse_fragment(s)->Ok_0.fragment_num == (s[8] % 128) * 256 + s[9]
            &&& parse_fragment(s)->Ok_0.contents == s.skip(10)
        },
{
    if s.len() >= 10 {
        let head = s.subrange(0, 8);
        let flags = s.subrange(8, 10);
        reveal_with_fuel(be_value, 9);
        lemma2_to64();
        lemma2_to64_rest();
        lemma_be_value_bound(head);
        assert(flags.drop_last() =~= seq![s[8]]);
        assert(flags.drop_last().drop_last() =~= Seq::<u8>::empty());
        let h7 = head.drop_last();
        let h6 = h7.drop_last();
        let h5 = h6.drop_last();
        let h4 = h5.drop_last();
        let h3 = h4.drop_last();
        let h2 = h3.drop_last();
        let h1 = h2.drop_last();
        assert(h1.drop_last() =~= Seq::<u8>::empty());
    }
}

/// The limits of the format and of memory.
pub proof fn law_limits()
    ensures
        FRAG_HEADER_LEN == 10,
        MAX_FRAGMENT_INDEX == 32767,
        DECOMPRESS_LIMIT == 4194304,
        ASSEMBLY_LIMIT == 8388608,
{
}

/// What a bounded read gave decides what decompression gives: an error is told in
/// its words, more than 4 MiB is refused, and anything else is handed on.
pub proof fn law_decompression_is_capped(stream: Seq<u8>, read: Result<Seq<u8>, Seq<char>>)
    ensures
        decompressed(stream) == capped(zlib_inflated(stream, 4194305)),
        match read {
            Err(words) => capped(read) == Err::<Seq<u8>, FragmentErrorView>(
                FragmentErrorView::Inflate(words),
            ),
            Ok(bytes) => if bytes.len() > 4194304 {
                capped(read) == Err::<Seq<u8>, FragmentErrorView>(
                    FragmentErrorView::AssemblyTooLarge,
                )
            } else {
                capped(read) == Ok::<Seq<u8>, FragmentErrorView>(bytes)
            },
        },
{
}

/// Results say what their variants hold.
pub proof fn law_result_views(
    inflated: Result<Vec<u8>, String>,
    plain: Result<Vec<u8>, FragmentError>,
    inst: Option<TransportInstruction>,
)
    ensures
        match inflated {
            Ok(bytes) => inflated_view(inflated) == Ok::<Seq<u8>, Seq<char>>(bytes@),
            Err(words) => inflated_view(inflated) == Err::<Seq<u8>, Seq<char>>(words@),
        },
        match plain {
            Ok(bytes) => decompressed_view(plain) == Ok::<Seq<u8>, FragmentErrorView>(bytes@),
            Err(e) => decompressed_view(plain) == Err::<Seq<u8>, FragmentErrorView>(e@),
        },
        match inst {
            Some(inst) => instruction_view(Some(inst)) == Some(inst@),
            None => instruction_view(inst) is None,
        },
{
}

/// The first id is 1. Of two instructions framed in a row, the second keeps the id
/// of the first if and only if each of protocol version, old number, new number,
/// ack number, throwaway number and chaff is the same in both, and the datagrams
/// have the same room; else it takes the next id.
pub proof fn law_id_is_kept_field_by_field(
    st: FragmenterView,
    first: TransportView,
    first_mtu: usize,
    second: TransportView,
    second_mtu: usize,
)
    ensures
        framed(idle_fragmenter(), first, first_mtu).id == 1,
        framed(st, first, first_mtu).id < u64::MAX ==> {
            let once = framed(st, first, first_mtu).id;
            let twice = framed(framed(st, first, first_mtu), second, second_mtu).id;
            let same_header = first.protocol_version == second.protocol_version && first.old_num
                == second.old_num && first.new_num == second.new_num && first.ack_num
                == second.ack_num && first.throwaway_num == second.throwaway_num && first.chaff
                == second.chaff;
            let same_room = first_mtu == second_mtu || (first_mtu <= 10 && second_mtu <= 10);
            &&& same_header && same_room ==> twice == once
            &&& !(same_header && same_room) ==> twice == once + 1
        },
        last_ack(idle_fragmenter()) is None,
        last_ack(framed(st, first, first_mtu)) == Some(first.ack_num),
{
}

/// What is cut is the encoding, compressed whole, and it decompresses to that.
pub proof fn law_payload_is_the_compressed_encoding(inst: TransportView, payload: Seq<u8>)
    ensures
        payload_of(inst) == zlib_deflated(transport_bytes(inst)),
        carries(payload, inst) ==> {
            &&& 6 < payload.len() <= transport_bytes(inst).len() * 31 / 16 + 1024
            &&& transport_bytes(inst).len() <= 4194304 ==> decompressed(payload) == Ok::<
                Seq<u8>,
                FragmentErrorView,
            >(transport_bytes(inst))
            &&& transport_bytes(inst).len() > 4194304 ==> decompressed(payload) == Err::<
                Seq<u8>,
                FragmentErrorView,
            >(FragmentErrorView::AssemblyTooLarge)
        },
{
}

/// A datagram leaves room for all but the ten bytes of the header. A payload fits
/// where 32768 fragments have room for it. It is then cut into as few as that
/// takes: fragment `i` has index `i` and the bytes from `i` times the room on, the
/// room full but for the last, which alone is final.
pub proof fn law_payload_is_cut_in_order(id: u64, payload: Seq<u8>, mtu: usize, i: int)
    ensures
        room_for(mtu) == (if mtu > 10 {
            mtu - 10
        } else {
            0
        }),
        fits(payload, room_for(mtu) as nat) <==> payload.len() <= 32768 * room_for(mtu),
        payload.len() <= 32768 * room_for(mtu) ==> {
            let room = room_for(mtu) as int;
            let v = pieces(id, payload, room as nat);
            let n = v.len() as int;
            &&& 1 <= n <= 32768
            &&& payload.len() <= n * room
            &&& n == 1 || (n - 1) * room < payload.len()
            &&& 0 <= i < n ==> {
                &&& v[i].id == id
                &&& v[i].fragment_num == i
                &&& v[i].final_ <==> i == n - 1
                &&& i < n - 1 ==> v[i].contents == payload.subrange(i * room, (i + 1) * room)
                &&& i == n - 1 ==> v[i].contents == payload.skip(i * room)
            }
        },
{
    let room = room_for(mtu) as nat;
    let len = payload.len();
    if fits(payload, room) {
        let n = piece_count(len, room) as int;
        lemma_piece_count(payload, room);
        if 0 <= i < n {
            assert((i + 1) * room == i * room + room) by (nonlinear_arith);
            if i < n - 1 {
                assert((i + 1) * room <= (n - 1) * room) by (nonlinear_arith)
                    requires
                        i + 1 <= n - 1,
                        room >= 0,
                ;
            } else {
                if n == 1 {
                    assert(i * room == 0) by (nonlinear_arith)
                        requires
                            i == 0,
                    ;
                }
                assert(n * room == (i + 1) * room);
                assert(payload.skip(i * room) =~= payload.subrange(i * room, len as int));
            }
        }
    }
}

/// An assembly that was fed nothing holds nothing.
pub proof fn law_empty_assembly()
    ensures
        empty_assembly().slots.len() == 0,
        empty_assembly().current_id == 0,
        empty_assembly().total is None,
        empty_assembly().assembled == 0,
{
}

/// The slots that are filled are counted, and their contents joined, one by one.
pub proof fn law_slots_one_by_one(slots: Seq<Option<FragmentView>>, frag: FragmentView)
    ensures
        arrived(Seq::empty()) == 0,
        arrived(slots.push(None)) == arrived(slots),
        arrived(slots.push(Some(frag))) == arrived(slots) + 1,
        joined(Seq::empty()) == Seq::<u8>::empty(),
        joined(slots.push(Some(frag))) == joined(slots) + frag.contents,
{
    assert(slots.push(None).drop_last() =~= slots);
    assert(slots.push(Some(frag)).drop_last() =~= slots);
}

/// What decompressed bytes decode to, and in which words they do not.
pub proof fn law_decompressed_bytes_are_decoded(
    bytes: Seq<u8>,
    inflated: Result<Seq<u8>, FragmentErrorView>,
)
    ensures
        match merge_transport(blank_transport(), bytes) {
            Ok(inst) => parsed(bytes) == Ok::<TransportView, FragmentErrorView>(inst),
            Err(e) => parsed(bytes) == Err::<TransportView, FragmentErrorView>(
                FragmentErrorView::Parse(wire_message(e)),
            ),
        },
        match inflated {
            Err(_) => decoded(inflated) is None,
            Ok(b) => match merge_transport(blank_transport(), b) {
                Ok(inst) => decoded(inflated) == Some(inst),
                Err(_) => decoded(inflated) is None,
            },
        },
{
}

/// What an assembly does with a fragment whose place is free. `held` are the slots
/// of its instruction, none where the id is new; `slots` are these with the
/// fragment in its place, and with nothing behind it where it is final. A final
/// fragment sets the number of fragments. While the number of filled slots is
/// another, nothing comes out. Once it is that, an empty slot or more than 8 MiB of
/// contents clears all; contents that hold no instruction stay; an instruction
/// comes out and clears all.
pub proof fn law_fragment_takes_its_place(
    st: AssemblyView,
    frag: FragmentView,
    held: Seq<Option<FragmentView>>,
    slots: Seq<Option<FragmentView>>,
)
    requires
        !(st.current_id == frag.id && frag.fragment_num < st.slots.len()
            && st.slots[frag.fragment_num as int] is Some),
        st.current_id == frag.id ==> held == st.slots,
        st.current_id != frag.id ==> held.len() == 0,
        frag.final_ || held.len() <= frag.fragment_num ==> slots.len() == frag.fragment_num + 1,
        !frag.final_ && held.len() > frag.fragment_num ==> slots.len() == held.len(),
        slots[frag.fragment_num as int] == Some(frag),
        forall|i: int|
            0 <= i < slots.len() && i != frag.fragment_num ==> (#[trigger] slots[i]) == (if i
                < held.len() {
                held[i]
            } else {
                None
            }),
    ensures
        ({
            let same = st.current_id == frag.id;
            let total = if frag.final_ {
                Some((frag.fragment_num + 1) as nat)
            } else if same {
                st.total
            } else {
                None
            };
            let before = if same {
                st.assembled
            } else {
                0
            };
            let len = before + joined(slots).len();
            let inst = decoded(decompressed(joined(slots)));
            let whole = forall|i: int| 0 <= i < slots.len() ==> (#[trigger] slots[i]) is Some;
            let (end, out) = fed(st, frag);
            &&& end.current_id == frag.id
            &&& if total != Some(arrived(slots)) {
                &&& out is None
                &&& end.slots == slots
                &&& end.total == total
                &&& end.assembled == before
            } else if !whole || len > 8388608 {
                &&& out is None
                &&& end.slots.len() == 0
                &&& end.total is None
                &&& end.assembled == 0
            } else if inst is None {
                &&& out is None
                &&& end.slots == slots
                &&& end.total == total
                &&& end.assembled == len
            } else {
                &&& out == inst
                &&& end.slots.len() == 0
                &&& end.total is None
                &&& end.assembled == 0
            }
        }),
{
    assert(bounded(stored(st, frag), frag).slots =~= slots);
    let whole = forall|i: int| 0 <= i < slots.len() ==> (#[trigger] slots[i]) is Some;
    if whole {
        assert(!has_hole(slots));
    } else {
        let i = choose|i: int| 0 <= i < slots.len() && !((#[trigger] slots[i]) is Some);
        assert(slots[i] is None);
    }
}

/// How an assembly ends with what its fragments decompress to: an instruction
/// clears it, anything else leaves it as it is.
pub proof fn law_conclusion(st: AssemblyView, inflated: Result<Seq<u8>, FragmentErrorView>)
    ensures
        ({
            let (end, out) = concluded(st, inflated);
            &&& out == decoded(inflated)
            &&& out is None ==> end == st
            &&& out is Some ==> {
                &&& end.slots.len() == 0
                &&& end.current_id == st.current_id
                &&& end.total is None
                &&& end.assembled == 0
            }
        }),
{
}

} // verus!
