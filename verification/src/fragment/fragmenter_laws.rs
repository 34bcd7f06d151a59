//! What holds of the ids and sizes of fragments.

use vstd::prelude::*;

use crate::fragment::error::FragmentErrorView;
use crate::fragment::frame::{
    fragment_bytes, fragment_flags, parse_fragment, FragmentView, FRAG_HEADER_LEN,
};
use crate::fragment::frame_laws::{law_fragment_round_trip, lemma_be_bytes_len};
use crate::fragment::fragmenter::{
    fits, framed, header_of, idle_fragmenter, last_ack, lemma_piece_count, payload_of, piece_count,
    pieces, room_for, FragmenterView,
};
use crate::wire::transport::TransportView;

verus! {

/// The first id is 1.
pub proof fn law_first_id_is_one(inst: TransportView, mtu: usize)
    ensures
        framed(idle_fragmenter(), inst, mtu).id == 1,
{
}

/// An instruction keeps the id of the one before it where its header and the
/// room are the same, and takes the next id where either changed. The diff does
/// not count.
pub proof fn law_id_advances_only_on_change(
    st: FragmenterView,
    first: TransportView,
    first_mtu: usize,
    second: TransportView,
    second_mtu: usize,
)
    requires
        framed(st, first, first_mtu).id < u64::MAX,
    ensures
        framed(framed(st, first, first_mtu), second, second_mtu).id == (if header_of(first)
            == header_of(second) && room_for(first_mtu) == room_for(second_mtu) {
            framed(st, first, first_mtu).id as int
        } else {
            framed(st, first, first_mtu).id + 1
        }),
{
}

/// A payload that is not empty never fits an MTU that leaves no room for it.
pub proof fn law_tiny_mtu_is_refused(payload: Seq<u8>, mtu: usize)
    requires
        payload.len() > 0,
        mtu <= FRAG_HEADER_LEN,
    ensures
        !fits(payload, room_for(mtu) as nat),
{
}

/// All fragments of a call share one id. Of two calls in a row, the second keeps
/// the id of the first where the headers and the MTUs are the same, and takes the
/// next id where either changed.
pub proof fn law_fragment_ids(
    st: FragmenterView,
    first: TransportView,
    first_mtu: usize,
    first_payload: Seq<u8>,
    second: TransportView,
    second_mtu: usize,
    second_payload: Seq<u8>,
)
    requires
        framed(st, first, first_mtu).id < u64::MAX,
        first_payload.len() > 0,
        fits(first_payload, room_for(first_mtu) as nat),
        second_payload.len() > 0,
        fits(second_payload, room_for(second_mtu) as nat),
    ensures
        ({
            let once = framed(st, first, first_mtu);
            let twice = framed(once, second, second_mtu);
            let v1 = pieces(once.id, first_payload, room_for(first_mtu) as nat);
            let v2 = pieces(twice.id, second_payload, room_for(second_mtu) as nat);
            &&& v1.len() >= 1 && v2.len() >= 1
            &&& forall|i: int| 0 <= i < v1.len() ==> (#[trigger] v1[i]).id == v1[0].id
            &&& forall|i: int| 0 <= i < v2.len() ==> (#[trigger] v2[i]).id == v2[0].id
            &&& v2[0].id == (if header_of(first) == header_of(second) && first_mtu == second_mtu {
                v1[0].id as int
            } else {
                v1[0].id + 1
            })
        }),
{
    lemma_piece_count(first_payload, room_for(first_mtu) as nat);
    lemma_piece_count(second_payload, room_for(second_mtu) as nat);
    if first_mtu <= FRAG_HEADER_LEN {
        law_tiny_mtu_is_refused(first_payload, first_mtu);
    }
    if second_mtu <= FRAG_HEADER_LEN {
        law_tiny_mtu_is_refused(second_payload, second_mtu);
    }
}

/// What a fragmenter remembers after the calls, each on an instruction and an MTU.
pub open spec fn framed_all(
    st: FragmenterView,
    calls: Seq<(TransportView, usize)>,
) -> FragmenterView
    decreases calls.len(),
{
    if calls.len() == 0 {
        st
    } else {
        framed(framed_all(st, calls.drop_last()), calls.last().0, calls.last().1)
    }
}

/// The ack last sent is that of the latest call, whatever came of it, and there is
/// none before the first.
pub proof fn law_last_ack_is_of_the_latest_call(calls: Seq<(TransportView, usize)>)
    ensures
        last_ack(framed_all(idle_fragmenter(), calls)) == (if calls.len() == 0 {
            None
        } else {
            Some(calls.last().0.ack_num)
        }),
{
}

/// An instruction framed again for the same MTU gives the same fragments again.
pub proof fn law_retransmission_repeats_the_fragments(
    st: FragmenterView,
    inst: TransportView,
    mtu: usize,
)
    ensures
        ({
            let once = framed(st, inst, mtu);
            let twice = framed(once, inst, mtu);
            let room = room_for(mtu) as nat;
            pieces(twice.id, payload_of(inst), room) == pieces(once.id, payload_of(inst), room)
        }),
{
}

/// A fragment with its header is no longer than the MTU it was cut for.
pub proof fn law_fragments_fit_the_mtu(id: u64, payload: Seq<u8>, mtu: usize, i: int)
    requires
        mtu >= FRAG_HEADER_LEN,
        fits(payload, room_for(mtu) as nat),
        0 <= i < pieces(id, payload, room_for(mtu) as nat).len(),
    ensures
        fragment_bytes(pieces(id, payload, room_for(mtu) as nat)[i]).len() <= mtu,
{
    let room = room_for(mtu) as nat;
    let len = payload.len();
    let part = pieces(id, payload, room)[i];
    lemma_be_bytes_len(part.id as nat, 8);
    lemma_be_bytes_len(fragment_flags(part.final_, part.fragment_num) as nat, 2);
    lemma_piece_count(payload, room);
    assert((i + 1) * room == i * room + room) by (nonlinear_arith);
    if i == 0 {
        assert(i * room == 0) by (nonlinear_arith)
            requires
                i == 0,
        ;
    } else {
        assert(i * room <= (piece_count(len, room) - 1) * room) by (nonlinear_arith)
            requires
                i <= piece_count(len, room) - 1,
                room >= 0,
        ;
    }
}

/// No fragment of a payload that is not empty is empty.
pub proof fn law_no_piece_is_empty(id: u64, payload: Seq<u8>, room: nat, i: int)
    requires
        payload.len() > 0,
        fits(payload, room),
        0 <= i < pieces(id, payload, room).len(),
    ensures
        pieces(id, payload, room)[i].contents.len() > 0,
{
    let len = payload.len();
    lemma_piece_count(payload, room);
    assert((i + 1) * room == i * room + room) by (nonlinear_arith);
    if i == 0 {
        assert(i * room == 0) by (nonlinear_arith)
            requires
                i == 0,
        ;
    } else {
        assert(i * room <= (piece_count(len, room) - 1) * room) by (nonlinear_arith)
            requires
                i <= piece_count(len, room) - 1,
                room >= 0,
        ;
    }
}

/// Every fragment of a payload survives the wire.
pub proof fn law_pieces_survive_the_wire(id: u64, payload: Seq<u8>, room: nat, i: int)
    requires
        fits(payload, room),
        0 <= i < pieces(id, payload, room).len(),
    ensures
        parse_fragment(fragment_bytes(pieces(id, payload, room)[i])) == Ok::<
            FragmentView,
            FragmentErrorView,
        >(pieces(id, payload, room)[i]),
{
    lemma_piece_count(payload, room);
    law_fragment_round_trip(pieces(id, payload, room)[i]);
}

} // verus!
