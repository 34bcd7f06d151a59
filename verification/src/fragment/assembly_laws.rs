//! What holds of reassembly whatever order the fragments arrive in.

use vstd::prelude::*;

use crate::fragment::assembly::{
    arrived, bounded, cleared, decoded, fed, has_hole, is_complete, is_taken, joined,
    lemma_arrived_bound, stored, taken, AssemblyView, ASSEMBLY_LIMIT,
};
use crate::fragment::frame::FragmentView;
use crate::fragment::fragmenter::{
    carries, fits, lemma_piece_count, piece_count, piece_end, pieces,
};
use crate::fragment::zlib::{decompressed, DECOMPRESS_LIMIT};
use crate::wire::transport::{transport_bytes, TransportView};
use crate::wire::transport_laws::law_transport_round_trip;

verus! {

/// The assembly after all of `arrivals`, and what came out at each of them.
pub open spec fn fed_all(st: AssemblyView, arrivals: Seq<FragmentView>) -> (
    AssemblyView,
    Seq<Option<TransportView>>,
)
    decreases arrivals.len(),
{
    if arrivals.len() == 0 {
        (st, Seq::empty())
    } else {
        let (mid, outs) = fed_all(st, arrivals.drop_last());
        let (end, out) = fed(mid, arrivals.last());
        (end, outs.push(out))
    }
}

/// Whether an assembly holds nothing of the instruction `id`.
pub open spec fn is_fresh_for(st: AssemblyView, id: u64) -> bool {
    st.current_id != id || st == cleared(st)
}

/// Whether every arrival is one of `fragments`, in any order, any number of times.
pub open spec fn drawn_from(arrivals: Seq<FragmentView>, fragments: Seq<FragmentView>) -> bool {
    forall|k: int| 0 <= k < arrivals.len() ==> fragments.contains(#[trigger] arrivals[k])
}

/// Whether all of `fragments` have arrived.
pub open spec fn all_came(arrivals: Seq<FragmentView>, fragments: Seq<FragmentView>) -> bool {
    forall|i: int| 0 <= i < fragments.len() ==> arrivals.contains(#[trigger] fragments[i])
}

/// Whether nothing came out at any arrival.
pub open spec fn all_silent(outs: Seq<Option<TransportView>>) -> bool {
    forall|k: int| 0 <= k < outs.len() ==> (#[trigger] outs[k]) is None
}

/// The numbering of one instruction's fragments.
spec fn is_numbered(fragments: Seq<FragmentView>, id: u64) -> bool {
    &&& 1 <= fragments.len() <= 0x8000
    &&& forall|i: int|
        0 <= i < fragments.len() ==> {
            &&& (#[trigger] fragments[i]).id == id
            &&& fragments[i].fragment_num == i
            &&& fragments[i].final_ == (i == fragments.len() - 1)
        }
}

/// What an assembly holds when some of the fragments have come.
spec fn holds(st: AssemblyView, fragments: Seq<FragmentView>, arrivals: Seq<FragmentView>) -> bool {
    &&& st.assembled == 0
    &&& st.slots.len() <= fragments.len()
    &&& forall|i: int|
        0 <= i < st.slots.len() ==> (#[trigger] st.slots[i]) == (if arrivals.contains(
            fragments[i],
        ) {
            Some(fragments[i])
        } else {
            None
        })
    &&& forall|i: int|
        st.slots.len() <= i < fragments.len() ==> !arrivals.contains(#[trigger] fragments[i])
    &&& st.total == (if arrivals.contains(fragments[fragments.len() - 1]) {
        Some(fragments.len())
    } else {
        None
    })
}

/// One more arrival is there beside the others.
proof fn lemma_one_more(arrivals: Seq<FragmentView>, frag: FragmentView)
    ensures
        forall|x: FragmentView| #[trigger]
            arrivals.push(frag).contains(x) <==> arrivals.contains(x) || x == frag,
{
    let more = arrivals.push(frag);
    assert(more[arrivals.len() as int] == frag);
    assert forall|x: FragmentView| arrivals.contains(x) implies more.contains(x) by {
        let k = choose|k: int| 0 <= k < arrivals.len() && arrivals[k] == x;
        assert(more[k] == x);
    }
}

/// The assembly with `frag` in its place, if that was empty.
spec fn placed(st: AssemblyView, frag: FragmentView) -> AssemblyView {
    if is_taken(st, frag) {
        st
    } else {
        bounded(stored(st, frag), frag)
    }
}

/// A fragment is in its place beside those that came before it.
proof fn lemma_place_one(
    st: AssemblyView,
    fragments: Seq<FragmentView>,
    id: u64,
    arrivals: Seq<FragmentView>,
    m: int,
)
    requires
        is_numbered(fragments, id),
        0 <= m < fragments.len(),
        (arrivals.len() == 0 && is_fresh_for(st, id)) || (st.current_id == id && holds(
            st,
            fragments,
            arrivals,
        )),
    ensures
        is_taken(st, fragments[m]) ==> arrivals.contains(fragments[m]),
        placed(st, fragments[m]).current_id == id,
        holds(placed(st, fragments[m]), fragments, arrivals.push(fragments[m])),
{
    let frag = fragments[m];
    let last = fragments[fragments.len() - 1];
    let next = placed(st, frag);
    lemma_one_more(arrivals, frag);
    if arrivals.len() == 0 {
        assert forall|i: int| 0 <= i < fragments.len() implies !arrivals.contains(
            #[trigger] fragments[i],
        ) by {}
    }
    assert(last == frag ==> last.fragment_num == m);
    assert forall|i: int| 0 <= i < next.slots.len() implies (#[trigger] next.slots[i]) == (
    if arrivals.push(frag).contains(fragments[i]) {
        Some(fragments[i])
    } else {
        None
    }) by {
        assert(fragments[i] == frag ==> i == m);
    }
}

/// The fragments are complete once all of them have come.
proof fn lemma_complete(
    st: AssemblyView,
    fragments: Seq<FragmentView>,
    id: u64,
    arrivals: Seq<FragmentView>,
)
    requires
        is_numbered(fragments, id),
        holds(st, fragments, arrivals),
    ensures
        is_complete(st) <==> all_came(arrivals, fragments),
        is_complete(st) ==> st.slots == Seq::new(
            fragments.len(),
            |i: int| Some(fragments[i]),
        ),
{
    let last = fragments[fragments.len() - 1];
    lemma_arrived_bound(st.slots);
    if all_came(arrivals, fragments) {
        assert(arrivals.contains(last));
        assert(!has_hole(st.slots));
    }
    if is_complete(st) {
        assert(st.slots.len() == fragments.len());
        assert(!has_hole(st.slots));
        assert forall|i: int| 0 <= i < fragments.len() implies arrivals.contains(
            #[trigger] fragments[i],
        ) && st.slots[i] == Some(fragments[i]) by {
            assert(st.slots[i] is Some);
        }
    }
}

/// One arrival of an instruction that was not complete: nothing comes out while a
/// fragment is missing, and all are there to be joined once none is.
proof fn lemma_fed_one(
    st: AssemblyView,
    fragments: Seq<FragmentView>,
    id: u64,
    arrivals: Seq<FragmentView>,
    frag: FragmentView,
)
    requires
        is_numbered(fragments, id),
        fragments.contains(frag),
        !all_came(arrivals, fragments),
        (arrivals.len() == 0 && is_fresh_for(st, id)) || (st.current_id == id && holds(
            st,
            fragments,
            arrivals,
        )),
    ensures
        ({
            let next = placed(st, frag);
            let more = arrivals.push(frag);
            &&& next.current_id == id
            &&& holds(next, fragments, more)
            &&& !all_came(more, fragments) ==> fed(st, frag) == (next, None::<TransportView>)
            &&& all_came(more, fragments) ==> fed(st, frag) == taken(next) && next.slots
                == Seq::new(fragments.len(), |i: int| Some(fragments[i]))
        }),
{
    let m = choose|m: int| 0 <= m < fragments.len() && fragments[m] == frag;
    let next = placed(st, frag);
    let more = arrivals.push(frag);
    lemma_one_more(arrivals, frag);
    lemma_place_one(st, fragments, id, arrivals, m);
    lemma_complete(next, fragments, id, more);
    if is_taken(st, frag) {
        let missing = choose|i: int|
            0 <= i < fragments.len() && !arrivals.contains(#[trigger] fragments[i]);
        assert(!more.contains(fragments[missing]));
    }
}

/// Fewer arrivals are drawn from the same fragments.
proof fn lemma_front_drawn(arrivals: Seq<FragmentView>, fragments: Seq<FragmentView>)
    requires
        arrivals.len() > 0,
        drawn_from(arrivals, fragments),
    ensures
        arrivals.drop_last().push(arrivals.last()) == arrivals,
        drawn_from(arrivals.drop_last(), fragments),
        fragments.contains(arrivals.last()),
{
    let front = arrivals.drop_last();
    assert(front.push(arrivals.last()) == arrivals);
    assert(fragments.contains(arrivals[arrivals.len() - 1]));
    assert forall|k: int| 0 <= k < front.len() implies fragments.contains(#[trigger] front[k]) by {
        assert(front[k] == arrivals[k]);
    }
}

/// What is missing was missing before the last arrival.
proof fn lemma_front_waits(arrivals: Seq<FragmentView>, fragments: Seq<FragmentView>)
    requires
        arrivals.len() > 0,
        !all_came(arrivals, fragments) || !arrivals.drop_last().contains(arrivals.last()),
        fragments.contains(arrivals.last()),
    ensures
        !all_came(arrivals.drop_last(), fragments),
{
    let front = arrivals.drop_last();
    assert(front.push(arrivals.last()) == arrivals);
    lemma_one_more(front, arrivals.last());
    if !all_came(arrivals, fragments) {
        let missing = choose|i: int|
            0 <= i < fragments.len() && !arrivals.contains(#[trigger] fragments[i]);
        assert(!front.contains(fragments[missing]));
    } else {
        let m = choose|m: int| 0 <= m < fragments.len() && fragments[m] == arrivals.last();
        assert(!front.contains(fragments[m]));
    }
}

/// An assembly waits while a fragment is missing.
proof fn lemma_waits(
    st: AssemblyView,
    fragments: Seq<FragmentView>,
    id: u64,
    arrivals: Seq<FragmentView>,
)
    requires
        is_numbered(fragments, id),
        is_fresh_for(st, id),
        drawn_from(arrivals, fragments),
        !all_came(arrivals, fragments),
    ensures
        arrivals.len() > 0 ==> fed_all(st, arrivals).0.current_id == id && holds(
            fed_all(st, arrivals).0,
            fragments,
            arrivals,
        ),
        arrivals.len() == 0 ==> fed_all(st, arrivals).0 == st,
        fed_all(st, arrivals).1.len() == arrivals.len(),
        all_silent(fed_all(st, arrivals).1),
    decreases arrivals.len(),
{
    if arrivals.len() > 0 {
        let front = arrivals.drop_last();
        lemma_front_drawn(arrivals, fragments);
        lemma_front_waits(arrivals, fragments);
        lemma_waits(st, fragments, id, front);
        lemma_fed_one(fed_all(st, front).0, fragments, id, front, arrivals.last());
    }
}

/// Pieces of a payload are numbered.
proof fn lemma_pieces_numbered(id: u64, payload: Seq<u8>, room: nat)
    requires
        fits(payload, room),
    ensures
        is_numbered(pieces(id, payload, room), id),
{
    lemma_piece_count(payload, room);
}

/// The pieces joined up to one of them are the payload up to its end.
proof fn lemma_joined_pieces(id: u64, payload: Seq<u8>, room: nat, k: int)
    requires
        fits(payload, room),
        0 <= k <= piece_count(payload.len(), room),
    ensures
        joined(Seq::new(k as nat, |i: int| Some(pieces(id, payload, room)[i]))) == payload.take(
            if k == 0 {
                0
            } else {
                piece_end(payload.len(), room, k - 1)
            },
        ),
    decreases k,
{
    let parts = pieces(id, payload, room);
    let slots = Seq::new(k as nat, |i: int| Some(parts[i]));
    if k == 0 {
        assert(payload.take(0) == Seq::<u8>::empty());
    } else {
        let len = payload.len();
        lemma_joined_pieces(id, payload, room, k - 1);
        assert(slots.drop_last() == Seq::new((k - 1) as nat, |i: int| Some(parts[i])));
        let start = (k - 1) * room;
        let end = piece_end(len, room, k - 1);
        lemma_piece_count(payload, room);
        assert(k * room == start + room) by (nonlinear_arith)
            requires
                start == (k - 1) * room,
        ;
        if k == 1 {
            assert(start == 0) by (nonlinear_arith)
                requires
                    start == (k - 1) * room,
                    k == 1,
            ;
        } else {
            assert((k - 1) * room <= (piece_count(len, room) - 1) * room) by (nonlinear_arith)
                requires
                    k <= piece_count(len, room),
                    room >= 0,
            ;
            assert(start <= len);
            assert(piece_end(len, room, k - 2) == start);
        }
        assert(payload.take(start) + payload.subrange(start, end) == payload.take(end));
    }
}

/// The pieces joined are the payload.
proof fn lemma_joined_whole(id: u64, payload: Seq<u8>, room: nat)
    requires
        fits(payload, room),
    ensures
        joined(
            Seq::new(
                pieces(id, payload, room).len(),
                |i: int| Some(pieces(id, payload, room)[i]),
            ),
        ) == payload,
{
    let len = payload.len();
    let n = piece_count(len, room);
    lemma_piece_count(payload, room);
    lemma_joined_pieces(id, payload, room, n as int);
    assert(payload.take(len as int) == payload);
}

/// While a fragment is missing, nothing comes out, whatever the others do.
pub proof fn law_reassembly_waits_for_all(
    st: AssemblyView,
    id: u64,
    payload: Seq<u8>,
    room: nat,
    arrivals: Seq<FragmentView>,
)
    requires
        fits(payload, room),
        is_fresh_for(st, id),
        drawn_from(arrivals, pieces(id, payload, room)),
        !all_came(arrivals, pieces(id, payload, room)),
    ensures
        fed_all(st, arrivals).1.len() == arrivals.len(),
        all_silent(fed_all(st, arrivals).1),
{
    lemma_pieces_numbered(id, payload, room);
    lemma_waits(st, pieces(id, payload, room), id, arrivals);
}

/// The fragments of one payload, arriving in any order and with any duplicates,
/// give what the payload holds at the arrival that completes them, and nothing
/// before. An instruction leaves the assembly fresh.
pub proof fn law_reassembly_in_any_order(
    st: AssemblyView,
    id: u64,
    payload: Seq<u8>,
    room: nat,
    arrivals: Seq<FragmentView>,
)
    requires
        fits(payload, room),
        payload.len() <= ASSEMBLY_LIMIT,
        is_fresh_for(st, id),
        drawn_from(arrivals, pieces(id, payload, room)),
        all_came(arrivals, pieces(id, payload, room)),
        !arrivals.drop_last().contains(arrivals.last()),
    ensures
        fed_all(st, arrivals).1.len() == arrivals.len(),
        all_silent(fed_all(st, arrivals).1.drop_last()),
        fed_all(st, arrivals).1.last() == decoded(decompressed(payload)),
        decoded(decompressed(payload)) is Some ==> is_fresh_for(fed_all(st, arrivals).0, id),
{
    let fragments = pieces(id, payload, room);
    lemma_pieces_numbered(id, payload, room);
    assert(arrivals.contains(fragments[0]));
    let front = arrivals.drop_last();
    lemma_front_drawn(arrivals, fragments);
    lemma_front_waits(arrivals, fragments);
    lemma_waits(st, fragments, id, front);
    let (mid, outs) = fed_all(st, front);
    lemma_fed_one(mid, fragments, id, front, arrivals.last());
    let next = placed(mid, arrivals.last());
    lemma_joined_whole(id, payload, room);
    assert(outs.push(fed(mid, arrivals.last()).1).drop_last() == outs);
    assert(!has_hole(next.slots));
}

/// What carries an encoding within the cap holds its instruction, and can be
/// joined.
proof fn lemma_carried(payload: Seq<u8>, inst: TransportView)
    requires
        carries(payload, inst),
        transport_bytes(inst).len() <= DECOMPRESS_LIMIT,
    ensures
        0 < payload.len() <= ASSEMBLY_LIMIT,
        decoded(decompressed(payload)) == Some(inst),
{
    law_transport_round_trip(inst);
}

/// The fragments of an instruction whose encoding is within the cap, arriving in
/// any order and with any duplicates, give that instruction at the arrival that
/// completes them, and nothing before.
pub proof fn law_fragments_deliver_the_instruction(
    st: AssemblyView,
    id: u64,
    inst: TransportView,
    payload: Seq<u8>,
    room: nat,
    arrivals: Seq<FragmentView>,
)
    requires
        transport_bytes(inst).len() <= DECOMPRESS_LIMIT,
        fits(payload, room),
        is_fresh_for(st, id),
        drawn_from(arrivals, pieces(id, payload, room)),
        all_came(arrivals, pieces(id, payload, room)),
        !arrivals.drop_last().contains(arrivals.last()),
    ensures
        carries(payload, inst) ==> {
            &&& fed_all(st, arrivals).1.len() == arrivals.len()
            &&& all_silent(fed_all(st, arrivals).1.drop_last())
            &&& fed_all(st, arrivals).1.last() == Some(inst)
            &&& is_fresh_for(fed_all(st, arrivals).0, id)
        },
{
    if carries(payload, inst) {
        lemma_carried(payload, inst);
        law_reassembly_in_any_order(st, id, payload, room, arrivals);
    }
}

/// The arrivals since all fragments were last complete, the latest included.
pub open spec fn round_of(arrivals: Seq<FragmentView>, fragments: Seq<FragmentView>) -> Seq<
    FragmentView,
>
    decreases arrivals.len(),
{
    if arrivals.len() == 0 {
        Seq::empty()
    } else {
        let before = round_of(arrivals.drop_last(), fragments);
        if all_came(before, fragments) {
            seq![arrivals.last()]
        } else {
            before.push(arrivals.last())
        }
    }
}

/// What each arrival gives: the instruction where it completes a round.
pub open spec fn rounds_give(
    arrivals: Seq<FragmentView>,
    fragments: Seq<FragmentView>,
    inst: TransportView,
) -> Seq<Option<TransportView>> {
    Seq::new(
        arrivals.len(),
        |k: int|
            if all_came(round_of(arrivals.take(k + 1), fragments), fragments) {
                Some(inst)
            } else {
                None
            },
    )
}

/// The assembly after any number of rounds, and what they gave.
proof fn lemma_rounds(
    st: AssemblyView,
    id: u64,
    inst: TransportView,
    payload: Seq<u8>,
    room: nat,
    arrivals: Seq<FragmentView>,
)
    requires
        transport_bytes(inst).len() <= DECOMPRESS_LIMIT,
        fits(payload, room),
        carries(payload, inst),
        is_fresh_for(st, id),
        drawn_from(arrivals, pieces(id, payload, room)),
    ensures
        ({
            let fragments = pieces(id, payload, room);
            let round = round_of(arrivals, fragments);
            let (end, outs) = fed_all(st, arrivals);
            &&& outs == rounds_give(arrivals, fragments, inst)
            &&& if round.len() == 0 || all_came(round, fragments) {
                is_fresh_for(end, id)
            } else {
                end.current_id == id && holds(end, fragments, round)
            }
        }),
    decreases arrivals.len(),
{
    let fragments = pieces(id, payload, room);
    let outs = fed_all(st, arrivals).1;
    if arrivals.len() == 0 {
        assert(outs =~= rounds_give(arrivals, fragments, inst));
    } else {
        let front = arrivals.drop_last();
        let frag = arrivals.last();
        lemma_front_drawn(arrivals, fragments);
        lemma_rounds(st, id, inst, payload, room, front);
        lemma_pieces_numbered(id, payload, room);
        let before = round_of(front, fragments);
        let open = if all_came(before, fragments) {
            Seq::empty()
        } else {
            before
        };
        assert(open.push(frag) =~= round_of(arrivals, fragments));
        assert(!Seq::<FragmentView>::empty().contains(fragments[0]));
        let mid = fed_all(st, front).0;
        lemma_fed_one(mid, fragments, id, open, frag);
        let next = placed(mid, frag);
        if all_came(open.push(frag), fragments) {
            lemma_carried(payload, inst);
            lemma_joined_whole(id, payload, room);
            assert(!has_hole(next.slots));
        }
        assert(outs.len() == arrivals.len());
        assert forall|k: int| 0 <= k < arrivals.len() implies outs[k] == rounds_give(
            arrivals,
            fragments,
            inst,
        )[k] by {
            if k < front.len() {
                assert(front.take(k + 1) =~= arrivals.take(k + 1));
                assert(outs[k] == rounds_give(front, fragments, inst)[k]);
            } else {
                assert(arrivals.take(k + 1) =~= arrivals);
            }
        }
        assert(outs =~= rounds_give(arrivals, fragments, inst));
    }
}

/// Fed nothing but the fragments of one instruction, in any order and as often as
/// may be, an assembly gives the instruction at the arrivals with which all have
/// come since it last did, and at no other.
pub proof fn law_every_round_delivers(
    st: AssemblyView,
    id: u64,
    inst: TransportView,
    payload: Seq<u8>,
    room: nat,
    arrivals: Seq<FragmentView>,
)
    requires
        transport_bytes(inst).len() <= DECOMPRESS_LIMIT,
        fits(payload, room),
        is_fresh_for(st, id),
        drawn_from(arrivals, pieces(id, payload, room)),
    ensures
        carries(payload, inst) ==> fed_all(st, arrivals).1 == rounds_give(
            arrivals,
            pieces(id, payload, room),
            inst,
        ),
{
    if carries(payload, inst) {
        lemma_rounds(st, id, inst, payload, room, arrivals);
    }
}

/// A duplicate that differs from the fragment it repeats changes nothing.
pub proof fn law_conflicting_duplicate_is_dropped(
    st: AssemblyView,
    held: FragmentView,
    frag: FragmentView,
)
    requires
        st.current_id == frag.id,
        frag.fragment_num < st.slots.len(),
        st.slots[frag.fragment_num as int] == Some(held),
        held != frag,
    ensures
        fed(st, frag) == (st, None::<TransportView>),
{
}

/// A duplicate that is the same as the fragment it repeats changes nothing.
pub proof fn law_identical_duplicate_changes_nothing(st: AssemblyView, frag: FragmentView)
    requires
        st.current_id == frag.id,
        frag.fragment_num < st.slots.len(),
        st.slots[frag.fragment_num as int] == Some(frag),
    ensures
        fed(st, frag) == (st, None::<TransportView>),
{
}

/// A new id forgets all of the instruction before it.
pub proof fn law_new_id_forgets(first: AssemblyView, second: AssemblyView, frag: FragmentView)
    requires
        first.current_id != frag.id,
        second.current_id != frag.id,
    ensures
        fed(first, frag) == fed(second, frag),
{
}

/// An instruction comes out only of slots that are all filled.
pub proof fn law_no_instruction_with_a_hole(st: AssemblyView, frag: FragmentView)
    ensures
        fed(st, frag).1 is Some ==> {
            let next = bounded(stored(st, frag), frag);
            &&& !has_hole(next.slots)
            &&& next.total == Some(next.slots.len())
            &&& next.total == Some(arrived(next.slots))
            &&& fed(st, frag).1 == decoded(decompressed(joined(next.slots)))
        },
{
    let next = bounded(stored(st, frag), frag);
    lemma_arrived_bound(next.slots);
}

} // verus!
