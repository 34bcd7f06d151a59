//! What holds of an assembly over any history of arrivals.

use vstd::prelude::*;

use crate::fragment::assembly::{
    bounded, decoded, empty_assembly, fed, has_hole, is_taken, joined, lemma_arrived_bound, stored,
    AssemblyView,
};
use crate::fragment::assembly_laws::{
    all_came, all_silent, drawn_from, fed_all, is_fresh_for, law_fragments_deliver_the_instruction,
    law_reassembly_waits_for_all,
};
use crate::fragment::fragmenter::{carries, fits, lemma_piece_count, pieces};
use crate::fragment::frame::FragmentView;
use crate::fragment::zlib::{decompressed, DECOMPRESS_LIMIT};
use crate::wire::transport::{transport_bytes, TransportView};

verus! {

/// Something comes out or not at each arrival.
proof fn lemma_outs_len(st: AssemblyView, arrivals: Seq<FragmentView>)
    ensures
        fed_all(st, arrivals).1.len() == arrivals.len(),
    decreases arrivals.len(),
{
    if arrivals.len() > 0 {
        lemma_outs_len(st, arrivals.drop_last());
    }
}

/// Some arrivals and then others are all of them.
proof fn lemma_fed_append(st: AssemblyView, first: Seq<FragmentView>, second: Seq<FragmentView>)
    ensures
        ({
            let (mid, outs) = fed_all(st, first);
            let (end, more) = fed_all(mid, second);
            &&& fed_all(st, first + second).0 == end
            &&& fed_all(st, first + second).1 == outs + more
        }),
    decreases second.len(),
{
    let whole = first + second;
    let (mid, outs) = fed_all(st, first);
    if second.len() == 0 {
        assert(whole =~= first);
        assert(outs + fed_all(mid, second).1 =~= outs);
    } else {
        lemma_fed_append(st, first, second.drop_last());
        assert(whole.drop_last() =~= first + second.drop_last());
        let more = fed_all(mid, second.drop_last()).1;
        let out = fed(fed_all(mid, second.drop_last()).0, second.last()).1;
        assert((outs + more).push(out) =~= outs + more.push(out));
    }
}

/// The current instruction is that of the latest arrival.
proof fn lemma_latest_id(st: AssemblyView, arrivals: Seq<FragmentView>)
    requires
        arrivals.len() > 0,
    ensures
        fed_all(st, arrivals).0.current_id == arrivals.last().id,
{
}

/// A list of fragments holds each of them, and its last only at its end.
proof fn lemma_in_order(id: u64, payload: Seq<u8>, room: nat)
    requires
        fits(payload, room),
    ensures
        ({
            let v = pieces(id, payload, room);
            &&& v.len() >= 1
            &&& drawn_from(v, v)
            &&& all_came(v, v)
            &&& !v.drop_last().contains(v.last())
        }),
{
    let v = pieces(id, payload, room);
    lemma_piece_count(payload, room);
    if v.drop_last().contains(v.last()) {
        let k = choose|k: int| 0 <= k < v.len() - 1 && v.drop_last()[k] == v.last();
        assert(v[k].fragment_num == k);
    }
}

/// Whatever an assembly was fed, the fragments of an instruction with another id
/// than the latest deliver it: no history can wedge it.
pub proof fn law_no_history_wedges_the_assembly(
    history: Seq<FragmentView>,
    id: u64,
    inst: TransportView,
    payload: Seq<u8>,
    room: nat,
)
    requires
        transport_bytes(inst).len() <= DECOMPRESS_LIMIT,
        fits(payload, room),
        history.len() > 0 ==> history.last().id != id,
    ensures
        carries(payload, inst) ==> {
            let v = pieces(id, payload, room);
            let outs = fed_all(empty_assembly(), history + v).1;
            &&& outs.len() == history.len() + v.len()
            &&& all_silent(outs.skip(history.len() as int).drop_last())
            &&& outs.last() == Some(inst)
        },
{
    let v = pieces(id, payload, room);
    let (mid, outs) = fed_all(empty_assembly(), history);
    let more = fed_all(mid, v).1;
    lemma_fed_append(empty_assembly(), history, v);
    lemma_outs_len(empty_assembly(), history);
    lemma_outs_len(mid, v);
    if history.len() > 0 {
        lemma_latest_id(empty_assembly(), history);
    }
    lemma_in_order(id, payload, room);
    law_fragments_deliver_the_instruction(mid, id, inst, payload, room, v);
    assert((outs + more).skip(history.len() as int) =~= more);
}

/// A fragment with another id discards what is held. The fragment lost that way,
/// fed once more behind the others, completes the instruction.
pub proof fn law_lost_fragment_completes_when_fed_again(
    st: AssemblyView,
    id: u64,
    inst: TransportView,
    payload: Seq<u8>,
    room: nat,
    other_id: u64,
    other_payload: Seq<u8>,
    other_room: nat,
)
    requires
        transport_bytes(inst).len() <= DECOMPRESS_LIMIT,
        is_fresh_for(st, id),
        id != other_id,
        fits(payload, room),
        pieces(id, payload, room).len() >= 2,
        fits(other_payload, other_room),
        pieces(other_id, other_payload, other_room).len() >= 2,
    ensures
        carries(payload, inst) ==> {
            let v = pieces(id, payload, room);
            let other = pieces(other_id, other_payload, other_room);
            let outs = fed_all(st, seq![v[0], other[0]] + v.skip(1).push(v[0])).1;
            &&& outs.len() == v.len() + 2
            &&& all_silent(outs.drop_last())
            &&& outs.last() == Some(inst)
        },
{
    let v = pieces(id, payload, room);
    let other = pieces(other_id, other_payload, other_room);
    let a = seq![v[0]];
    let b = seq![other[0]];
    let rest = v.skip(1).push(v[0]);
    lemma_piece_count(payload, room);
    lemma_piece_count(other_payload, other_room);
    assert(v[0].fragment_num == 0 && v[1].fragment_num == 1);
    assert(other[0].fragment_num == 0 && other[1].fragment_num == 1);
    // the first of the one, then the first of the other
    assert(!a.contains(v[1]));
    law_reassembly_waits_for_all(st, id, payload, room, a);
    let after_a = fed_all(st, a).0;
    lemma_latest_id(st, a);
    assert(!b.contains(other[1]));
    law_reassembly_waits_for_all(after_a, other_id, other_payload, other_room, b);
    let after_b = fed_all(after_a, b).0;
    lemma_latest_id(after_a, b);
    // the others of the one, and its first again
    assert(rest.drop_last() =~= v.skip(1));
    assert forall|k: int| 0 <= k < rest.len() implies v.contains(#[trigger] rest[k]) by {
        if k < v.len() - 1 {
            assert(rest[k] == v[k + 1]);
        }
    }
    assert forall|i: int| 0 <= i < v.len() implies rest.contains(#[trigger] v[i]) by {
        if i == 0 {
            assert(rest[v.len() - 1] == v[0]);
        } else {
            assert(rest[i - 1] == v[i]);
        }
    }
    if v.skip(1).contains(v[0]) {
        let k = choose|k: int| 0 <= k < v.len() - 1 && v.skip(1)[k] == v[0];
        assert(v[k + 1].fragment_num == k + 1);
    }
    law_fragments_deliver_the_instruction(after_b, id, inst, payload, room, rest);
    lemma_fed_append(st, a, b);
    assert(a + b =~= seq![v[0], other[0]]);
    lemma_fed_append(st, a + b, rest);
    lemma_outs_len(st, a);
    lemma_outs_len(after_a, b);
    lemma_outs_len(after_b, rest);
    let outs_a = fed_all(st, a).1;
    let outs_b = fed_all(after_a, b).1;
    let outs_rest = fed_all(after_b, rest).1;
    let outs = fed_all(st, seq![v[0], other[0]] + rest).1;
    assert(outs == (outs_a + outs_b) + outs_rest);
    if carries(payload, inst) {
        assert forall|k: int| 0 <= k < outs.len() - 1 implies (
        #[trigger] outs.drop_last()[k]) is None by {
            if k == 0 {
                assert(outs_a[0] is None);
            } else if k == 1 {
                assert(outs_b[0] is None);
            } else {
                assert(outs_rest.drop_last()[k - 2] is None);
            }
        }
    }
}

/// Whether all of `strays` claim a place behind the `count` fragments of `id`.
pub open spec fn are_strays(strays: Seq<FragmentView>, id: u64, count: nat) -> bool {
    forall|k: int|
        0 <= k < strays.len() ==> {
            &&& (#[trigger] strays[k]).id == id
            &&& strays[k].fragment_num >= count
            &&& !strays[k].final_
        }
}

/// Strays leave the places of the fragments empty, and nothing comes out.
proof fn lemma_strays(st: AssemblyView, id: u64, count: nat, strays: Seq<FragmentView>)
    requires
        is_fresh_for(st, id),
        are_strays(strays, id, count),
    ensures
        fed_all(st, strays).1.len() == strays.len(),
        all_silent(fed_all(st, strays).1),
        strays.len() == 0 ==> fed_all(st, strays).0 == st,
        strays.len() > 0 ==> {
            let mid = fed_all(st, strays).0;
            &&& mid.current_id == id
            &&& mid.total is None
            &&& mid.assembled == 0
            &&& forall|i: int|
                0 <= i < count && i < mid.slots.len() ==> (#[trigger] mid.slots[i]) is None
        },
    decreases strays.len(),
{
    if strays.len() > 0 {
        let front = strays.drop_last();
        assert forall|k: int| 0 <= k < front.len() implies {
            &&& (#[trigger] front[k]).id == id
            &&& front[k].fragment_num >= count
            &&& !front[k].final_
        } by {
            assert(front[k] == strays[k]);
        }
        lemma_strays(st, id, count, front);
        let frag = strays[strays.len() - 1];
        assert(frag.id == id && frag.fragment_num >= count && !frag.final_);
    }
}

/// Two assemblies that take the first arrival alike take all alike.
proof fn lemma_alike(first: AssemblyView, second: AssemblyView, arrivals: Seq<FragmentView>)
    requires
        arrivals.len() > 0,
        fed(first, arrivals[0]) == fed(second, arrivals[0]),
    ensures
        fed_all(first, arrivals) == fed_all(second, arrivals),
    decreases arrivals.len(),
{
    let front = arrivals.drop_last();
    if front.len() > 0 {
        lemma_alike(first, second, front);
    } else {
        assert(fed_all(first, front).0 == first && fed_all(second, front).0 == second);
    }
}

/// The final fragment drops the strays behind it: all is as if they had not come.
pub proof fn law_strays_before_the_final_do_not_count(
    st: AssemblyView,
    id: u64,
    payload: Seq<u8>,
    room: nat,
    strays: Seq<FragmentView>,
    arrivals: Seq<FragmentView>,
)
    requires
        is_fresh_for(st, id),
        fits(payload, room),
        are_strays(strays, id, pieces(id, payload, room).len()),
        arrivals.len() > 0,
        arrivals[0] == pieces(id, payload, room).last(),
    ensures
        ({
            let (end, outs) = fed_all(st, strays + arrivals);
            &&& end == fed_all(st, arrivals).0
            &&& outs.len() == strays.len() + arrivals.len()
            &&& all_silent(outs.take(strays.len() as int))
            &&& outs.skip(strays.len() as int) == fed_all(st, arrivals).1
        }),
{
    let v = pieces(id, payload, room);
    let last = v.last();
    lemma_piece_count(payload, room);
    assert(last.id == id && last.fragment_num == v.len() - 1 && last.final_);
    lemma_strays(st, id, v.len(), strays);
    let (mid, quiet) = fed_all(st, strays);
    if strays.len() > 0 {
        let x = bounded(stored(mid, last), last);
        let y = bounded(stored(st, last), last);
        assert(!is_taken(mid, last) && !is_taken(st, last));
        assert(x.slots =~= y.slots);
        assert(x =~= y);
    }
    lemma_alike(mid, st, arrivals);
    lemma_fed_append(st, strays, arrivals);
    lemma_outs_len(st, arrivals);
    let more = fed_all(st, arrivals).1;
    assert((quiet + more).take(strays.len() as int) =~= quiet);
    assert((quiet + more).skip(strays.len() as int) =~= more);
}

/// Strays behind the final fragment that came before it keep no instruction back.
pub proof fn law_instruction_is_delivered_after_strays(
    st: AssemblyView,
    id: u64,
    inst: TransportView,
    payload: Seq<u8>,
    room: nat,
    strays: Seq<FragmentView>,
    arrivals: Seq<FragmentView>,
)
    requires
        transport_bytes(inst).len() <= DECOMPRESS_LIMIT,
        is_fresh_for(st, id),
        fits(payload, room),
        are_strays(strays, id, pieces(id, payload, room).len()),
        arrivals.len() > 0,
        arrivals[0] == pieces(id, payload, room).last(),
        drawn_from(arrivals, pieces(id, payload, room)),
        all_came(arrivals, pieces(id, payload, room)),
        !arrivals.drop_last().contains(arrivals.last()),
    ensures
        carries(payload, inst) ==> {
            let outs = fed_all(st, strays + arrivals).1;
            &&& outs.len() == strays.len() + arrivals.len()
            &&& all_silent(outs.drop_last())
            &&& outs.last() == Some(inst)
        },
{
    if carries(payload, inst) {
        law_strays_before_the_final_do_not_count(st, id, payload, room, strays, arrivals);
        law_fragments_deliver_the_instruction(st, id, inst, payload, room, arrivals);
        let outs = fed_all(st, strays + arrivals).1;
        let n = strays.len() as int;
        let more = fed_all(st, arrivals).1;
        assert(outs.last() == outs.skip(n).last());
        assert forall|k: int| 0 <= k < outs.len() - 1 implies (
        #[trigger] outs.drop_last()[k]) is None by {
            if k < n {
                assert(outs.take(n)[k] is None);
            } else {
                assert(outs.skip(n)[k - n] == outs[k]);
                assert(more.drop_last()[k - n] is None);
            }
        }
    }
}

/// Whether neither another id came at or behind arrival `k`, nor an instruction
/// came out there before the latest arrival.
pub open spec fn is_since(arrivals: Seq<FragmentView>, k: int) -> bool {
    &&& forall|j: int| k <= j < arrivals.len() ==> (#[trigger] arrivals[j]).id == arrivals.last().id
    &&& forall|j: int|
        k <= j < arrivals.len() - 1 ==> (#[trigger] fed_all(
            empty_assembly(),
            arrivals,
        ).1[j]) is None
}

/// Whether `frag` arrived since the last other id and the last instruction.
spec fn came(arrivals: Seq<FragmentView>, frag: FragmentView) -> bool {
    exists|k: int|
        0 <= k < arrivals.len() && #[trigger] arrivals[k] == frag && is_since(arrivals, k)
}

/// What an assembly holds came since then, each fragment in its place, and the
/// number of fragments was set by a final one.
spec fn is_accounted_for(st: AssemblyView, arrivals: Seq<FragmentView>) -> bool {
    &&& forall|i: int|
        0 <= i < st.slots.len() && (#[trigger] st.slots[i]) is Some ==> {
            &&& st.slots[i]->Some_0.fragment_num == i
            &&& st.slots[i]->Some_0.id == st.current_id
            &&& came(arrivals, st.slots[i]->Some_0)
        }
    &&& st.total matches Some(total) ==> {
        &&& 1 <= total <= st.slots.len()
        &&& st.slots[total - 1] is Some
        &&& st.slots[total - 1]->Some_0.final_
    }
}

/// What came before the latest arrival came before it still.
proof fn lemma_still_came(arrivals: Seq<FragmentView>, frag: FragmentView)
    requires
        arrivals.len() > 1,
        came(arrivals.drop_last(), frag),
        arrivals.drop_last().last().id == arrivals.last().id,
        fed_all(empty_assembly(), arrivals.drop_last()).1.last() is None,
    ensures
        came(arrivals, frag),
{
    let front = arrivals.drop_last();
    let k = choose|k: int|
        0 <= k < front.len() && #[trigger] front[k] == frag && is_since(front, k);
    let outs = fed_all(empty_assembly(), arrivals).1;
    lemma_outs_len(empty_assembly(), front);
    assert(arrivals[k] == frag);
    assert forall|j: int| k <= j < arrivals.len() implies (#[trigger] arrivals[j]).id
        == arrivals.last().id by {
        if j < front.len() {
            assert(front[j] == arrivals[j]);
        }
    }
    assert forall|j: int| k <= j < arrivals.len() - 1 implies (#[trigger] outs[j]) is None by {
        assert(outs[j] == fed_all(empty_assembly(), front).1[j]);
    }
}

/// The latest arrival in its place leaves all accounted for.
proof fn lemma_placed_is_accounted_for(arrivals: Seq<FragmentView>)
    requires
        arrivals.len() > 0,
        is_accounted_for(
            fed_all(empty_assembly(), arrivals.drop_last()).0,
            arrivals.drop_last(),
        ),
    ensures
        ({
            let mid = fed_all(empty_assembly(), arrivals.drop_last()).0;
            let frag = arrivals.last();
            let next = if is_taken(mid, frag) {
                mid
            } else {
                bounded(stored(mid, frag), frag)
            };
            &&& next.current_id == frag.id
            &&& is_accounted_for(next, arrivals)
        }),
{
    let front = arrivals.drop_last();
    let frag = arrivals.last();
    let (mid, outs) = fed_all(empty_assembly(), front);
    let next = if is_taken(mid, frag) {
        mid
    } else {
        bounded(stored(mid, frag), frag)
    };
    lemma_outs_len(empty_assembly(), front);
    assert(came(arrivals, frag)) by {
        assert(arrivals[arrivals.len() - 1] == frag);
        assert(is_since(arrivals, arrivals.len() - 1));
    }
    assert forall|i: int| 0 <= i < next.slots.len() && (#[trigger] next.slots[i]) is Some implies {
        &&& next.slots[i]->Some_0.fragment_num == i
        &&& next.slots[i]->Some_0.id == next.current_id
        &&& came(arrivals, next.slots[i]->Some_0)
    } by {
        if next.slots[i] != Some(frag) || is_taken(mid, frag) {
            assert(mid.current_id == frag.id);
            assert(i < mid.slots.len() && mid.slots[i] == next.slots[i]);
            let held = mid.slots[i]->Some_0;
            assert(came(front, held));
            lemma_latest_id(empty_assembly(), front);
            lemma_still_came(arrivals, held);
        }
    }
}

/// Whatever was fed, what an assembly holds is accounted for.
proof fn lemma_always_accounted_for(arrivals: Seq<FragmentView>)
    ensures
        is_accounted_for(fed_all(empty_assembly(), arrivals).0, arrivals),
    decreases arrivals.len(),
{
    if arrivals.len() > 0 {
        lemma_always_accounted_for(arrivals.drop_last());
        lemma_placed_is_accounted_for(arrivals);
    }
}

/// Some of the arrivals as slots.
pub open spec fn picked(arrivals: Seq<FragmentView>, picks: Seq<int>) -> Seq<Option<FragmentView>> {
    Seq::new(picks.len(), |i: int| Some(arrivals[picks[i]]))
}

/// Whether `picks` are arrivals since the last other id and the last instruction
/// that make one instruction whole: each at its index, the last one final, and the
/// latest arrival among them.
pub open spec fn is_whole(arrivals: Seq<FragmentView>, picks: Seq<int>) -> bool {
    &&& picks.len() > 0
    &&& forall|i: int|
        0 <= i < picks.len() ==> {
            &&& 0 <= #[trigger] picks[i] < arrivals.len()
            &&& is_since(arrivals, picks[i])
            &&& arrivals[picks[i]].id == arrivals.last().id
            &&& arrivals[picks[i]].fragment_num == i
        }
    &&& arrivals[picks.last()].final_
    &&& exists|i: int| 0 <= i < picks.len() && arrivals[#[trigger] picks[i]] == arrivals.last()
}

/// Whatever an assembly was fed, an instruction comes out only of fragments that
/// came since the last other id and the last instruction, without a hole: their
/// contents, joined in the order of their indices, decompress to it.
pub proof fn law_instruction_comes_of_what_was_fed(
    arrivals: Seq<FragmentView>,
    inst: TransportView,
)
    requires
        arrivals.len() > 0,
        fed_all(empty_assembly(), arrivals).1.last() == Some(inst),
    ensures
        exists|picks: Seq<int>| #[trigger]
            is_whole(arrivals, picks) && decoded(decompressed(joined(picked(arrivals, picks))))
                == Some(inst),
{
    let front = arrivals.drop_last();
    let frag = arrivals.last();
    let mid = fed_all(empty_assembly(), front).0;
    lemma_always_accounted_for(front);
    lemma_placed_is_accounted_for(arrivals);
    let next = bounded(stored(mid, frag), frag);
    lemma_arrived_bound(next.slots);
    assert(!has_hole(next.slots));
    let n = next.slots.len();
    let picks = Seq::new(
        n,
        |i: int|
            choose|k: int|
                0 <= k < arrivals.len() && #[trigger] arrivals[k] == next.slots[i]->Some_0
                    && is_since(arrivals, k),
    );
    assert forall|i: int| 0 <= i < n implies {
        &&& 0 <= #[trigger] picks[i] < arrivals.len()
        &&& is_since(arrivals, picks[i])
        &&& next.slots[i] == Some(arrivals[picks[i]])
    } by {
        assert(next.slots[i] is Some);
        assert(came(arrivals, next.slots[i]->Some_0));
    }
    assert(picked(arrivals, picks) =~= next.slots);
    let place = frag.fragment_num as int;
    assert(next.slots[place] == Some(frag));
    assert(arrivals[picks[place]] == frag);
    assert(is_whole(arrivals, picks));
}

} // verus!
