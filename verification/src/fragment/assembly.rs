//! Putting fragments together again, one instruction at a time.

use vstd::prelude::*;

use crate::fragment::error::{FragmentError, FragmentErrorView};
use crate::fragment::frame::{Fragment, FragmentView};
use crate::fragment::zlib::{decompressed, decompressed_view, zlib_decompress};
use crate::wire::error::wire_message;
use crate::wire::transport::{blank_transport, merge_transport, TransportInstruction, TransportView};
use crate::wire::writer::append_bytes;

verus! {

/// How many bytes of contents one instruction may take.
pub const ASSEMBLY_LIMIT: usize = 8 * 1024 * 1024;

/// What an assembly holds.
#[verifier::ext_equal]
pub struct AssemblyView {
    /// The fragments of the current instruction, each at its index.
    pub slots: Seq<Option<FragmentView>>,
    /// The id of the current instruction.
    pub current_id: u64,
    /// How many fragments make it whole, once the final one has come.
    pub total: Option<nat>,
    /// The bytes of contents taken for it so far.
    pub assembled: nat,
}

/// An assembly that was fed nothing.
pub open spec fn empty_assembly() -> AssemblyView {
    AssemblyView { slots: Seq::empty(), current_id: 0, total: None, assembled: 0 }
}

/// What a slot holds.
pub open spec fn slot_view(slot: Option<Fragment>) -> Option<FragmentView> {
    match slot {
        Some(fragment) => Some(fragment@),
        None => None,
    }
}

/// What all slots hold.
pub open spec fn slots_view(slots: Seq<Option<Fragment>>) -> Seq<Option<FragmentView>> {
    Seq::new(slots.len(), |i: int| slot_view(slots[i]))
}

/// How many slots are filled.
pub open spec fn arrived(slots: Seq<Option<FragmentView>>) -> nat
    decreases slots.len(),
{
    if slots.len() == 0 {
        0
    } else if slots.last() is Some {
        arrived(slots.drop_last()) + 1
    } else {
        arrived(slots.drop_last())
    }
}

/// The slots with empty ones behind them, if that is what it takes to have `len`.
pub open spec fn widened(slots: Seq<Option<FragmentView>>, len: int) -> Seq<
    Option<FragmentView>,
> {
    Seq::new(
        if slots.len() < len {
            len as nat
        } else {
            slots.len()
        },
        |i: int|
            if i < slots.len() {
                slots[i]
            } else {
                None
            },
    )
}

/// The assembly of another instruction, whose first fragment is `frag`.
pub open spec fn restarted(frag: FragmentView) -> AssemblyView {
    AssemblyView {
        slots: widened(Seq::empty(), frag.fragment_num + 1).update(
            frag.fragment_num as int,
            Some(frag),
        ),
        current_id: frag.id,
        total: None,
        assembled: 0,
    }
}

/// Whether the place of `frag` is taken, by the same fragment or another.
pub open spec fn is_taken(st: AssemblyView, frag: FragmentView) -> bool {
    &&& st.current_id == frag.id
    &&& frag.fragment_num < st.slots.len()
    &&& st.slots[frag.fragment_num as int] is Some
}

/// `frag` put in its place. A new id forgets the instruction before.
pub open spec fn stored(st: AssemblyView, frag: FragmentView) -> AssemblyView {
    if st.current_id != frag.id {
        restarted(frag)
    } else {
        AssemblyView {
            slots: widened(st.slots, frag.fragment_num + 1).update(
                frag.fragment_num as int,
                Some(frag),
            ),
            ..st
        }
    }
}

/// The final fragment says how many there are, and cuts off what is behind it.
pub open spec fn bounded(st: AssemblyView, frag: FragmentView) -> AssemblyView {
    if frag.final_ {
        let total = (frag.fragment_num + 1) as nat;
        AssemblyView {
            slots: if total < st.slots.len() {
                st.slots.take(total as int)
            } else {
                st.slots
            },
            total: Some(total),
            ..st
        }
    } else {
        st
    }
}

/// Whether as many fragments are there as make the instruction whole.
pub open spec fn is_complete(st: AssemblyView) -> bool {
    st.total == Some(arrived(st.slots))
}

/// The contents of all slots, one behind the other.
pub open spec fn joined(slots: Seq<Option<FragmentView>>) -> Seq<u8>
    decreases slots.len(),
{
    if slots.len() == 0 {
        Seq::empty()
    } else {
        joined(slots.drop_last()) + slots.last()->Some_0.contents
    }
}

/// Whether a slot is empty.
pub open spec fn has_hole(slots: Seq<Option<FragmentView>>) -> bool {
    exists|i: int| 0 <= i < slots.len() && #[trigger] slots[i] is None
}

/// Whether the fragments can be joined: no slot is empty, and the bytes stay
/// within the limit.
pub open spec fn is_joinable(st: AssemblyView) -> bool {
    !has_hole(st.slots) && st.assembled + joined(st.slots).len() <= ASSEMBLY_LIMIT
}

/// The assembly with its current instruction forgotten. The id stays.
pub open spec fn cleared(st: AssemblyView) -> AssemblyView {
    AssemblyView { slots: Seq::empty(), total: None, assembled: 0, ..st }
}

/// The instruction that decompressed bytes hold, or what is wrong with them.
pub open spec fn parsed(bytes: Seq<u8>) -> Result<TransportView, FragmentErrorView> {
    match merge_transport(blank_transport(), bytes) {
        Ok(inst) => Ok(inst),
        Err(e) => Err(FragmentErrorView::Parse(wire_message(e))),
    }
}

/// The instruction that came of decompression, if one did.
pub open spec fn decoded(inflated: Result<Seq<u8>, FragmentErrorView>) -> Option<TransportView> {
    match inflated {
        Ok(bytes) => match parsed(bytes) {
            Ok(inst) => Some(inst),
            Err(_) => None,
        },
        Err(_) => None,
    }
}

/// The end of an assembly, given what its joined fragments decompress to: an
/// instruction clears it, anything else leaves the fragments where they are.
pub open spec fn concluded(
    st: AssemblyView,
    inflated: Result<Seq<u8>, FragmentErrorView>,
) -> (AssemblyView, Option<TransportView>) {
    match decoded(inflated) {
        Some(inst) => (cleared(st), Some(inst)),
        None => (st, None),
    }
}

/// What comes of the fragments once there are enough of them.
pub open spec fn taken(st: AssemblyView) -> (AssemblyView, Option<TransportView>) {
    if is_joinable(st) {
        concluded(
            AssemblyView { assembled: st.assembled + joined(st.slots).len(), ..st },
            decompressed(joined(st.slots)),
        )
    } else {
        (cleared(st), None)
    }
}

/// What comes of one more fragment. Whatever repeats a fragment that is there
/// changes nothing.
pub open spec fn fed(st: AssemblyView, frag: FragmentView) -> (
    AssemblyView,
    Option<TransportView>,
) {
    if is_taken(st, frag) {
        (st, None)
    } else {
        let next = bounded(stored(st, frag), frag);
        if is_complete(next) {
            taken(next)
        } else {
            (next, None)
        }
    }
}

/// No more slots are filled than there are; all are where none is empty.
pub proof fn lemma_arrived_bound(slots: Seq<Option<FragmentView>>)
    ensures
        arrived(slots) <= slots.len(),
        arrived(slots) == slots.len() <==> !has_hole(slots),
    decreases slots.len(),
{
    if slots.len() > 0 {
        let front = slots.drop_last();
        lemma_arrived_bound(front);
        if has_hole(front) {
            let i = choose|i: int| 0 <= i < front.len() && #[trigger] front[i] is None;
            assert(slots[i] is None);
        }
        if has_hole(slots) && slots.last() is Some {
            let i = choose|i: int| 0 <= i < slots.len() && #[trigger] slots[i] is None;
            assert(front[i] is None);
        }
        if slots.last() is None {
            assert(slots[slots.len() - 1] is None);
        }
    }
}

/// Empty slots behind the others do not count.
proof fn lemma_arrived_widened(slots: Seq<Option<FragmentView>>, len: int)
    ensures
        arrived(widened(slots, len)) == arrived(slots),
    decreases len,
{
    if len <= slots.len() {
        assert(widened(slots, len) == slots);
    } else {
        lemma_arrived_widened(slots, len - 1);
        assert(widened(slots, len).drop_last() == widened(slots, len - 1));
    }
}

/// Filling an empty slot counts one more.
proof fn lemma_arrived_filled(slots: Seq<Option<FragmentView>>, i: int, frag: FragmentView)
    requires
        0 <= i < slots.len(),
        slots[i] is None,
    ensures
        arrived(slots.update(i, Some(frag))) == arrived(slots) + 1,
    decreases slots.len(),
{
    let filled = slots.update(i, Some(frag));
    if i == slots.len() - 1 {
        assert(filled.drop_last() == slots.drop_last());
    } else {
        lemma_arrived_filled(slots.drop_last(), i, frag);
        assert(filled.drop_last() == slots.drop_last().update(i, Some(frag)));
    }
}

/// Counts the filled slots.
fn count_arrived(slots: &Vec<Option<Fragment>>) -> (r: usize)
    ensures
        r == arrived(slots_view(slots@)),
{
    let mut count: usize = 0;
    let mut i: usize = 0;
    let ghost views = slots_view(slots@);
    proof {
        assert(views.take(0) == Seq::<Option<FragmentView>>::empty());
    }
    while i < slots.len()
        invariant
            views == slots_view(slots@),
            i <= slots.len(),
            count <= i,
            count == arrived(views.take(i as int)),
        decreases slots.len() - i,
    {
        proof {
            assert(views.take(i + 1).drop_last() == views.take(i as int));
        }
        if slots[i].is_some() {
            count = count + 1;
        }
        i = i + 1;
    }
    proof {
        assert(views.take(i as int) == views);
    }
    count
}

/// Appends empty slots until there are `len`.
fn widen(slots: &mut Vec<Option<Fragment>>, len: usize)
    ensures
        slots_view(final(slots)@) == widened(slots_view(old(slots)@), len as int),
{
    let ghost before = slots@;
    while slots.len() < len
        invariant
            before.len() <= slots@.len(),
            before.len() < slots@.len() ==> slots@.len() <= len,
            forall|i: int|
                0 <= i < slots@.len() ==> #[trigger] slots@[i] == (if i < before.len() {
                    before[i]
                } else {
                    None
                }),
        decreases len - slots.len(),
    {
        slots.push(None);
    }
    proof {
        assert(slots_view(slots@) =~= widened(slots_view(before), len as int));
    }
}

/// Fewer slots hold no more bytes.
proof fn lemma_joined_prefix(slots: Seq<Option<FragmentView>>, i: int)
    requires
        0 <= i <= slots.len(),
    ensures
        joined(slots.take(i)).len() <= joined(slots).len(),
    decreases slots.len(),
{
    if i == slots.len() {
        assert(slots.take(i) == slots);
    } else {
        lemma_joined_prefix(slots.drop_last(), i);
        assert(slots.drop_last().take(i) == slots.take(i));
    }
}

/// Joins the contents of all slots, unless one is empty or they come to more
/// than `room` bytes.
fn join(slots: &Vec<Option<Fragment>>, room: usize) -> (r: Option<Vec<u8>>)
    ensures
        match r {
            Some(bytes) => !has_hole(slots_view(slots@)) && bytes@ == joined(slots_view(slots@))
                && bytes@.len() <= room,
            None => has_hole(slots_view(slots@)) || joined(slots_view(slots@)).len() > room,
        },
{
    let mut bytes: Vec<u8> = Vec::new();
    let mut i: usize = 0;
    let ghost views = slots_view(slots@);
    proof {
        assert(views.take(0) == Seq::<Option<FragmentView>>::empty());
    }
    while i < slots.len()
        invariant
            views == slots_view(slots@),
            i <= slots.len(),
            bytes@ == joined(views.take(i as int)),
            bytes@.len() <= room,
            forall|j: int| 0 <= j < i ==> #[trigger] views[j] is Some,
        decreases slots.len() - i,
    {
        match &slots[i] {
            None => {
                proof {
                    assert(views[i as int] is None);
                }
                return None;
            },
            Some(fragment) => {
                proof {
                    assert(views[i as int] == Some(fragment@));
                    assert(views.take(i + 1).drop_last() == views.take(i as int));
                    lemma_joined_prefix(views, i + 1);
                }
                if fragment.contents.len() > room - bytes.len() {
                    return None;
                }
                append_bytes(&mut bytes, fragment.contents.as_slice());
            },
        }
        i = i + 1;
    }
    proof {
        assert(views.take(i as int) == views);
    }
    Some(bytes)
}

/// Decodes decompressed bytes.
pub fn parse_instruction(bytes: &[u8]) -> (r: Result<TransportInstruction, FragmentError>)
    ensures
        match r {
            Ok(inst) => parsed(bytes@) == Ok::<TransportView, FragmentErrorView>(inst@),
            Err(e) => parsed(bytes@) == Err::<TransportView, FragmentErrorView>(e@),
        },
{
    match TransportInstruction::decode(bytes) {
        Ok(inst) => Ok(inst),
        Err(e) => Err(FragmentError::Parse(e.to_string())),
    }
}

/// What an assembly returns.
pub open spec fn instruction_view(inst: Option<TransportInstruction>) -> Option<TransportView> {
    match inst {
        Some(inst) => Some(inst@),
        None => None,
    }
}

/// Reassembles fragments in any order of arrival, duplicates included. A new id
/// forgets the instruction before; a duplicate changes nothing, whether it is the
/// same as what is there or differs.
pub struct FragmentAssembly {
    fragments: Vec<Option<Fragment>>,
    current_id: u64,
    fragments_arrived: usize,
    fragments_total: Option<usize>,
    assembled_bytes: usize,
}

impl View for FragmentAssembly {
    type V = AssemblyView;

    closed spec fn view(&self) -> AssemblyView {
        AssemblyView {
            slots: slots_view(self.fragments@),
            current_id: self.current_id,
            total: match self.fragments_total {
                Some(total) => Some(total as nat),
                None => None,
            },
            assembled: self.assembled_bytes as nat,
        }
    }
}

impl Default for FragmentAssembly {
    fn default() -> (r: Self)
        ensures
            r.is_sound(),
            r@ == empty_assembly(),
    {
        FragmentAssembly {
            fragments: Vec::new(),
            current_id: 0,
            fragments_arrived: 0,
            fragments_total: None,
            assembled_bytes: 0,
        }
    }
}

impl FragmentAssembly {
    /// The counts agree with the slots, and the bytes taken are within the limit.
    pub closed spec fn is_sound(&self) -> bool {
        &&& self.fragments_arrived == arrived(self@.slots)
        &&& self.assembled_bytes <= ASSEMBLY_LIMIT
    }

    /// An assembly that was fed nothing.
    pub fn new() -> (r: Self)
        ensures
            r.is_sound(),
            r@ == empty_assembly(),
    {
        FragmentAssembly::default()
    }

    /// Takes one fragment in. An instruction comes out when this one made it
    /// whole.
    pub fn add_fragment(&mut self, frag: Fragment) -> (r: Option<TransportInstruction>)
        requires
            old(self).is_sound(),
        ensures
            final(self).is_sound(),
            (final(self)@, instruction_view(r)) == fed(old(self)@, frag@),
            final(self)@.assembled <= ASSEMBLY_LIMIT,
    {
        let index: usize = frag.fragment_num as usize;
        let is_final: bool = frag.final_;
        let ghost before = self@;
        let ghost view = frag@;
        if self.current_id != frag.id {
            self.fragments.clear();
            self.fragments_arrived = 0;
            self.fragments_total = None;
            self.assembled_bytes = 0;
            self.current_id = frag.id;
        } else if index < self.fragments.len() {
            if self.fragments[index].is_some() {
                return None;
            }
        }
        self.store(index, frag);
        proof {
            assert(self@ == stored(before, view));
        }
        if is_final {
            self.bound(index + 1);
        }
        proof {
            assert(self@ == bounded(stored(before, view), view));
        }
        match self.fragments_total {
            Some(total) => {
                if self.fragments_arrived == total {
                    self.take_assembly()
                } else {
                    None
                }
            },
            None => None,
        }
    }

    /// Puts `frag` at `index`, which is empty.
    fn store(&mut self, index: usize, frag: Fragment)
        requires
            old(self).is_sound(),
            index < usize::MAX,
            index < old(self)@.slots.len() ==> old(self)@.slots[index as int] is None,
        ensures
            final(self).is_sound(),
            final(self)@ == (AssemblyView {
                slots: widened(old(self)@.slots, index + 1).update(index as int, Some(frag@)),
                ..old(self)@
            }),
    {
        let ghost before = self@.slots;
        widen(&mut self.fragments, index + 1);
        let ghost wide = self@.slots;
        proof {
            lemma_arrived_widened(before, index + 1);
            assert(wide == widened(before, index + 1));
            lemma_arrived_filled(wide, index as int, frag@);
            lemma_arrived_bound(wide.update(index as int, Some(frag@)));
            assert(wide.len() == self.fragments.len());
        }
        self.fragments_arrived = self.fragments_arrived + 1;
        let ghost view = frag@;
        self.fragments.set(index, Some(frag));
        proof {
            assert(self@.slots == wide.update(index as int, Some(view)));
        }
    }

    /// Sets the number of fragments, and cuts off what is behind them.
    fn bound(&mut self, total: usize)
        requires
            old(self).is_sound(),
        ensures
            final(self).is_sound(),
            final(self)@ == (AssemblyView {
                slots: if total < old(self)@.slots.len() {
                    old(self)@.slots.take(total as int)
                } else {
                    old(self)@.slots
                },
                total: Some(total as nat),
                ..old(self)@
            }),
    {
        if total < self.fragments.len() {
            let ghost before = self@.slots;
            self.fragments.truncate(total);
            self.fragments_arrived = count_arrived(&self.fragments);
            proof {
                assert(self@.slots == before.take(total as int));
            }
        }
        self.fragments_total = Some(total);
    }

    /// Joins the fragments and decompresses and decodes what they hold.
    fn take_assembly(&mut self) -> (r: Option<TransportInstruction>)
        requires
            old(self).is_sound(),
        ensures
            final(self).is_sound(),
            (final(self)@, instruction_view(r)) == taken(old(self)@),
    {
        match join(&self.fragments, ASSEMBLY_LIMIT - self.assembled_bytes) {
            Some(encoded) => {
                self.assembled_bytes = self.assembled_bytes + encoded.len();
                let inflated = zlib_decompress(encoded.as_slice());
                self.conclude(inflated)
            },
            None => {
                self.reset();
                None
            },
        }
    }

    /// Ends the assembly with what its joined fragments decompressed to. Only an
    /// instruction clears it.
    pub fn conclude(&mut self, inflated: Result<Vec<u8>, FragmentError>) -> (r: Option<
        TransportInstruction,
    >)
        requires
            old(self).is_sound(),
        ensures
            final(self).is_sound(),
            (final(self)@, instruction_view(r)) == concluded(
                old(self)@,
                decompressed_view(inflated),
            ),
    {
        match inflated {
            Ok(bytes) => match parse_instruction(bytes.as_slice()) {
                Ok(inst) => {
                    self.reset();
                    Some(inst)
                },
                Err(_) => None,
            },
            Err(_) => None,
        }
    }

    /// Forgets the current instruction, but not its id.
    fn reset(&mut self)
        ensures
            final(self).is_sound(),
            final(self)@ == cleared(old(self)@),
    {
        self.fragments.clear();
        self.fragments_arrived = 0;
        self.fragments_total = None;
        self.assembled_bytes = 0;
        proof {
            assert(self@.slots == Seq::<Option<FragmentView>>::empty());
        }
    }
}

} // verus!
