//! Cutting instructions into fragments, and the rule for their ids.

use vstd::prelude::*;

use crate::fragment::error::{FragmentError, FragmentErrorView};
use crate::fragment::frame::{Fragment, FragmentView, FRAG_HEADER_LEN, MAX_FRAGMENT_INDEX};
use crate::fragment::zlib::{
    decompressed, stream_limit, zlib_compress, zlib_deflated, DECOMPRESS_LIMIT,
};
use crate::wire::transport::{transport_bytes, TransportInstruction, TransportView};

verus! {

/// The fields of an instruction that decide its id: all but the diff.
#[verifier::ext_equal]
pub struct HeaderView {
    pub protocol_version: u32,
    pub old_num: u64,
    pub new_num: u64,
    pub ack_num: u64,
    pub throwaway_num: u64,
    pub chaff: Seq<u8>,
}

/// The header of an instruction.
pub open spec fn header_of(inst: TransportView) -> HeaderView {
    HeaderView {
        protocol_version: inst.protocol_version,
        old_num: inst.old_num,
        new_num: inst.new_num,
        ack_num: inst.ack_num,
        throwaway_num: inst.throwaway_num,
        chaff: inst.chaff,
    }
}

/// What a fragmenter remembers.
#[verifier::ext_equal]
pub struct FragmenterView {
    /// The id of the last instruction framed; 0 before the first.
    pub id: u64,
    /// The header of the last instruction framed.
    pub last_header: Option<HeaderView>,
    /// The room for contents in the last instruction's fragments.
    pub last_room: usize,
}

/// The room that a datagram of `mtu` bytes leaves for contents.
pub open spec fn room_for(mtu: usize) -> usize {
    if mtu <= FRAG_HEADER_LEN {
        0
    } else {
        (mtu - FRAG_HEADER_LEN) as usize
    }
}

/// Whether `inst` gets an id of its own: its header or the room is not that of
/// the instruction before.
pub open spec fn takes_new_id(st: FragmenterView, inst: TransportView, mtu: usize) -> bool {
    st.last_header != Some(header_of(inst)) || st.last_room != room_for(mtu)
}

/// What the fragmenter remembers once `inst` is framed.
pub open spec fn framed(st: FragmenterView, inst: TransportView, mtu: usize) -> FragmenterView {
    FragmenterView {
        id: if takes_new_id(st, inst, mtu) {
            (st.id + 1) as u64
        } else {
            st.id
        },
        last_header: Some(header_of(inst)),
        last_room: room_for(mtu),
    }
}

/// The ack of the last instruction framed.
pub open spec fn last_ack(st: FragmenterView) -> Option<u64> {
    match st.last_header {
        Some(header) => Some(header.ack_num),
        None => None,
    }
}

/// What is cut into fragments: the encoding, compressed whole.
pub open spec fn payload_of(inst: TransportView) -> Seq<u8> {
    zlib_deflated(transport_bytes(inst))
}

/// Whether a payload carries an instruction: it is a stream of a bounded length
/// that decompresses to the encoding, or is refused where that is over the cap.
pub open spec fn carries(payload: Seq<u8>, inst: TransportView) -> bool {
    &&& 6 < payload.len() <= stream_limit(transport_bytes(inst).len())
    &&& decompressed(payload) == (if transport_bytes(inst).len() <= DECOMPRESS_LIMIT {
        Ok::<Seq<u8>, FragmentErrorView>(transport_bytes(inst))
    } else {
        Err(FragmentErrorView::AssemblyTooLarge)
    })
}

/// Whether `payload` can be cut into pieces of `room` bytes that the 15-bit
/// index can count.
pub open spec fn fits(payload: Seq<u8>, room: nat) -> bool {
    payload.len() <= 0x8000 * room
}

/// How many pieces of `room` bytes a payload takes: at least one, if only an
/// empty one.
pub open spec fn piece_count(len: nat, room: nat) -> nat {
    if len <= room {
        1
    } else {
        ((len + room - 1) / room as int) as nat
    }
}

/// Where piece number `i` ends.
pub open spec fn piece_end(len: nat, room: nat, i: int) -> int {
    if (i + 1) * room <= len {
        (i + 1) * room
    } else {
        len as int
    }
}

/// Piece number `i` of the payload: full but for the last, which is marked.
pub open spec fn piece(id: u64, payload: Seq<u8>, room: nat, i: int) -> FragmentView {
    FragmentView {
        id,
        fragment_num: i as u16,
        final_: i == piece_count(payload.len(), room) - 1,
        contents: payload.subrange(i * room, piece_end(payload.len(), room, i)),
    }
}

/// All pieces of the payload in order.
pub open spec fn pieces(id: u64, payload: Seq<u8>, room: nat) -> Seq<FragmentView> {
    Seq::new(piece_count(payload.len(), room), |i: int| piece(id, payload, room, i))
}

/// What a list of fragments says.
pub open spec fn fragments_view(fragments: Seq<Fragment>) -> Seq<FragmentView> {
    Seq::new(fragments.len(), |i: int| fragments[i]@)
}

/// The number of pieces is the least that has room for the payload, and the index
/// can count them.
pub proof fn lemma_piece_count(payload: Seq<u8>, room: nat)
    requires
        fits(payload, room),
    ensures
        1 <= piece_count(payload.len(), room) <= 0x8000,
        payload.len() <= piece_count(payload.len(), room) * room,
        payload.len() > room ==> (piece_count(payload.len(), room) - 1) * room < payload.len(),
{
    let len = payload.len();
    let n = piece_count(len, room) as int;
    if len > room {
        if room == 0 {
            assert(0x8000 * room == 0);
        }
        vstd::arithmetic::div_mod::lemma_fundamental_div_mod(len + room - 1, room as int);
        assert(room * n == n * room) by (nonlinear_arith);
        assert((n - 1) * room == n * room - room) by (nonlinear_arith);
        assert(n >= 1) by (nonlinear_arith)
            requires
                n * room > len - 1,
                len > 0,
                room > 0,
        ;
        if n > 0x8000 {
            assert((n - 1) * room >= 0x8000 * room) by (nonlinear_arith)
                requires
                    n - 1 >= 0x8000,
                    room >= 0,
            ;
        }
    } else {
        assert(1 * room == room);
    }
}

/// A run of full pieces with a marked rest behind it is all pieces.
proof fn lemma_split_is_pieces(
    id: u64,
    payload: Seq<u8>,
    room: nat,
    last: int,
    fragments: Seq<Fragment>,
)
    requires
        0 <= last < 0x8000,
        fragments.len() == last + 1,
        last * room <= payload.len() <= last * room + room,
        last > 0 ==> last * room < payload.len(),
        forall|i: int|
            0 <= i < last ==> (#[trigger] fragments[i])@ == (FragmentView {
                id,
                fragment_num: i as u16,
                final_: false,
                contents: payload.subrange(i * room, (i + 1) * room),
            }),
        fragments[last]@ == (FragmentView {
            id,
            fragment_num: last as u16,
            final_: true,
            contents: payload.subrange(last * room, payload.len() as int),
        }),
    ensures
        fits(payload, room),
        fragments_view(fragments) == pieces(id, payload, room),
{
    let len = payload.len();
    assert(last * room + room <= 0x8000 * room) by (nonlinear_arith)
        requires
            0 <= last < 0x8000,
            room >= 0,
    ;
    assert(piece_count(len, room) == last + 1) by {
        if last == 0 {
            assert(0 * room == 0);
        } else {
            assert(last * room >= room) by (nonlinear_arith)
                requires
                    last >= 1,
                    room >= 0,
            ;
            if room == 0 {
                assert(last * room == 0);
            }
            let rem = len - last * room - 1;
            assert(len + room - 1 == (last + 1) * room + rem) by (nonlinear_arith)
                requires
                    rem == len - last * room - 1,
            ;
            vstd::arithmetic::div_mod::lemma_fundamental_div_mod_converse(
                len + room - 1,
                room as int,
                last + 1,
                rem,
            );
        }
    }
    assert forall|i: int| 0 <= i <= last implies fragments[i]@ == #[trigger] piece(
        id,
        payload,
        room,
        i,
    ) by {
        assert((i + 1) * room == i * room + room) by (nonlinear_arith);
        if i < last {
            assert((i + 1) * room <= last * room) by (nonlinear_arith)
                requires
                    i + 1 <= last,
                    room >= 0,
            ;
        }
    }
    assert(fragments_view(fragments) =~= pieces(id, payload, room));
}

/// Cuts `payload` into fragments of at most `room` bytes of contents.
pub fn split_payload(id: u64, payload: &[u8], room: usize) -> (r: Result<
    Vec<Fragment>,
    FragmentError,
>)
    ensures
        match r {
            Ok(fragments) => fits(payload@, room as nat) && fragments_view(fragments@) == pieces(
                id,
                payload@,
                room as nat,
            ),
            Err(e) => !fits(payload@, room as nat) && e is IndexTooLarge,
        },
{
    let mut fragments: Vec<Fragment> = Vec::new();
    let mut start: usize = 0;
    let mut index: u16 = 0;
    let ghost len = payload@.len();
    loop
        invariant
            len == payload@.len(),
            index <= 0x8000,
            start == index * room,
            start <= len,
            index > 0 ==> start < len,
            fragments@.len() == index,
            forall|i: int|
                0 <= i < index ==> (#[trigger] fragments@[i])@ == (FragmentView {
                    id,
                    fragment_num: i as u16,
                    final_: false,
                    contents: payload@.subrange(i * room, (i + 1) * room),
                }),
        decreases 0x8000 - index,
    {
        if index > MAX_FRAGMENT_INDEX {
            return Err(FragmentError::IndexTooLarge);
        }
        let is_final: bool = payload.len() - start <= room;
        let end: usize = if is_final {
            payload.len()
        } else {
            start + room
        };
        proof {
            assert((index + 1) * room == index * room + room) by (nonlinear_arith);
        }
        fragments.push(
            Fragment {
                id,
                fragment_num: index,
                final_: is_final,
                contents: vstd::slice::slice_to_vec(
                    vstd::slice::slice_subrange(payload, start, end),
                ),
            },
        );
        if is_final {
            proof {
                lemma_split_is_pieces(id, payload@, room as nat, index as int, fragments@);
            }
            return Ok(fragments);
        }
        start = end;
        index = index + 1;
    }
}

/// Whether two runs of bytes are the same.
fn same_bytes(a: &Vec<u8>, b: &Vec<u8>) -> (r: bool)
    ensures
        r == (a@ == b@),
{
    let same: bool = *a == *b;
    proof {
        if same {
            assert(a@ =~= b@);
        }
    }
    same
}

/// The remembered header of an instruction.
struct Header {
    protocol_version: u32,
    old_num: u64,
    new_num: u64,
    ack_num: u64,
    throwaway_num: u64,
    chaff: Vec<u8>,
}

impl View for Header {
    type V = HeaderView;

    closed spec fn view(&self) -> HeaderView {
        HeaderView {
            protocol_version: self.protocol_version,
            old_num: self.old_num,
            new_num: self.new_num,
            ack_num: self.ack_num,
            throwaway_num: self.throwaway_num,
            chaff: self.chaff@,
        }
    }
}

impl Header {
    /// The header of `inst`.
    fn of(inst: &TransportInstruction) -> (r: Self)
        ensures
            r@ == header_of(inst@),
    {
        let chaff: Vec<u8> = inst.chaff.clone();
        proof {
            assert(chaff@ =~= inst.chaff@);
        }
        Header {
            protocol_version: inst.protocol_version,
            old_num: inst.old_num,
            new_num: inst.new_num,
            ack_num: inst.ack_num,
            throwaway_num: inst.throwaway_num,
            chaff,
        }
    }

    /// Whether `inst` has this header.
    fn heads(&self, inst: &TransportInstruction) -> (r: bool)
        ensures
            r == (self@ == header_of(inst@)),
    {
        self.protocol_version == inst.protocol_version && self.old_num == inst.old_num
            && self.new_num == inst.new_num && self.ack_num == inst.ack_num && self.throwaway_num
            == inst.throwaway_num && same_bytes(&self.chaff, &inst.chaff)
    }
}

/// Cuts instructions into fragments and gives them their ids. The id advances
/// only where the header or the room changed since the instruction before, so
/// that a retransmission is recognised as the same instruction.
pub struct Fragmenter {
    next_instruction_id: u64,
    last_header: Option<Header>,
    last_room: usize,
}

impl View for Fragmenter {
    type V = FragmenterView;

    closed spec fn view(&self) -> FragmenterView {
        FragmenterView {
            id: self.next_instruction_id,
            last_header: match self.last_header {
                Some(header) => Some(header@),
                None => None,
            },
            last_room: self.last_room,
        }
    }
}

/// A fragmenter that has framed nothing.
pub open spec fn idle_fragmenter() -> FragmenterView {
    FragmenterView { id: 0, last_header: None, last_room: usize::MAX }
}

impl Default for Fragmenter {
    fn default() -> (r: Self)
        ensures
            r@ == idle_fragmenter(),
    {
        Fragmenter { next_instruction_id: 0, last_header: None, last_room: usize::MAX }
    }
}

impl Fragmenter {
    /// Encodes, compresses and cuts `inst` into fragments that fit `mtu` bytes
    /// with their headers. What is cut carries `inst`.
    ///
    /// An id is spent even on an instruction that takes too many fragments.
    pub fn make_fragments(&mut self, inst: &TransportInstruction, mtu: usize) -> (r: Result<
        Vec<Fragment>,
        FragmentError,
    >)
        requires
            takes_new_id(old(self)@, inst@, mtu) ==> old(self)@.id < u64::MAX,
        ensures
            final(self)@ == framed(old(self)@, inst@, mtu),
            match r {
                Ok(fragments) => fits(payload_of(inst@), room_for(mtu) as nat) && fragments_view(
                    fragments@,
                ) == pieces(final(self)@.id, payload_of(inst@), room_for(mtu) as nat),
                Err(e) => !fits(payload_of(inst@), room_for(mtu) as nat) && e is IndexTooLarge,
            },
            carries(payload_of(inst@), inst@),
    {
        let room: usize = if mtu <= FRAG_HEADER_LEN {
            0
        } else {
            mtu - FRAG_HEADER_LEN
        };
        let same: bool = match &self.last_header {
            Some(header) => header.heads(inst) && self.last_room == room,
            None => false,
        };
        if !same {
            self.next_instruction_id = self.next_instruction_id + 1;
        }
        self.last_header = Some(Header::of(inst));
        self.last_room = room;
        let payload: Vec<u8> = zlib_compress(inst.encode().as_slice());
        split_payload(self.next_instruction_id, payload.as_slice(), room)
    }

    /// The ack of the last instruction framed.
    pub fn last_ack_sent(&self) -> (r: Option<u64>)
        ensures
            r == last_ack(self@),
    {
        match &self.last_header {
            Some(header) => Some(header.ack_num),
            None => None,
        }
    }
}

} // verus!
