//! One fragment and its ten-byte header.

use vstd::arithmetic::power2::{
    lemma2_to64, lemma2_to64_rest, lemma_pow2_adds, lemma_pow2_strictly_increases, pow2,
};
use vstd::prelude::*;

use crate::fragment::error::{FragmentError, FragmentErrorView};
use crate::wire::writer::append_bytes;

verus! {

/// The length of a fragment header: a 64-bit id, then 16 bits of flags.
pub const FRAG_HEADER_LEN: usize = 10;

/// The largest fragment index: the top bit of the flags is the final marker.
pub const MAX_FRAGMENT_INDEX: u16 = 0x7FFF;

/// One piece of a compressed instruction.
#[derive(Clone, PartialEq, Eq, Debug)]
pub struct Fragment {
    /// The instruction it belongs to.
    pub id: u64,
    /// Its place among the pieces.
    pub fragment_num: u16,
    /// Whether it is the last piece.
    pub final_: bool,
    pub contents: Vec<u8>,
}

/// What a `Fragment` says.
#[verifier::ext_equal]
pub struct FragmentView {
    pub id: u64,
    pub fragment_num: u16,
    pub final_: bool,
    pub contents: Seq<u8>,
}

impl View for Fragment {
    type V = FragmentView;

    open spec fn view(&self) -> FragmentView {
        FragmentView {
            id: self.id,
            fragment_num: self.fragment_num,
            final_: self.final_,
            contents: self.contents@,
        }
    }
}

/// The low `width` bytes of `value`, most significant first.
pub open spec fn be_bytes(value: nat, width: nat) -> Seq<u8>
    decreases width,
{
    if width == 0 {
        Seq::empty()
    } else {
        be_bytes(value / 0x100, (width - 1) as nat).push((value % 0x100) as u8)
    }
}

/// The number that `bytes` write, most significant byte first.
pub open spec fn be_value(bytes: Seq<u8>) -> nat
    decreases bytes.len(),
{
    if bytes.len() == 0 {
        0
    } else {
        be_value(bytes.drop_last()) * 0x100 + bytes.last() as nat
    }
}

/// The flags: the index, with the top bit set on the final fragment.
pub open spec fn fragment_flags(final_: bool, fragment_num: u16) -> u16 {
    if final_ {
        0x8000u16 | fragment_num
    } else {
        fragment_num
    }
}

/// A fragment on the wire: id, flags, contents.
pub open spec fn fragment_bytes(fragment: FragmentView) -> Seq<u8> {
    be_bytes(fragment.id as nat, 8) + be_bytes(
        fragment_flags(fragment.final_, fragment.fragment_num) as nat,
        2,
    ) + fragment.contents
}

/// The fragment that `bytes` carry, unless they are shorter than a header.
pub open spec fn parse_fragment(bytes: Seq<u8>) -> Result<FragmentView, FragmentErrorView> {
    if bytes.len() < FRAG_HEADER_LEN {
        Err(FragmentErrorView::TooShort)
    } else {
        let flags = be_value(bytes.subrange(8, 10));
        Ok(
            FragmentView {
                id: be_value(bytes.subrange(0, 8)) as u64,
                fragment_num: (flags % 0x8000) as u16,
                final_: flags >= 0x8000,
                contents: bytes.skip(10),
            },
        )
    }
}

/// A run of bytes writes a number that fits in their bits.
pub proof fn lemma_be_value_bound(bytes: Seq<u8>)
    ensures
        be_value(bytes) < pow2(8 * bytes.len()),
    decreases bytes.len(),
{
    lemma2_to64();
    if bytes.len() > 0 {
        lemma_be_value_bound(bytes.drop_last());
        lemma_pow2_adds((8 * (bytes.len() - 1)) as nat, 8);
    }
}

/// Appends the low `width` bytes of `value`, most significant first.
fn write_be(out: &mut Vec<u8>, value: u64, width: usize)
    ensures
        final(out)@ == old(out)@ + be_bytes(value as nat, width as nat),
    decreases width,
{
    if width > 0 {
        write_be(out, value / 0x100, width - 1);
        out.push((value % 0x100) as u8);
    }
    proof {
        assert(out@ =~= old(out)@ + be_bytes(value as nat, width as nat));
    }
}

/// Reads `width` bytes at `start` as a number, most significant first.
fn read_be(bytes: &[u8], start: usize, width: usize) -> (r: u64)
    requires
        width <= 8,
        start + width <= bytes.len(),
    ensures
        r == be_value(bytes@.subrange(start as int, start + width)),
{
    let mut value: u64 = 0;
    let mut i: usize = 0;
    proof {
        assert(bytes@.subrange(start as int, start as int) == Seq::<u8>::empty());
    }
    while i < width
        invariant
            i <= width <= 8,
            start + width <= bytes.len(),
            value == be_value(bytes@.subrange(start as int, start + i)),
        decreases width - i,
    {
        let ghost so_far = bytes@.subrange(start as int, start + i);
        let ghost longer = bytes@.subrange(start as int, start + i + 1);
        proof {
            assert(longer.drop_last() == so_far);
            lemma_be_value_bound(longer);
            lemma2_to64();
            lemma2_to64_rest();
            if i < 7 {
                lemma_pow2_strictly_increases((8 * (i + 1)) as nat, 64);
            }
        }
        value = value * 0x100 + bytes[start + i] as u64;
        i = i + 1;
    }
    value
}

impl Fragment {
    /// The fragment's bytes on the wire.
    pub fn tostring(&self) -> (r: Vec<u8>)
        ensures
            r@ == fragment_bytes(self@),
    {
        let mut out: Vec<u8> = Vec::new();
        write_be(&mut out, self.id, 8);
        let flags: u16 = if self.final_ {
            0x8000u16 | self.fragment_num
        } else {
            self.fragment_num
        };
        write_be(&mut out, flags as u64, 2);
        append_bytes(&mut out, self.contents.as_slice());
        proof {
            assert(out@ == fragment_bytes(self@));
        }
        out
    }

    /// Takes a fragment apart; only bytes shorter than a header are refused.
    pub fn parse(bytes: &[u8]) -> (r: Result<Self, FragmentError>)
        ensures
            match r {
                Ok(fragment) => parse_fragment(bytes@) == Ok::<FragmentView, FragmentErrorView>(
                    fragment@,
                ),
                Err(e) => parse_fragment(bytes@) == Err::<FragmentView, FragmentErrorView>(e@),
            },
    {
        if bytes.len() < FRAG_HEADER_LEN {
            return Err(FragmentError::TooShort);
        }
        let id: u64 = read_be(bytes, 0, 8);
        let flags: u64 = read_be(bytes, 8, 2);
        proof {
            lemma2_to64();
            lemma_be_value_bound(bytes@.subrange(8, 10));
        }
        let contents: Vec<u8> = vstd::slice::slice_to_vec(
            vstd::slice::slice_subrange(bytes, FRAG_HEADER_LEN, bytes.len()),
        );
        let fragment = Fragment {
            id,
            fragment_num: (flags % 0x8000) as u16,
            final_: flags >= 0x8000,
            contents,
        };
        proof {
            assert(contents@ == bytes@.skip(10));
        }
        Ok(fragment)
    }
}

} // verus!
