//! Fragments survive the wire.

use vstd::arithmetic::power2::{lemma2_to64, lemma2_to64_rest, lemma_pow2_adds, pow2};
use vstd::prelude::*;

use crate::fragment::error::FragmentErrorView;
use crate::fragment::frame::{
    be_bytes, be_value, fragment_bytes, fragment_flags, lemma_be_value_bound, parse_fragment,
    FragmentView,
};

verus! {

/// A number is written in as many bytes as it is given.
pub proof fn lemma_be_bytes_len(value: nat, width: nat)
    ensures
        be_bytes(value, width).len() == width,
    decreases width,
{
    if width > 0 {
        lemma_be_bytes_len(value / 0x100, (width - 1) as nat);
    }
}

/// A number written in enough bytes is read back.
proof fn lemma_be_value_of_bytes(value: nat, width: nat)
    requires
        value < pow2(8 * width),
    ensures
        be_value(be_bytes(value, width)) == value,
    decreases width,
{
    lemma2_to64();
    if width > 0 {
        lemma_pow2_adds((8 * (width - 1)) as nat, 8);
        lemma_be_value_of_bytes(value / 0x100, (width - 1) as nat);
        assert(be_bytes(value, width).drop_last() == be_bytes(value / 0x100, (width - 1) as nat));
    }
}

/// Bytes read as a number are written back.
proof fn lemma_be_bytes_of_value(bytes: Seq<u8>)
    ensures
        be_bytes(be_value(bytes), bytes.len()) == bytes,
    decreases bytes.len(),
{
    if bytes.len() > 0 {
        lemma_be_bytes_of_value(bytes.drop_last());
        assert(bytes.drop_last().push(bytes.last()) == bytes);
    }
}

/// A fragment whose index fits in 15 bits is parsed back from its bytes.
pub proof fn law_fragment_round_trip(fragment: FragmentView)
    requires
        fragment.fragment_num <= 0x7FFF,
    ensures
        parse_fragment(fragment_bytes(fragment)) == Ok::<FragmentView, FragmentErrorView>(fragment),
{
    let num = fragment.fragment_num;
    let flags = fragment_flags(fragment.final_, num);
    assert(0x8000u16 | num == 0x8000 + num) by (bit_vector)
        requires
            num <= 0x7FFF,
    ;
    lemma2_to64();
    lemma2_to64_rest();
    lemma_be_value_of_bytes(fragment.id as nat, 8);
    lemma_be_value_of_bytes(flags as nat, 2);
    lemma_be_bytes_len(fragment.id as nat, 8);
    lemma_be_bytes_len(flags as nat, 2);
    let s = fragment_bytes(fragment);
    assert(s.subrange(0, 8) == be_bytes(fragment.id as nat, 8));
    assert(s.subrange(8, 10) == be_bytes(flags as nat, 2));
    assert(s.skip(10) == fragment.contents);
}

/// Bytes that parse are what the parsed fragment is written as.
pub proof fn law_fragment_parse_is_faithful(bytes: Seq<u8>)
    ensures
        parse_fragment(bytes) matches Ok(fragment) ==> fragment_bytes(fragment) == bytes,
{
    if bytes.len() >= 10 {
        let fragment = parse_fragment(bytes)->Ok_0;
        let head = bytes.subrange(0, 8);
        let tail = bytes.subrange(8, 10);
        lemma2_to64();
        lemma2_to64_rest();
        lemma_be_value_bound(head);
        lemma_be_value_bound(tail);
        lemma_be_bytes_of_value(head);
        lemma_be_bytes_of_value(tail);
        let num = fragment.fragment_num;
        assert(0x8000u16 | num == 0x8000 + num) by (bit_vector)
            requires
                num <= 0x7FFF,
        ;
        assert(fragment_flags(fragment.final_, num) == be_value(tail));
        assert(fragment_bytes(fragment) == bytes);
    }
}

} // verus!
