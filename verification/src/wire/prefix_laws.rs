//! What becomes of an encoded transport instruction that is cut off.

use vstd::prelude::*;

use crate::wire::error::WireError;
use crate::wire::field_laws::{
    law_cut_bytes_are_refused, law_cut_varint_is_truncated, law_tag_round_trip,
};
use crate::wire::transport::{
    blank_transport, merge_transport, transport_bytes, with_bytes, with_number, TransportView,
};
use crate::wire::transport_laws::{lemma_merge_bytes, lemma_merge_number, lemma_seven_fields};
use crate::wire::writer::{
    bytes_field_bytes, tag_bytes, tag_key, varint_bytes, varint_field_bytes,
};

verus! {

/// Field number `m` of an encoded instruction.
pub open spec fn transport_field(inst: TransportView, m: int) -> Seq<u8> {
    if m == 1 {
        varint_field_bytes(1, inst.protocol_version as u64)
    } else if m == 2 {
        varint_field_bytes(2, inst.old_num)
    } else if m == 3 {
        varint_field_bytes(3, inst.new_num)
    } else if m == 4 {
        varint_field_bytes(4, inst.ack_num)
    } else if m == 5 {
        varint_field_bytes(5, inst.throwaway_num)
    } else if m == 6 {
        bytes_field_bytes(6, inst.diff)
    } else {
        bytes_field_bytes(7, inst.chaff)
    }
}

/// Where field number `m` of an encoded instruction ends; the first starts at 0.
pub open spec fn field_end(inst: TransportView, m: int) -> nat
    decreases m,
{
    if m <= 0 {
        0
    } else {
        field_end(inst, m - 1) + transport_field(inst, m).len()
    }
}

/// The first `m` fields of an instruction, the others blank.
pub open spec fn first_fields(inst: TransportView, m: int) -> TransportView {
    TransportView {
        protocol_version: if m >= 1 {
            inst.protocol_version
        } else {
            0
        },
        old_num: if m >= 2 {
            inst.old_num
        } else {
            0
        },
        new_num: if m >= 3 {
            inst.new_num
        } else {
            0
        },
        ack_num: if m >= 4 {
            inst.ack_num
        } else {
            0
        },
        throwaway_num: if m >= 5 {
            inst.throwaway_num
        } else {
            0
        },
        diff: if m >= 6 {
            inst.diff
        } else {
            Seq::empty()
        },
        chaff: if m >= 7 {
            inst.chaff
        } else {
            Seq::empty()
        },
    }
}

/// The fields behind the first `m`.
spec fn fields_behind(inst: TransportView, m: int) -> Seq<u8>
    decreases 7 - m,
{
    if m >= 7 {
        Seq::empty()
    } else {
        transport_field(inst, m + 1) + fields_behind(inst, m + 1)
    }
}

/// Whether decoding failed for want of bytes.
pub open spec fn is_cut_off(r: Result<TransportView, WireError>) -> bool {
    r matches Err(e) && (e is Truncated || e is BadLength)
}

/// The key of one of the seven fields is one byte.
proof fn lemma_short_tag(field: u32, wire_type: u8)
    requires
        field < 16,
        wire_type < 8,
    ensures
        tag_bytes(field, wire_type).len() == 1,
{
    let key = tag_key(field, wire_type);
    assert((((field as u64) << 3) | (wire_type as u64)) < 128) by (bit_vector)
        requires
            field < 16,
            wire_type < 8,
    ;
    assert(key < 128);
}

/// A numeric field that is cut off is refused.
proof fn lemma_cut_number(inst: TransportView, field: u32, value: u64, k: int)
    requires
        1 <= field <= 5,
        0 < k < varint_field_bytes(field, value).len(),
    ensures
        is_cut_off(merge_transport(inst, varint_field_bytes(field, value).take(k))),
{
    reveal(merge_transport);
    let tag = tag_bytes(field, 0);
    let s = varint_field_bytes(field, value).take(k);
    let rest = varint_bytes(value as nat).take(k - 1);
    lemma_short_tag(field, 0);
    assert(s =~= tag + rest);
    law_tag_round_trip(field, 0, rest);
    assert(s.skip(1) =~= rest);
    law_cut_varint_is_truncated(value, k - 1);
}

/// A byte-string field that is cut off is refused.
proof fn lemma_cut_bytes(inst: TransportView, field: u32, value: Seq<u8>, k: int)
    requires
        6 <= field <= 7,
        value.len() <= u64::MAX,
        0 < k < bytes_field_bytes(field, value).len(),
    ensures
        is_cut_off(merge_transport(inst, bytes_field_bytes(field, value).take(k))),
{
    reveal(merge_transport);
    let tag = tag_bytes(field, 2);
    let s = bytes_field_bytes(field, value).take(k);
    let rest = (varint_bytes(value.len()) + value).take(k - 1);
    lemma_short_tag(field, 2);
    assert(s =~= tag + rest);
    law_tag_round_trip(field, 2, rest);
    assert(s.skip(1) =~= rest);
    law_cut_bytes_are_refused(value, k - 1);
}

/// A field that is cut off is refused.
proof fn lemma_cut_field(inst: TransportView, mid: TransportView, m: int, k: int)
    requires
        inst.diff.len() <= usize::MAX,
        inst.chaff.len() <= usize::MAX,
        1 <= m <= 7,
        0 < k < transport_field(inst, m).len(),
    ensures
        is_cut_off(merge_transport(mid, transport_field(inst, m).take(k))),
{
    if m == 1 {
        lemma_cut_number(mid, 1, inst.protocol_version as u64, k);
    } else if m == 2 {
        lemma_cut_number(mid, 2, inst.old_num, k);
    } else if m == 3 {
        lemma_cut_number(mid, 3, inst.new_num, k);
    } else if m == 4 {
        lemma_cut_number(mid, 4, inst.ack_num, k);
    } else if m == 5 {
        lemma_cut_number(mid, 5, inst.throwaway_num, k);
    } else if m == 6 {
        lemma_cut_bytes(mid, 6, inst.diff, k);
    } else {
        lemma_cut_bytes(mid, 7, inst.chaff, k);
    }
}

/// A whole field behind the fields before it is read, and what follows is read on.
proof fn lemma_whole_field(inst: TransportView, m: int, rest: Seq<u8>)
    requires
        inst.diff.len() <= usize::MAX,
        inst.chaff.len() <= usize::MAX,
        1 <= m <= 7,
    ensures
        merge_transport(first_fields(inst, m - 1), transport_field(inst, m) + rest)
            == merge_transport(first_fields(inst, m), rest),
{
    let mid = first_fields(inst, m - 1);
    let next = first_fields(inst, m);
    if m == 1 {
        lemma_merge_number(mid, 1, inst.protocol_version as u64, rest);
        assert(with_number(mid, 1, inst.protocol_version as u64) =~= next);
    } else if m == 2 {
        lemma_merge_number(mid, 2, inst.old_num, rest);
        assert(with_number(mid, 2, inst.old_num) =~= next);
    } else if m == 3 {
        lemma_merge_number(mid, 3, inst.new_num, rest);
        assert(with_number(mid, 3, inst.new_num) =~= next);
    } else if m == 4 {
        lemma_merge_number(mid, 4, inst.ack_num, rest);
        assert(with_number(mid, 4, inst.ack_num) =~= next);
    } else if m == 5 {
        lemma_merge_number(mid, 5, inst.throwaway_num, rest);
        assert(with_number(mid, 5, inst.throwaway_num) =~= next);
    } else if m == 6 {
        lemma_merge_bytes(mid, 6, inst.diff, rest);
        assert(with_bytes(mid, 6, inst.diff) =~= next);
    } else {
        lemma_merge_bytes(mid, 7, inst.chaff, rest);
        assert(with_bytes(mid, 7, inst.chaff) =~= next);
    }
}

/// Later fields end later.
proof fn lemma_field_ends(inst: TransportView, m: int, n: int)
    requires
        0 <= m <= n,
    ensures
        field_end(inst, m) <= field_end(inst, n),
    decreases n - m,
{
    if m < n {
        lemma_field_ends(inst, m, n - 1);
    }
}

/// What the first `k` bytes behind the first `m` fields decode to.
proof fn lemma_cut_behind(inst: TransportView, m: int, k: int)
    requires
        inst.diff.len() <= usize::MAX,
        inst.chaff.len() <= usize::MAX,
        0 <= m <= 7,
        0 <= k <= fields_behind(inst, m).len(),
    ensures
        ({
            let r = merge_transport(first_fields(inst, m), fields_behind(inst, m).take(k));
            &&& forall|n: int|
                m <= n <= 7 && k + field_end(inst, m) == #[trigger] field_end(inst, n) ==> r
                    == Ok::<TransportView, WireError>(first_fields(inst, n))
            &&& (forall|n: int|
                m <= n <= 7 ==> k + field_end(inst, m) != #[trigger] field_end(inst, n))
                ==> is_cut_off(r)
        }),
    decreases 7 - m,
{
    let start = first_fields(inst, m);
    let behind = fields_behind(inst, m);
    let s = behind.take(k);
    if k == 0 {
        assert(s =~= Seq::<u8>::empty());
        assert(merge_transport(start, s) == Ok::<TransportView, WireError>(start)) by {
            reveal(merge_transport);
        }
        assert forall|n: int|
            m <= n <= 7 && k + field_end(inst, m) == #[trigger] field_end(inst, n) implies n
            == m by {
            if n > m {
                lemma_field_ends(inst, m + 1, n);
                lemma_field_not_empty(inst, m + 1);
            }
        }
        assert(k + field_end(inst, m) == field_end(inst, m));
    } else {
        let field = transport_field(inst, m + 1);
        let rest = fields_behind(inst, m + 1);
        let len = field.len() as int;
        assert(field_end(inst, m + 1) == field_end(inst, m) + len);
        if k < len {
            assert(s =~= field.take(k));
            lemma_cut_field(inst, start, m + 1, k);
            assert forall|n: int| m <= n <= 7 implies k + field_end(inst, m)
                != #[trigger] field_end(inst, n) by {
                if n > m {
                    lemma_field_ends(inst, m + 1, n);
                }
            }
        } else {
            let more = rest.take(k - len);
            assert(s =~= field + more);
            lemma_whole_field(inst, m + 1, more);
            lemma_cut_behind(inst, m + 1, k - len);
            assert forall|n: int|
                m <= n <= 7 && k + field_end(inst, m) == #[trigger] field_end(inst, n) implies n
                >= m + 1 by {}
        }
    }
}

/// No field is empty.
proof fn lemma_field_not_empty(inst: TransportView, m: int)
    requires
        1 <= m <= 7,
    ensures
        transport_field(inst, m).len() > 0,
{
    lemma_short_tag(m as u32, 0);
    lemma_short_tag(m as u32, 2);
}

/// Every prefix of an encoded instruction: at the end of a field it decodes to the
/// fields so far, with the others blank, and anywhere else decoding fails for want
/// of bytes.
pub proof fn law_cut_encoding(inst: TransportView, k: int)
    requires
        inst.diff.len() <= usize::MAX,
        inst.chaff.len() <= usize::MAX,
        0 <= k <= transport_bytes(inst).len(),
    ensures
        ({
            let r = merge_transport(blank_transport(), transport_bytes(inst).take(k));
            &&& forall|m: int|
                0 <= m <= 7 && k == #[trigger] field_end(inst, m) ==> r == Ok::<
                    TransportView,
                    WireError,
                >(first_fields(inst, m))
            &&& (forall|m: int| 0 <= m <= 7 ==> k != #[trigger] field_end(inst, m))
                ==> is_cut_off(r)
        }),
{
    lemma_seven_fields(
        transport_field(inst, 1),
        transport_field(inst, 2),
        transport_field(inst, 3),
        transport_field(inst, 4),
        transport_field(inst, 5),
        transport_field(inst, 6),
        transport_field(inst, 7),
    );
    reveal_with_fuel(fields_behind, 8);
    assert(fields_behind(inst, 0) == transport_bytes(inst));
    assert(first_fields(inst, 0) =~= blank_transport());
    lemma_cut_behind(inst, 0, k);
}

} // verus!
