//! What holds of the parser whatever the channel said.

use vstd::prelude::*;

use crate::bootstrap::error::BootstrapErrorView;
use crate::bootstrap::offer::{
    all_digits, all_key_chars, all_white_space, digits_len, is_offer, lemma_digits_len_is, offer_of,
    OfferView,
};
use crate::bootstrap::scan::{
    bootstrap_of, fault_of, first_fault, first_malformed, first_offer, is_probe, lemma_fault_stays,
    probed_ip, BootstrapView,
};
use crate::text::{decimal, decimal_value, is_digit};

verus! {

/// A line in the form of an offer is read as one.
pub proof fn law_offer_is_read(digits: Seq<char>, key: Seq<char>, tail: Seq<char>)
    requires
        digits.len() > 0,
        all_digits(digits),
        decimal_value(digits) <= 0xFFFF,
        key.len() == 22,
        all_key_chars(key),
        all_white_space(tail),
    ensures
        is_offer("MOSH CONNECT "@ + digits + seq![' '] + key + tail),
        offer_of("MOSH CONNECT "@ + digits + seq![' '] + key + tail) == Some(
            OfferView { port: decimal_value(digits) as u16, key },
        ),
{
    let start = "MOSH CONNECT "@;
    let line = start + digits + seq![' '] + key + tail;
    let s = digits + seq![' '] + key + tail;
    let n = digits.len() as int;
    assert(start =~= line.subrange(0, start.len() as int));
    assert(line.skip(start.len() as int) =~= s);
    assert forall|i: int| 0 <= i < n implies is_digit(s[i]) by {
        assert(s[i] == digits[i]);
    }
    lemma_digits_len_is(s, n);
    assert(s.take(n) =~= digits);
    assert(s.subrange(n + 1, n + 23) =~= key);
    assert(s.skip(n + 23) =~= tail);
}

/// Only a line in that form is read as an offer.
pub proof fn law_only_an_offer_is_read(line: Seq<char>, offer: OfferView)
    requires
        is_offer(line),
        offer_of(line) == Some(offer),
    ensures
        exists|digits: Seq<char>, tail: Seq<char>|
            {
                &&& digits.len() > 0
                &&& all_digits(digits)
                &&& decimal_value(digits) == offer.port
                &&& offer.key.len() == 22
                &&& all_key_chars(offer.key)
                &&& all_white_space(tail)
                &&& line == #[trigger] ("MOSH CONNECT "@ + digits + seq![' '] + offer.key + tail)
            },
{
    let start = "MOSH CONNECT "@;
    let s = line.skip(start.len() as int);
    let n = digits_len(s) as int;
    let digits = s.take(n);
    let tail = s.skip(n + 23);
    lemma_digits_are_digits(s);
    assert(line =~= start + digits + seq![' '] + offer.key + tail);
}

/// A run of digits holds digits.
proof fn lemma_digits_are_digits(s: Seq<char>)
    ensures
        digits_len(s) <= s.len(),
        all_digits(s.take(digits_len(s) as int)),
    decreases s.len(),
{
    let run = s.take(digits_len(s) as int);
    if s.len() > 0 && is_digit(s[0]) {
        let rest = s.skip(1);
        lemma_digits_are_digits(rest);
        assert forall|i: int| 0 <= i < run.len() implies is_digit(#[trigger] run[i]) by {
            if i > 0 {
                assert(rest.take(digits_len(rest) as int)[i - 1] == run[i]);
            }
        }
    }
}

/// A number in decimal is digits that write it.
proof fn lemma_decimal_round_trip(n: nat)
    ensures
        decimal(n).len() > 0,
        all_digits(decimal(n)),
        decimal_value(decimal(n)) == n,
    decreases n,
{
    if n < 10 {
        assert(decimal(n).drop_last() =~= Seq::<char>::empty());
        assert(decimal_value(decimal(n).drop_last()) == 0);
    } else {
        lemma_decimal_round_trip(n / 10);
        assert(decimal(n).drop_last() =~= decimal(n / 10));
    }
}

/// The line that a server prints for a port and a key is read back as them.
pub proof fn law_printed_offer_is_read_back(port: u16, key: Seq<char>)
    requires
        key.len() == 22,
        all_key_chars(key),
    ensures
        offer_of("MOSH CONNECT "@ + decimal(port as nat) + seq![' '] + key) == Some(
            OfferView { port, key },
        ),
{
    let none = Seq::<char>::empty();
    let line = "MOSH CONNECT "@ + decimal(port as nat) + seq![' '] + key;
    lemma_decimal_round_trip(port as nat);
    law_offer_is_read(decimal(port as nat), key, none);
    assert(line + none =~= line);
}

/// What the lines before said stays said.
pub proof fn lemma_first_stays(said: Seq<Seq<char>>, n: int)
    requires
        0 <= n <= said.len(),
    ensures
        first_offer(said.take(n)) is Some ==> first_offer(said) == first_offer(said.take(n)),
        probed_ip(said.take(n)) is Some ==> probed_ip(said) == probed_ip(said.take(n)),
    decreases said.len(),
{
    if n == said.len() {
        assert(said.take(n) =~= said);
    } else {
        lemma_first_stays(said.drop_last(), n);
        assert(said.drop_last().take(n) =~= said.take(n));
    }
}

/// Once a session is offered, no later line changes what was offered; lines
/// behind it that are no probes change nothing at all.
pub proof fn law_first_offer_wins(said: Seq<Seq<char>>, more: Seq<Seq<char>>)
    ensures
        bootstrap_of(said) matches Ok(first) ==> {
            &&& bootstrap_of(said + more) matches Ok(now) ==> now.port == first.port && now.key
                == first.key
            &&& (forall|i: int| 0 <= i < more.len() ==> !is_probe(#[trigger] more[i]))
                ==> bootstrap_of(said + more) == bootstrap_of(said)
        },
    decreases more.len(),
{
    if bootstrap_of(said) is Ok {
        let all = said + more;
        assert(all.take(said.len() as int) =~= said);
        lemma_first_stays(all, said.len() as int);
        if forall|i: int| 0 <= i < more.len() ==> !is_probe(#[trigger] more[i]) {
            if more.len() == 0 {
                assert(all =~= said);
            } else {
                let front = more.drop_last();
                assert forall|i: int| 0 <= i < front.len() implies !is_probe(
                    #[trigger] front[i],
                ) by {
                    assert(front[i] == more[i]);
                }
                law_first_offer_wins(said, front);
                assert(all.drop_last() =~= said + front);
                assert(!is_probe(more[more.len() - 1]));
                assert((said + front).take(said.len() as int) =~= said);
                lemma_first_stays(said + front, said.len() as int);
            }
        }
    }
}

/// A probe line is noticed where none was faulty.
proof fn lemma_probe_noticed(said: Seq<Seq<char>>, i: int)
    requires
        0 <= i < said.len(),
        is_probe(said[i]),
    ensures
        probed_ip(said) is Some,
{
    let upto = said.take(i + 1);
    assert(upto.last() == said[i]);
    lemma_first_stays(said, i + 1);
}

/// A second probe is an error, wherever the two stand.
pub proof fn law_probe_comes_at_most_once(said: Seq<Seq<char>>, i: int, j: int)
    requires
        0 <= i < j < said.len(),
        is_probe(said[i]),
        is_probe(said[j]),
    ensures
        bootstrap_of(said) matches Err(e) && e is BadConnection,
{
    let before = said.take(j);
    let upto = said.take(j + 1);
    assert(before[i] == said[i]);
    lemma_probe_noticed(before, i);
    assert(upto.drop_last() =~= before);
    assert(upto.last() == said[j]);
    lemma_fault_stays(said, j + 1);
    lemma_fault_kind(said);
}

/// Only a probe is faulty.
pub proof fn lemma_fault_kind(said: Seq<Seq<char>>)
    ensures
        first_fault(said) matches Some(e) ==> e is BadConnection,
    decreases said.len(),
{
    if said.len() > 0 {
        lemma_fault_kind(said.drop_last());
    }
}

/// A well-formed offer is noticed.
proof fn lemma_offer_noticed(said: Seq<Seq<char>>, i: int)
    requires
        0 <= i < said.len(),
        is_offer(said[i]),
        offer_of(said[i]) is Some,
    ensures
        first_offer(said) is Some,
{
    let upto = said.take(i + 1);
    assert(upto.last() == said[i]);
    lemma_first_stays(said, i + 1);
}

/// A well-formed offer is enough, wherever it stands, if no probe is faulty.
pub proof fn law_one_good_offer_suffices(said: Seq<Seq<char>>, i: int)
    requires
        0 <= i < said.len(),
        is_offer(said[i]),
        offer_of(said[i]) is Some,
        first_fault(said) is None,
    ensures
        bootstrap_of(said) is Ok,
{
    lemma_offer_noticed(said, i);
}

/// A line that offers a session is an offer or malformed.
proof fn lemma_offer_or_malformed(said: Seq<Seq<char>>)
    ensures
        first_offer(said) is None && first_malformed(said) is None <==> forall|i: int|
            0 <= i < said.len() ==> !is_offer(#[trigger] said[i]),
    decreases said.len(),
{
    if said.len() > 0 {
        let front = said.drop_last();
        lemma_offer_or_malformed(front);
        if first_offer(said) is None && first_malformed(said) is None {
            assert(!is_offer(said.last()));
            assert forall|i: int| 0 <= i < said.len() implies !is_offer(#[trigger] said[i]) by {
                if i < front.len() {
                    assert(front[i] == said[i]);
                }
            }
        }
        if forall|i: int| 0 <= i < said.len() ==> !is_offer(#[trigger] said[i]) {
            assert(!is_offer(said[said.len() - 1]));
            assert forall|i: int| 0 <= i < front.len() implies !is_offer(#[trigger] front[i]) by {
                assert(front[i] == said[i]);
            }
        }
    }
}

/// The absence of an offer is reported where no probe is faulty and no line means
/// to offer a session, and only there.
pub proof fn law_no_connect_means_no_offer(said: Seq<Seq<char>>)
    ensures
        (bootstrap_of(said) matches Err(e) && e is NoConnect) <==> (first_fault(said) is None && (
        forall|i: int| 0 <= i < said.len() ==> !is_offer(#[trigger] said[i]))),
{
    lemma_offer_or_malformed(said);
    lemma_fault_kind(said);
}

/// Whether a line neither tells the addresses nor offers a session.
pub open spec fn is_informational(line: Seq<char>) -> bool {
    !is_probe(line) && (is_offer(line) ==> offer_of(line) is None)
}

/// An informational line leaves the probes and the offers as they were.
proof fn lemma_line_between(before: Seq<Seq<char>>, line: Seq<char>, after: Seq<Seq<char>>)
    requires
        is_informational(line),
    ensures
        first_fault(before.push(line) + after) == first_fault(before + after),
        first_offer(before.push(line) + after) == first_offer(before + after),
        probed_ip(before.push(line) + after) == probed_ip(before + after),
    decreases after.len(),
{
    let with = before.push(line) + after;
    let without = before + after;
    if after.len() == 0 {
        assert(with =~= before.push(line));
        assert(without =~= before);
        assert(with.drop_last() =~= before);
    } else {
        lemma_line_between(before, line, after.drop_last());
        assert(with.drop_last() =~= before.push(line) + after.drop_last());
        assert(without.drop_last() =~= before + after.drop_last());
        assert(fault_of(with.drop_last(), after.last()) == fault_of(
            without.drop_last(),
            after.last(),
        ));
    }
}

/// An informational line changes nothing, wherever it stands, but how it is told
/// that no session is offered. A malformed offer is such a line too.
pub proof fn law_other_lines_are_informational(
    before: Seq<Seq<char>>,
    line: Seq<char>,
    after: Seq<Seq<char>>,
)
    requires
        is_informational(line),
    ensures
        match bootstrap_of(before + after) {
            Ok(b) => bootstrap_of(before.push(line) + after) == Ok::<
                BootstrapView,
                BootstrapErrorView,
            >(b),
            Err(BootstrapErrorView::BadConnection(words)) => bootstrap_of(
                before.push(line) + after,
            ) == Err::<BootstrapView, BootstrapErrorView>(
                BootstrapErrorView::BadConnection(words),
            ),
            Err(_) => bootstrap_of(before.push(line) + after) matches Err(e) && e !is BadConnection,
        },
{
    lemma_line_between(before, line, after);
    lemma_fault_kind(before + after);
}

} // verus!
