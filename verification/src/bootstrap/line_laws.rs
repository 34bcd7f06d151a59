//! What the lines of the channel's output mean, and what the command says.

use vstd::prelude::*;

use crate::bootstrap::command::{
    all_shell_quoted, payload_view, quoted_chars, server_args, server_command, shell_quoted,
};
use crate::bootstrap::command_laws::{law_shell_sees_the_arguments, shell_args};
use crate::bootstrap::error::{bootstrap_message, BootstrapErrorView, MoshBootstrapError};
use crate::bootstrap::offer::{is_offer, offer_of, offer_view, Offer, OfferView};
use crate::bootstrap::scan::{
    bootstrap_of, first_fault, first_malformed, first_offer, is_probe, lemma_fault_stays,
    notes, probe_words, probed_ip, result_view, string_view, BootstrapView, MoshBootstrap,
};
use crate::bootstrap::scan_laws::{
    law_offer_is_read, law_only_an_offer_is_read, lemma_fault_kind, lemma_first_stays,
};
use crate::text::{decimal, decimal_value, is_white_space, joined_by, strings_view, words};
use crate::text_laws::law_white_space_parts_words;

verus! {

/// What was found says what its fields say, and an error what its variant says.
pub proof fn law_bootstrap_views(
    found: MoshBootstrap,
    e: MoshBootstrapError,
    r: Result<MoshBootstrap, MoshBootstrapError>,
    s: Option<String>,
    offer: Offer,
)
    ensures
        found@.port == found.port,
        found@.key == found.key@,
        match found.server_ip {
            Some(ip) => found@.server_ip == Some(ip@),
            None => found@.server_ip is None,
        },
        match e {
            MoshBootstrapError::NoConnect { output } => e@ == (BootstrapErrorView::NoConnect {
                output: output@,
            }),
            MoshBootstrapError::BadConnect(line) => e@ == BootstrapErrorView::BadConnect(line@),
            MoshBootstrapError::BadConnection(line) => e@ == BootstrapErrorView::BadConnection(
                line@,
            ),
        },
        match r {
            Ok(b) => result_view(r) == Ok::<BootstrapView, BootstrapErrorView>(b@),
            Err(e) => result_view(r) == Err::<BootstrapView, BootstrapErrorView>(e@),
        },
        match s {
            Some(t) => string_view(s) == Some(t@),
            None => string_view(s) is None,
        },
        offer@.port == offer.port,
        offer@.key == offer.key@,
        offer_view(Some(offer)) == Some(offer@),
        offer_view(None) is None,
{
}

/// The messages of the errors.
pub proof fn law_bootstrap_messages(words: Seq<char>)
    ensures
        bootstrap_message(BootstrapErrorView::NoConnect { output: words })
            == "no MOSH CONNECT line (is mosh \u{2265} 1.4 installed on the server?): "@ + words,
        bootstrap_message(BootstrapErrorView::BadConnect(words)) == "bad MOSH CONNECT line: "@
            + words,
        bootstrap_message(BootstrapErrorView::BadConnection(words))
            == "bad MOSH SSH_CONNECTION line: "@ + words,
{
}

/// Whether every character is white space.
spec fn is_gap(s: Seq<char>) -> bool {
    forall|i: int| 0 <= i < s.len() ==> is_white_space(#[trigger] s[i])
}

/// Whether a text is one word.
spec fn is_word(s: Seq<char>) -> bool {
    s.len() > 0 && forall|i: int| 0 <= i < s.len() ==> !is_white_space(#[trigger] s[i])
}

/// A gap before other text goes.
proof fn lemma_gap_goes(gap: Seq<char>, rest: Seq<char>)
    requires
        is_gap(gap),
    ensures
        words(gap + rest) == words(rest),
    decreases gap.len(),
{
    if gap.len() == 0 {
        assert(gap + rest =~= rest);
    } else {
        let less = gap.skip(1);
        assert(is_white_space(gap[0]));
        assert forall|i: int| 0 <= i < less.len() implies is_white_space(#[trigger] less[i]) by {
            assert(less[i] == gap[i + 1]);
        }
        lemma_gap_goes(less, rest);
        assert((gap + rest).skip(1) =~= less + rest);
    }
}

/// A word with a gap behind it is one word.
proof fn lemma_word_and_gap(word: Seq<char>, gap: Seq<char>, rest: Seq<char>)
    requires
        is_word(word),
        is_gap(gap),
        gap.len() > 0 || rest.len() == 0,
    ensures
        words(word + gap + rest) == seq![word] + words(rest),
{
    let none = Seq::<char>::empty();
    if gap.len() == 0 {
        law_white_space_parts_words(word, ' ', rest);
        assert(word + gap + rest =~= word);
        assert(rest =~= none);
        assert(seq![word] + words(none) =~= seq![word]);
    } else {
        let less = gap.skip(1);
        assert(is_white_space(gap[0]));
        assert forall|i: int| 0 <= i < less.len() implies is_white_space(#[trigger] less[i]) by {
            assert(less[i] == gap[i + 1]);
        }
        law_white_space_parts_words(word, gap[0], less + rest);
        lemma_gap_goes(less, rest);
        assert(word + gap + rest =~= word + seq![gap[0]] + (less + rest));
    }
}

/// The line that tells the addresses: four words behind `MOSH SSH_CONNECTION `,
/// whatever white space parts them.
pub open spec fn is_probe_line(
    line: Seq<char>,
    a: Seq<char>,
    b: Seq<char>,
    c: Seq<char>,
    d: Seq<char>,
) -> bool {
    exists|g0: Seq<char>, g1: Seq<char>, g2: Seq<char>, g3: Seq<char>, g4: Seq<char>|
        {
            &&& line == #[trigger] ("MOSH SSH_CONNECTION "@ + (g0 + (a + g1 + (b + g2 + (c + g3 + (d
                + g4))))))
            &&& g1.len() > 0 && g2.len() > 0 && g3.len() > 0
            &&& forall|i: int| 0 <= i < g0.len() ==> is_white_space(#[trigger] g0[i])
            &&& forall|i: int| 0 <= i < g1.len() ==> is_white_space(#[trigger] g1[i])
            &&& forall|i: int| 0 <= i < g2.len() ==> is_white_space(#[trigger] g2[i])
            &&& forall|i: int| 0 <= i < g3.len() ==> is_white_space(#[trigger] g3[i])
            &&& forall|i: int| 0 <= i < g4.len() ==> is_white_space(#[trigger] g4[i])
        }
}

/// A probe line is read as its four words.
proof fn lemma_probe_line(
    line: Seq<char>,
    a: Seq<char>,
    b: Seq<char>,
    c: Seq<char>,
    d: Seq<char>,
)
    requires
        is_word(a),
        is_word(b),
        is_word(c),
        is_word(d),
        is_probe_line(line, a, b, c, d),
    ensures
        is_probe(line),
        probe_words(line) == seq![a, b, c, d],
{
    let start = "MOSH SSH_CONNECTION "@;
    let none = Seq::<char>::empty();
    let (g0, g1, g2, g3, g4) = choose|
        g0: Seq<char>,
        g1: Seq<char>,
        g2: Seq<char>,
        g3: Seq<char>,
        g4: Seq<char>,
    |
        {
            &&& line == #[trigger] ("MOSH SSH_CONNECTION "@ + (g0 + (a + g1 + (b + g2 + (c + g3 + (d
                + g4))))))
            &&& g1.len() > 0 && g2.len() > 0 && g3.len() > 0
            &&& forall|i: int| 0 <= i < g0.len() ==> is_white_space(#[trigger] g0[i])
            &&& forall|i: int| 0 <= i < g1.len() ==> is_white_space(#[trigger] g1[i])
            &&& forall|i: int| 0 <= i < g2.len() ==> is_white_space(#[trigger] g2[i])
            &&& forall|i: int| 0 <= i < g3.len() ==> is_white_space(#[trigger] g3[i])
            &&& forall|i: int| 0 <= i < g4.len() ==> is_white_space(#[trigger] g4[i])
        };
    let s4 = d + g4;
    let s3 = c + g3 + s4;
    let s2 = b + g2 + s3;
    let s1 = a + g1 + s2;
    let s0 = g0 + s1;
    assert(start =~= line.subrange(0, start.len() as int));
    assert(line.skip(start.len() as int) =~= s0);
    lemma_gap_goes(g0, s1);
    lemma_word_and_gap(a, g1, s2);
    lemma_word_and_gap(b, g2, s3);
    lemma_word_and_gap(c, g3, s4);
    lemma_word_and_gap(d, g4, none);
    assert(d + g4 + none =~= s4);
    assert(words(none) =~= Seq::<Seq<char>>::empty());
    assert(words(s0) =~= seq![a, b, c, d]);
}

/// Where no line is faulty, a probe is the only one, and it is the one that counts.
proof fn lemma_probe_counts(said: Seq<Seq<char>>, i: int)
    requires
        0 <= i < said.len(),
        is_probe(said[i]),
        first_fault(said) is None,
    ensures
        probed_ip(said) == Some(probe_words(said[i])[2]),
        probe_words(said[i]).len() == 4,
{
    let before = said.take(i);
    let upto = said.take(i + 1);
    assert(upto.drop_last() =~= before);
    assert(upto.last() == said[i]);
    lemma_fault_stays(said, i + 1);
    lemma_first_stays(said, i + 1);
}

/// Where the output starts a session, the server's address is the third word of
/// the line that tells the addresses, and unknown where no line does.
pub proof fn law_server_is_the_third_word(
    said: Seq<Seq<char>>,
    i: int,
    a: Seq<char>,
    b: Seq<char>,
    c: Seq<char>,
    d: Seq<char>,
)
    requires
        a.len() > 0 && b.len() > 0 && c.len() > 0 && d.len() > 0,
        forall|k: int| 0 <= k < a.len() ==> !is_white_space(#[trigger] a[k]),
        forall|k: int| 0 <= k < b.len() ==> !is_white_space(#[trigger] b[k]),
        forall|k: int| 0 <= k < c.len() ==> !is_white_space(#[trigger] c[k]),
        forall|k: int| 0 <= k < d.len() ==> !is_white_space(#[trigger] d[k]),
    ensures
        0 <= i < said.len() && is_probe_line(said[i], a, b, c, d) ==> (bootstrap_of(said) matches Ok(
            found,
        ) ==> found.server_ip == Some(c)),
        0 <= i < said.len() && said[i] == "MOSH SSH_CONNECTION "@ + a + seq![' '] + b + seq![' ']
            + c + seq![' '] + d ==> (bootstrap_of(said) matches Ok(found) ==> found.server_ip
            == Some(c)),
        (forall|k: int|
            0 <= k < said.len() ==> !("MOSH SSH_CONNECTION "@.is_prefix_of(#[trigger] said[k])))
            ==> (bootstrap_of(said) matches Ok(found) ==> found.server_ip is None),
{
    let start = "MOSH SSH_CONNECTION "@;
    let none = Seq::<char>::empty();
    if 0 <= i < said.len() {
        let line = said[i];
        let gap = seq![' '];
        if line == start + a + gap + b + gap + c + gap + d {
            assert(line =~= start + (none + (a + gap + (b + gap + (c + gap + (d + none))))));
            assert(is_probe_line(line, a, b, c, d));
        }
        if is_probe_line(line, a, b, c, d) && bootstrap_of(said) is Ok {
            lemma_probe_line(line, a, b, c, d);
            lemma_probe_counts(said, i);
        }
    }
    if forall|k: int|
        0 <= k < said.len() ==> !("MOSH SSH_CONNECTION "@.is_prefix_of(#[trigger] said[k])) {
        lemma_no_probe(said);
    }
}

/// Without a probe nothing is probed, and nothing is faulty.
proof fn lemma_no_probe(said: Seq<Seq<char>>)
    requires
        forall|k: int|
            0 <= k < said.len() ==> !("MOSH SSH_CONNECTION "@.is_prefix_of(#[trigger] said[k])),
    ensures
        probed_ip(said) is None,
        first_fault(said) is None,
    decreases said.len(),
{
    if said.len() > 0 {
        let front = said.drop_last();
        assert(!("MOSH SSH_CONNECTION "@.is_prefix_of(said[said.len() - 1])));
        assert forall|k: int| 0 <= k < front.len() implies !("MOSH SSH_CONNECTION "@.is_prefix_of(
            #[trigger] front[k],
        )) by {
            assert(front[k] == said[k]);
        }
        lemma_no_probe(front);
    }
}

/// The first line that tells the addresses is an error where it does not tell four
/// words. A second such line is an error where both do.
pub proof fn law_faulty_probes(said: Seq<Seq<char>>, i: int, j: int)
    requires
        0 <= i < said.len(),
        "MOSH SSH_CONNECTION "@.is_prefix_of(said[i]),
        forall|k: int|
            0 <= k < i ==> !("MOSH SSH_CONNECTION "@.is_prefix_of(#[trigger] said[k])),
    ensures
        ({
            let told = words(said[i].skip("MOSH SSH_CONNECTION "@.len() as int));
            let again = words(said[j].skip("MOSH SSH_CONNECTION "@.len() as int));
            &&& told.len() != 4 ==> bootstrap_of(said) == Err::<BootstrapView, BootstrapErrorView>(
                BootstrapErrorView::BadConnection(said[i]),
            )
            &&& told.len() == 4 && i < j < said.len() && "MOSH SSH_CONNECTION "@.is_prefix_of(
                said[j],
            ) && (forall|k: int|
                i < k < j ==> !("MOSH SSH_CONNECTION "@.is_prefix_of(#[trigger] said[k])))
                ==> bootstrap_of(said) == Err::<BootstrapView, BootstrapErrorView>(
                BootstrapErrorView::BadConnection(
                    if again.len() != 4 {
                        said[j]
                    } else {
                        "attempt to redefine MOSH SSH_CONNECTION"@
                    },
                ),
            )
        }),
{
    let start = "MOSH SSH_CONNECTION "@;
    let before = said.take(i);
    let upto = said.take(i + 1);
    assert(upto.drop_last() =~= before);
    assert(upto.last() == said[i]);
    assert forall|k: int| 0 <= k < before.len() implies !(start.is_prefix_of(#[trigger] before[k]))
        by {
        assert(before[k] == said[k]);
    }
    lemma_no_probe(before);
    lemma_fault_stays(said, i + 1);
    let told = words(said[i].skip(start.len() as int));
    if told.len() == 4 && i < j < said.len() && start.is_prefix_of(said[j]) && (forall|k: int|
        i < k < j ==> !("MOSH SSH_CONNECTION "@.is_prefix_of(#[trigger] said[k]))) {
        lemma_quiet_between(said, i, j);
        let front = said.take(j);
        let whole = said.take(j + 1);
        assert(whole.drop_last() =~= front);
        assert(whole.last() == said[j]);
        lemma_fault_stays(said, j + 1);
    }
}

/// Nothing is faulty between two probes of which the first is the only one before.
proof fn lemma_quiet_between(said: Seq<Seq<char>>, i: int, j: int)
    requires
        0 <= i < j <= said.len(),
        first_fault(said.take(i + 1)) is None,
        probed_ip(said.take(i + 1)) is Some,
        forall|k: int|
            i < k < j ==> !("MOSH SSH_CONNECTION "@.is_prefix_of(#[trigger] said[k])),
    ensures
        first_fault(said.take(j)) is None,
        probed_ip(said.take(j)) is Some,
    decreases j,
{
    if j > i + 1 {
        lemma_quiet_between(said, i, j - 1);
        let upto = said.take(j);
        assert(upto.drop_last() =~= said.take(j - 1));
        assert(upto.last() == said[j - 1]);
        assert(!("MOSH SSH_CONNECTION "@.is_prefix_of(said[j - 1])));
    }
}

/// The first well-formed offer is what is found, whatever stands before and behind
/// it: the number that its digits write and its key of 22 characters. Only a faulty
/// line with the addresses stands against it.
pub proof fn law_first_good_offer_is_found(
    said: Seq<Seq<char>>,
    i: int,
    digits: Seq<char>,
    key: Seq<char>,
    tail: Seq<char>,
)
    requires
        0 <= i < said.len(),
        said[i] == "MOSH CONNECT "@ + digits + seq![' '] + key + tail,
        digits.len() > 0,
        forall|k: int| 0 <= k < digits.len() ==> '0' <= #[trigger] digits[k] <= '9',
        decimal_value(digits) <= 65535,
        key.len() == 22,
        forall|k: int|
            0 <= k < 22 ==> {
                let c = #[trigger] key[k];
                '0' <= c <= '9' || 'A' <= c <= 'Z' || 'a' <= c <= 'z' || c == '/' || c == '+'
            },
        forall|k: int| 0 <= k < tail.len() ==> is_white_space(#[trigger] tail[k]),
        forall|k: int|
            0 <= k < i ==> (!("MOSH CONNECT "@.is_prefix_of(#[trigger] said[k])) || offer_of(said[k])
                is None),
    ensures
        bootstrap_of(said) matches Ok(found) ==> found.port == decimal_value(digits) && found.key
            == key,
        bootstrap_of(said) matches Err(e) ==> e is BadConnection,
{
    law_offer_is_read(digits, key, tail);
    let before = said.take(i);
    let upto = said.take(i + 1);
    assert(upto.drop_last() =~= before);
    assert(upto.last() == said[i]);
    assert forall|k: int| 0 <= k < before.len() implies (!is_offer(#[trigger] before[k]) || offer_of(
        before[k],
    ) is None) by {
        assert(before[k] == said[k]);
    }
    lemma_no_good_offer(before);
    lemma_first_stays(said, i + 1);
    lemma_fault_kind(said);
}

/// Without a well-formed offer none is found.
proof fn lemma_no_good_offer(said: Seq<Seq<char>>)
    requires
        forall|k: int|
            0 <= k < said.len() ==> (!is_offer(#[trigger] said[k]) || offer_of(said[k]) is None),
    ensures
        first_offer(said) is None,
    decreases said.len(),
{
    if said.len() > 0 {
        let front = said.drop_last();
        assert(!is_offer(said[said.len() - 1]) || offer_of(said[said.len() - 1]) is None);
        assert forall|k: int| 0 <= k < front.len() implies (!is_offer(#[trigger] front[k])
            || offer_of(front[k]) is None) by {
            assert(front[k] == said[k]);
        }
        lemma_no_good_offer(front);
    }
}

/// Whether a line offers a port and a key: digits that write the port, a space, 22
/// characters of the alphabet, and white space behind them.
pub open spec fn is_offer_line(line: Seq<char>, port: u16, key: Seq<char>) -> bool {
    exists|digits: Seq<char>, tail: Seq<char>|
        {
            &&& line == #[trigger] ("MOSH CONNECT "@ + digits + seq![' '] + key + tail)
            &&& digits.len() > 0
            &&& forall|k: int| 0 <= k < digits.len() ==> '0' <= #[trigger] digits[k] <= '9'
            &&& decimal_value(digits) == port
            &&& key.len() == 22
            &&& forall|k: int|
                0 <= k < 22 ==> {
                    let c = #[trigger] key[k];
                    '0' <= c <= '9' || 'A' <= c <= 'Z' || 'a' <= c <= 'z' || c == '/' || c == '+'
                }
            &&& forall|k: int| 0 <= k < tail.len() ==> is_white_space(#[trigger] tail[k])
        }
}

/// A line is read as an offer if and only if it has the form of one.
pub proof fn law_offer_grammar(line: Seq<char>, port: u16, key: Seq<char>)
    requires
        "MOSH CONNECT "@.is_prefix_of(line),
    ensures
        offer_of(line) == Some(OfferView { port, key }) <==> is_offer_line(line, port, key),
{
    if offer_of(line) == Some(OfferView { port, key }) {
        law_only_an_offer_is_read(line, OfferView { port, key });
    }
    if is_offer_line(line, port, key) {
        let (digits, tail) = choose|digits: Seq<char>, tail: Seq<char>|
            {
                &&& line == #[trigger] ("MOSH CONNECT "@ + digits + seq![' '] + key + tail)
                &&& digits.len() > 0
                &&& forall|k: int| 0 <= k < digits.len() ==> '0' <= #[trigger] digits[k] <= '9'
                &&& decimal_value(digits) == port
                &&& key.len() == 22
                &&& forall|k: int|
                    0 <= k < 22 ==> {
                        let c = #[trigger] key[k];
                        '0' <= c <= '9' || 'A' <= c <= 'Z' || 'a' <= c <= 'z' || c == '/' || c
                            == '+'
                    }
                &&& forall|k: int| 0 <= k < tail.len() ==> is_white_space(#[trigger] tail[k])
            };
        law_offer_is_read(digits, key, tail);
    }
}

/// What is found was offered: some line has the form of an offer of that port and
/// key, and no line before it has the form of any.
pub proof fn law_what_is_found_was_offered(said: Seq<Seq<char>>, found: BootstrapView)
    requires
        bootstrap_of(said) == Ok::<BootstrapView, BootstrapErrorView>(found),
    ensures
        exists|i: int|
            0 <= i < said.len() && is_offer_line(#[trigger] said[i], found.port, found.key) && (
            forall|k: int, port: u16, key: Seq<char>|
                0 <= k < i ==> !(#[trigger] is_offer_line(said[k], port, key))),
{
    let i = lemma_offer_found(said);
    let offer = first_offer(said)->Some_0;
    law_offer_grammar(said[i], offer.port, offer.key);
    assert forall|k: int, port: u16, key: Seq<char>| 0 <= k < i implies !(
    #[trigger] is_offer_line(said[k], port, key)) by {
        if is_offer_line(said[k], port, key) {
            let (digits, tail) = choose|digits: Seq<char>, tail: Seq<char>|
                said[k] == #[trigger] ("MOSH CONNECT "@ + digits + seq![' '] + key + tail);
            assert("MOSH CONNECT "@ =~= said[k].subrange(0, "MOSH CONNECT "@.len() as int));
            law_offer_grammar(said[k], port, key);
        }
    }
}

/// The line of the first well-formed offer.
proof fn lemma_offer_found(said: Seq<Seq<char>>) -> (i: int)
    requires
        first_offer(said) is Some,
    ensures
        0 <= i < said.len(),
        is_offer(said[i]),
        offer_of(said[i]) == first_offer(said),
        forall|k: int|
            0 <= k < i ==> (!is_offer(#[trigger] said[k]) || offer_of(said[k]) is None),
    decreases said.len(),
{
    let front = said.drop_last();
    if first_offer(front) is Some {
        let i = lemma_offer_found(front);
        assert(front[i] == said[i]);
        assert forall|k: int| 0 <= k < i implies (!is_offer(#[trigger] said[k]) || offer_of(said[k])
            is None) by {
            assert(front[k] == said[k]);
        }
        i
    } else {
        let i = said.len() - 1;
        assert forall|k: int| 0 <= k < i implies (!is_offer(#[trigger] said[k]) || offer_of(said[k])
            is None) by {
            lemma_none_before(front, k);
            assert(front[k] == said[k]);
        }
        i
    }
}

/// Where no offer is found, no line is a well-formed one.
proof fn lemma_none_before(said: Seq<Seq<char>>, k: int)
    requires
        first_offer(said) is None,
        0 <= k < said.len(),
    ensures
        !is_offer(said[k]) || offer_of(said[k]) is None,
{
    let upto = said.take(k + 1);
    assert(upto.last() == said[k]);
    lemma_first_stays(said, k + 1);
}

/// A line with the addresses is not faulty where it tells four words and is the
/// only one, and none is faulty where there is none.
pub proof fn law_one_good_probe_is_no_fault(said: Seq<Seq<char>>, i: int)
    requires
        forall|k: int|
            0 <= k < said.len() && k != i ==> !("MOSH SSH_CONNECTION "@.is_prefix_of(
                #[trigger] said[k],
            )),
        0 <= i < said.len() && "MOSH SSH_CONNECTION "@.is_prefix_of(said[i]) ==> words(
            said[i].skip("MOSH SSH_CONNECTION "@.len() as int),
        ).len() == 4,
    ensures
        bootstrap_of(said) matches Err(e) ==> e !is BadConnection,
{
    lemma_one_good_probe(said, i);
}

/// Such a line is no fault.
proof fn lemma_one_good_probe(said: Seq<Seq<char>>, i: int)
    requires
        forall|k: int|
            0 <= k < said.len() && k != i ==> !("MOSH SSH_CONNECTION "@.is_prefix_of(
                #[trigger] said[k],
            )),
        0 <= i < said.len() && "MOSH SSH_CONNECTION "@.is_prefix_of(said[i]) ==> words(
            said[i].skip("MOSH SSH_CONNECTION "@.len() as int),
        ).len() == 4,
    ensures
        first_fault(said) is None,
    decreases said.len(),
{
    if said.len() > 0 {
        let front = said.drop_last();
        let last = said.len() - 1;
        assert forall|k: int| 0 <= k < front.len() && k != i implies !(
        "MOSH SSH_CONNECTION "@.is_prefix_of(#[trigger] front[k])) by {
            assert(front[k] == said[k]);
        }
        assert(0 <= i < front.len() ==> front[i] == said[i]);
        lemma_one_good_probe(front, i);
        if last == i {
            lemma_no_probe(front);
        } else {
            assert(!("MOSH SSH_CONNECTION "@.is_prefix_of(said[last])));
        }
    }
}

/// Where no line with the addresses is faulty and no line is a well-formed offer,
/// the error is the first malformed offer, or, where no line means to offer a
/// session, what was said besides the addresses, of which the last 400 characters
/// are kept.
pub proof fn law_without_a_good_offer(said: Seq<Seq<char>>, i: int)
    requires
        bootstrap_of(said) matches Err(e) ==> e !is BadConnection,
        forall|k: int|
            0 <= k < said.len() ==> (!("MOSH CONNECT "@.is_prefix_of(#[trigger] said[k]))
                || offer_of(said[k]) is None),
    ensures
        (0 <= i < said.len() && "MOSH CONNECT "@.is_prefix_of(said[i]) && (forall|k: int|
            0 <= k < i ==> !("MOSH CONNECT "@.is_prefix_of(#[trigger] said[k]))))
            ==> bootstrap_of(said) == Err::<BootstrapView, BootstrapErrorView>(
            BootstrapErrorView::BadConnect(said[i]),
        ),
        (forall|k: int| 0 <= k < said.len() ==> !("MOSH CONNECT "@.is_prefix_of(#[trigger] said[k])))
            ==> {
            let all = joined_by(notes(said), "\n"@);
            bootstrap_of(said) == Err::<BootstrapView, BootstrapErrorView>(
                BootstrapErrorView::NoConnect {
                    output: if all.len() > 400 {
                        seq!['\u{2026}'] + all.skip(all.len() - 400)
                    } else {
                        all
                    },
                },
            )
        },
{
    lemma_fault_kind(said);
    assert forall|k: int| 0 <= k < said.len() implies (!is_offer(#[trigger] said[k]) || offer_of(
        said[k],
    ) is None) by {}
    lemma_no_good_offer(said);
    if 0 <= i < said.len() && "MOSH CONNECT "@.is_prefix_of(said[i]) && (forall|k: int|
        0 <= k < i ==> !("MOSH CONNECT "@.is_prefix_of(#[trigger] said[k]))) {
        let before = said.take(i);
        let upto = said.take(i + 1);
        assert(upto.drop_last() =~= before);
        assert(upto.last() == said[i]);
        assert(is_offer(said[i]));
        assert forall|k: int| 0 <= k < before.len() implies !is_offer(#[trigger] before[k]) by {
            assert(before[k] == said[k]);
        }
        lemma_none_malformed(before);
        lemma_malformed_stays(said, i + 1);
    }
    if forall|k: int| 0 <= k < said.len() ==> !("MOSH CONNECT "@.is_prefix_of(#[trigger] said[k])) {
        assert forall|k: int| 0 <= k < said.len() implies !is_offer(#[trigger] said[k]) by {}
        lemma_none_malformed(said);
    }
}

/// Without an offer none is malformed.
proof fn lemma_none_malformed(said: Seq<Seq<char>>)
    requires
        forall|k: int| 0 <= k < said.len() ==> !is_offer(#[trigger] said[k]),
    ensures
        first_malformed(said) is None,
    decreases said.len(),
{
    if said.len() > 0 {
        let front = said.drop_last();
        assert(!is_offer(said[said.len() - 1]));
        assert forall|k: int| 0 <= k < front.len() implies !is_offer(#[trigger] front[k]) by {
            assert(front[k] == said[k]);
        }
        lemma_none_malformed(front);
    }
}

/// The first malformed offer stays the first.
proof fn lemma_malformed_stays(said: Seq<Seq<char>>, n: int)
    requires
        0 <= n <= said.len(),
    ensures
        first_malformed(said.take(n)) is Some ==> first_malformed(said) == first_malformed(
            said.take(n),
        ),
    decreases said.len(),
{
    if n == said.len() {
        assert(said.take(n) =~= said);
    } else {
        lemma_malformed_stays(said.drop_last(), n);
        assert(said.drop_last().take(n) =~= said.take(n));
    }
}

/// What is quoted where no session is offered: every line that neither tells the
/// addresses nor means to offer a session, in order.
pub proof fn law_other_lines_are_quoted(before: Seq<Seq<char>>, line: Seq<char>)
    ensures
        notes(Seq::empty()) == Seq::<Seq<char>>::empty(),
        "MOSH SSH_CONNECTION "@.is_prefix_of(line) || "MOSH CONNECT "@.is_prefix_of(line) ==> notes(
            before.push(line),
        ) == notes(before),
        !("MOSH SSH_CONNECTION "@.is_prefix_of(line)) && !("MOSH CONNECT "@.is_prefix_of(line))
            ==> notes(before.push(line)) == notes(before).push(line),
{
    assert(before.push(line).drop_last() =~= before);
}

/// What the shell hands to `mosh-server`: `new`, 256 colors, the address of the SSH
/// connection and the locale, always; then the port, where one is given; then the
/// words to run behind `--`, where any are given; and nothing else.
pub proof fn law_server_gets_its_arguments(
    locale: Seq<char>,
    payload: Option<Seq<Seq<char>>>,
    port: Option<u16>,
)
    ensures
        ({
            let start =
                "sh -c '[ -n \"$SSH_CONNECTION\" ] && printf \"\\nMOSH SSH_CONNECTION %s\\n\" \"$SSH_CONNECTION\"'"@
                + " ; mosh-server "@;
            let command = server_command(locale, payload, port);
            let fixed = seq!["new"@, "-c"@, "256"@, "-s"@, "-l"@, "LANG="@ + locale];
            let pinned = match port {
                Some(port) => seq!["-p"@, decimal(port as nat)],
                None => Seq::empty(),
            };
            let run = match payload {
                Some(words) => seq!["--"@] + words,
                None => Seq::empty(),
            };
            &&& start.is_prefix_of(command)
            &&& shell_args(command.skip(start.len() as int), false, None) == Some(
                fixed + pinned + run,
            )
        }),
{
    let start =
        "sh -c '[ -n \"$SSH_CONNECTION\" ] && printf \"\\nMOSH SSH_CONNECTION %s\\n\" \"$SSH_CONNECTION\"'"@
        + " ; mosh-server "@;
    let command = server_command(locale, payload, port);
    let args = server_args(locale, payload, port);
    let rest = joined_by(all_shell_quoted(args), " "@);
    law_shell_sees_the_arguments(args);
    assert(command =~= start + rest);
    assert(start =~= command.subrange(0, start.len() as int));
    assert(command.skip(start.len() as int) =~= rest);
}

/// An argument is quoted character by character between single quotes; only a
/// single quote is written otherwise. Quoted arguments stand one space apart.
pub proof fn law_quoting(arg: Seq<char>, c: char, args: Seq<Seq<char>>)
    ensures
        shell_quoted(arg) == seq!['\''] + quoted_chars(arg) + seq!['\''],
        quoted_chars(Seq::empty()) == Seq::<char>::empty(),
        quoted_chars(arg.push('\'')) == quoted_chars(arg) + seq!['\'', '\\', '\'', '\''],
        c != '\'' ==> quoted_chars(arg.push(c)) == quoted_chars(arg).push(c),
        args.len() > 0 ==> joined_by(all_shell_quoted(args.push(arg)), " "@) == joined_by(
            all_shell_quoted(args),
            " "@,
        ) + " "@ + shell_quoted(arg),
{
    assert(arg.push('\'').drop_last() =~= arg);
    assert(arg.push(c).drop_last() =~= arg);
    assert(all_shell_quoted(args.push(arg)).drop_last() =~= all_shell_quoted(args));
}

/// The whole command is the probe, and `mosh-server` with the quoted arguments
/// behind it.
pub proof fn law_command_text(
    locale: Seq<char>,
    payload: Option<Seq<Seq<char>>>,
    port: Option<u16>,
    args: Seq<Seq<char>>,
)
    requires
        args == seq!["new"@, "-c"@, "256"@, "-s"@, "-l"@, "LANG="@ + locale] + (match port {
            Some(port) => seq!["-p"@, decimal(port as nat)],
            None => Seq::empty(),
        }) + (match payload {
            Some(words) => seq!["--"@] + words,
            None => Seq::empty(),
        }),
    ensures
        server_command(locale, payload, port)
            == "sh -c '[ -n \"$SSH_CONNECTION\" ] && printf \"\\nMOSH SSH_CONNECTION %s\\n\" \"$SSH_CONNECTION\"'"@
            + " ; mosh-server "@ + joined_by(all_shell_quoted(args), " "@),
{
    assert(args == server_args(locale, payload, port));
}

/// A payload says what its words say.
pub proof fn law_payload_view(payload: Option<Vec<String>>)
    ensures
        match payload {
            Some(args) => payload_view(payload) == Some(strings_view(args@)),
            None => payload_view(payload) is None,
        },
{
}

} // verus!
