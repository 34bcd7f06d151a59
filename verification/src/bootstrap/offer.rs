//! The line that offers a session: `MOSH CONNECT <port> <key>`.

use vstd::prelude::*;

use crate::text::{decimal_value, is_digit, is_white_space, to_chars, to_text, white_space};

verus! {

/// A character of the printable session key.
pub open spec fn is_key_char(c: char) -> bool {
    ||| '0' <= c <= '9'
    ||| 'A' <= c <= 'Z'
    ||| 'a' <= c <= 'z'
    ||| c == '/'
    ||| c == '+'
}

/// Whether every character is one of the session key.
pub open spec fn all_key_chars(s: Seq<char>) -> bool {
    forall|i: int| 0 <= i < s.len() ==> is_key_char(#[trigger] s[i])
}

/// Whether every character is white space.
pub open spec fn all_white_space(s: Seq<char>) -> bool {
    forall|i: int| 0 <= i < s.len() ==> is_white_space(#[trigger] s[i])
}

/// Whether every character is a digit.
pub open spec fn all_digits(s: Seq<char>) -> bool {
    forall|i: int| 0 <= i < s.len() ==> is_digit(#[trigger] s[i])
}

/// The length of the run of digits that `s` starts with.
pub open spec fn digits_len(s: Seq<char>) -> nat
    decreases s.len(),
{
    if s.len() == 0 || !is_digit(s[0]) {
        0
    } else {
        digits_len(s.skip(1)) + 1
    }
}

/// What an offer says.
#[verifier::ext_equal]
pub struct OfferView {
    pub port: u16,
    pub key: Seq<char>,
}

/// The offer in what follows `MOSH CONNECT `: a port in decimal, a space, a key
/// of 22 characters, and nothing but white space behind it.
pub open spec fn offer_in(s: Seq<char>) -> Option<OfferView> {
    let n = digits_len(s) as int;
    if 0 < n && n + 23 <= s.len() && s[n] == ' ' && all_key_chars(s.subrange(n + 1, n + 23))
        && all_white_space(s.skip(n + 23)) && decimal_value(s.take(n)) <= 0xFFFF {
        Some(
            OfferView {
                port: decimal_value(s.take(n)) as u16,
                key: s.subrange(n + 1, n + 23),
            },
        )
    } else {
        None
    }
}

/// Whether a line means to offer a session.
pub open spec fn is_offer(line: Seq<char>) -> bool {
    "MOSH CONNECT "@.is_prefix_of(line)
}

/// The offer that a line makes, unless it is malformed.
pub open spec fn offer_of(line: Seq<char>) -> Option<OfferView> {
    offer_in(line.skip("MOSH CONNECT "@.len() as int))
}

/// A port and a key.
pub struct Offer {
    pub port: u16,
    pub key: String,
}

impl View for Offer {
    type V = OfferView;

    open spec fn view(&self) -> OfferView {
        OfferView { port: self.port, key: self.key@ }
    }
}

/// What an optional offer says.
pub open spec fn offer_view(offer: Option<Offer>) -> Option<OfferView> {
    match offer {
        Some(offer) => Some(offer@),
        None => None,
    }
}

/// Where a run of digits ends.
pub proof fn lemma_digits_len_is(s: Seq<char>, n: int)
    requires
        0 <= n <= s.len(),
        forall|i: int| 0 <= i < n ==> is_digit(s[i]),
        n < s.len() ==> !is_digit(s[n]),
    ensures
        digits_len(s) == n,
    decreases n,
{
    if n > 0 {
        assert forall|i: int| 0 <= i < n - 1 implies is_digit(s.skip(1)[i]) by {
            assert(s.skip(1)[i] == s[i + 1]);
        }
        lemma_digits_len_is(s.skip(1), n - 1);
    }
}

/// More digits write no smaller number.
proof fn lemma_decimal_prefix(s: Seq<char>, i: int)
    requires
        0 <= i <= s.len(),
    ensures
        decimal_value(s.take(i)) <= decimal_value(s),
    decreases s.len(),
{
    if i == s.len() {
        assert(s.take(i) =~= s);
    } else {
        lemma_decimal_prefix(s.drop_last(), i);
        assert(s.drop_last().take(i) =~= s.take(i));
    }
}

/// Whether `c` is a character of the session key.
fn key_char(c: char) -> (r: bool)
    ensures
        r == is_key_char(c),
{
    ('0' <= c && c <= '9') || ('A' <= c && c <= 'Z') || ('a' <= c && c <= 'z') || c == '/' || c
        == '+'
}

/// Reads a run of digits as a port, unless it is too large for one.
fn read_port(digits: &[char]) -> (r: Option<u16>)
    requires
        all_digits(digits@),
    ensures
        match r {
            Some(port) => port == decimal_value(digits@),
            None => decimal_value(digits@) > 0xFFFF,
        },
{
    let mut value: u32 = 0;
    let mut i: usize = 0;
    proof {
        assert(digits@.take(0) =~= Seq::<char>::empty());
    }
    while i < digits.len()
        invariant
            i <= digits.len(),
            all_digits(digits@),
            value <= 0xFFFF,
            value == decimal_value(digits@.take(i as int)),
        decreases digits.len() - i,
    {
        let c: char = digits[i];
        proof {
            assert(is_digit(digits@[i as int]));
            assert(digits@.take(i + 1).drop_last() =~= digits@.take(i as int));
            lemma_decimal_prefix(digits@, i + 1);
        }
        value = value * 10 + (c as u32 - '0' as u32);
        if value > 0xFFFF {
            return None;
        }
        i = i + 1;
    }
    proof {
        assert(digits@.take(i as int) =~= digits@);
    }
    Some(value as u16)
}

/// Reads the offer in what follows `MOSH CONNECT `.
fn read_offer(s: &[char]) -> (r: Option<Offer>)
    ensures
        offer_view(r) == offer_in(s@),
{
    let mut n: usize = 0;
    while n < s.len() && '0' <= s[n] && s[n] <= '9'
        invariant
            n <= s.len(),
            forall|i: int| 0 <= i < n ==> is_digit(s@[i]),
        decreases s.len() - n,
    {
        n = n + 1;
    }
    proof {
        lemma_digits_len_is(s@, n as int);
    }
    if n == 0 || s.len() - n < 23 || s[n] != ' ' {
        return None;
    }
    let start: usize = n + 1;
    let end: usize = n + 23;
    let mut i: usize = start;
    while i < end
        invariant
            start <= i <= end <= s.len(),
            start == n + 1,
            end == n + 23,
            n == digits_len(s@),
            forall|j: int| start <= j < i ==> is_key_char(s@[j]),
        decreases end - i,
    {
        if !key_char(s[i]) {
            proof {
                assert(s@.subrange(n + 1, n + 23)[i - start] == s@[i as int]);
            }
            return None;
        }
        i = i + 1;
    }
    while i < s.len()
        invariant
            end <= i <= s.len(),
            end == n + 23,
            n == digits_len(s@),
            forall|j: int| end <= j < i ==> is_white_space(s@[j]),
        decreases s.len() - i,
    {
        if !white_space(s[i]) {
            proof {
                assert(s@.skip(n + 23)[i - end] == s@[i as int]);
            }
            return None;
        }
        i = i + 1;
    }
    let digits = vstd::slice::slice_subrange(s, 0, n);
    proof {
        assert(digits@ =~= s@.take(n as int));
        assert(all_key_chars(s@.subrange(n + 1, n + 23)));
        assert(all_white_space(s@.skip(n + 23)));
    }
    match read_port(digits) {
        Some(port) => Some(Offer { port, key: to_text(s, start, end) }),
        None => None,
    }
}

/// Reads the offer of a line that starts with `MOSH CONNECT `.
pub(crate) fn parse_offer(line: &[char]) -> (r: Option<Offer>)
    requires
        is_offer(line@),
    ensures
        offer_view(r) == offer_of(line@),
{
    let start: usize = to_chars("MOSH CONNECT ").len();
    let rest = vstd::slice::slice_subrange(line, start, line.len());
    proof {
        assert(rest@ =~= line@.skip("MOSH CONNECT "@.len() as int));
    }
    read_offer(rest)
}

} // verus!
