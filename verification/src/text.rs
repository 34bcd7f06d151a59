//! Text as sequences of characters: lines, words, numbers.

use vstd::prelude::*;

verus! {

/// `String::push` of std: the character is appended to the text.
pub assume_specification[ String::push ](text: &mut String, c: char)
    ensures
        final(text)@ == old(text)@.push(c),
;

/// The Unicode property White_Space.
pub open spec fn is_white_space(c: char) -> bool {
    ||| '\u{9}' <= c <= '\u{d}'
    ||| c == ' '
    ||| c == '\u{85}'
    ||| c == '\u{a0}'
    ||| c == '\u{1680}'
    ||| '\u{2000}' <= c <= '\u{200a}'
    ||| c == '\u{2028}'
    ||| c == '\u{2029}'
    ||| c == '\u{202f}'
    ||| c == '\u{205f}'
    ||| c == '\u{3000}'
}

/// A decimal digit.
pub open spec fn is_digit(c: char) -> bool {
    '0' <= c <= '9'
}

/// The digit of a number below ten.
pub open spec fn digit(n: nat) -> char {
    (('0' as u32) + n) as char
}

/// The number of a digit.
pub open spec fn digit_value(c: char) -> nat {
    (c as u32 - '0' as u32) as nat
}

/// A number in decimal, without leading zeros.
pub open spec fn decimal(n: nat) -> Seq<char>
    decreases n,
{
    if n < 10 {
        seq![digit(n)]
    } else {
        decimal(n / 10).push(digit(n % 10))
    }
}

/// The number that decimal digits write.
pub open spec fn decimal_value(s: Seq<char>) -> nat
    decreases s.len(),
{
    if s.len() == 0 {
        0
    } else {
        decimal_value(s.drop_last()) * 10 + digit_value(s.last())
    }
}

/// The length of the first line of `s`, without what ends it.
pub open spec fn line_len(s: Seq<char>) -> nat
    decreases s.len(),
{
    if s.len() == 0 || s[0] == '\n' {
        0
    } else {
        line_len(s.skip(1)) + 1
    }
}

/// `s` without the carriage returns at its end.
pub open spec fn without_returns(s: Seq<char>) -> Seq<char>
    decreases s.len(),
{
    if s.len() > 0 && s.last() == '\r' {
        without_returns(s.drop_last())
    } else {
        s
    }
}

/// The lines of `s`. A line feed ends a line; the last line may go without one.
pub open spec fn lines(s: Seq<char>) -> Seq<Seq<char>>
    decreases s.len(),
{
    if s.len() == 0 {
        Seq::empty()
    } else {
        let n = line_len(s);
        let line = without_returns(s.take(n as int));
        if n < s.len() {
            seq![line] + lines(s.skip(n as int + 1))
        } else {
            seq![line]
        }
    }
}

/// The length of the first word of `s`, which starts with it.
pub open spec fn word_len(s: Seq<char>) -> nat
    decreases s.len(),
{
    if s.len() == 0 || is_white_space(s[0]) {
        0
    } else {
        word_len(s.skip(1)) + 1
    }
}

/// The words of `s`: its runs of characters that are no white space.
pub open spec fn words(s: Seq<char>) -> Seq<Seq<char>>
    decreases s.len(),
{
    if s.len() == 0 {
        Seq::empty()
    } else if is_white_space(s[0]) {
        words(s.skip(1))
    } else {
        proof {
            lemma_word_len(s);
        }
        seq![s.take(word_len(s) as int)] + words(s.skip(word_len(s) as int))
    }
}

/// The items one behind the other, with `separator` between them.
pub open spec fn joined_by(items: Seq<Seq<char>>, separator: Seq<char>) -> Seq<char>
    decreases items.len(),
{
    if items.len() == 0 {
        Seq::empty()
    } else if items.len() == 1 {
        items[0]
    } else {
        joined_by(items.drop_last(), separator) + separator + items.last()
    }
}

/// What a list of texts says.
pub open spec fn texts_view(texts: Seq<Vec<char>>) -> Seq<Seq<char>> {
    Seq::new(texts.len(), |i: int| texts[i]@)
}

/// What a list of strings says.
pub open spec fn strings_view(strings: Seq<String>) -> Seq<Seq<char>> {
    Seq::new(strings.len(), |i: int| strings[i]@)
}

/// Where a line ends.
pub proof fn lemma_line_len_is(s: Seq<char>, n: int)
    requires
        0 <= n <= s.len(),
        forall|i: int| 0 <= i < n ==> s[i] != '\n',
        n < s.len() ==> s[n] == '\n',
    ensures
        line_len(s) == n,
    decreases n,
{
    if n > 0 {
        assert forall|i: int| 0 <= i < n - 1 implies s.skip(1)[i] != '\n' by {
            assert(s.skip(1)[i] == s[i + 1]);
        }
        lemma_line_len_is(s.skip(1), n - 1);
    }
}

/// A word ends within its text.
pub proof fn lemma_word_len(s: Seq<char>)
    ensures
        word_len(s) <= s.len(),
    decreases s.len(),
{
    if s.len() > 0 && !is_white_space(s[0]) {
        lemma_word_len(s.skip(1));
    }
}

/// Where a word ends.
pub proof fn lemma_word_len_is(s: Seq<char>, n: int)
    requires
        0 <= n <= s.len(),
        forall|i: int| 0 <= i < n ==> !is_white_space(s[i]),
        n < s.len() ==> is_white_space(s[n]),
    ensures
        word_len(s) == n,
    decreases n,
{
    if n > 0 {
        assert forall|i: int| 0 <= i < n - 1 implies !is_white_space(s.skip(1)[i]) by {
            assert(s.skip(1)[i] == s[i + 1]);
        }
        lemma_word_len_is(s.skip(1), n - 1);
    }
}

/// Whether `c` is white space.
pub fn white_space(c: char) -> (r: bool)
    ensures
        r == is_white_space(c),
{
    ('\u{9}' <= c && c <= '\u{d}') || c == ' ' || c == '\u{85}' || c == '\u{a0}' || c == '\u{1680}'
        || ('\u{2000}' <= c && c <= '\u{200a}') || c == '\u{2028}' || c == '\u{2029}' || c
        == '\u{202f}' || c == '\u{205f}' || c == '\u{3000}'
}

/// The characters of `text`.
pub fn to_chars(text: &str) -> (r: Vec<char>)
    ensures
        r@ == text@,
{
    let mut out: Vec<char> = Vec::new();
    for c in it: text.chars()
        invariant
            it.seq() == text@,
            out@ == text@.take(it.index() as int),
    {
        out.push(c);
        proof {
            assert(text@.take(it.index() + 1) =~= text@.take(it.index() as int).push(c));
        }
    }
    proof {
        assert(text@.take(text@.len() as int) =~= text@);
    }
    out
}

/// The characters from `start` to `end` as a string.
pub fn to_text(chars: &[char], start: usize, end: usize) -> (r: String)
    requires
        start <= end <= chars.len(),
    ensures
        r@ == chars@.subrange(start as int, end as int),
{
    let mut out = String::new();
    let mut i: usize = start;
    proof {
        assert(chars@.subrange(start as int, start as int) =~= out@);
    }
    while i < end
        invariant
            start <= i <= end <= chars.len(),
            out@ == chars@.subrange(start as int, i as int),
        decreases end - i,
    {
        out.push(chars[i]);
        i = i + 1;
        proof {
            assert(chars@.subrange(start as int, i as int) =~= chars@.subrange(
                start as int,
                i - 1,
            ).push(chars@[i - 1]));
        }
    }
    out
}

/// The characters from `start` to `end`, without the carriage returns at the end.
fn copy_line(chars: &[char], start: usize, end: usize) -> (r: Vec<char>)
    requires
        start <= end <= chars.len(),
    ensures
        r@ == without_returns(chars@.subrange(start as int, end as int)),
{
    let mut stop: usize = end;
    while stop > start && chars[stop - 1] == '\r'
        invariant
            start <= stop <= end <= chars.len(),
            without_returns(chars@.subrange(start as int, end as int)) == without_returns(
                chars@.subrange(start as int, stop as int),
            ),
        decreases stop,
    {
        proof {
            assert(chars@.subrange(start as int, stop as int).drop_last() =~= chars@.subrange(
                start as int,
                stop - 1,
            ));
        }
        stop = stop - 1;
    }
    let line: Vec<char> = vstd::slice::slice_to_vec(
        vstd::slice::slice_subrange(chars, start, stop),
    );
    line
}

/// The lines of a text.
pub fn split_lines(chars: &[char]) -> (r: Vec<Vec<char>>)
    ensures
        texts_view(r@) == lines(chars@),
{
    let mut out: Vec<Vec<char>> = Vec::new();
    let mut start: usize = 0;
    proof {
        assert(chars@.skip(0) =~= chars@);
        assert(texts_view(out@) + lines(chars@) =~= lines(chars@));
    }
    while start < chars.len()
        invariant
            start <= chars.len(),
            texts_view(out@) + lines(chars@.skip(start as int)) == lines(chars@),
        decreases chars.len() - start,
    {
        let ghost rest = chars@.skip(start as int);
        let mut end: usize = start;
        while end < chars.len() && chars[end] != '\n'
            invariant
                start <= end <= chars.len(),
                forall|i: int| start <= i < end ==> chars@[i] != '\n',
            decreases chars.len() - end,
        {
            end = end + 1;
        }
        let ghost before = texts_view(out@);
        out.push(copy_line(chars, start, end));
        proof {
            lemma_line_len_is(rest, end - start);
            assert(rest.take(end - start) =~= chars@.subrange(start as int, end as int));
            let line = without_returns(rest.take(end - start));
            assert(texts_view(out@) =~= before + seq![line]);
            if end < chars.len() {
                assert(rest.skip(end - start + 1) =~= chars@.skip(end + 1));
                assert(before + (seq![line] + lines(chars@.skip(end + 1))) =~= (before + seq![line])
                    + lines(chars@.skip(end + 1)));
            } else {
                assert(chars@.skip(end as int) =~= Seq::<char>::empty());
                assert(before + seq![line] =~= (before + seq![line]) + lines(
                    chars@.skip(end as int),
                ));
            }
        }
        start = if end < chars.len() {
            end + 1
        } else {
            end
        };
    }
    proof {
        assert(chars@.skip(start as int) =~= Seq::<char>::empty());
        assert(texts_view(out@) + lines(chars@.skip(start as int)) =~= texts_view(out@));
    }
    out
}

/// The words of a text from `from` on.
pub fn split_words(chars: &[char], from: usize) -> (r: Vec<Vec<char>>)
    requires
        from <= chars.len(),
    ensures
        texts_view(r@) == words(chars@.skip(from as int)),
{
    let mut out: Vec<Vec<char>> = Vec::new();
    let mut start: usize = from;
    let ghost all = words(chars@.skip(from as int));
    proof {
        assert(texts_view(out@) + all =~= all);
    }
    while start < chars.len()
        invariant
            start <= chars.len(),
            texts_view(out@) + words(chars@.skip(start as int)) == all,
        decreases chars.len() - start,
    {
        let ghost rest = chars@.skip(start as int);
        if white_space(chars[start]) {
            proof {
                assert(rest.skip(1) =~= chars@.skip(start + 1));
            }
            start = start + 1;
        } else {
            let mut end: usize = start + 1;
            while end < chars.len() && !white_space(chars[end])
                invariant
                    start < end <= chars.len(),
                    forall|i: int| start <= i < end ==> !is_white_space(chars@[i]),
                decreases chars.len() - end,
            {
                end = end + 1;
            }
            let ghost before = texts_view(out@);
            let word: Vec<char> = vstd::slice::slice_to_vec(
                vstd::slice::slice_subrange(chars, start, end),
            );
            out.push(word);
            proof {
                lemma_word_len_is(rest, end - start);
                assert(rest.take(end - start) =~= chars@.subrange(start as int, end as int));
                assert(rest.skip(end - start) =~= chars@.skip(end as int));
                let first = rest.take(end - start);
                assert(texts_view(out@) =~= before + seq![first]);
                assert(before + (seq![first] + words(chars@.skip(end as int))) =~= (before
                    + seq![first]) + words(chars@.skip(end as int)));
            }
            start = end;
        }
    }
    proof {
        assert(chars@.skip(start as int) =~= Seq::<char>::empty());
        assert(texts_view(out@) + words(chars@.skip(start as int)) =~= texts_view(out@));
    }
    out
}

/// Whether a text starts with `prefix`.
pub fn starts_with(chars: &[char], prefix: &[char]) -> (r: bool)
    ensures
        r == prefix@.is_prefix_of(chars@),
{
    if chars.len() < prefix.len() {
        return false;
    }
    let mut i: usize = 0;
    while i < prefix.len()
        invariant
            i <= prefix.len() <= chars.len(),
            forall|j: int| 0 <= j < i ==> prefix@[j] == chars@[j],
        decreases prefix.len() - i,
    {
        if chars[i] != prefix[i] {
            proof {
                assert(chars@.subrange(0, prefix@.len() as int)[i as int] == chars@[i as int]);
            }
            return false;
        }
        i = i + 1;
    }
    proof {
        assert(prefix@ =~= chars@.subrange(0, prefix@.len() as int));
    }
    true
}

/// The digit of a number below ten.
fn digit_char(n: u64) -> (r: char)
    requires
        n < 10,
    ensures
        r == digit(n as nat),
{
    (0x30 + n as u8) as char
}

/// Appends a number in decimal.
pub fn push_decimal(out: &mut String, n: u64)
    ensures
        final(out)@ == old(out)@ + decimal(n as nat),
    decreases n,
{
    if n >= 10 {
        push_decimal(out, n / 10);
    }
    out.push(digit_char(n % 10));
    proof {
        assert(out@ =~= old(out)@ + decimal(n as nat));
    }
}

/// Appends characters.
pub fn push_chars(out: &mut String, chars: &[char])
    ensures
        final(out)@ == old(out)@ + chars@,
{
    let ghost before = out@;
    let mut i: usize = 0;
    proof {
        assert(before + chars@.take(0) =~= before);
    }
    while i < chars.len()
        invariant
            i <= chars.len(),
            out@ == before + chars@.take(i as int),
        decreases chars.len() - i,
    {
        out.push(chars[i]);
        i = i + 1;
        proof {
            assert(before + chars@.take(i as int) =~= (before + chars@.take(i - 1)).push(
                chars@[i - 1],
            ));
        }
    }
    proof {
        assert(chars@.take(i as int) =~= chars@);
    }
}

} // verus!
