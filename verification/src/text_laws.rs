//! What lines, words, numbers and joined texts are, character by character.

use vstd::prelude::*;

use crate::text::{
    decimal, decimal_value, is_white_space, joined_by, lemma_line_len_is, lemma_word_len_is, lines,
    strings_view, texts_view, without_returns, words,
};

verus! {

/// The code points of white space.
pub proof fn law_white_space(c: char)
    ensures
        is_white_space(c) <==> {
            let n = c as u32;
            ||| 9 <= n <= 13
            ||| n == 0x20
            ||| n == 0x85
            ||| n == 0xA0
            ||| n == 0x1680
            ||| 0x2000 <= n <= 0x200A
            ||| n == 0x2028
            ||| n == 0x2029
            ||| n == 0x202F
            ||| n == 0x205F
            ||| n == 0x3000
        },
{
}

/// Carriage returns at the end go, whatever their number, and nothing else does.
pub proof fn law_returns_are_stripped(s: Seq<char>, c: char)
    ensures
        without_returns(Seq::empty()) == Seq::<char>::empty(),
        without_returns(s.push('\r')) == without_returns(s),
        c != '\r' ==> without_returns(s.push(c)) == s.push(c),
{
    assert(s.push('\r').drop_last() =~= s);
}

/// A line feed ends a line; what is left behind the last one is a line if there is
/// anything.
pub proof fn law_line_feeds_end_lines(line: Seq<char>, rest: Seq<char>)
    requires
        forall|i: int| 0 <= i < line.len() ==> #[trigger] line[i] != '\n',
    ensures
        lines(Seq::empty()) == Seq::<Seq<char>>::empty(),
        line.len() > 0 ==> lines(line) == seq![without_returns(line)],
        lines(line + seq!['\n'] + rest) == seq![without_returns(line)] + lines(rest),
{
    let n = line.len() as int;
    let s = line + seq!['\n'] + rest;
    lemma_line_len_is(line, n);
    assert(line.take(n) =~= line);
    assert forall|i: int| 0 <= i < n implies s[i] != '\n' by {
        assert(s[i] == line[i]);
    }
    lemma_line_len_is(s, n);
    assert(s.take(n) =~= line);
    assert(s.skip(n + 1) =~= rest);
}

/// White space between words goes, and a run of other characters is one word.
pub proof fn law_white_space_parts_words(word: Seq<char>, gap: char, rest: Seq<char>)
    requires
        word.len() > 0,
        forall|i: int| 0 <= i < word.len() ==> !is_white_space(#[trigger] word[i]),
        is_white_space(gap),
    ensures
        words(Seq::empty()) == Seq::<Seq<char>>::empty(),
        words(seq![gap] + rest) == words(rest),
        words(word) == seq![word],
        words(word + seq![gap] + rest) == seq![word] + words(rest),
{
    let n = word.len() as int;
    let none = Seq::<char>::empty();
    let s = word + seq![gap] + rest;
    assert((seq![gap] + rest).skip(1) =~= rest);
    assert(!is_white_space(word[0]));
    lemma_word_len_is(word, n);
    assert(word.take(n) =~= word);
    assert(word.skip(n) =~= none);
    assert(seq![word] + words(none) =~= seq![word]);
    assert forall|i: int| 0 <= i < n implies !is_white_space(s[i]) by {
        assert(s[i] == word[i]);
    }
    assert(s[n] == gap);
    lemma_word_len_is(s, n);
    assert(s.take(n) =~= word);
    assert(s.skip(n) =~= seq![gap] + rest);
    assert(s[0] == word[0]);
}

/// A digit behind others counts once, and these ten times. A number in decimal is
/// digits that write it, without a zero in front.
pub proof fn law_decimal(n: nat, s: Seq<char>, c: char)
    ensures
        decimal_value(Seq::empty()) == 0,
        '0' <= c <= '9' ==> decimal_value(s.push(c)) == 10 * decimal_value(s) + (c as u32 - 48),
        decimal(n).len() > 0,
        decimal_value(decimal(n)) == n,
        forall|i: int| 0 <= i < decimal(n).len() ==> '0' <= #[trigger] decimal(n)[i] <= '9',
        decimal(n).len() > 1 ==> decimal(n)[0] != '0',
    decreases n,
{
    assert(s.push(c).drop_last() =~= s);
    if n < 10 {
        assert(decimal(n).drop_last() =~= Seq::<char>::empty());
        assert(decimal_value(decimal(n).drop_last()) == 0);
    } else {
        law_decimal(n / 10, s, c);
        assert(decimal(n).drop_last() =~= decimal(n / 10));
        assert(decimal(n)[0] == decimal(n / 10)[0]);
        if n < 100 {
            assert(decimal(n / 10)[0] != '0');
        } else {
            lemma_decimal_longer(n / 10);
        }
        assert forall|i: int| 0 <= i < decimal(n).len() implies '0' <= #[trigger] decimal(n)[i]
            <= '9' by {
            if i < decimal(n / 10).len() {
                assert(decimal(n)[i] == decimal(n / 10)[i]);
            }
        }
    }
}

/// A number of ten or more takes more than one digit.
proof fn lemma_decimal_longer(n: nat)
    requires
        n >= 10,
    ensures
        decimal(n).len() > 1,
    decreases n,
{
    reveal_with_fuel(decimal, 2);
    if n >= 100 {
        lemma_decimal_longer(n / 10);
    }
}

/// The separator stands between items, and nowhere else.
pub proof fn law_separator_stands_between(
    items: Seq<Seq<char>>,
    item: Seq<char>,
    separator: Seq<char>,
)
    ensures
        joined_by(Seq::empty(), separator) == Seq::<char>::empty(),
        joined_by(seq![item], separator) == item,
        items.len() > 0 ==> joined_by(items.push(item), separator) == joined_by(items, separator)
            + separator + item,
{
    assert(items.push(item).drop_last() =~= items);
}

/// Lists say what their texts say.
pub proof fn law_text_views(texts: Seq<Vec<char>>, strings: Seq<String>, i: int)
    ensures
        texts_view(texts).len() == texts.len(),
        0 <= i < texts.len() ==> texts_view(texts)[i] == texts[i]@,
        strings_view(strings).len() == strings.len(),
        0 <= i < strings.len() ==> strings_view(strings)[i] == strings[i]@,
{
}

} // verus!
