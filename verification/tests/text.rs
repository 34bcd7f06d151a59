use mosh_proto::text::{
    push_decimal, split_lines, split_words, starts_with, to_chars, to_text, white_space,
};

fn text(chars: &[char]) -> String {
    chars.iter().collect()
}

#[test]
fn white_space_is_that_of_unicode() {
    for n in 0..0x11_0000u32 {
        if let Some(c) = char::from_u32(n) {
            assert_eq!(white_space(c), c.is_whitespace(), "U+{:04X}", n);
        }
    }
}

#[test]
fn lines_are_those_of_std_without_returns() {
    for sample in [
        "",
        "\n",
        "a",
        "a\n",
        "a\nb",
        "\n\na\n\nb\n\n",
        "a\r\nb\r\r\n\rc\r",
        "\r",
        "\u{2028}x\u{85}\n",
    ] {
        let got: Vec<String> = split_lines(&to_chars(sample))
            .iter()
            .map(|line| text(line))
            .collect();
        let expected: Vec<&str> = sample.lines().map(|l| l.trim_end_matches('\r')).collect();
        assert_eq!(got, expected, "{:?}", sample);
    }
}

#[test]
fn words_are_those_of_std() {
    for sample in ["", " ", "a", " a  b\t\nc ", "\u{3000}x\u{a0}y", "no-break"] {
        let got: Vec<String> = split_words(&to_chars(sample), 0)
            .iter()
            .map(|word| text(word))
            .collect();
        let expected: Vec<&str> = sample.split_whitespace().collect();
        assert_eq!(got, expected, "{:?}", sample);
    }
    assert_eq!(split_words(&to_chars("ab cd"), 1), vec![vec!['b'], vec!['c', 'd']]);
}

#[test]
fn numbers_are_written_in_decimal() {
    for n in [0u64, 7, 9, 10, 99, 100, 60001, 65535, u64::MAX] {
        let mut out = "n=".to_string();
        push_decimal(&mut out, n);
        assert_eq!(out, format!("n={n}"));
    }
}

#[test]
fn prefixes_and_copies() {
    let chars = to_chars("h\u{e9}llo");
    assert_eq!(chars.len(), 5);
    assert!(starts_with(&chars, &[]));
    assert!(starts_with(&chars, &['h', '\u{e9}']));
    assert!(!starts_with(&chars, &['h', 'e']));
    assert!(!starts_with(&chars[..1], &chars));
    assert_eq!(to_text(&chars, 1, 3), "\u{e9}l");
    assert_eq!(to_text(&chars, 2, 2), "");
}
