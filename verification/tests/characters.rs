use jcode_hashline::rows::looks_like_float;
use jcode_hashline::text::{
    chars_of, in_class, parse_digits, push_decimal, split_lines, take_bytes, trim, trim_end,
    trim_start, uppercase_string, CharClass,
};

#[test]
fn white_space_is_that_of_the_standard_library() {
    for code in 0..=0x10FFFFu32 {
        if let Some(c) = char::from_u32(code) {
            assert_eq!(in_class(CharClass::White, c), c.is_whitespace(), "{code:x}");
            assert_eq!(in_class(CharClass::Digit, c), c.is_ascii_digit());
            assert_eq!(in_class(CharClass::Hex, c), c.is_ascii_hexdigit());
        }
    }
}

#[test]
fn floats_are_those_of_the_standard_library() {
    let words = [
        "", "1", "+1", "-1", "1.", ".5", ".", "1.5", "1e5", "1E-5", "1e", "e5", "1.e5", ".5e+3",
        "inf", "-inf", "+infinity", "INF", "InFiniTy", "nan", "NaN", "-nan", "nan1", "in", "1_0",
        "0x1", "1 ", " 1", "--1", "+-1", "1e5.5", "1.2.3", "١", "1f", "infinit", "+", "-", "e",
        "0", "00", "1e+", "1e-", "9e999", "+.e1", "+.1e1",
    ];
    for word in words {
        let chars = chars_of(word);
        assert_eq!(looks_like_float(&chars), word.parse::<f64>().is_ok(), "{word:?}");
    }
}

#[test]
fn trimming_agrees_with_the_standard_library() {
    for text in ["", " ", " a b ", "\u{3000}x\u{a0}\n", "\ta", "a\r\n"] {
        let chars = chars_of(text);
        let join = |s: &[char]| s.iter().collect::<String>();
        assert_eq!(join(trim(&chars)), text.trim());
        assert_eq!(join(trim_start(&chars, CharClass::White)), text.trim_start());
        assert_eq!(join(trim_end(&chars, CharClass::White)), text.trim_end());
        assert_eq!(split_lines(&chars), text.split('\n').collect::<Vec<_>>());
        assert_eq!(uppercase_string(&chars), text.to_ascii_uppercase());
    }
}

#[test]
fn numbers_are_written_and_read() {
    for n in [0usize, 9, 10, 4096, usize::MAX] {
        let mut out = String::from("n=");
        push_decimal(&mut out, n);
        assert_eq!(out, format!("n={n}"));
        assert_eq!(parse_digits(&chars_of(&n.to_string())), Some(n as u64));
    }
    assert_eq!(parse_digits(&chars_of("18446744073709551616")), None);
}

#[test]
fn byte_prefixes_end_at_characters() {
    let chars = chars_of("a\u{5b57}b");
    for (max, count) in [(0, 0), (1, 1), (2, 1), (3, 1), (4, 2), (5, 3), (9, 3)] {
        assert_eq!(take_bytes(&chars, max).len(), count);
    }
}
