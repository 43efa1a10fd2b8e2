//! Text against that of the standard library.

use llmfit::text::{
    chars_of, contains_text, decimal_text, lower_ascii_is, same_ignoring_ascii_case, same_text,
    text_before, trim, white_space,
};

const SAMPLES: [&str; 14] = [
    "", " ", "a", "A", "ab", "aB ", "\t ab\u{3000}", "\u{a0}x\u{a0}", "é", "É", "ß", "z", "ΑΣ",
    "model 🦙 x",
];

#[test]
fn white_space_is_that_of_unicode() {
    for code in 0..=0x10ffffu32 {
        if let Some(c) = char::from_u32(code) {
            assert_eq!(white_space(c), c.is_whitespace(), "{code:x}");
        }
    }
}

#[test]
fn texts_compare_as_strings_do() {
    for a in SAMPLES {
        assert_eq!(trim(a), a.trim());
        assert_eq!(chars_of(a), a.chars().collect::<Vec<char>>());
        assert!(lower_ascii_is(a, &a.to_ascii_lowercase()));
        for b in SAMPLES {
            assert_eq!(same_text(a, b), a == b);
            assert_eq!(text_before(a, b), a < b, "{a} < {b}");
            assert_eq!(contains_text(a, b), a.contains(b), "{a} contains {b}");
            assert_eq!(same_ignoring_ascii_case(a, b), a.eq_ignore_ascii_case(b));
        }
    }
}

#[test]
fn decimals_are_written_without_leading_zeros() {
    for n in [0usize, 7, 10, 42, 99, 100, 1005, usize::MAX] {
        assert_eq!(decimal_text(n), n.to_string());
    }
}
