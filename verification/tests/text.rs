use sisko::text::{
    contains_text, decimal_i64, decimal_u64, ends_with, is_whitespace, join, lines, pad_right,
    parse_number, parse_usize, repeat_char, replace_char, split, starts_with, trim,
};

#[test]
fn white_space_is_that_of_the_standard_library() {
    for code in 0..=0x10_ffff_u32 {
        if let Some(c) = char::from_u32(code) {
            assert_eq!(is_whitespace(c), c.is_whitespace(), "{code:x}");
        }
    }
}

#[test]
fn lines_and_pieces_match_the_standard_library() {
    for text in ["", "a", "a\n", "a\nb", "\n", "\n\n", "a\r\nb\r", "\r\n", "a\n\nb\n"] {
        assert_eq!(lines(text), text.lines().collect::<Vec<_>>(), "{text:?}");
        assert_eq!(split(text, '\n', '\n'), text.split('\n').collect::<Vec<_>>(), "{text:?}");
    }
    assert_eq!(split("a;b:c", ';', ':'), ["a", "b", "c"]);
}

#[test]
fn searching_matches_the_standard_library() {
    let texts = ["", "a", "ab", "aba", "abab", "bab", "äb"];
    for text in texts {
        for pattern in texts {
            assert_eq!(contains_text(text, pattern), text.contains(pattern));
            assert_eq!(starts_with(text, pattern), text.starts_with(pattern));
            assert_eq!(ends_with(text, pattern), text.ends_with(pattern));
        }
        assert_eq!(trim(&format!(" \t{text}\n ")), text.trim());
    }
}

#[test]
fn numbers_are_written_and_read() {
    for n in [0, 7, 10, 4096, u64::MAX] {
        assert_eq!(decimal_u64(n), n.to_string());
        assert_eq!(parse_number(&n.to_string(), u64::MAX), Some(n));
    }
    for n in [0, -1, i64::MIN, i64::MAX] {
        assert_eq!(decimal_i64(n), n.to_string());
    }
    for text in ["", "+", "+5", "-5", "5x", "18446744073709551616", "007", "٣"] {
        assert_eq!(parse_number(text, u64::MAX), text.parse::<u64>().ok(), "{text:?}");
    }
    assert_eq!(parse_number("300", 255), None);
    assert_eq!(parse_usize("12"), Some(12));
}

#[test]
fn texts_are_put_together() {
    assert_eq!(join(&vec!["a".into(), "b".into()], ", "), "a, b");
    assert_eq!(join(&vec![], ", "), "");
    assert_eq!(replace_char("a.b.", '.', "--"), "a--b--");
    assert_eq!(repeat_char('x', 3), "xxx");
    assert_eq!(pad_right("äb", 4), "äb  ");
    assert_eq!(pad_right("abc", 2), "abc");
}
