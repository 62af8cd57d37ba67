use semcast::text::{
    contains_text, decimal_of, has_prefix, has_suffix, hex_of, is_white, join, pad_zeros,
    parse_u64, same_ignore_case, signed_of, split_words, text_precedes, to_lower, to_upper, trim,
    trim_end_of, Class,
};

const SAMPLES: [&str; 8] = [
    "",
    " a ",
    "Ünïcode  Tëxt\u{2003}end",
    "\u{3000}x\u{85}",
    "a\u{200b}b",
    "MIXED case 123",
    "\t\n",
    "q",
];

#[test]
fn white_space_is_that_of_unicode() {
    for c in '\0'..=char::MAX {
        assert_eq!(is_white(c), c.is_whitespace(), "{:x}", c as u32);
    }
}

#[test]
fn texts_are_trimmed_and_split_as_usual() {
    for s in SAMPLES {
        assert_eq!(trim(s), s.trim(), "{s:?}");
        let words: Vec<&str> = s.split_whitespace().collect();
        assert_eq!(split_words(s), words, "{s:?}");
        assert_eq!(to_lower(s), s.to_ascii_lowercase(), "{s:?}");
        assert_eq!(to_upper(s), s.to_ascii_uppercase(), "{s:?}");
        for t in SAMPLES {
            assert_eq!(contains_text(s, t), s.contains(t), "{s:?} {t:?}");
            assert_eq!(has_prefix(s, t), s.starts_with(t), "{s:?} {t:?}");
            assert_eq!(has_suffix(s, t), s.ends_with(t), "{s:?} {t:?}");
            assert_eq!(same_ignore_case(s, t), s.eq_ignore_ascii_case(t));
            assert_eq!(text_precedes(s, t), s <= t, "{s:?} {t:?}");
        }
    }
    assert_eq!(trim_end_of("http://x//", Class::Slash), "http://x");
}

#[test]
fn numbers_are_written_and_read_as_usual() {
    for n in [0, 9, 10, 99, 1234567890, u64::MAX] {
        assert_eq!(decimal_of(n), n.to_string());
        assert_eq!(hex_of(n), format!("{n:x}"));
        assert_eq!(parse_u64(&decimal_of(n)), Some(n));
    }
    for n in [0, -1, 42, i64::MIN, i64::MAX] {
        assert_eq!(signed_of(n), n.to_string());
    }
    for s in ["", "+", "+5", "05", "5 ", "-5", "18446744073709551616"] {
        assert_eq!(parse_u64(s), s.parse::<u64>().ok(), "{s:?}");
    }
    assert_eq!(pad_zeros(&"7".to_owned(), 4), "0007");
    assert_eq!(pad_zeros(&"12345".to_owned(), 4), "12345");
}

#[test]
fn lists_are_joined() {
    let parts = vec!["a".to_owned(), "b".to_owned(), String::new()];
    assert_eq!(join(&parts, "; "), "a; b; ");
    assert_eq!(join(&vec![], "; "), "");
}
