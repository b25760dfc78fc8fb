use quickfind::bytes;
use quickfind::numbers::{parse_usize, write_decimal};
use quickfind::text::{
    contains, ends_with, from_chars, is_whitespace, replace, split_whitespace, starts_with,
    to_chars, to_lower, trim, trim_front, CharClass,
};

#[test]
fn white_space_is_what_unicode_says() {
    for value in 0..=0x10ffffu32 {
        if let Some(c) = char::from_u32(value) {
            assert_eq!(is_whitespace(c), c.is_whitespace());
        }
    }
}

#[test]
fn words_are_split_at_white_space() {
    for text in ["", " ", "a", " a  b\tc\u{a0}d ", "ä ö\u{2003}ü", "one"] {
        let words: Vec<String> = split_whitespace(&to_chars(text)).iter().map(from_chars).collect();
        let expected: Vec<String> = text.split_whitespace().map(|w| w.to_string()).collect();
        assert_eq!(words, expected);
    }
}

#[test]
fn lower_case_of_ascii_and_beyond() {
    assert_eq!(from_chars(&to_lower(&to_chars("AbC-9_Z"))), "abc-9_z");
    assert_eq!(from_chars(&to_lower(&to_chars("ÄÖ İ Σ"))), "ÄÖ İ Σ".to_lowercase());
}

#[test]
fn trimming() {
    for text in ["", "  ", " a b ", "//a//", "/", "a"] {
        let chars = to_chars(text);
        assert_eq!(from_chars(&trim(&chars, CharClass::WhiteSpace)), text.trim());
        assert_eq!(from_chars(&trim(&chars, CharClass::Only('/'))), text.trim_matches('/'));
        assert_eq!(
            from_chars(&trim_front(&chars, CharClass::Only('/'))),
            text.trim_start_matches('/')
        );
    }
}

#[test]
fn looking_for_texts() {
    for hay in ["", "abc", "aabab", "ää"] {
        for needle in ["", "a", "ab", "bab", "ä", "abcd"] {
            let (h, n) = (to_chars(hay), to_chars(needle));
            assert_eq!(contains(&h, &n), hay.contains(needle));
            assert_eq!(starts_with(&h, &n), hay.starts_with(needle));
            assert_eq!(ends_with(&h, &n), hay.ends_with(needle));
        }
    }
    assert_eq!(from_chars(&replace(&to_chars("a\\b\\"), '\\', '/')), "a/b/");
}

#[test]
fn bytes_of_a_text() {
    let text = "aé€😀";
    assert_eq!(bytes::len(text), 10);
    assert_eq!(bytes::head(text, 3), "aé");
    assert_eq!(bytes::tail(text, 3), "€😀");
    assert_eq!(bytes::middle(text, 1, 6), "é€");
    assert_eq!(bytes::remove_range(text, 1, 6), "a😀");
    assert_eq!(bytes::insert_text(text, 3, "xyz"), "aéxyz€😀");
    assert_eq!(bytes::remove_char(text, 3), "aé😀");
    assert_eq!(bytes::remove_char(text, 6), "aé€");
}

#[test]
fn numbers_in_decimal() {
    for n in [0, 7, 10, 99, 100, 4000, usize::MAX] {
        assert_eq!(write_decimal(n), n.to_string());
        assert_eq!(parse_usize(&to_chars(&n.to_string())), Some(n));
    }
}

#[test]
fn numbers_are_read_like_the_standard_library_reads_them() {
    let cases = [
        "", "+", "-", "-1", "+5", "007", "5 ", " 5", "1e3", "0x1", "+-1", "++1", "٣",
        "18446744073709551615", "18446744073709551616", "99999999999999999999999999",
        "00000000000000000000000000001",
    ];
    for case in cases {
        assert_eq!(parse_usize(&to_chars(case)), case.parse::<usize>().ok());
    }
}

#[test]
fn lower_case_keeps_what_has_no_case() {
    let marks = to_chars("/.!*?[:0 ");
    for c in '\0'..=char::MAX {
        let mut text = marks.clone();
        text.push(c);
        text.extend(&marks);
        let low = to_lower(&text);
        assert!(low.len() > 2 * marks.len());
        assert!(starts_with(&low, &marks));
        assert!(ends_with(&low, &marks));
    }
}
