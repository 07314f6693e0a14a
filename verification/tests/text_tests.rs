use stele::text::is_whitespace;

#[test]
fn whitespace_is_exactly_what_std_calls_whitespace() {
    for u in 0u32..=0x10FFFF {
        if let Some(c) = char::from_u32(u) {
            assert_eq!(is_whitespace(c), c.is_whitespace(), "U+{u:04X}");
        }
    }
}

#[test]
fn whitespace_covers_the_unicode_spaces_and_nothing_near_them() {
    for c in ['\t', '\n', '\u{0B}', '\u{0C}', '\r', ' ', '\u{85}', '\u{A0}', '\u{1680}', '\u{2000}', '\u{200A}', '\u{2028}', '\u{2029}', '\u{202F}', '\u{205F}', '\u{3000}'] {
        assert!(is_whitespace(c), "{c:?}");
    }
    for c in ['\u{08}', '\u{0E}', '\u{1F}', 'a', '\u{180E}', '\u{200B}', '\u{FEFF}', '\u{2060}'] {
        assert!(!is_whitespace(c), "{c:?}");
    }
}
