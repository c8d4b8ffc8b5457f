use htmlq::chars::{is_blank_text, is_whitespace};

#[test]
fn whitespace_is_the_unicode_property() {
    for code in 0..=0x10FFFFu32 {
        if let Some(c) = char::from_u32(code) {
            assert_eq!(is_whitespace(c), c.is_whitespace(), "U+{:04X}", code);
        }
    }
}

#[test]
fn blank_text() {
    assert!(is_blank_text(""));
    assert!(is_blank_text(" \t\r\n"));
    assert!(is_blank_text("\u{a0}\u{2003}\u{3000}"));
    assert!(!is_blank_text(" x "));
    assert!(!is_blank_text("\u{200b}"));
    for text in ["", " ", "a", " a", "a ", "\n\n", "\u{feff}", "é "] {
        assert_eq!(is_blank_text(text), text.trim().is_empty(), "{:?}", text);
    }
}
