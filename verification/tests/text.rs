use trackit::text::{chars_of, white_space};
use trackit::time::trim;

#[test]
fn white_space_agrees_with_std() {
    for code in 0u32..0x11000 {
        if let Some(c) = char::from_u32(code) {
            assert_eq!(white_space(c), c.is_whitespace(), "U+{:04X}", code);
        }
    }
}

#[test]
fn trim_agrees_with_std() {
    for s in ["", "  ", " a ", "\u{2003}b\u{2029}", "x\u{200b}", "\t\r\nz y\u{85}"] {
        assert_eq!(trim(s), s.trim());
    }
}

#[test]
fn chars_of_lists_characters() {
    assert_eq!(chars_of("aé👍"), vec!['a', 'é', '👍']);
    assert!(chars_of("").is_empty());
}
