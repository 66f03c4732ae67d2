use routelint::text::is_whitespace_char;

#[test]
fn white_space_is_what_std_reports() {
    for v in 0u32..=0x10FFFF {
        if let Some(c) = char::from_u32(v) {
            assert_eq!(is_whitespace_char(c), c.is_whitespace(), "U+{:04X}", v);
        }
    }
}
