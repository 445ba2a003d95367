use termlink::text::{
    ascii_lowercase, byte_len, chars_of, is_alphabetical, is_white_space, slice_bytes, trim,
};

#[test]
fn white_space_is_unicode_white_space() {
    for code in 0..0x11_0000u32 {
        if let Some(c) = char::from_u32(code) {
            assert_eq!(is_white_space(c), c.is_whitespace(), "{code:x}");
        }
    }
}

#[test]
fn trim_removes_white_space_at_both_ends() {
    for s in ["", " ", "a", " a", "a ", "\t a b \n", "\u{a0}x\u{3000}", "\u{200b}x"] {
        assert_eq!(trim(s), s.trim());
    }
}

#[test]
fn chars_come_in_order() {
    assert_eq!(chars_of("aß€"), vec!['a', 'ß', '€']);
    assert!(chars_of("").is_empty());
}

#[test]
fn lower_case_of_ascii_letters() {
    for code in 0..0x300u32 {
        if let Some(c) = char::from_u32(code) {
            assert_eq!(ascii_lowercase(c), c.to_ascii_lowercase());
        }
    }
}

#[test]
fn byte_slices_fall_between_characters() {
    let text = "größe API";
    assert_eq!(byte_len(text), 11);
    assert_eq!(slice_bytes(text, 8, 11), "API");
    assert_eq!(slice_bytes(text, 2, 6), "öß");
    assert_eq!(slice_bytes(text, 0, 11), text);
    assert_eq!(slice_bytes(text, 4, 4), "");
}

#[test]
fn alphabetical_order_is_that_of_strings() {
    let texts = ["", "a", "ab", "abc", "b", "B", "é", "z", "€", "𝔸", "a\u{e000}", "a𝔸"];
    for a in texts {
        for b in texts {
            assert_eq!(is_alphabetical(a, b), a <= b, "{a} {b}");
        }
    }
}
