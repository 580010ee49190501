use evm_extractor::text::{ascii_lowercase, is_blank, trim};

#[test]
fn trimming_agrees_with_the_standard_library() {
    let texts = [
        "", " ", "\t\r\n", "a", " a", "a ", "  a b  ", "\u{a0}x\u{3000}", "\u{200b}x", "\u{85}\u{1680}y",
        "\u{2028}z\u{2029}", "\u{202f}\u{205f}", "\u{feff}w", "\u{2000}\u{200a}q\u{2003}",
    ];
    for text in texts {
        assert_eq!(trim(text), text.trim(), "{text:?}");
        assert_eq!(is_blank(text), text.trim().is_empty(), "{text:?}");
    }
}

#[test]
fn every_character_is_white_space_exactly_where_the_standard_library_says_so() {
    for code in 0..=0x10ffffu32 {
        if let Some(c) = char::from_u32(code) {
            let text: String = [c].iter().collect();
            assert_eq!(is_blank(&text), c.is_whitespace(), "{code:x}");
        }
    }
}

#[test]
fn only_ascii_letters_are_lowered() {
    for text in ["", "0xABCdef", "ÄÖÜ", "ABC\u{130}xyz[]@`{", "Zz"] {
        assert_eq!(ascii_lowercase(text), text.to_ascii_lowercase(), "{text}");
    }
    assert_eq!(ascii_lowercase("0xAbCÄ"), "0xabcÄ");
}

#[test]
fn lowering_twice_is_lowering_once() {
    let once = ascii_lowercase("0xFfEeÉ");
    assert_eq!(ascii_lowercase(&once), once);
}
