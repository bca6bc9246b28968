use morphiic::text::{
    char_is_white_space, chars_of, find_char, matches_word, push_bool, push_dec, push_hex,
    push_padded_dec, push_signed_dec, trimmed_bounds,
};

#[test]
fn white_space_is_what_unicode_says() {
    for code in 0u32..=0x10FFFF {
        if let Some(c) = char::from_u32(code) {
            assert_eq!(char_is_white_space(c), c.is_whitespace(), "U+{code:04X}");
        }
    }
}

#[test]
fn numbers_are_written_as_the_formatter_writes_them() {
    for n in [0u64, 1, 9, 10, 99, 100, 255, 256, 65535, 65536, 4294967295, u64::MAX] {
        let mut dec = String::new();
        push_dec(&mut dec, n);
        assert_eq!(dec, format!("{n}"));
        let mut padded = String::new();
        push_padded_dec(&mut padded, n, 5);
        assert_eq!(padded, format!("{n:05}"));
        let mut hex = String::new();
        push_hex(&mut hex, n, 2);
        assert_eq!(hex, format!("{n:02X}"));
        let mut wide = String::new();
        push_hex(&mut wide, n, 8);
        assert_eq!(wide, format!("{n:08X}"));
    }
    for n in [i16::MIN, -10, -1, 0, 1, 10, i16::MAX] {
        let mut signed = "x".to_string();
        push_signed_dec(&mut signed, n);
        assert_eq!(signed, format!("x{n}"));
    }
    let mut flags = String::new();
    push_bool(&mut flags, true);
    push_bool(&mut flags, false);
    assert_eq!(flags, "truefalse");
}

#[test]
fn trimming_and_words() {
    let chars = chars_of(" \t\u{a0}DuMp\r\n");
    let (lo, hi) = trimmed_bounds(&chars, 0, chars.len());
    assert_eq!((lo, hi), (3, 7));
    assert!(matches_word(&chars, lo, hi, "dump"));
    assert!(matches_word(&chars, lo, hi, "DUMP"));
    assert!(!matches_word(&chars, lo, hi, "dumps"));
    assert!(!matches_word(&chars, lo, hi, "damp"));
    assert_eq!(find_char(&chars, 0, chars.len(), 'M'), 5);
    assert_eq!(find_char(&chars, 0, chars.len(), '#'), chars.len());
    // The Kelvin sign is no ASCII letter.
    let kelvin = chars_of("\u{212A}");
    assert!(!matches_word(&kelvin, 0, 1, "k"));
}
