use std::collections::BTreeSet;

use rnetmap::ordered::{in_order_u128, in_order_u16, in_order_u32, insert_span_u128, insert_span_u16, insert_span_u32};
use rnetmap::text::{char_is_space, chars_of, copy_text, find_char, read_u16, trim_span};

fn read(s: &str) -> Option<u16> {
    let chars = chars_of(s);
    read_u16(&chars, 0, chars.len())
}

#[test]
fn white_space_is_what_the_standard_library_calls_white_space() {
    for code in 0..=0x10FFFFu32 {
        if let Some(c) = char::from_u32(code) {
            assert_eq!(char_is_space(c), c.is_whitespace(), "U+{:04X}", code);
        }
    }
}

#[test]
fn every_number_up_to_the_limit_is_read() {
    for n in 0..=70000u32 {
        let plain = n.to_string();
        let expected = u16::try_from(n).ok();
        assert_eq!(read(&plain), expected, "{}", plain);
        assert_eq!(read(&format!("+{}", plain)), expected);
        assert_eq!(read(&format!("000{}", plain)), expected);
    }
}

#[test]
fn numbers_are_read_as_the_standard_library_reads_them() {
    for s in [
        "", "+", "-", "+-1", "-1", "++1", "1+", "1-", " 1", "1 ", "1_000", "0x10", "1e3", "1.0",
        "٣", "１２", "65535", "65536", "+65535", "+065535", "655350", "18446744073709551616",
        "00000000000000000000000000000000000000001", "4294967296", "4294967377", "a", "12a", "a12",
    ] {
        assert_eq!(read(s), s.parse::<u16>().ok(), "{:?}", s);
    }
}

#[test]
fn a_number_is_read_from_the_middle_of_the_text() {
    let chars = chars_of("ab123cd");
    assert_eq!(read_u16(&chars, 2, 5), Some(123));
    assert_eq!(read_u16(&chars, 2, 6), None);
    assert_eq!(read_u16(&chars, 3, 3), None);
    assert_eq!(read_u16(&chars, 4, 5), Some(3));
}

#[test]
fn trimming_is_what_the_standard_library_does() {
    for s in ["", " ", "a", " a", "a ", "  a b  ", "\t\n a\u{00A0}", "\u{2003}x y\u{3000}\r\n", " \u{200B} "] {
        let chars = chars_of(s);
        let (a, b) = trim_span(&chars, 0, chars.len());
        assert_eq!(copy_text(s, a, b), s.trim(), "{:?}", s);
    }
    let chars = chars_of("x  y z  w");
    assert_eq!(trim_span(&chars, 1, 8), (3, 6));
    assert_eq!(trim_span(&chars, 1, 3), (3, 3));
}

#[test]
fn first_separator_is_found() {
    let chars = chars_of("ab,c,,d");
    assert_eq!(find_char(&chars, 0, 7, ','), 2);
    assert_eq!(find_char(&chars, 2, 7, ','), 2);
    assert_eq!(find_char(&chars, 3, 7, ','), 4);
    assert_eq!(find_char(&chars, 5, 7, ','), 5);
    assert_eq!(find_char(&chars, 6, 7, ','), 7);
    assert_eq!(find_char(&chars, 0, 2, ','), 2);
    assert_eq!(find_char(&chars, 0, 7, '-'), 7);
    assert_eq!(find_char(&chars, 4, 4, ','), 4);
}

#[test]
fn text_is_taken_by_characters_not_bytes() {
    let s = "é,ü-10";
    assert_eq!(chars_of(s), vec!['é', ',', 'ü', '-', '1', '0']);
    assert_eq!(copy_text(s, 2, 4), "ü-");
    assert_eq!(copy_text(s, 0, 0), "");
    assert_eq!(copy_text(s, 0, 6), s);
}

#[test]
fn spans_fill_a_set_and_come_out_in_order() {
    let mut small: BTreeSet<u16> = BTreeSet::new();
    insert_span_u16(&mut small, 65533, 65535);
    insert_span_u16(&mut small, 7, 5);
    insert_span_u16(&mut small, 0, 2);
    insert_span_u16(&mut small, 2, 3);
    assert_eq!(in_order_u16(&small), vec![0, 1, 2, 3, 65533, 65534, 65535]);

    let mut middle: BTreeSet<u32> = BTreeSet::new();
    insert_span_u32(&mut middle, u32::MAX - 1, u32::MAX);
    insert_span_u32(&mut middle, 9, 9);
    insert_span_u32(&mut middle, 10, 9);
    assert_eq!(in_order_u32(&middle), vec![9, u32::MAX - 1, u32::MAX]);

    let mut large: BTreeSet<u128> = BTreeSet::new();
    insert_span_u128(&mut large, u128::MAX - 1, u128::MAX);
    insert_span_u128(&mut large, 0, 1);
    insert_span_u128(&mut large, 1, 0);
    assert_eq!(in_order_u128(&large), vec![0, 1, u128::MAX - 1, u128::MAX]);
}
