use cotp::hex::{decode, encode};
use cotp::text::{same, split_once, strip_prefix};

#[test]
fn bytes_are_written_as_lower_case_digits() {
    assert_eq!(encode(&[]), "");
    assert_eq!(encode(&[0x01, 0x00, 0xAF, 0x9c]), "0100af9c");
}

#[test]
fn digits_of_either_case_are_read() {
    assert_eq!(decode(""), Some(vec![]));
    assert_eq!(decode("0100afAF9c"), Some(vec![0x01, 0x00, 0xAF, 0xAF, 0x9C]));
}

#[test]
fn what_is_not_pairs_of_digits_is_refused() {
    for text in ["0", "010", "zz", "0g", "g0", " 01", "0x01", "0:", "0/", "0@", "0`", "\u{ff10}0"] {
        assert_eq!(decode(text), None, "{text}");
    }
}

#[test]
fn every_byte_round_trips() {
    let bytes: Vec<u8> = (0..=255u8).collect();
    assert_eq!(decode(&encode(&bytes)), Some(bytes));
}

#[test]
fn text_is_cut_at_the_first_of_a_character() {
    assert_eq!(split_once("a=b=c", '='), Some(("a", "b=c")));
    assert_eq!(split_once("=b", '='), Some(("", "b")));
    assert_eq!(split_once("\u{e5}\u{e4}&\u{f6}", '&'), Some(("\u{e5}\u{e4}", "\u{f6}")));
    assert_eq!(split_once("abc", '='), None);
    assert_eq!(split_once("", '='), None);
}

#[test]
fn a_prefix_is_taken_off() {
    assert_eq!(strip_prefix("cotp://plc", "cotp://"), Some("plc"));
    assert_eq!(strip_prefix("cotp:/", "cotp://"), None);
    assert_eq!(strip_prefix("tcp://plc", "cotp://"), None);
    assert_eq!(strip_prefix("plc", ""), Some("plc"));
    assert!(same("src-tsap", "src-tsap"));
    assert!(!same("src-tsap", "src"));
    assert!(!same("src", "src-tsap"));
}
