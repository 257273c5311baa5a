//! Texts and bytes.
use obd_session_rs::bytes::{be_at, push_be};
use obd_session_rs::text::{
    ascii_up_text, decimal_text, hex_text, is_all_hex, parse_decimal_text, parse_hex_text,
    sort_strings, split_words, text_less,
};

#[test]
fn hex_reads_back() {
    for n in [0, 1, 0x7E8, 0x18DAF110, u32::MAX] {
        assert_eq!(parse_hex_text(&hex_text(n, 1), u32::MAX), Some(n));
    }
    assert_eq!(hex_text(0xC, 2), "0C");
    assert_eq!(parse_hex_text("100", 0xFF), None);
    assert_eq!(parse_hex_text("", 0xFF), None);
    assert_eq!(parse_hex_text("+F", 0xFF), Some(15));
    assert!(is_all_hex("0aF") && !is_all_hex("0g"));
}

#[test]
fn decimals() {
    assert_eq!(decimal_text(0), "0");
    assert_eq!(decimal_text(u64::MAX), u64::MAX.to_string());
    assert_eq!(parse_decimal_text("18", 17), None);
    assert_eq!(parse_decimal_text("017", 17), Some(17));
    assert_eq!(parse_decimal_text("x", 17), None);
}

#[test]
fn words_and_order() {
    assert_eq!(split_words(" 7E8\t03 \u{2003}41"), vec!["7E8", "03", "41"]);
    assert_eq!(ascii_up_text("até"), "ATé");
    assert!(text_less("010C", "010D") && !text_less("010C", "010C") && text_less("01", "010C"));
    let v: Vec<String> = ["b", "a", "c", "a"].iter().map(|s| s.to_string()).collect();
    assert_eq!(sort_strings(&v), vec!["a", "a", "b", "c"]);
}

#[test]
fn big_endian_reads_back() {
    let mut v = vec![9];
    push_be(&mut v, 0x18DAF110);
    assert_eq!(v, vec![9, 0x18, 0xDA, 0xF1, 0x10]);
    assert_eq!(be_at(&v, 1), 0x18DAF110);
}
