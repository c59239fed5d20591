use port_sniff::decimal::{format_u16, parse_u16};

#[test]
fn reads_plain_numbers() {
    assert_eq!(parse_u16("0"), Some(0));
    assert_eq!(parse_u16("7"), Some(7));
    assert_eq!(parse_u16("50"), Some(50));
    assert_eq!(parse_u16("400"), Some(400));
    assert_eq!(parse_u16("8080"), Some(8080));
    assert_eq!(parse_u16("65535"), Some(65535));
}

#[test]
fn accepts_one_plus_sign_and_leading_zeros() {
    assert_eq!(parse_u16("+50"), Some(50));
    assert_eq!(parse_u16("050"), Some(50));
    assert_eq!(parse_u16("+00050"), Some(50));
    assert_eq!(parse_u16("0000000000000000000000000000065535"), Some(65535));
}

#[test]
fn refuses_numbers_out_of_range() {
    assert_eq!(parse_u16("65536"), None);
    assert_eq!(parse_u16("70000"), None);
    assert_eq!(parse_u16("99999999999999999999999999999999999999999"), None);
    assert_eq!(parse_u16("4294967296"), None);
    assert_eq!(parse_u16("42949672960"), None);
}

#[test]
fn refuses_text_that_is_no_number() {
    for text in ["", "+", "-", "-5", "++5", "+-5", "5+", "5 ", " 5", "5a", "a5", "0x5", "5_0", "５", "٥", "5\n", "é", "+é", "1é", "\u{0}"] {
        assert_eq!(parse_u16(text), None, "text {:?}", text);
    }
}

#[test]
fn reads_as_the_standard_library_does() {
    let samples = [
        "", "0", "1", "9", "10", "99", "100", "65534", "65535", "65536", "65545", "100000",
        "+1", "+65535", "+65536", "-0", "-1", "+", "++1", "00", "007", "+007", "1 ", " 1", "1.0",
        "1e1", "٣", "१२", "12a", "a12", "6553５", "18446744073709551616",
    ];
    for text in samples {
        assert_eq!(parse_u16(text), text.parse::<u16>().ok(), "text {:?}", text);
    }
}

#[test]
fn writes_numbers_without_padding() {
    assert_eq!(format_u16(0), "0");
    assert_eq!(format_u16(9), "9");
    assert_eq!(format_u16(10), "10");
    assert_eq!(format_u16(80), "80");
    assert_eq!(format_u16(443), "443");
    assert_eq!(format_u16(8080), "8080");
    assert_eq!(format_u16(10000), "10000");
    assert_eq!(format_u16(65535), "65535");
}

#[test]
fn every_number_reads_back_as_written() {
    for number in 0..=u16::MAX {
        let text = format_u16(number);
        assert_eq!(text, number.to_string());
        assert_eq!(parse_u16(&text), Some(number));
    }
}
