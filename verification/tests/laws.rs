use str_bin;

#[test]
fn bin_round_trip_both_modes() {
    let data: Vec<u8> = vec![0x00, 0x01, 0x7f, 0x80, 0xff, 0x68];
    for reversed in [false, true] {
        let text = str_bin::to_bin_str(&data, reversed);
        let back = str_bin::from_bin_str(&text, reversed);
        assert_eq!(back.unwrap(), data);
    }
}

#[test]
fn hex_round_trip_both_modes() {
    let data: Vec<u8> = vec![0x00, 0x01, 0x7f, 0x80, 0xff, 0x68];
    for reversed in [false, true] {
        let text = str_bin::to_hex_str(&data, reversed);
        let back = str_bin::from_hex_str(&text, reversed);
        assert_eq!(back.unwrap(), data);
    }
}

#[test]
fn encoded_lengths() {
    let data = b"length law";
    for reversed in [false, true] {
        assert_eq!(str_bin::to_bin_str(data, reversed).len(), 8 * data.len());
        assert_eq!(str_bin::to_hex_str(data, reversed).len(), 2 * data.len());
    }
}

#[test]
fn empty_input() {
    for reversed in [false, true] {
        assert_eq!(str_bin::to_bin_str(&[], reversed), "");
        assert_eq!(str_bin::to_hex_str(&[], reversed), "");
        assert_eq!(str_bin::from_bin_str("", reversed).unwrap(), Vec::<u8>::new());
        assert_eq!(str_bin::from_hex_str("", reversed).unwrap(), Vec::<u8>::new());
    }
}

#[test]
fn single_byte_examples() {
    assert_eq!(str_bin::to_bin_str(b"h", false), "01101000");
    assert_eq!(str_bin::to_bin_str(b"h", true), "00010110");
    assert_eq!(str_bin::to_hex_str(b"h", false), "68");
    assert_eq!(str_bin::to_hex_str(b"h", true), "86");
    assert_eq!(str_bin::from_bin_str("01101000", false).unwrap(), b"h");
    assert_eq!(str_bin::from_bin_str("00010110", true).unwrap(), b"h");
    assert_eq!(str_bin::from_hex_str("68", false).unwrap(), b"h");
    assert_eq!(str_bin::from_hex_str("86", true).unwrap(), b"h");
}

#[test]
fn bin_canonical_text_survives_decode_then_encode() {
    for reversed in [false, true] {
        let text = "0110100001101111";
        let bytes = str_bin::from_bin_str(text, reversed).unwrap();
        assert_eq!(str_bin::to_bin_str(&bytes, reversed), text);
    }
}

#[test]
fn hex_canonical_text_survives_decode_then_encode() {
    for reversed in [false, true] {
        let text = "686f6765";
        let bytes = str_bin::from_hex_str(text, reversed).unwrap();
        assert_eq!(str_bin::to_hex_str(&bytes, reversed), text);
    }
}

#[test]
fn bin_error_is_first_invalid_character() {
    // The scan is short-circuiting: the 'x' in the first group is found
    // before the 'y' in the second.
    let s = str_bin::from_bin_str("0101x101y1010101", false);
    assert!(matches!(s.unwrap_err(), str_bin::Error::InvalidChar('x')));
}

#[test]
fn hex_error_is_first_invalid_character() {
    let s = str_bin::from_hex_str("6gx8", false);
    assert!(matches!(s.unwrap_err(), str_bin::Error::InvalidChar('g')));
}

#[test]
fn bin_rejects_other_digits() {
    let s = str_bin::from_bin_str("01010192", false);
    assert!(matches!(s.unwrap_err(), str_bin::Error::InvalidChar('9')));
}
