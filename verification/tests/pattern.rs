use byteclasser::pattern::{decode_pattern, PatternDecodeError};

#[test]
fn hex_digits_decode_to_their_bytes() {
    assert_eq!(decode_pattern("6162"), Ok(vec![0x61, 0x62]));
    assert_eq!(decode_pattern("6162"), Ok(b"ab".to_vec()));
    assert_eq!(decode_pattern("00ff10"), Ok(vec![0x00, 0xff, 0x10]));
}

#[test]
fn decoding_is_not_the_identity() {
    assert_ne!(decode_pattern("6162"), Ok(b"6162".to_vec()));
    assert_eq!(decode_pattern("3631").unwrap(), b"61".to_vec());
}

#[test]
fn both_cases_of_digits_are_accepted() {
    assert_eq!(decode_pattern("f9b4ca"), Ok(vec![0xf9, 0xb4, 0xca]));
    assert_eq!(decode_pattern("F9B4CA"), Ok(vec![0xf9, 0xb4, 0xca]));
    assert_eq!(decode_pattern("f9B4Ca"), Ok(vec![0xf9, 0xb4, 0xca]));
}

#[test]
fn the_empty_string_decodes_to_no_bytes() {
    assert_eq!(decode_pattern(""), Ok(Vec::new()));
}

#[test]
fn odd_length_is_rejected() {
    assert_eq!(decode_pattern("abc"), Err(PatternDecodeError::OddLength));
    assert_eq!(decode_pattern("6"), Err(PatternDecodeError::OddLength));
}

#[test]
fn odd_length_is_reported_before_a_bad_digit() {
    assert_eq!(decode_pattern("6g1"), Err(PatternDecodeError::OddLength));
}

#[test]
fn a_byte_that_is_no_digit_is_rejected() {
    assert_eq!(
        decode_pattern("6g"),
        Err(PatternDecodeError::InvalidCharacter { index: 1, byte: b'g' })
    );
    assert_eq!(
        decode_pattern("zz"),
        Err(PatternDecodeError::InvalidCharacter { index: 0, byte: b'z' })
    );
    assert_eq!(
        decode_pattern("61 2"),
        Err(PatternDecodeError::InvalidCharacter { index: 2, byte: b' ' })
    );
}

#[test]
fn the_first_bad_byte_is_reported() {
    assert_eq!(
        decode_pattern("61x2y3"),
        Err(PatternDecodeError::InvalidCharacter { index: 2, byte: b'x' })
    );
}

#[test]
fn bytes_next_to_the_digit_ranges_are_rejected() {
    for bad in ["/0", ":0", "@0", "G0", "`0", "g0"] {
        let byte = bad.as_bytes()[0];
        assert_eq!(
            decode_pattern(bad),
            Err(PatternDecodeError::InvalidCharacter { index: 0, byte })
        );
    }
}

#[test]
fn a_character_outside_ascii_is_rejected_by_its_first_byte() {
    // "é" is the two bytes c3 a9.
    assert_eq!(
        decode_pattern("é"),
        Err(PatternDecodeError::InvalidCharacter { index: 0, byte: 0xc3 })
    );
}
