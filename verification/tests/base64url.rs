use secure_pipeline::base64url::{decode, encode, DecodeError};

#[test]
fn round_trip() {
    let input = b"hello_world";
    let encoded = encode(input);
    let decoded = decode(&encoded).unwrap();
    assert_eq!(decoded, input);
}

#[test]
fn no_padding_in_output() {
    let encoded = encode(b"f");
    assert_eq!(encoded, "Zg");
}

#[test]
fn invalid_length_rejected() {
    assert_eq!(decode("abcde"), Err(DecodeError::InvalidLength));
}

#[test]
fn encodes_known_vectors() {
    assert_eq!(encode(b""), "");
    assert_eq!(encode(b"fo"), "Zm8");
    assert_eq!(encode(b"foo"), "Zm9v");
    assert_eq!(encode(b"foobar"), "Zm9vYmFy");
    assert_eq!(encode(&[0xfb, 0xff, 0xbf]), "-_-_");
    assert_eq!(encode(&[0x00, 0x10, 0x83]), "ABCD");
}

#[test]
fn encoded_length_is_ceil_of_four_thirds() {
    for n in 0..20usize {
        let data: Vec<u8> = (0..n).map(|i| (i * 37) as u8).collect();
        assert_eq!(encode(&data).len(), (4 * n + 2) / 3);
    }
}

#[test]
fn decodes_known_vectors() {
    assert_eq!(decode(""), Ok(vec![]));
    assert_eq!(decode("Zg"), Ok(b"f".to_vec()));
    assert_eq!(decode("Zm8"), Ok(b"fo".to_vec()));
    assert_eq!(decode("Zm9vYmFy"), Ok(b"foobar".to_vec()));
    assert_eq!(decode("-_-_"), Ok(vec![0xfb, 0xff, 0xbf]));
}

#[test]
fn decode_ignores_trailing_bits() {
    assert_eq!(decode("Zh"), Ok(b"f".to_vec()));
}

#[test]
fn decode_reports_first_invalid_byte() {
    assert_eq!(decode("ab+d"), Err(DecodeError::InvalidByte { index: 2, byte: b'+' }));
    assert_eq!(decode("abcd=f"), Err(DecodeError::InvalidByte { index: 4, byte: b'=' }));
    assert_eq!(decode("a/c"), Err(DecodeError::InvalidByte { index: 1, byte: b'/' }));
}

#[test]
fn length_is_checked_before_bytes() {
    assert_eq!(decode("+"), Err(DecodeError::InvalidLength));
    assert_eq!(decode("abcd+"), Err(DecodeError::InvalidLength));
}

#[test]
fn every_byte_value_survives_a_round_trip() {
    let data: Vec<u8> = (0..=255u8).collect();
    for start in 0..data.len() {
        let slice = &data[start..];
        assert_eq!(decode(&encode(slice)).unwrap(), slice);
    }
}
