use secure_pipeline::validation::{validate_wire_format, ValidationError};

#[test]
fn accepts_base64url_alphabet() {
    assert!(validate_wire_format("AbC_012-xyz").is_ok());
}

#[test]
fn rejects_empty_input() {
    assert_eq!(validate_wire_format(""), Err(ValidationError::EmptyInput));
}

#[test]
fn rejects_illegal_symbols() {
    let err = validate_wire_format("abc+def").unwrap_err();
    assert_eq!(
        err,
        ValidationError::InvalidByte {
            index: 3,
            byte: b'+'
        }
    );
}

#[test]
fn reports_the_first_illegal_byte() {
    assert_eq!(
        validate_wire_format("ab cd=e"),
        Err(ValidationError::InvalidByte { index: 2, byte: b' ' })
    );
}

#[test]
fn reports_utf8_bytes_of_non_ascii_text() {
    assert_eq!(
        validate_wire_format("aé"),
        Err(ValidationError::InvalidByte { index: 1, byte: 0xc3 })
    );
}

#[test]
fn accepts_every_alphabet_symbol() {
    let all = "ABCDEFGHIJKLMNOPQRSTUVWXYZabcdefghijklmnopqrstuvwxyz0123456789-_";
    assert_eq!(validate_wire_format(all), Ok(()));
}
