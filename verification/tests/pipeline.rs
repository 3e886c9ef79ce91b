use secure_pipeline::base64url;
use secure_pipeline::base64url::DecodeError;
use secure_pipeline::pipeline::{
    decode_packet, decode_packet_with_mode, encode_packet, encode_packet_with_mode, tokenize_spaces,
    untokenize_spaces, PipelineError, RateLimiter, SpaceMode,
};
use secure_pipeline::validation::ValidationError;

#[test]
fn encode_decode_with_underscore_mode() {
    let mode = SpaceMode::Underscore;
    let encoded = encode_packet_with_mode("hello world", &mode).unwrap();
    let decoded = decode_packet_with_mode(&encoded, &mode).unwrap();
    assert_eq!(decoded, "hello world");
}

#[test]
fn preserves_literal_underscores_in_underscore_mode() {
    let mode = SpaceMode::Underscore;
    let input = "a_b c";
    let encoded = encode_packet_with_mode(input, &mode).unwrap();
    let decoded = decode_packet_with_mode(&encoded, &mode).unwrap();
    assert_eq!(decoded, input);
}

#[test]
fn preserves_literal_tilde_characters() {
    let mode = SpaceMode::Underscore;
    let input = "value~with~tildes and space";
    let encoded = encode_packet_with_mode(input, &mode).unwrap();
    let decoded = decode_packet_with_mode(&encoded, &mode).unwrap();
    assert_eq!(decoded, input);
}

#[test]
fn native_calls_apply_security_by_default() {
    let mut limiter = RateLimiter::new();
    let input = "safe text with spaces";
    let encoded = encode_packet(&mut limiter, input).unwrap();
    let decoded = decode_packet(&mut limiter, &encoded).unwrap();
    assert_eq!(decoded, input);
}

#[test]
fn rejects_control_bytes_on_encode() {
    let mut limiter = RateLimiter::new();
    let err = encode_packet(&mut limiter, "line1\nline2").unwrap_err();
    assert!(matches!(err, PipelineError::ControlByte { .. }));
}

#[test]
fn rejects_control_bytes_after_decode() {
    let mut limiter = RateLimiter::new();
    let wire = base64url::encode(b"hi\nthere");
    let err = decode_packet(&mut limiter, &wire).unwrap_err();
    assert!(matches!(err, PipelineError::ControlByte { .. }));
}

#[test]
fn escapes_tildes_and_spaces() {
    let mode = SpaceMode::Underscore;
    assert_eq!(tokenize_spaces("a b~c", &mode), Ok("a~sb~~c".to_string()));
    assert_eq!(untokenize_spaces("a~sb~~c", &mode), Ok("a b~c".to_string()));
    assert_eq!(tokenize_spaces("", &mode), Ok(String::new()));
}

#[test]
fn escape_round_trip_on_concrete_text() {
    let mode = SpaceMode::Underscore;
    for text in ["~", " ", "~s", "~~ ~", "  ~~s s", "plain"] {
        let escaped = tokenize_spaces(text, &mode).unwrap();
        assert!(!escaped.contains(' '));
        assert_eq!(untokenize_spaces(&escaped, &mode).unwrap(), text);
    }
}

#[test]
fn distinct_texts_escape_differently() {
    let mode = SpaceMode::Underscore;
    let a = tokenize_spaces("~s", &mode).unwrap();
    let b = tokenize_spaces(" ", &mode).unwrap();
    assert_ne!(a, b);
}

#[test]
fn rejects_bad_escapes() {
    let mode = SpaceMode::Underscore;
    assert_eq!(untokenize_spaces("a~x", &mode), Err(PipelineError::InvalidEscapeSequence));
    assert_eq!(untokenize_spaces("abc~", &mode), Err(PipelineError::InvalidEscapeSequence));
}

#[test]
fn raw_spaces_in_a_packet_are_read_as_spaces() {
    let mode = SpaceMode::Underscore;
    let wire = base64url::encode(b"a b");
    assert_eq!(decode_packet_with_mode(&wire, &mode), Ok("a b".to_string()));
}

#[test]
fn encodes_known_packet() {
    let mode = SpaceMode::Underscore;
    // "hi there" escapes to "hi~sthere"
    assert_eq!(encode_packet_with_mode("hi there", &mode), Ok(base64url::encode(b"hi~sthere")));
    assert_eq!(encode_packet_with_mode("hi there", &mode), Ok("aGl-c3RoZXJl".to_string()));
}

#[test]
fn encoded_packets_use_the_wire_alphabet() {
    let mode = SpaceMode::Underscore;
    let encoded = encode_packet_with_mode("~~ tilde & <tags> \"quotes\" ;DROP TABLE", &mode).unwrap();
    assert!(encoded
        .bytes()
        .all(|b| b.is_ascii_alphanumeric() || b == b'_' || b == b'-'));
}

#[test]
fn rejects_non_ascii_text() {
    let mode = SpaceMode::Underscore;
    assert_eq!(encode_packet_with_mode("café", &mode), Err(PipelineError::NonAsciiInput));
    let wire = base64url::encode("é".as_bytes());
    assert_eq!(decode_packet_with_mode(&wire, &mode), Err(PipelineError::NonAsciiInput));
}

#[test]
fn control_byte_reports_position_and_byte() {
    let mode = SpaceMode::Underscore;
    assert_eq!(
        encode_packet_with_mode("ab\tc", &mode),
        Err(PipelineError::ControlByte { index: 2, byte: b'\t' })
    );
    assert_eq!(
        encode_packet_with_mode("x\u{7f}", &mode),
        Err(PipelineError::ControlByte { index: 1, byte: 0x7f })
    );
}

#[test]
fn decode_reports_validation_errors() {
    let mode = SpaceMode::Underscore;
    assert_eq!(
        decode_packet_with_mode("", &mode),
        Err(PipelineError::Validation(ValidationError::EmptyInput))
    );
    assert_eq!(
        decode_packet_with_mode("ab=c", &mode),
        Err(PipelineError::Validation(ValidationError::InvalidByte { index: 2, byte: b'=' }))
    );
}

#[test]
fn decode_reports_base64_errors() {
    let mode = SpaceMode::Underscore;
    assert_eq!(
        decode_packet_with_mode("abcde", &mode),
        Err(PipelineError::Decode(DecodeError::InvalidLength))
    );
}

#[test]
fn decode_reports_invalid_utf8() {
    let mode = SpaceMode::Underscore;
    let wire = base64url::encode(&[0xff, 0x41]);
    assert_eq!(decode_packet_with_mode(&wire, &mode), Err(PipelineError::Utf8));
}

#[test]
fn decode_reports_bad_escape_in_payload() {
    let mode = SpaceMode::Underscore;
    let wire = base64url::encode(b"a~q");
    assert_eq!(decode_packet_with_mode(&wire, &mode), Err(PipelineError::InvalidEscapeSequence));
}

#[test]
fn empty_text_is_refused() {
    let mode = SpaceMode::Underscore;
    assert_eq!(
        encode_packet_with_mode("", &mode),
        Err(PipelineError::Validation(ValidationError::EmptyInput))
    );
    assert_eq!(
        decode_packet_with_mode("", &mode),
        Err(PipelineError::Validation(ValidationError::EmptyInput))
    );
}

#[test]
fn every_printable_character_round_trips() {
    let mode = SpaceMode::Underscore;
    let text: String = (0x20u8..=0x7e).map(|b| b as char).collect();
    let encoded = encode_packet_with_mode(&text, &mode).unwrap();
    assert_eq!(decode_packet_with_mode(&encoded, &mode).unwrap(), text);
}

#[test]
fn long_text_is_encodable_in_a_fresh_window() {
    let mut limiter = RateLimiter::new();
    let input = "a".repeat(501);
    let encoded = encode_packet(&mut limiter, &input).unwrap();
    assert_eq!(limiter.used_chars(), 501);
    assert_eq!(
        encode_packet(&mut limiter, "b"),
        Err(PipelineError::RateLimited { allowed_per_second: 500, attempted_chars: 1 })
    );
    let mut fresh = RateLimiter::new();
    assert_eq!(decode_packet(&mut fresh, &encoded), Ok(input));
}

#[test]
fn long_packet_round_trips_with_fresh_windows() {
    let input = "a".repeat(400);
    let encoded = encode_packet(&mut RateLimiter::new(), &input).unwrap();
    assert_eq!(encoded.len(), 534);
    assert_eq!(decode_packet(&mut RateLimiter::new(), &encoded), Ok(input));
}

#[test]
fn long_request_is_refused_once_the_window_has_a_charge() {
    let mut limiter = RateLimiter::new();
    assert!(encode_packet(&mut limiter, "x").is_ok());
    assert_eq!(
        encode_packet(&mut limiter, &"a".repeat(501)),
        Err(PipelineError::RateLimited { allowed_per_second: 500, attempted_chars: 501 })
    );
    assert_eq!(limiter.used_chars(), 1);
}

#[test]
fn encode_and_decode_share_the_budget() {
    let mut limiter = RateLimiter::new();
    assert!(encode_packet(&mut limiter, &"a".repeat(450)).is_ok());
    let wire = "QUFB".repeat(13);
    assert_eq!(
        decode_packet(&mut limiter, &wire),
        Err(PipelineError::RateLimited { allowed_per_second: 500, attempted_chars: 52 })
    );
}

#[test]
fn rate_limit_counts_characters_across_calls() {
    let mut limiter = RateLimiter::new();
    let input = "b".repeat(300);
    assert!(encode_packet(&mut limiter, &input).is_ok());
    assert_eq!(limiter.used_chars(), 300);
    assert_eq!(
        encode_packet(&mut limiter, &input),
        Err(PipelineError::RateLimited { allowed_per_second: 500, attempted_chars: 300 })
    );
    assert_eq!(limiter.used_chars(), 300);
    assert!(encode_packet(&mut limiter, &"c".repeat(200)).is_ok());
    assert_eq!(limiter.used_chars(), 500);
}

#[test]
fn rate_limit_counts_characters_not_bytes() {
    let mut limiter = RateLimiter::new();
    assert_eq!(encode_packet(&mut limiter, "é"), Err(PipelineError::NonAsciiInput));
    assert_eq!(limiter.used_chars(), 1);
}

#[test]
fn rate_limit_window_starts_over() {
    let mut limiter = RateLimiter::new();
    let now = std::time::Instant::now();
    assert_eq!(limiter.charge(now, 0, 400), Ok(()));
    assert_eq!(
        limiter.charge(now, 999_999_999, 101),
        Err(PipelineError::RateLimited { allowed_per_second: 500, attempted_chars: 101 })
    );
    assert_eq!(limiter.used_chars(), 400);
    assert_eq!(limiter.charge(now, 1_000_000_000, 101), Ok(()));
    assert_eq!(limiter.used_chars(), 101);
    assert_eq!(limiter.charge(now, 5_000_000_000, 501), Ok(()));
    assert_eq!(limiter.used_chars(), 501);
    assert_eq!(
        limiter.charge(now, 0, 0),
        Err(PipelineError::RateLimited { allowed_per_second: 500, attempted_chars: 0 })
    );
}
