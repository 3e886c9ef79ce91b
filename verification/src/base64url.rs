use vstd::prelude::*;
use vstd::string::StringSliceAdditionalSpecFns;
use vstd::utf8::{encode_utf8, is_ascii_chars, is_ascii_chars_encode_utf8};

use crate::search::{all_satisfy, first_failure, lemma_first_failure_is};

verus! {

/// Why a base64url text could not be decoded.
#[derive(Debug, Clone, PartialEq, Eq)]
pub enum DecodeError {
    InvalidLength,
    InvalidByte { index: usize, byte: u8 },
}

// ---------------------------------------------------------------------------
// Mathematical model
// ---------------------------------------------------------------------------

/// The byte of the alphabet `A-Z a-z 0-9 - _` that stands for the 6-bit value `v`.
pub open spec fn sextet_char(v: int) -> u8 {
    if v < 26 {
        (0x41 + v) as u8
    } else if v < 52 {
        (0x61 + (v - 26)) as u8
    } else if v < 62 {
        (0x30 + (v - 52)) as u8
    } else if v == 62 {
        0x2d
    } else {
        0x5f
    }
}

/// The base64url alphabet of RFC 4648 (section 5), in order: the symbol for the 6-bit value
/// `v` is the entry at position `v`.
pub open spec fn base64url_table() -> Seq<char> {
    seq![
        'A', 'B', 'C', 'D', 'E', 'F', 'G', 'H', 'I', 'J', 'K', 'L', 'M',
        'N', 'O', 'P', 'Q', 'R', 'S', 'T', 'U', 'V', 'W', 'X', 'Y', 'Z',
        'a', 'b', 'c', 'd', 'e', 'f', 'g', 'h', 'i', 'j', 'k', 'l', 'm',
        'n', 'o', 'p', 'q', 'r', 's', 't', 'u', 'v', 'w', 'x', 'y', 'z',
        '0', '1', '2', '3', '4', '5', '6', '7', '8', '9', '-', '_',
    ]
}

/// `b` belongs to the base64url alphabet.
pub open spec fn is_alphabet_byte(b: u8) -> bool {
    (0x41 <= b <= 0x5a) || (0x61 <= b <= 0x7a) || (0x30 <= b <= 0x39) || b == 0x2d || b == 0x5f
}

/// The 6-bit value that the alphabet byte `b` stands for.
pub open spec fn sextet_value(b: u8) -> int {
    if 0x41 <= b <= 0x5a {
        b - 0x41
    } else if 0x61 <= b <= 0x7a {
        b - 0x61 + 26
    } else if 0x30 <= b <= 0x39 {
        b - 0x30 + 52
    } else if b == 0x2d {
        62
    } else {
        63
    }
}

/// Unpadded base64url encoding of `s`, as alphabet bytes: every 3 bytes become 4 symbols,
/// a trailing 1 byte becomes 2 symbols and trailing 2 bytes become 3.
pub open spec fn encode_bytes(s: Seq<u8>) -> Seq<u8>
    decreases s.len(),
{
    if s.len() == 0 {
        seq![]
    } else {
        let x = s[0] as int;
        if s.len() == 1 {
            seq![sextet_char(x / 4), sextet_char((x % 4) * 16)]
        } else {
            let y = s[1] as int;
            if s.len() == 2 {
                seq![sextet_char(x / 4), sextet_char((x % 4) * 16 + y / 16), sextet_char((y % 16) * 4)]
            } else {
                let z = s[2] as int;
                seq![
                    sextet_char(x / 4),
                    sextet_char((x % 4) * 16 + y / 16),
                    sextet_char((y % 16) * 4 + z / 64),
                    sextet_char(z % 64),
                ] + encode_bytes(s.skip(3))
            }
        }
    }
}

/// The bytes carried by the symbols `s` (2 symbols give 1 byte, 3 give 2, 4 give 3).
pub open spec fn decode_symbols(s: Seq<u8>) -> Seq<u8>
    decreases s.len(),
{
    if s.len() < 2 {
        seq![]
    } else {
        let a = sextet_value(s[0]);
        let b = sextet_value(s[1]);
        if s.len() == 2 {
            seq![(a * 4 + b / 16) as u8]
        } else {
            let c = sextet_value(s[2]);
            if s.len() == 3 {
                seq![(a * 4 + b / 16) as u8, ((b % 16) * 16 + c / 4) as u8]
            } else {
                let d = sextet_value(s[3]);
                seq![
                    (a * 4 + b / 16) as u8,
                    ((b % 16) * 16 + c / 4) as u8,
                    ((c % 4) * 64 + d) as u8,
                ] + decode_symbols(s.skip(4))
            }
        }
    }
}

/// What `decode` answers for a text whose UTF-8 bytes are `s`.
pub open spec fn decode_result(s: Seq<u8>) -> Result<Seq<u8>, DecodeError> {
    if s.len() % 4 == 1 {
        Err(DecodeError::InvalidLength)
    } else if all_satisfy(s, |b: u8| is_alphabet_byte(b)) {
        Ok(decode_symbols(s))
    } else {
        let i = first_failure(s, |b: u8| is_alphabet_byte(b));
        Err(DecodeError::InvalidByte { index: i as usize, byte: s[i] })
    }
}

/// The characters whose codes are the bytes of `b`.
pub open spec fn bytes_as_chars(b: Seq<u8>) -> Seq<char> {
    Seq::new(b.len(), |i: int| b[i] as char)
}

// ---------------------------------------------------------------------------
// Executable code
// ---------------------------------------------------------------------------

/// `String::push`: appends the character `c` to `s`.
#[verifier::external_body]
pub(crate) fn string_push(s: &mut String, c: char)
    ensures
        final(s)@ == old(s)@.push(c),
{
    s.push(c);
}

/// The alphabet byte for the 6-bit value `v`.
fn alphabet_byte(v: u32) -> (b: u8)
    requires
        v < 64,
    ensures
        b == sextet_char(v as int),
{
    if v < 26 {
        (0x41 + v) as u8
    } else if v < 52 {
        (0x61 + (v - 26)) as u8
    } else if v < 62 {
        (0x30 + (v - 52)) as u8
    } else if v == 62 {
        0x2d
    } else {
        0x5f
    }
}

fn decode_value(byte: u8, index: usize) -> (res: Result<u8, DecodeError>)
    ensures
        match res {
            Ok(v) => is_alphabet_byte(byte) && v == sextet_value(byte),
            Err(e) => !is_alphabet_byte(byte) && e == (DecodeError::InvalidByte { index, byte }),
        },
{
    if 0x41 <= byte && byte <= 0x5a {
        Ok(byte - 0x41)
    } else if 0x61 <= byte && byte <= 0x7a {
        Ok(byte - 0x61 + 26)
    } else if 0x30 <= byte && byte <= 0x39 {
        Ok(byte - 0x30 + 52)
    } else if byte == 0x2d {
        Ok(62)
    } else if byte == 0x5f {
        Ok(63)
    } else {
        Err(DecodeError::InvalidByte { index, byte })
    }
}

/// How the shifts and masks of `encode` cut a 24-bit group into four 6-bit values.
proof fn lemma_encode_group_bits(x: u32, y: u32, z: u32)
    by (bit_vector)
    requires
        x < 256,
        y < 256,
        z < 256,
    ensures
        ((((x << 16u32) | (y << 8u32) | z) >> 18u32) & 0x3f) == x / 4,
        ((((x << 16u32) | (y << 8u32) | z) >> 12u32) & 0x3f) == (x % 4) * 16 + y / 16,
        ((((x << 16u32) | (y << 8u32) | z) >> 6u32) & 0x3f) == (y % 16) * 4 + z / 64,
        (((x << 16u32) | (y << 8u32) | z) & 0x3f) == z % 64,
{
}

/// Encodes `input` as unpadded base64url text.
pub fn encode(input: &[u8]) -> (out: String)
    ensures
        out@ == bytes_as_chars(encode_bytes(input@)),
{
    let mut out = String::new();
    let len = input.len();
    let mut i: usize = 0;
    let ghost mut produced: Seq<u8> = seq![];
    assert(input@.skip(0) =~= input@);

    while len - i >= 3
        invariant
            len == input@.len(),
            i <= len,
            out@ == bytes_as_chars(produced),
            encode_bytes(input@) == produced + encode_bytes(input@.skip(i as int)),
        decreases len - i,
    {
        let x = input[i] as u32;
        let y = input[i + 1] as u32;
        let z = input[i + 2] as u32;
        let chunk: u32 = (x << 16) | (y << 8) | z;
        proof {
            lemma_encode_group_bits(x, y, z);
        }
        let c0 = alphabet_byte((chunk >> 18) & 0x3f);
        let c1 = alphabet_byte((chunk >> 12) & 0x3f);
        let c2 = alphabet_byte((chunk >> 6) & 0x3f);
        let c3 = alphabet_byte(chunk & 0x3f);
        string_push(&mut out, c0 as char);
        string_push(&mut out, c1 as char);
        string_push(&mut out, c2 as char);
        string_push(&mut out, c3 as char);
        proof {
            let rest = input@.skip(i as int);
            assert(rest.skip(3) =~= input@.skip(i + 3));
            assert(encode_bytes(rest) == seq![c0, c1, c2, c3] + encode_bytes(rest.skip(3)));
            produced = produced + seq![c0, c1, c2, c3];
            assert(out@ =~= bytes_as_chars(produced));
        }
        i += 3;
    }

    let rem = len - i;
    if rem == 1 {
        let x = input[i] as u32;
        let chunk: u32 = x << 16;
        proof {
            lemma_encode_group_bits(x, 0, 0);
            assert(x << 16u32 == (x << 16u32) | (0u32 << 8u32) | 0u32) by (bit_vector);
        }
        let c0 = alphabet_byte((chunk >> 18) & 0x3f);
        let c1 = alphabet_byte((chunk >> 12) & 0x3f);
        string_push(&mut out, c0 as char);
        string_push(&mut out, c1 as char);
        proof {
            produced = produced + seq![c0, c1];
            assert(out@ =~= bytes_as_chars(produced));
        }
    } else if rem == 2 {
        let x = input[i] as u32;
        let y = input[i + 1] as u32;
        let chunk: u32 = (x << 16) | (y << 8);
        proof {
            lemma_encode_group_bits(x, y, 0);
            assert((x << 16u32) | (y << 8u32) == (x << 16u32) | (y << 8u32) | 0u32) by (bit_vector);
        }
        let c0 = alphabet_byte((chunk >> 18) & 0x3f);
        let c1 = alphabet_byte((chunk >> 12) & 0x3f);
        let c2 = alphabet_byte((chunk >> 6) & 0x3f);
        string_push(&mut out, c0 as char);
        string_push(&mut out, c1 as char);
        string_push(&mut out, c2 as char);
        proof {
            produced = produced + seq![c0, c1, c2];
            assert(out@ =~= bytes_as_chars(produced));
        }
    }
    assert(produced =~= encode_bytes(input@));
    out
}

/// How the shifts and masks of `decode` rebuild three bytes from four 6-bit values.
proof fn lemma_decode_group_bits(a: u32, b: u32, c: u32, d: u32)
    by (bit_vector)
    requires
        a < 64,
        b < 64,
        c < 64,
        d < 64,
    ensures
        ((((a << 18u32) | (b << 12u32) | (c << 6u32) | d) >> 16u32) & 0xff) == a * 4 + b / 16,
        ((((a << 18u32) | (b << 12u32) | (c << 6u32) | d) >> 8u32) & 0xff) == (b % 16) * 16 + c / 4,
        (((a << 18u32) | (b << 12u32) | (c << 6u32) | d) & 0xff) == (c % 4) * 64 + d,
{
}

/// The 6-bit value of `bytes[index]`, where every earlier byte is known to be in the alphabet:
/// an error here is the error that `decode` owes for the whole text.
fn sextet_at(bytes: &[u8], index: usize) -> (res: Result<u32, DecodeError>)
    requires
        index < bytes@.len(),
        bytes@.len() % 4 != 1,
        forall|j: int| 0 <= j < index ==> is_alphabet_byte(#[trigger] bytes@[j]),
    ensures
        match res {
            Ok(v) => is_alphabet_byte(bytes@[index as int]) && v == sextet_value(bytes@[index as int]),
            Err(e) => decode_result(bytes@) == Err::<Seq<u8>, DecodeError>(e),
        },
{
    match decode_value(bytes[index], index) {
        Ok(v) => Ok(v as u32),
        Err(e) => {
            proof {
                lemma_first_failure_is(bytes@, |b: u8| is_alphabet_byte(b), index as int);
            }
            Err(e)
        },
    }
}

/// Decodes unpadded base64url text.
pub fn decode(input: &str) -> (res: Result<Vec<u8>, DecodeError>)
    ensures
        match res {
            Ok(v) => decode_result(input.spec_bytes()) == Ok::<Seq<u8>, DecodeError>(v@),
            Err(e) => decode_result(input.spec_bytes()) == Err::<Seq<u8>, DecodeError>(e),
        },
{
    let bytes = input.as_bytes();
    let len = bytes.len();
    if len % 4 == 1 {
        return Err(DecodeError::InvalidLength);
    }
    let mut out: Vec<u8> = Vec::new();
    let mut i: usize = 0;
    assert(bytes@.skip(0) =~= bytes@);

    while len - i >= 4
        invariant
            bytes@ == input.spec_bytes(),
            len == bytes@.len(),
            len % 4 != 1,
            i <= len,
            i % 4 == 0,
            forall|j: int| 0 <= j < i ==> is_alphabet_byte(#[trigger] bytes@[j]),
            decode_symbols(bytes@) == out@ + decode_symbols(bytes@.skip(i as int)),
        decreases len - i,
    {
        let a = sextet_at(bytes, i)?;
        let b = sextet_at(bytes, i + 1)?;
        let c = sextet_at(bytes, i + 2)?;
        let d = sextet_at(bytes, i + 3)?;
        let chunk: u32 = (a << 18) | (b << 12) | (c << 6) | d;
        proof {
            lemma_decode_group_bits(a, b, c, d);
        }
        let ghost before = out@;
        let v1 = ((chunk >> 16) & 0xff) as u8;
        let v2 = ((chunk >> 8) & 0xff) as u8;
        let v3 = (chunk & 0xff) as u8;
        out.push(v1);
        out.push(v2);
        out.push(v3);
        proof {
            let rest = bytes@.skip(i as int);
            assert(rest.skip(4) =~= bytes@.skip(i + 4));
            assert(decode_symbols(rest) == seq![v1, v2, v3] + decode_symbols(rest.skip(4)));
            assert(out@ =~= before + seq![v1, v2, v3]);
        }
        i += 4;
    }

    let rem = len - i;
    if rem == 2 {
        let a = sextet_at(bytes, i)?;
        let b = sextet_at(bytes, i + 1)?;
        let chunk: u32 = (a << 18) | (b << 12);
        proof {
            lemma_decode_group_bits(a, b, 0, 0);
            assert((a << 18u32) | (b << 12u32) == (a << 18u32) | (b << 12u32) | (0u32 << 6u32) | 0u32) by (bit_vector);
        }
        out.push(((chunk >> 16) & 0xff) as u8);
    } else if rem == 3 {
        let a = sextet_at(bytes, i)?;
        let b = sextet_at(bytes, i + 1)?;
        let c = sextet_at(bytes, i + 2)?;
        let chunk: u32 = (a << 18) | (b << 12) | (c << 6);
        proof {
            lemma_decode_group_bits(a, b, c, 0);
            assert((a << 18u32) | (b << 12u32) | (c << 6u32) == (a << 18u32) | (b << 12u32) | (c << 6u32) | 0u32) by (bit_vector);
        }
        out.push(((chunk >> 16) & 0xff) as u8);
        out.push(((chunk >> 8) & 0xff) as u8);
    }
    proof {
        assert(forall|j: int| 0 <= j < len ==> is_alphabet_byte(#[trigger] bytes@[j]));
        assert(all_satisfy(bytes@, |b: u8| is_alphabet_byte(b)));
        assert(out@ =~= decode_symbols(bytes@));
    }
    Ok(out)
}

// ---------------------------------------------------------------------------
// Laws
// ---------------------------------------------------------------------------

proof fn lemma_sextet_round_trip(v: int)
    requires
        0 <= v < 64,
    ensures
        is_alphabet_byte(sextet_char(v)),
        sextet_value(sextet_char(v)) == v,
        sextet_char(v) < 128,
{
}

/// The symbols are those of RFC 4648: the symbol written for each 6-bit value is the
/// table's entry at that position, the bytes read back as symbols are exactly the table's
/// 64 entries, and each is read back as its position.
pub proof fn law_symbols_are_rfc4648_table()
    ensures
        base64url_table().len() == 64,
        forall|v: int| 0 <= v < 64 ==> #[trigger] sextet_char(v) == base64url_table()[v] as u8,
        forall|v: int| 0 <= v < 64 ==> sextet_value(#[trigger] base64url_table()[v] as u8) == v,
        forall|b: u8| is_alphabet_byte(b) <==> #[trigger] base64url_table().contains(b as char),
{
    let t = base64url_table();
    assert forall|v: int| 0 <= v < 64 implies #[trigger] sextet_char(v) == t[v] as u8 && (t[v] as u32) < 128 by {
    }
    assert forall|v: int| 0 <= v < 64 implies sextet_value(#[trigger] t[v] as u8) == v by {
        lemma_sextet_round_trip(v);
    }
    assert forall|b: u8| is_alphabet_byte(b) <==> #[trigger] t.contains(b as char) by {
        if is_alphabet_byte(b) {
            let v = sextet_value(b);
            assert(sextet_char(v) == b);
            assert(t[v] as u8 == b);
            assert(t[v] == b as char);
        }
        if t.contains(b as char) {
            let v = choose|v: int| 0 <= v < t.len() && t[v] == b as char;
            lemma_sextet_round_trip(v);
            assert(sextet_char(v) == t[v] as u8);
        }
    }
}

/// Encoding yields `ceil(4n/3)` symbols, all of the alphabet, and never a length of the
/// form `4k + 1`.
pub proof fn lemma_encode_shape(s: Seq<u8>)
    ensures
        encode_bytes(s).len() == (4 * s.len() + 2) / 3,
        encode_bytes(s).len() % 4 != 1,
        all_satisfy(encode_bytes(s), |b: u8| is_alphabet_byte(b)),
        forall|i: int| 0 <= i < encode_bytes(s).len() ==> #[trigger] encode_bytes(s)[i] < 128,
    decreases s.len(),
{
    if s.len() == 0 {
    } else {
        let x = s[0] as int;
        lemma_sextet_round_trip(x / 4);
        if s.len() == 1 {
            lemma_sextet_round_trip((x % 4) * 16);
        } else {
            let y = s[1] as int;
            lemma_sextet_round_trip((x % 4) * 16 + y / 16);
            if s.len() == 2 {
                lemma_sextet_round_trip((y % 16) * 4);
            } else {
                let z = s[2] as int;
                lemma_sextet_round_trip((y % 16) * 4 + z / 64);
                lemma_sextet_round_trip(z % 64);
                lemma_encode_shape(s.skip(3));
                let head = seq![
                    sextet_char(x / 4),
                    sextet_char((x % 4) * 16 + y / 16),
                    sextet_char((y % 16) * 4 + z / 64),
                    sextet_char(z % 64),
                ];
                let e = encode_bytes(s);
                assert(e == head + encode_bytes(s.skip(3)));
                assert forall|i: int| 0 <= i < e.len() implies is_alphabet_byte(#[trigger] e[i]) && e[i] < 128 by {
                    let tail = encode_bytes(s.skip(3));
                    if i >= 4 {
                        assert(e[i] == tail[i - 4]);
                        let p = |b: u8| is_alphabet_byte(b);
                        assert(p(tail[i - 4]));
                    } else {
                        assert(e[i] == head[i]);
                    }
                }
            }
        }
    }
}

/// Decoding the symbols of an encoding gives back the encoded bytes.
pub proof fn lemma_decode_symbols_of_encode(s: Seq<u8>)
    ensures
        decode_symbols(encode_bytes(s)) == s,
    decreases s.len(),
{
    if s.len() == 0 {
    } else {
        let x = s[0] as int;
        lemma_sextet_round_trip(x / 4);
        if s.len() == 1 {
            lemma_sextet_round_trip((x % 4) * 16);
            assert(decode_symbols(encode_bytes(s)) =~= s);
        } else {
            let y = s[1] as int;
            lemma_sextet_round_trip((x % 4) * 16 + y / 16);
            if s.len() == 2 {
                lemma_sextet_round_trip((y % 16) * 4);
                assert(decode_symbols(encode_bytes(s)) =~= s);
            } else {
                let z = s[2] as int;
                lemma_sextet_round_trip((y % 16) * 4 + z / 64);
                lemma_sextet_round_trip(z % 64);
                lemma_decode_symbols_of_encode(s.skip(3));
                let e = encode_bytes(s);
                let tail = encode_bytes(s.skip(3));
                assert(e.skip(4) =~= tail);
                assert(decode_symbols(e) =~= seq![s[0], s[1], s[2]] + s.skip(3));
                assert(seq![s[0], s[1], s[2]] + s.skip(3) =~= s);
            }
        }
    }
}

/// The UTF-8 bytes of text made of ASCII bytes are those bytes.
pub proof fn lemma_ascii_text_bytes(b: Seq<u8>)
    requires
        forall|i: int| 0 <= i < b.len() ==> #[trigger] b[i] < 128,
    ensures
        encode_utf8(bytes_as_chars(b)) == b,
        is_ascii_chars(bytes_as_chars(b)),
{
    let c = bytes_as_chars(b);
    assert(is_ascii_chars(c));
    is_ascii_chars_encode_utf8(c);
    assert(encode_utf8(c) =~= b);
}

/// Round trip: decoding the text that `encode` produces gives back the input bytes.
pub proof fn law_decode_inverts_encode(data: Seq<u8>)
    ensures
        decode_result(encode_utf8(bytes_as_chars(encode_bytes(data)))) == Ok::<Seq<u8>, DecodeError>(data),
{
    lemma_encode_shape(data);
    lemma_ascii_text_bytes(encode_bytes(data));
    lemma_decode_symbols_of_encode(data);
}

/// The symbols of byte group `g` of `s`, per RFC 4648 (see `law_encode_groups`).
pub open spec fn group_encoded_per_table(s: Seq<u8>, e: Seq<u8>, g: int) -> bool {
    let t = base64url_table();
    let x = s[3 * g] as int;
    let y = if 3 * g + 1 < s.len() { s[3 * g + 1] as int } else { 0 };
    let z = if 3 * g + 2 < s.len() { s[3 * g + 2] as int } else { 0 };
    &&& e[4 * g] == t[x / 4] as u8
    &&& e[4 * g + 1] == t[(x % 4) * 16 + y / 16] as u8
    &&& 3 * g + 1 < s.len() ==> e[4 * g + 2] == t[(y % 16) * 4 + z / 64] as u8
    &&& 3 * g + 2 < s.len() ==> e[4 * g + 3] == t[z % 64] as u8
}

proof fn lemma_first_group_encoded(s: Seq<u8>)
    requires
        s.len() > 0,
    ensures
        group_encoded_per_table(s, encode_bytes(s), 0),
{
    law_symbols_are_rfc4648_table();
    let x = s[0] as int;
    lemma_sextet_round_trip(x / 4);
    if s.len() >= 2 {
        let y = s[1] as int;
        if s.len() >= 3 {
            let z = s[2] as int;
            assert(encode_bytes(s)[2] == sextet_char((y % 16) * 4 + z / 64));
            assert(encode_bytes(s)[3] == sextet_char(z % 64));
        }
        assert(encode_bytes(s)[1] == sextet_char((x % 4) * 16 + y / 16));
    }
}

/// Encoding per RFC 4648: byte group `g` (bytes `3g`, `3g+1`, `3g+2`, missing bytes taken as
/// zero) becomes the table symbols of its four 6-bit slices, high bits first; a final group
/// of one byte gives two symbols and one of two bytes gives three.
pub proof fn law_encode_groups(s: Seq<u8>)
    ensures
        forall|g: int|
            0 <= g && 3 * g < s.len() ==> #[trigger] group_encoded_per_table(s, encode_bytes(s), g),
    decreases s.len(),
{
    law_symbols_are_rfc4648_table();
    if s.len() > 0 {
        lemma_first_group_encoded(s);
    }
    if s.len() >= 3 {
        let rest = s.skip(3);
        law_encode_groups(rest);
        lemma_encode_shape(rest);
        let e = encode_bytes(s);
        let er = encode_bytes(rest);
        assert(e.len() == 4 + er.len());
        assert forall|g: int| 0 <= g && 3 * g < s.len() implies #[trigger] group_encoded_per_table(s, e, g) by {
            if g > 0 {
                let h = g - 1;
                assert(group_encoded_per_table(rest, er, h));
                assert(rest[3 * h] == s[3 * g]);
                assert(3 * h + 1 < rest.len() ==> rest[3 * h + 1] == s[3 * g + 1]);
                assert(3 * h + 2 < rest.len() ==> rest[3 * h + 2] == s[3 * g + 2]);
                assert(e[4 * g] == er[4 * h]);
                assert(e[4 * g + 1] == er[4 * h + 1]);
                assert(3 * g + 1 < s.len() ==> e[4 * g + 2] == er[4 * h + 2]);
                assert(3 * g + 2 < s.len() ==> e[4 * g + 3] == er[4 * h + 3]);
            }
        }
    }
}

/// Number of bytes that `decode_symbols` gives for `w`.
proof fn lemma_decode_symbols_len(w: Seq<u8>)
    requires
        w.len() % 4 != 1,
    ensures
        decode_symbols(w).len() == (3 * w.len()) / 4,
    decreases w.len(),
{
    if w.len() >= 4 {
        lemma_decode_symbols_len(w.skip(4));
    }
}

/// Decoding per RFC 4648: symbol group `g` (symbols `4g` to `4g+3`) whose symbols stand at
/// positions `a, b, c, d` of the table gives the bytes made of those 6-bit slices, high bits
/// first: `a·4 + b/16`, then `(b mod 16)·16 + c/4` if there is a third symbol, then
/// `(c mod 4)·64 + d` if there is a fourth.
pub proof fn law_decode_groups(w: Seq<u8>, g: int, a: int, b: int, c: int, d: int)
    requires
        decode_result(w) is Ok,
        0 <= g,
        4 * g + 1 < w.len(),
        0 <= a < 64 && 0 <= b < 64 && 0 <= c < 64 && 0 <= d < 64,
        base64url_table()[a] as u8 == w[4 * g],
        base64url_table()[b] as u8 == w[4 * g + 1],
        4 * g + 2 < w.len() ==> base64url_table()[c] as u8 == w[4 * g + 2],
        4 * g + 3 < w.len() ==> base64url_table()[d] as u8 == w[4 * g + 3],
    ensures
        ({
            let out = decode_result(w)->Ok_0;
            &&& out[3 * g] == a * 4 + b / 16
            &&& 4 * g + 2 < w.len() ==> out[3 * g + 1] == (b % 16) * 16 + c / 4
            &&& 4 * g + 3 < w.len() ==> out[3 * g + 2] == (c % 4) * 64 + d
        }),
    decreases g,
{
    law_symbols_are_rfc4648_table();
    let out = decode_symbols(w);
    if g == 0 {
        assert(sextet_value(w[0]) == a);
        assert(sextet_value(w[1]) == b);
        assert(4 * g + 2 < w.len() ==> sextet_value(w[2]) == c);
        assert(4 * g + 3 < w.len() ==> sextet_value(w[3]) == d);
    } else {
        let rest = w.skip(4);
        assert(rest.len() % 4 == w.len() % 4);
        assert(all_satisfy(rest, |x: u8| is_alphabet_byte(x))) by {
            assert forall|i: int| 0 <= i < rest.len() implies #[trigger] is_alphabet_byte(rest[i]) by {
                let p = |x: u8| is_alphabet_byte(x);
                assert(p(w[i + 4]));
            }
        }
        assert(rest[4 * (g - 1)] == w[4 * g]);
        assert(rest[4 * (g - 1) + 1] == w[4 * g + 1]);
        assert(4 * g + 2 < w.len() ==> rest[4 * (g - 1) + 2] == w[4 * g + 2]);
        assert(4 * g + 3 < w.len() ==> rest[4 * (g - 1) + 3] == w[4 * g + 3]);
        law_decode_groups(rest, g - 1, a, b, c, d);
        let orest = decode_symbols(rest);
        lemma_decode_symbols_len(rest);
        assert(out.len() == 3 + orest.len());
        assert(out[3 * g] == orest[3 * (g - 1)]);
        assert(4 * g + 2 < w.len() ==> out[3 * g + 1] == orest[3 * (g - 1) + 1]);
        assert(4 * g + 3 < w.len() ==> out[3 * g + 2] == orest[3 * (g - 1) + 2]);
    }
}

} // verus!
