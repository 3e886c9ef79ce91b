use vstd::prelude::*;
use vstd::string::StringSliceAdditionalSpecFns;

use crate::base64url::{base64url_table, law_symbols_are_rfc4648_table};
use crate::search::{all_satisfy, first_failure, lemma_first_failure_exists, lemma_first_failure_is};

verus! {

/// Why a wire packet was refused before any decoding took place.
#[derive(Debug, Clone, PartialEq, Eq)]
pub enum ValidationError {
    EmptyInput,
    InvalidByte { index: usize, byte: u8 },
}

/// The wire alphabet: `A-Z`, `a-z`, `0-9`, `_` and `-`.
pub open spec fn is_wire_byte(b: u8) -> bool {
    (0x41 <= b <= 0x5a) || (0x61 <= b <= 0x7a) || (0x30 <= b <= 0x39) || b == 0x5f || b == 0x2d
}

/// What `validate_wire_format` answers for a packet whose UTF-8 bytes are `bytes`.
pub open spec fn wire_format_result(bytes: Seq<u8>) -> Result<(), ValidationError> {
    if bytes.len() == 0 {
        Err(ValidationError::EmptyInput)
    } else if all_satisfy(bytes, |b: u8| is_wire_byte(b)) {
        Ok(())
    } else {
        let i = first_failure(bytes, |b: u8| is_wire_byte(b));
        Err(ValidationError::InvalidByte { index: i as usize, byte: bytes[i] })
    }
}

pub fn validate_wire_format(input: &str) -> (res: Result<(), ValidationError>)
    ensures
        res == wire_format_result(input.spec_bytes()),
{
    let bytes = input.as_bytes();
    if bytes.len() == 0 {
        return Err(ValidationError::EmptyInput);
    }
    let mut index: usize = 0;
    while index < bytes.len()
        invariant
            bytes@ == input.spec_bytes(),
            0 < bytes@.len(),
            index <= bytes@.len(),
            forall|j: int| 0 <= j < index ==> is_wire_byte(#[trigger] bytes@[j]),
        decreases bytes@.len() - index,
    {
        let byte = bytes[index];
        // A-Z, a-z, 0-9, '_' and '-'
        let is_valid = (0x41 <= byte && byte <= 0x5a) || (0x61 <= byte && byte <= 0x7a)
            || (0x30 <= byte && byte <= 0x39) || byte == 0x5f || byte == 0x2d;
        if !is_valid {
            proof {
                lemma_first_failure_is(bytes@, |b: u8| is_wire_byte(b), index as int);
            }
            return Err(ValidationError::InvalidByte { index, byte });
        }
        index += 1;
    }
    assert(all_satisfy(bytes@, |b: u8| is_wire_byte(b)));
    Ok(())
}

/// The wire alphabet is exactly the 64 symbols of the RFC 4648 base64url table. Validation
/// refuses empty input and otherwise accepts exactly the texts made of those symbols; a
/// refusal names the first byte outside the table.
pub proof fn law_wire_format_is_base64url_table(bytes: Seq<u8>)
    requires
        bytes.len() <= usize::MAX,
    ensures
        forall|b: u8| is_wire_byte(b) <==> #[trigger] base64url_table().contains(b as char),
        wire_format_result(bytes) == Err::<(), ValidationError>(ValidationError::EmptyInput) <==> bytes.len()
            == 0,
        wire_format_result(bytes) is Ok <==> bytes.len() > 0 && forall|i: int|
            0 <= i < bytes.len() ==> base64url_table().contains(#[trigger] bytes[i] as char),
        wire_format_result(bytes) matches Err(ValidationError::InvalidByte { index, byte }) ==> {
            &&& index < bytes.len()
            &&& bytes[index as int] == byte
            &&& !base64url_table().contains(byte as char)
            &&& forall|j: int| 0 <= j < index ==> base64url_table().contains(#[trigger] bytes[j] as char)
        },
{
    law_symbols_are_rfc4648_table();
    let p = |b: u8| is_wire_byte(b);
    assert forall|b: u8| is_wire_byte(b) <==> #[trigger] base64url_table().contains(b as char) by {
        assert(crate::base64url::is_alphabet_byte(b) <==> base64url_table().contains(b as char));
    }
    if bytes.len() > 0 && !all_satisfy(bytes, p) {
        let i = choose|i: int| 0 <= i < bytes.len() && !#[trigger] p(bytes[i]);
        lemma_first_failure_exists(bytes, p, i);
        let k = first_failure(bytes, p);
        assert(k as usize as int == k);
        assert(!base64url_table().contains(bytes[k] as char));
        assert forall|j: int| 0 <= j < k implies base64url_table().contains(#[trigger] bytes[j] as char) by {
            assert(p(bytes[j]));
        }
    }
    if bytes.len() > 0 && all_satisfy(bytes, p) {
        assert forall|i: int| 0 <= i < bytes.len() implies base64url_table().contains(#[trigger] bytes[i] as char) by {
            assert(p(bytes[i]));
        }
    }
    if bytes.len() > 0 && (forall|i: int| 0 <= i < bytes.len() ==> base64url_table().contains(#[trigger] bytes[i] as char)) {
        assert forall|i: int| 0 <= i < bytes.len() implies #[trigger] p(bytes[i]) by {
            assert(base64url_table().contains(bytes[i] as char));
        }
    }
}

} // verus!
