//! Byte patterns written as hexadecimal strings.

use vstd::prelude::*;
use vstd::utf8::encode_utf8;

verus! {

/// Why a string is not the hexadecimal form of a byte sequence.
#[derive(Clone, Copy, Debug, PartialEq, Eq)]
pub enum PatternDecodeError {
    /// The string has an odd number of bytes.
    OddLength,
    /// The string has an even number of bytes and `byte`, at position
    /// `index`, is the first that is not a hexadecimal digit.
    InvalidCharacter { index: usize, byte: u8 },
}

/// The value of a hexadecimal digit, in either case; `None` for any other
/// byte.
pub open spec fn digit_value(b: u8) -> Option<int> {
    if 0x30 <= b <= 0x39 {
        Some(b - 0x30)
    } else if 0x41 <= b <= 0x46 {
        Some(b - 0x41 + 10)
    } else if 0x61 <= b <= 0x66 {
        Some(b - 0x61 + 10)
    } else {
        None
    }
}

/// `digits` is an even number of hexadecimal digits.
pub open spec fn valid_hex(digits: Seq<u8>) -> bool {
    &&& digits.len() % 2 == 0
    &&& forall|i: int| 0 <= i < digits.len() ==> digit_value(#[trigger] digits[i]) is Some
}

/// The bytes that `digits` spell, two digits to a byte, the high one first.
pub open spec fn decoded(digits: Seq<u8>) -> Seq<u8> {
    Seq::new(
        digits.len() / 2,
        |k: int|
            (16 * digit_value(digits[2 * k]).unwrap() + digit_value(
                digits[2 * k + 1],
            ).unwrap()) as u8,
    )
}

/// `e` is the reason for which `digits` cannot be decoded.
pub open spec fn decode_failure(digits: Seq<u8>, e: PatternDecodeError) -> bool {
    match e {
        PatternDecodeError::OddLength => digits.len() % 2 == 1,
        PatternDecodeError::InvalidCharacter { index, byte } => {
            &&& digits.len() % 2 == 0
            &&& index < digits.len()
            &&& byte == digits[index as int]
            &&& digit_value(byte) is None
            &&& forall|j: int| 0 <= j < index ==> digit_value(#[trigger] digits[j]) is Some
        },
    }
}

/// What decoding `digits` gives: the bytes they spell, or the reason for
/// which they spell none.
pub open spec fn decode_outcome(digits: Seq<u8>, outcome: Result<Seq<u8>, PatternDecodeError>) -> bool {
    match outcome {
        Ok(bytes) => valid_hex(digits) && bytes == decoded(digits),
        Err(e) => decode_failure(digits, e),
    }
}

/// The pattern that a hexadecimal string stands for, if it stands for one.
pub open spec fn pattern_of(hex: Seq<char>) -> Option<Seq<u8>> {
    if valid_hex(encode_utf8(hex)) {
        Some(decoded(encode_utf8(hex)))
    } else {
        None
    }
}

/// `hex::FromHexError`, the error that `hex::decode` returns. It is carried
/// from the call to the place where it is dropped; nothing reads it.
#[verifier::external_type_specification]
#[verifier::external_body]
pub struct ExFromHexError(hex::FromHexError);

/// `hex::decode` on a byte slice. It succeeds exactly on an even number of
/// hexadecimal digits, of either case, and then returns one byte for each
/// pair of digits, the first digit of a pair being the high half. Nothing is
/// claimed about the error it returns otherwise.
#[verifier::external_body]
fn hex_decode(digits: &[u8]) -> (res: Result<Vec<u8>, hex::FromHexError>)
    ensures
        res is Ok <==> valid_hex(digits@),
        res matches Ok(bytes) ==> bytes@ == decoded(digits@),
{
    hex::decode(digits)
}

/// Tells whether `b` is a hexadecimal digit.
fn is_hex_digit(b: u8) -> (yes: bool)
    ensures
        yes == (digit_value(b) is Some),
{
    (0x30 <= b && b <= 0x39) || (0x41 <= b && b <= 0x46) || (0x61 <= b && b <= 0x66)
}

/// The reason for which `digits` cannot be decoded.
fn decode_error(digits: &[u8]) -> (e: PatternDecodeError)
    requires
        !valid_hex(digits@),
    ensures
        decode_failure(digits@, e),
{
    let size: usize = digits.len();
    if size % 2 != 0 {
        return PatternDecodeError::OddLength;
    }
    let mut i: usize = 0;
    while i < size && is_hex_digit(digits[i])
        invariant
            size == digits@.len(),
            i <= size,
            forall|j: int| 0 <= j < i ==> digit_value(#[trigger] digits@[j]) is Some,
        decreases size - i,
    {
        i += 1;
    }
    PatternDecodeError::InvalidCharacter { index: i, byte: digits[i] }
}

/// Decodes a hexadecimal string into the bytes it spells.
///
/// Succeeds on an even number of hexadecimal digits, upper or lower case.
/// Fails with `OddLength` on a string of odd length, and otherwise with
/// `InvalidCharacter` at the first byte that is no hexadecimal digit.
pub fn decode_pattern(hex: &str) -> (res: Result<Vec<u8>, PatternDecodeError>)
    ensures
        match res {
            Ok(bytes) => pattern_of(hex@) == Some(bytes@),
            Err(e) => pattern_of(hex@) is None && decode_failure(encode_utf8(hex@), e),
        },
{
    let digits = hex.as_bytes();
    match hex_decode(digits) {
        Ok(bytes) => Ok(bytes),
        Err(_) => Err(decode_error(digits)),
    }
}

} // verus!
