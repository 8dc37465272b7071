//! Text: its UTF-8 bytes as a growable sequence of bytes, validated on decode.

use vstd::prelude::*;
use vstd::utf8::{decode_utf8, encode_utf8, encode_utf8_decode_utf8, encode_utf8_valid_utf8, valid_utf8};
use crate::reader::{DecodeError, Decoding, SliceReader};
use crate::Serializeable;

verus! {

/// The length of the longest prefix of `bytes`, of at most `bound` bytes, that
/// is UTF-8.
pub open spec fn utf8_prefix(bytes: Seq<u8>, bound: nat) -> nat
    decreases bound,
{
    if bound == 0 || (bound <= bytes.len() && valid_utf8(bytes.take(bound as int))) {
        bound
    } else {
        utf8_prefix(bytes, (bound - 1) as nat)
    }
}

/// How many bytes at the front of `bytes` are UTF-8: the length of its longest
/// valid prefix.
pub open spec fn valid_up_to(bytes: Seq<u8>) -> nat {
    utf8_prefix(bytes, bytes.len())
}

/// What the bytes of a text come to once they are read: the text, if they are
/// UTF-8, else the failure that says how far they are.
pub open spec fn text_of(raw: Seq<u8>) -> Result<Seq<char>, DecodeError> {
    if valid_utf8(raw) {
        Ok(decode_utf8(raw))
    } else {
        Err(DecodeError::InvalidUtf8 { valid_up_to: valid_up_to(raw) as usize })
    }
}

/// `String::from_utf8` of std: the string with exactly these bytes if they are
/// UTF-8; if not, the error's `valid_up_to`, the length of the longest prefix
/// that is.
#[verifier::external_body]
fn string_from_utf8(bytes: Vec<u8>) -> (result: Result<String, usize>)
    ensures
        match result {
            Ok(text) => valid_utf8(bytes@) && encode_utf8(text@) == bytes@,
            Err(upto) => !valid_utf8(bytes@) && upto == valid_up_to(bytes@),
        },
{
    match String::from_utf8(bytes) {
        Ok(text) => Ok(text),
        Err(error) => Err(error.utf8_error().valid_up_to()),
    }
}

/// Validates the bytes of a text.
pub fn text_from_bytes(raw: Vec<u8>) -> (result: Result<String, DecodeError>)
    ensures
        match result {
            Ok(text) => text_of(raw@) == Ok::<Seq<char>, DecodeError>(text@),
            Err(error) => text_of(raw@) == Err::<Seq<char>, DecodeError>(error),
        },
{
    let ghost bytes = raw@;
    match string_from_utf8(raw) {
        Ok(text) => {
            proof {
                encode_utf8_decode_utf8(text@);
            }
            Ok(text)
        },
        Err(upto) => Err(DecodeError::InvalidUtf8 { valid_up_to: upto }),
    }
}

/// What is left after bytes were decoded is never longer than what there was.
pub proof fn lemma_bytes_rest(bytes: Seq<u8>, count: nat)
    ensures
        crate::elements::decode_elements::<u8>(bytes, count).rest.len() <= bytes.len(),
    decreases count,
{
    if count > 0 {
        lemma_bytes_rest(u8::decoding(bytes).rest, (count - 1) as nat);
    }
}

/// What is left after a text was decoded is never longer than what there was.
pub proof fn lemma_text_rest(bytes: Seq<u8>)
    ensures
        String::decoding(bytes).rest.len() <= bytes.len(),
{
    if bytes.len() >= 8 {
        lemma_bytes_rest(bytes.skip(8), crate::big_endian::be_value(bytes.take(8)));
    }
}

/// A decoded text is one that the format can hold: its bytes were counted by
/// a 64-bit length.
pub proof fn lemma_decoded_text_fits(bytes: Seq<u8>)
    ensures
        match String::decoding(bytes).outcome {
            Ok(text) => String::encodable(text),
            Err(_) => true,
        },
{
    if bytes.len() >= 8 {
        let count = crate::big_endian::be_value(bytes.take(8));
        crate::big_endian::lemma_be_value_bound(bytes.take(8));
        crate::big_endian::lemma_capacity_values();
        crate::elements::lemma_decode_elements_count::<u8>(bytes.skip(8), count);
        match Vec::<u8>::decoding(bytes).outcome {
            Ok(units) => {
                if valid_utf8(units) {
                    vstd::utf8::decode_utf8_encode_utf8(units);
                }
            },
            Err(_) => {},
        }
    }
}

/// Bytes that are not UTF-8, framed as the bytes of a text, decode to the
/// failure that says how far they are UTF-8. The failure is recoverable, and
/// the bytes after the text are left.
pub proof fn lemma_invalid_text(units: Seq<u8>, rest: Seq<u8>)
    requires
        units.len() <= u64::MAX,
        !valid_utf8(units),
    ensures
        String::decoding(Vec::<u8>::encoding(units) + rest) == Decoding::<Seq<char>>::failed(
            DecodeError::InvalidUtf8 { valid_up_to: valid_up_to(units) as usize },
            rest,
        ),
        (DecodeError::InvalidUtf8 { valid_up_to: valid_up_to(units) as usize }).recoverable(),
{
    Vec::<u8>::lemma_round_trip(units, rest);
}

impl Serializeable for String {
    /// The UTF-8 bytes of the text, encoded as a growable sequence of bytes.
    open spec fn encoding(value: Seq<char>) -> Seq<u8> {
        Vec::<u8>::encoding(encode_utf8(value))
    }

    open spec fn encodable(value: Seq<char>) -> bool {
        encode_utf8(value).len() <= u64::MAX
    }

    /// Reads a growable sequence of bytes, then checks that they are UTF-8.
    open spec fn decoding(bytes: Seq<u8>) -> Decoding<Seq<char>> {
        let raw = Vec::<u8>::decoding(bytes);
        match raw.outcome {
            Ok(units) => Decoding { outcome: text_of(units), rest: raw.rest },
            Err(error) => Decoding::failed(error, raw.rest),
        }
    }

    proof fn lemma_round_trip(value: Seq<char>, rest: Seq<u8>) {
        let units = encode_utf8(value);
        Vec::<u8>::lemma_round_trip(units, rest);
        encode_utf8_valid_utf8(value);
        encode_utf8_decode_utf8(value);
    }

    proof fn lemma_truncated(value: Seq<char>, cut: int) {
        Vec::<u8>::lemma_truncated(encode_utf8(value), cut);
    }

    fn serialize_into(&self, data: &mut Vec<u8>) {
        let units = self.as_str().as_bytes();
        crate::big_endian::put_be(data, units.len() as u128, 8);
        crate::elements::serialize_elements(units, data);
        assert(units.deep_view() =~= units@);
        assert(data@ =~= old(data)@ + Self::encoding(self@));
    }

    fn deserialize(reader: &mut SliceReader) -> (result: Result<Self, DecodeError>) {
        match Vec::<u8>::deserialize(reader) {
            Ok(units) => {
                assert(units.deep_view() =~= units@);
                text_from_bytes(units)
            },
            Err(error) => Err(error),
        }
    }
}

} // verus!
