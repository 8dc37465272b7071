//! A structural binary encoding: big-endian scalars, length-prefixed sequences
//! and text, products as the concatenation of their fields, and sums as a
//! discriminant byte followed by the fields of the chosen variant.

use vstd::prelude::*;

pub mod array_serialize;
pub mod big_endian;
pub mod box_serialize;
pub mod derive;
pub mod elements;
pub mod grammar;
pub mod machine;
pub mod primitive_serialize;
pub mod reader;
pub mod round_trip;
pub mod scalar;
pub mod shape;
pub mod string_serialize;
pub mod suspend;
pub mod value;
pub mod vec_serialize;

use crate::reader::{delivers, DecodeError, Decoding, SliceReader};

verus! {

/// A type with a wire format: a byte encoding of its values and the decoder
/// that reads them back.
///
/// The spec functions are the format: `encoding` gives the bytes of a value,
/// `decoding` says what reading a value off the front of a byte sequence
/// comes to, and `encodable` says which values the format can hold. The two
/// proof functions are the laws that tie them together, and the executable
/// functions compute exactly what the spec functions say.
pub trait Serializeable: Sized + DeepView {
    /// The bytes of a value.
    spec fn encoding(value: Self::V) -> Seq<u8>;

    /// What decoding the front of `bytes` comes to.
    spec fn decoding(bytes: Seq<u8>) -> Decoding<Self::V>;

    /// The values that the format can hold: those whose lengths fit their
    /// prefixes. Every executable value is one.
    spec fn encodable(value: Self::V) -> bool;

    /// Decoding the bytes of a value gives the value back and leaves what
    /// followed them.
    proof fn lemma_round_trip(value: Self::V, rest: Seq<u8>)
        requires
            Self::encodable(value),
        ensures
            Self::decoding(Self::encoding(value) + rest) == Decoding::done(value, rest),
    ;

    /// Decoding a proper prefix of the bytes of a value fails for want of
    /// bytes, and uses up the prefix.
    proof fn lemma_truncated(value: Self::V, cut: int)
        requires
            Self::encodable(value),
            0 <= cut < Self::encoding(value).len(),
        ensures
            Self::decoding(Self::encoding(value).take(cut)) == Decoding::<Self::V>::starved(),
    ;

    /// Converts `self` to bytes and appends them to `data`.
    fn serialize_into(&self, data: &mut Vec<u8>)
        ensures
            Self::encodable(self.deep_view()),
            final(data)@ == old(data)@ + Self::encoding(self.deep_view()),
    ;

    /// Reads as many bytes from `reader` as one value takes. On failure the
    /// bytes read so far stay read.
    fn deserialize(reader: &mut SliceReader) -> (result: Result<Self, DecodeError>)
        ensures
            final(reader)@ == Self::decoding(old(reader)@).rest,
            delivers(result, Self::decoding(old(reader)@).outcome),
    ;

    /// The bytes of `self`.
    fn serialize(&self) -> (bytes: Vec<u8>)
        ensures
            Self::encodable(self.deep_view()),
            bytes@ == Self::encoding(self.deep_view()),
    {
        let mut bytes: Vec<u8> = Vec::new();
        self.serialize_into(&mut bytes);
        assert(bytes@ =~= Self::encoding(self.deep_view()));
        bytes
    }
}

/// Encoding is a function of the value: two values with the same model have
/// the same bytes.
pub proof fn lemma_encoding_deterministic<T: Serializeable>(one: T, other: T)
    requires
        one.deep_view() == other.deep_view(),
    ensures
        T::encoding(one.deep_view()) == T::encoding(other.deep_view()),
{
}

} // verus!
