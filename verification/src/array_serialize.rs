//! Fixed sequences: the elements and nothing else.

use vstd::prelude::*;
use crate::elements::{
    all_encodable, decode_elements, deserialize_elements, encode_elements,
    lemma_decode_elements_count, lemma_elements_round_trip, lemma_elements_truncated,
    lemma_encode_elements_len,
    serialize_elements,
};
use crate::reader::{DecodeError, Decoding, SliceReader};
use crate::Serializeable;

verus! {

/// `<[T; N]>::try_from` of std on a `Vec<T>`: the vector's items as an array
/// when there are exactly `N` of them, and nothing otherwise.
#[verifier::external_body]
fn array_from_vec<T, const N: usize>(items: Vec<T>) -> (array: Option<[T; N]>)
    ensures
        match array {
            Some(filled) => filled@ == items@,
            None => items@.len() != N,
        },
{
    <[T; N]>::try_from(items).ok()
}

impl<T: Serializeable, const N: usize> Serializeable for [T; N] {
    /// The elements in order, with no length in front.
    open spec fn encoding(value: Seq<T::V>) -> Seq<u8> {
        encode_elements::<T>(value)
    }

    open spec fn encodable(value: Seq<T::V>) -> bool {
        value.len() == N && all_encodable::<T>(value)
    }

    /// Reads exactly `N` elements.
    open spec fn decoding(bytes: Seq<u8>) -> Decoding<Seq<T::V>> {
        decode_elements::<T>(bytes, N as nat)
    }

    proof fn lemma_round_trip(value: Seq<T::V>, rest: Seq<u8>) {
        lemma_elements_round_trip::<T>(value, rest);
    }

    proof fn lemma_truncated(value: Seq<T::V>, cut: int) {
        lemma_elements_truncated::<T>(value, cut);
    }

    fn serialize_into(&self, data: &mut Vec<u8>) {
        let items = self.as_slice();
        serialize_elements(items, data);
        assert(items.deep_view() =~= self.deep_view());
    }

    fn deserialize(reader: &mut SliceReader) -> (result: Result<Self, DecodeError>) {
        proof {
            lemma_decode_elements_count::<T>(reader@, N as nat);
        }
        match deserialize_elements::<T>(reader, N as u64) {
            Ok(items) => match array_from_vec::<T, N>(items) {
                Some(array) => {
                    assert(array.deep_view() =~= items.deep_view());
                    Ok(array)
                },
                None => Err(DecodeError::UnexpectedEof),
            },
            Err(error) => Err(error),
        }
    }
}

/// A fixed sequence of `N` elements that each take `size` bytes takes
/// `N * size` bytes.
pub proof fn lemma_array_length<T: Serializeable, const N: usize>(value: Seq<T::V>, size: nat)
    requires
        value.len() == N,
        forall|i: int| 0 <= i < value.len() ==> (#[trigger] T::encoding(value[i])).len() == size,
    ensures
        <[T; N] as Serializeable>::encoding(value).len() == N * size,
{
    lemma_encode_elements_len::<T>(value, size);
}

} // verus!
