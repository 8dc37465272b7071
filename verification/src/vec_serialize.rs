//! Growable sequences: a 64-bit length, then the elements.

use vstd::prelude::*;
use crate::big_endian::{
    be_bytes, be_value, lemma_be_bytes_len, lemma_capacity_values, lemma_numeral_prefix, put_be,
};
use crate::elements::{
    all_encodable, decode_elements, deserialize_elements, encode_elements,
    lemma_elements_round_trip, lemma_elements_truncated, serialize_elements,
};
use crate::reader::{DecodeError, Decoding, SliceReader};
use crate::Serializeable;

verus! {

impl<T: Serializeable> Serializeable for Vec<T> {
    /// The number of elements as eight big-endian bytes, then each element.
    open spec fn encoding(value: Seq<T::V>) -> Seq<u8> {
        be_bytes(value.len(), 8) + encode_elements::<T>(value)
    }

    open spec fn encodable(value: Seq<T::V>) -> bool {
        value.len() <= u64::MAX && all_encodable::<T>(value)
    }

    /// Reads the length, then exactly that many elements.
    open spec fn decoding(bytes: Seq<u8>) -> Decoding<Seq<T::V>> {
        if bytes.len() < 8 {
            Decoding::starved()
        } else {
            decode_elements::<T>(bytes.skip(8), be_value(bytes.take(8)))
        }
    }

    proof fn lemma_round_trip(value: Seq<T::V>, rest: Seq<u8>) {
        let later = encode_elements::<T>(value) + rest;
        lemma_capacity_values();
        lemma_numeral_prefix(value.len(), 8, later);
        assert(Self::encoding(value) + rest =~= be_bytes(value.len(), 8) + later);
        lemma_elements_round_trip::<T>(value, rest);
    }

    proof fn lemma_truncated(value: Seq<T::V>, cut: int) {
        let prefix = be_bytes(value.len(), 8);
        lemma_be_bytes_len(value.len(), 8);
        if cut >= 8 {
            let later = encode_elements::<T>(value).take(cut - 8);
            lemma_capacity_values();
            lemma_numeral_prefix(value.len(), 8, later);
            assert(Self::encoding(value).take(cut) =~= prefix + later);
            lemma_elements_truncated::<T>(value, cut - 8);
        }
    }

    fn serialize_into(&self, data: &mut Vec<u8>) {
        put_be(data, self.len() as u128, 8);
        let items = self.as_slice();
        serialize_elements(items, data);
        assert(items.deep_view() =~= self.deep_view());
        assert(data@ =~= old(data)@ + Self::encoding(self.deep_view()));
    }

    fn deserialize(reader: &mut SliceReader) -> (result: Result<Self, DecodeError>) {
        proof {
            lemma_capacity_values();
        }
        match reader.read_be(8) {
            Ok(count) => deserialize_elements(reader, count as u64),
            Err(error) => Err(error),
        }
    }
}

} // verus!
