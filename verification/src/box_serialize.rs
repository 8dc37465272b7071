//! Owned indirection: on the wire a box is what it holds.

use vstd::prelude::*;
use crate::reader::{DecodeError, Decoding, SliceReader};
use crate::Serializeable;

verus! {

impl<T: Serializeable> Serializeable for Box<T> {
    open spec fn encoding(value: T::V) -> Seq<u8> {
        T::encoding(value)
    }

    open spec fn encodable(value: T::V) -> bool {
        T::encodable(value)
    }

    open spec fn decoding(bytes: Seq<u8>) -> Decoding<T::V> {
        T::decoding(bytes)
    }

    proof fn lemma_round_trip(value: T::V, rest: Seq<u8>) {
        T::lemma_round_trip(value, rest);
    }

    proof fn lemma_truncated(value: T::V, cut: int) {
        T::lemma_truncated(value, cut);
    }

    fn serialize_into(&self, data: &mut Vec<u8>) {
        (**self).serialize_into(data);
    }

    fn deserialize(reader: &mut SliceReader) -> (result: Result<Self, DecodeError>) {
        match T::deserialize(reader) {
            Ok(value) => Ok(Box::new(value)),
            Err(error) => Err(error),
        }
    }
}

} // verus!
