//! The wire format of the scalars: the integers, the floating-point numbers
//! by their bit patterns, and `bool`.

use vstd::prelude::*;
use crate::big_endian::{
    be_bytes, be_value, from_twos_complement, lemma_be_bytes_len, lemma_capacity_values,
    lemma_numeral_prefix, lemma_twos_complement_inverse, put_be, signed_from_bits, signed_to_bits,
    twos_complement,
};
use crate::reader::{DecodeError, Decoding, SliceReader};
use crate::Serializeable;

verus! {

impl Serializeable for u8 {
    /// 1 byte, most significant first.
    open spec fn encoding(value: u8) -> Seq<u8> {
        be_bytes(value as nat, 1)
    }

    open spec fn encodable(value: u8) -> bool {
        true
    }

    open spec fn decoding(bytes: Seq<u8>) -> Decoding<u8> {
        if bytes.len() < 1 {
            Decoding::starved()
        } else {
            Decoding::done(be_value(bytes.take(1)) as u8, bytes.skip(1))
        }
    }

    proof fn lemma_round_trip(value: Self, rest: Seq<u8>) {
        lemma_capacity_values();
        lemma_numeral_prefix(value as nat, 1, rest);
    }

    proof fn lemma_truncated(value: Self, cut: int) {
        lemma_be_bytes_len(value as nat, 1);
    }

    fn serialize_into(&self, data: &mut Vec<u8>) {
        put_be(data, *self as u128, 1);
    }

    fn deserialize(reader: &mut SliceReader) -> (result: Result<Self, DecodeError>) {
        proof {
            lemma_capacity_values();
        }
        match reader.read_be(1) {
            Ok(bits) => Ok(bits as u8),
            Err(error) => Err(error),
        }
    }
}

impl Serializeable for u16 {
    /// 2 bytes, most significant first.
    open spec fn encoding(value: u16) -> Seq<u8> {
        be_bytes(value as nat, 2)
    }

    open spec fn encodable(value: u16) -> bool {
        true
    }

    open spec fn decoding(bytes: Seq<u8>) -> Decoding<u16> {
        if bytes.len() < 2 {
            Decoding::starved()
        } else {
            Decoding::done(be_value(bytes.take(2)) as u16, bytes.skip(2))
        }
    }

    proof fn lemma_round_trip(value: Self, rest: Seq<u8>) {
        lemma_capacity_values();
        lemma_numeral_prefix(value as nat, 2, rest);
    }

    proof fn lemma_truncated(value: Self, cut: int) {
        lemma_be_bytes_len(value as nat, 2);
    }

    fn serialize_into(&self, data: &mut Vec<u8>) {
        put_be(data, *self as u128, 2);
    }

    fn deserialize(reader: &mut SliceReader) -> (result: Result<Self, DecodeError>) {
        proof {
            lemma_capacity_values();
        }
        match reader.read_be(2) {
            Ok(bits) => Ok(bits as u16),
            Err(error) => Err(error),
        }
    }
}

impl Serializeable for u32 {
    /// 4 bytes, most significant first.
    open spec fn encoding(value: u32) -> Seq<u8> {
        be_bytes(value as nat, 4)
    }

    open spec fn encodable(value: u32) -> bool {
        true
    }

    open spec fn decoding(bytes: Seq<u8>) -> Decoding<u32> {
        if bytes.len() < 4 {
            Decoding::starved()
        } else {
            Decoding::done(be_value(bytes.take(4)) as u32, bytes.skip(4))
        }
    }

    proof fn lemma_round_trip(value: Self, rest: Seq<u8>) {
        lemma_capacity_values();
        lemma_numeral_prefix(value as nat, 4, rest);
    }

    proof fn lemma_truncated(value: Self, cut: int) {
        lemma_be_bytes_len(value as nat, 4);
    }

    fn serialize_into(&self, data: &mut Vec<u8>) {
        put_be(data, *self as u128, 4);
    }

    fn deserialize(reader: &mut SliceReader) -> (result: Result<Self, DecodeError>) {
        proof {
            lemma_capacity_values();
        }
        match reader.read_be(4) {
            Ok(bits) => Ok(bits as u32),
            Err(error) => Err(error),
        }
    }
}

impl Serializeable for u64 {
    /// 8 bytes, most significant first.
    open spec fn encoding(value: u64) -> Seq<u8> {
        be_bytes(value as nat, 8)
    }

    open spec fn encodable(value: u64) -> bool {
        true
    }

    open spec fn decoding(bytes: Seq<u8>) -> Decoding<u64> {
        if bytes.len() < 8 {
            Decoding::starved()
        } else {
            Decoding::done(be_value(bytes.take(8)) as u64, bytes.skip(8))
        }
    }

    proof fn lemma_round_trip(value: Self, rest: Seq<u8>) {
        lemma_capacity_values();
        lemma_numeral_prefix(value as nat, 8, rest);
    }

    proof fn lemma_truncated(value: Self, cut: int) {
        lemma_be_bytes_len(value as nat, 8);
    }

    fn serialize_into(&self, data: &mut Vec<u8>) {
        put_be(data, *self as u128, 8);
    }

    fn deserialize(reader: &mut SliceReader) -> (result: Result<Self, DecodeError>) {
        proof {
            lemma_capacity_values();
        }
        match reader.read_be(8) {
            Ok(bits) => Ok(bits as u64),
            Err(error) => Err(error),
        }
    }
}

impl Serializeable for u128 {
    /// 16 bytes, most significant first.
    open spec fn encoding(value: u128) -> Seq<u8> {
        be_bytes(value as nat, 16)
    }

    open spec fn encodable(value: u128) -> bool {
        true
    }

    open spec fn decoding(bytes: Seq<u8>) -> Decoding<u128> {
        if bytes.len() < 16 {
            Decoding::starved()
        } else {
            Decoding::done(be_value(bytes.take(16)) as u128, bytes.skip(16))
        }
    }

    proof fn lemma_round_trip(value: Self, rest: Seq<u8>) {
        lemma_capacity_values();
        lemma_numeral_prefix(value as nat, 16, rest);
    }

    proof fn lemma_truncated(value: Self, cut: int) {
        lemma_be_bytes_len(value as nat, 16);
    }

    fn serialize_into(&self, data: &mut Vec<u8>) {
        put_be(data, *self, 16);
    }

    fn deserialize(reader: &mut SliceReader) -> (result: Result<Self, DecodeError>) {
        proof {
            lemma_capacity_values();
        }
        match reader.read_be(16) {
            Ok(bits) => Ok(bits),
            Err(error) => Err(error),
        }
    }
}

impl Serializeable for i8 {
    /// 1 byte of two's complement, most significant first.
    open spec fn encoding(value: i8) -> Seq<u8> {
        be_bytes(twos_complement(value as int, 1), 1)
    }

    open spec fn encodable(value: i8) -> bool {
        true
    }

    open spec fn decoding(bytes: Seq<u8>) -> Decoding<i8> {
        if bytes.len() < 1 {
            Decoding::starved()
        } else {
            Decoding::done(
                from_twos_complement(be_value(bytes.take(1)), 1) as i8,
                bytes.skip(1),
            )
        }
    }

    proof fn lemma_round_trip(value: Self, rest: Seq<u8>) {
        lemma_capacity_values();
        lemma_twos_complement_inverse(value as int, 1);
        lemma_numeral_prefix(twos_complement(value as int, 1), 1, rest);
    }

    proof fn lemma_truncated(value: Self, cut: int) {
        lemma_be_bytes_len(twos_complement(value as int, 1), 1);
    }

    fn serialize_into(&self, data: &mut Vec<u8>) {
        proof {
            lemma_capacity_values();
        }
        let bits = signed_to_bits(*self as i128, 1);
        put_be(data, bits, 1);
    }

    fn deserialize(reader: &mut SliceReader) -> (result: Result<Self, DecodeError>) {
        proof {
            lemma_capacity_values();
        }
        match reader.read_be(1) {
            Ok(bits) => {
                let value = signed_from_bits(bits, 1);
                Ok(value as i8)
            },
            Err(error) => Err(error),
        }
    }
}

impl Serializeable for i16 {
    /// 2 bytes of two's complement, most significant first.
    open spec fn encoding(value: i16) -> Seq<u8> {
        be_bytes(twos_complement(value as int, 2), 2)
    }

    open spec fn encodable(value: i16) -> bool {
        true
    }

    open spec fn decoding(bytes: Seq<u8>) -> Decoding<i16> {
        if bytes.len() < 2 {
            Decoding::starved()
        } else {
            Decoding::done(
                from_twos_complement(be_value(bytes.take(2)), 2) as i16,
                bytes.skip(2),
            )
        }
    }

    proof fn lemma_round_trip(value: Self, rest: Seq<u8>) {
        lemma_capacity_values();
        lemma_twos_complement_inverse(value as int, 2);
        lemma_numeral_prefix(twos_complement(value as int, 2), 2, rest);
    }

    proof fn lemma_truncated(value: Self, cut: int) {
        lemma_be_bytes_len(twos_complement(value as int, 2), 2);
    }

    fn serialize_into(&self, data: &mut Vec<u8>) {
        proof {
            lemma_capacity_values();
        }
        let bits = signed_to_bits(*self as i128, 2);
        put_be(data, bits, 2);
    }

    fn deserialize(reader: &mut SliceReader) -> (result: Result<Self, DecodeError>) {
        proof {
            lemma_capacity_values();
        }
        match reader.read_be(2) {
            Ok(bits) => {
                let value = signed_from_bits(bits, 2);
                Ok(value as i16)
            },
            Err(error) => Err(error),
        }
    }
}

impl Serializeable for i32 {
    /// 4 bytes of two's complement, most significant first.
    open spec fn encoding(value: i32) -> Seq<u8> {
        be_bytes(twos_complement(value as int, 4), 4)
    }

    open spec fn encodable(value: i32) -> bool {
        true
    }

    open spec fn decoding(bytes: Seq<u8>) -> Decoding<i32> {
        if bytes.len() < 4 {
            Decoding::starved()
        } else {
            Decoding::done(
                from_twos_complement(be_value(bytes.take(4)), 4) as i32,
                bytes.skip(4),
            )
        }
    }

    proof fn lemma_round_trip(value: Self, rest: Seq<u8>) {
        lemma_capacity_values();
        lemma_twos_complement_inverse(value as int, 4);
        lemma_numeral_prefix(twos_complement(value as int, 4), 4, rest);
    }

    proof fn lemma_truncated(value: Self, cut: int) {
        lemma_be_bytes_len(twos_complement(value as int, 4), 4);
    }

    fn serialize_into(&self, data: &mut Vec<u8>) {
        proof {
            lemma_capacity_values();
        }
        let bits = signed_to_bits(*self as i128, 4);
        put_be(data, bits, 4);
    }

    fn deserialize(reader: &mut SliceReader) -> (result: Result<Self, DecodeError>) {
        proof {
            lemma_capacity_values();
        }
        match reader.read_be(4) {
            Ok(bits) => {
                let value = signed_from_bits(bits, 4);
                Ok(value as i32)
            },
            Err(error) => Err(error),
        }
    }
}

impl Serializeable for i64 {
    /// 8 bytes of two's complement, most significant first.
    open spec fn encoding(value: i64) -> Seq<u8> {
        be_bytes(twos_complement(value as int, 8), 8)
    }

    open spec fn encodable(value: i64) -> bool {
        true
    }

    open spec fn decoding(bytes: Seq<u8>) -> Decoding<i64> {
        if bytes.len() < 8 {
            Decoding::starved()
        } else {
            Decoding::done(
                from_twos_complement(be_value(bytes.take(8)), 8) as i64,
                bytes.skip(8),
            )
        }
    }

    proof fn lemma_round_trip(value: Self, rest: Seq<u8>) {
        lemma_capacity_values();
        lemma_twos_complement_inverse(value as int, 8);
        lemma_numeral_prefix(twos_complement(value as int, 8), 8, rest);
    }

    proof fn lemma_truncated(value: Self, cut: int) {
        lemma_be_bytes_len(twos_complement(value as int, 8), 8);
    }

    fn serialize_into(&self, data: &mut Vec<u8>) {
        proof {
            lemma_capacity_values();
        }
        let bits = signed_to_bits(*self as i128, 8);
        put_be(data, bits, 8);
    }

    fn deserialize(reader: &mut SliceReader) -> (result: Result<Self, DecodeError>) {
        proof {
            lemma_capacity_values();
        }
        match reader.read_be(8) {
            Ok(bits) => {
                let value = signed_from_bits(bits, 8);
                Ok(value as i64)
            },
            Err(error) => Err(error),
        }
    }
}

impl Serializeable for i128 {
    /// 16 bytes of two's complement, most significant first.
    open spec fn encoding(value: i128) -> Seq<u8> {
        be_bytes(twos_complement(value as int, 16), 16)
    }

    open spec fn encodable(value: i128) -> bool {
        true
    }

    open spec fn decoding(bytes: Seq<u8>) -> Decoding<i128> {
        if bytes.len() < 16 {
            Decoding::starved()
        } else {
            Decoding::done(
                from_twos_complement(be_value(bytes.take(16)), 16) as i128,
                bytes.skip(16),
            )
        }
    }

    proof fn lemma_round_trip(value: Self, rest: Seq<u8>) {
        lemma_capacity_values();
        lemma_twos_complement_inverse(value as int, 16);
        lemma_numeral_prefix(twos_complement(value as int, 16), 16, rest);
    }

    proof fn lemma_truncated(value: Self, cut: int) {
        lemma_be_bytes_len(twos_complement(value as int, 16), 16);
    }

    fn serialize_into(&self, data: &mut Vec<u8>) {
        proof {
            lemma_capacity_values();
        }
        let bits = signed_to_bits(*self, 16);
        put_be(data, bits, 16);
    }

    fn deserialize(reader: &mut SliceReader) -> (result: Result<Self, DecodeError>) {
        proof {
            lemma_capacity_values();
        }
        match reader.read_be(16) {
            Ok(bits) => {
                let value = signed_from_bits(bits, 16);
                Ok(value)
            },
            Err(error) => Err(error),
        }
    }
}

impl Serializeable for bool {
    /// One byte: 1 for `true`, 0 for `false`.
    open spec fn encoding(value: bool) -> Seq<u8> {
        seq![if value { 1u8 } else { 0u8 }]
    }

    open spec fn encodable(value: bool) -> bool {
        true
    }

    /// Any byte but 0 reads as `true`.
    open spec fn decoding(bytes: Seq<u8>) -> Decoding<bool> {
        if bytes.len() < 1 {
            Decoding::starved()
        } else {
            Decoding::done(bytes[0] != 0, bytes.skip(1))
        }
    }

    proof fn lemma_round_trip(value: Self, rest: Seq<u8>) {
        assert((Self::encoding(value) + rest).skip(1) =~= rest);
    }

    proof fn lemma_truncated(value: Self, cut: int) {
        assert(Self::encoding(value).take(cut) =~= Seq::<u8>::empty());
    }

    fn serialize_into(&self, data: &mut Vec<u8>) {
        data.push(if *self { 1u8 } else { 0u8 });
        assert(data@ =~= old(data)@ + Self::encoding(*self));
    }

    fn deserialize(reader: &mut SliceReader) -> (result: Result<Self, DecodeError>) {
        match reader.read_byte() {
            Ok(byte) => Ok(byte != 0),
            Err(error) => Err(error),
        }
    }
}

/// A 32-bit floating-point number, held as its IEEE-754 bit pattern.
#[derive(Debug, Clone, Copy, PartialEq, Eq, Structural)]
pub struct F32Bits {
    pub bits: u32,
}

impl DeepView for F32Bits {
    type V = u32;

    open spec fn deep_view(&self) -> u32 {
        self.bits
    }
}

impl Serializeable for F32Bits {
    /// The 4 bytes of the bit pattern, most significant first.
    open spec fn encoding(value: u32) -> Seq<u8> {
        u32::encoding(value)
    }

    open spec fn encodable(value: u32) -> bool {
        true
    }

    open spec fn decoding(bytes: Seq<u8>) -> Decoding<u32> {
        u32::decoding(bytes)
    }

    proof fn lemma_round_trip(value: u32, rest: Seq<u8>) {
        u32::lemma_round_trip(value, rest);
    }

    proof fn lemma_truncated(value: u32, cut: int) {
        u32::lemma_truncated(value, cut);
    }

    fn serialize_into(&self, data: &mut Vec<u8>) {
        self.bits.serialize_into(data);
    }

    fn deserialize(reader: &mut SliceReader) -> (result: Result<Self, DecodeError>) {
        match u32::deserialize(reader) {
            Ok(bits) => Ok(F32Bits { bits }),
            Err(error) => Err(error),
        }
    }
}

/// A 64-bit floating-point number, held as its IEEE-754 bit pattern.
#[derive(Debug, Clone, Copy, PartialEq, Eq, Structural)]
pub struct F64Bits {
    pub bits: u64,
}

impl DeepView for F64Bits {
    type V = u64;

    open spec fn deep_view(&self) -> u64 {
        self.bits
    }
}

impl Serializeable for F64Bits {
    /// The 8 bytes of the bit pattern, most significant first.
    open spec fn encoding(value: u64) -> Seq<u8> {
        u64::encoding(value)
    }

    open spec fn encodable(value: u64) -> bool {
        true
    }

    open spec fn decoding(bytes: Seq<u8>) -> Decoding<u64> {
        u64::decoding(bytes)
    }

    proof fn lemma_round_trip(value: u64, rest: Seq<u8>) {
        u64::lemma_round_trip(value, rest);
    }

    proof fn lemma_truncated(value: u64, cut: int) {
        u64::lemma_truncated(value, cut);
    }

    fn serialize_into(&self, data: &mut Vec<u8>) {
        self.bits.serialize_into(data);
    }

    fn deserialize(reader: &mut SliceReader) -> (result: Result<Self, DecodeError>) {
        match u64::deserialize(reader) {
            Ok(bits) => Ok(F64Bits { bits }),
            Err(error) => Err(error),
        }
    }
}

} // verus!
