//! Scalars as data: the kinds of scalar a shape can name, and a scalar value
//! that carries its kind.

use vstd::prelude::*;
use crate::big_endian::{lemma_be_bytes_len, twos_complement};
use crate::reader::{DecodeError, Decoding, SliceReader};
use crate::Serializeable;

verus! {

/// The kinds of scalar: the integers by width and sign, the two floating-point
/// widths, and the boolean.
#[derive(Debug, Clone, Copy, PartialEq, Eq, Structural)]
pub enum Scalar {
    U8,
    U16,
    U32,
    U64,
    U128,
    I8,
    I16,
    I32,
    I64,
    I128,
    F32,
    F64,
    Bool,
}

impl Scalar {
    /// How many bytes a scalar of this kind takes on the wire.
    pub open spec fn size(self) -> nat {
        match self {
            Scalar::U8 | Scalar::I8 | Scalar::Bool => 1,
            Scalar::U16 | Scalar::I16 => 2,
            Scalar::U32 | Scalar::I32 | Scalar::F32 => 4,
            Scalar::U64 | Scalar::I64 | Scalar::F64 => 8,
            Scalar::U128 | Scalar::I128 => 16,
        }
    }

    /// How many bytes a scalar of this kind takes on the wire.
    pub fn width(&self) -> (bytes: usize)
        ensures
            bytes == self.size(),
    {
        match self {
            Scalar::U8 | Scalar::I8 | Scalar::Bool => 1,
            Scalar::U16 | Scalar::I16 => 2,
            Scalar::U32 | Scalar::I32 | Scalar::F32 => 4,
            Scalar::U64 | Scalar::I64 | Scalar::F64 => 8,
            Scalar::U128 | Scalar::I128 => 16,
        }
    }
}

/// A scalar value. A floating-point number is held as its IEEE-754 bit
/// pattern, which is what goes on the wire.
#[derive(Debug, Clone, Copy, PartialEq, Eq, Structural)]
pub enum Primitive {
    U8(u8),
    U16(u16),
    U32(u32),
    U64(u64),
    U128(u128),
    I8(i8),
    I16(i16),
    I32(i32),
    I64(i64),
    I128(i128),
    F32(u32),
    F64(u64),
    Bool(bool),
}

/// A decoding with its value, if any, passed through `wrap`.
pub open spec fn lift<A, B>(decoding: Decoding<A>, wrap: spec_fn(A) -> B) -> Decoding<B> {
    match decoding.outcome {
        Ok(value) => Decoding::done(wrap(value), decoding.rest),
        Err(error) => Decoding::failed(error, decoding.rest),
    }
}

impl Primitive {
    /// The kind of this scalar.
    pub open spec fn kind(self) -> Scalar {
        match self {
            Primitive::U8(_) => Scalar::U8,
            Primitive::U16(_) => Scalar::U16,
            Primitive::U32(_) => Scalar::U32,
            Primitive::U64(_) => Scalar::U64,
            Primitive::U128(_) => Scalar::U128,
            Primitive::I8(_) => Scalar::I8,
            Primitive::I16(_) => Scalar::I16,
            Primitive::I32(_) => Scalar::I32,
            Primitive::I64(_) => Scalar::I64,
            Primitive::I128(_) => Scalar::I128,
            Primitive::F32(_) => Scalar::F32,
            Primitive::F64(_) => Scalar::F64,
            Primitive::Bool(_) => Scalar::Bool,
        }
    }

    /// The bytes of this scalar: those of the number or boolean it holds.
    pub open spec fn wire(self) -> Seq<u8> {
        match self {
            Primitive::U8(x) => u8::encoding(x),
            Primitive::U16(x) => u16::encoding(x),
            Primitive::U32(x) => u32::encoding(x),
            Primitive::U64(x) => u64::encoding(x),
            Primitive::U128(x) => u128::encoding(x),
            Primitive::I8(x) => i8::encoding(x),
            Primitive::I16(x) => i16::encoding(x),
            Primitive::I32(x) => i32::encoding(x),
            Primitive::I64(x) => i64::encoding(x),
            Primitive::I128(x) => i128::encoding(x),
            Primitive::F32(x) => u32::encoding(x),
            Primitive::F64(x) => u64::encoding(x),
            Primitive::Bool(x) => bool::encoding(x),
        }
    }

    /// What decoding a scalar of the given kind comes to.
    pub open spec fn decoding(kind: Scalar, bytes: Seq<u8>) -> Decoding<Primitive> {
        match kind {
            Scalar::U8 => lift(u8::decoding(bytes), |x: u8| Primitive::U8(x)),
            Scalar::U16 => lift(u16::decoding(bytes), |x: u16| Primitive::U16(x)),
            Scalar::U32 => lift(u32::decoding(bytes), |x: u32| Primitive::U32(x)),
            Scalar::U64 => lift(u64::decoding(bytes), |x: u64| Primitive::U64(x)),
            Scalar::U128 => lift(u128::decoding(bytes), |x: u128| Primitive::U128(x)),
            Scalar::I8 => lift(i8::decoding(bytes), |x: i8| Primitive::I8(x)),
            Scalar::I16 => lift(i16::decoding(bytes), |x: i16| Primitive::I16(x)),
            Scalar::I32 => lift(i32::decoding(bytes), |x: i32| Primitive::I32(x)),
            Scalar::I64 => lift(i64::decoding(bytes), |x: i64| Primitive::I64(x)),
            Scalar::I128 => lift(i128::decoding(bytes), |x: i128| Primitive::I128(x)),
            Scalar::F32 => lift(u32::decoding(bytes), |x: u32| Primitive::F32(x)),
            Scalar::F64 => lift(u64::decoding(bytes), |x: u64| Primitive::F64(x)),
            Scalar::Bool => lift(bool::decoding(bytes), |x: bool| Primitive::Bool(x)),
        }
    }

    /// A scalar takes as many bytes as its kind says.
    pub proof fn lemma_wire_len(self)
        ensures
            self.wire().len() == self.kind().size(),
    {
        match self {
            Primitive::U8(x) => lemma_be_bytes_len(x as nat, 1),
            Primitive::U16(x) => lemma_be_bytes_len(x as nat, 2),
            Primitive::U32(x) => lemma_be_bytes_len(x as nat, 4),
            Primitive::U64(x) => lemma_be_bytes_len(x as nat, 8),
            Primitive::U128(x) => lemma_be_bytes_len(x as nat, 16),
            Primitive::I8(x) => lemma_be_bytes_len(twos_complement(x as int, 1), 1),
            Primitive::I16(x) => lemma_be_bytes_len(twos_complement(x as int, 2), 2),
            Primitive::I32(x) => lemma_be_bytes_len(twos_complement(x as int, 4), 4),
            Primitive::I64(x) => lemma_be_bytes_len(twos_complement(x as int, 8), 8),
            Primitive::I128(x) => lemma_be_bytes_len(twos_complement(x as int, 16), 16),
            Primitive::F32(x) => lemma_be_bytes_len(x as nat, 4),
            Primitive::F64(x) => lemma_be_bytes_len(x as nat, 8),
            Primitive::Bool(_) => {},
        }
    }

    /// Decoding the bytes of a scalar as its own kind gives it back.
    pub proof fn lemma_round_trip(self, rest: Seq<u8>)
        ensures
            Self::decoding(self.kind(), self.wire() + rest) == Decoding::done(self, rest),
    {
        match self {
            Primitive::U8(x) => u8::lemma_round_trip(x, rest),
            Primitive::U16(x) => u16::lemma_round_trip(x, rest),
            Primitive::U32(x) => u32::lemma_round_trip(x, rest),
            Primitive::U64(x) => u64::lemma_round_trip(x, rest),
            Primitive::U128(x) => u128::lemma_round_trip(x, rest),
            Primitive::I8(x) => i8::lemma_round_trip(x, rest),
            Primitive::I16(x) => i16::lemma_round_trip(x, rest),
            Primitive::I32(x) => i32::lemma_round_trip(x, rest),
            Primitive::I64(x) => i64::lemma_round_trip(x, rest),
            Primitive::I128(x) => i128::lemma_round_trip(x, rest),
            Primitive::F32(x) => u32::lemma_round_trip(x, rest),
            Primitive::F64(x) => u64::lemma_round_trip(x, rest),
            Primitive::Bool(x) => bool::lemma_round_trip(x, rest),
        }
    }

    /// Decoding a proper prefix of the bytes of a scalar fails for want of bytes.
    pub proof fn lemma_truncated(self, cut: int)
        requires
            0 <= cut < self.wire().len(),
        ensures
            Self::decoding(self.kind(), self.wire().take(cut)) == Decoding::<Primitive>::starved(),
    {
        match self {
            Primitive::U8(x) => u8::lemma_truncated(x, cut),
            Primitive::U16(x) => u16::lemma_truncated(x, cut),
            Primitive::U32(x) => u32::lemma_truncated(x, cut),
            Primitive::U64(x) => u64::lemma_truncated(x, cut),
            Primitive::U128(x) => u128::lemma_truncated(x, cut),
            Primitive::I8(x) => i8::lemma_truncated(x, cut),
            Primitive::I16(x) => i16::lemma_truncated(x, cut),
            Primitive::I32(x) => i32::lemma_truncated(x, cut),
            Primitive::I64(x) => i64::lemma_truncated(x, cut),
            Primitive::I128(x) => i128::lemma_truncated(x, cut),
            Primitive::F32(x) => u32::lemma_truncated(x, cut),
            Primitive::F64(x) => u64::lemma_truncated(x, cut),
            Primitive::Bool(x) => bool::lemma_truncated(x, cut),
        }
    }

    /// What is left after a scalar was decoded, or was not, is the end of what
    /// there was.
    pub proof fn lemma_decoding_rest(kind: Scalar, bytes: Seq<u8>)
        ensures
            Self::decoding(kind, bytes).rest.len() <= bytes.len(),
            Self::decoding(kind, bytes).outcome is Ok ==> Self::decoding(kind, bytes).rest
                == bytes.skip(kind.size() as int) && kind.size() <= bytes.len(),
    {
    }

    /// A scalar is decoded from exactly as many bytes as its kind takes,
    /// whatever follows them.
    pub proof fn lemma_decoding_prefix(kind: Scalar, chunk: Seq<u8>, bytes: Seq<u8>)
        requires
            chunk.len() == kind.size(),
        ensures
            Self::decoding(kind, chunk).outcome is Ok,
            Self::decoding(kind, chunk + bytes) == (Decoding {
                outcome: Self::decoding(kind, chunk).outcome,
                rest: bytes,
            }),
    {
        let width = kind.size() as int;
        assert((chunk + bytes).take(width) =~= chunk);
        assert(chunk.take(width) =~= chunk);
        assert((chunk + bytes).skip(width) =~= bytes);
        assert((chunk + bytes)[0] == chunk[0]);
    }

    /// The kind of this scalar.
    pub fn get_kind(&self) -> (kind: Scalar)
        ensures
            kind == self.kind(),
    {
        match self {
            Primitive::U8(_) => Scalar::U8,
            Primitive::U16(_) => Scalar::U16,
            Primitive::U32(_) => Scalar::U32,
            Primitive::U64(_) => Scalar::U64,
            Primitive::U128(_) => Scalar::U128,
            Primitive::I8(_) => Scalar::I8,
            Primitive::I16(_) => Scalar::I16,
            Primitive::I32(_) => Scalar::I32,
            Primitive::I64(_) => Scalar::I64,
            Primitive::I128(_) => Scalar::I128,
            Primitive::F32(_) => Scalar::F32,
            Primitive::F64(_) => Scalar::F64,
            Primitive::Bool(_) => Scalar::Bool,
        }
    }

    /// Appends the bytes of this scalar to `data`.
    pub fn serialize_into(&self, data: &mut Vec<u8>)
        ensures
            final(data)@ == old(data)@ + self.wire(),
    {
        match self {
            Primitive::U8(x) => x.serialize_into(data),
            Primitive::U16(x) => x.serialize_into(data),
            Primitive::U32(x) => x.serialize_into(data),
            Primitive::U64(x) => x.serialize_into(data),
            Primitive::U128(x) => x.serialize_into(data),
            Primitive::I8(x) => x.serialize_into(data),
            Primitive::I16(x) => x.serialize_into(data),
            Primitive::I32(x) => x.serialize_into(data),
            Primitive::I64(x) => x.serialize_into(data),
            Primitive::I128(x) => x.serialize_into(data),
            Primitive::F32(x) => x.serialize_into(data),
            Primitive::F64(x) => x.serialize_into(data),
            Primitive::Bool(x) => x.serialize_into(data),
        }
    }

    /// Reads a scalar of the given kind.
    pub fn deserialize(kind: Scalar, reader: &mut SliceReader) -> (result: Result<
        Primitive,
        DecodeError,
    >)
        ensures
            final(reader)@ == Self::decoding(kind, old(reader)@).rest,
            result == Self::decoding(kind, old(reader)@).outcome,
    {
        match kind {
            Scalar::U8 => match u8::deserialize(reader) {
                Ok(x) => Ok(Primitive::U8(x)),
                Err(error) => Err(error),
            },
            Scalar::U16 => match u16::deserialize(reader) {
                Ok(x) => Ok(Primitive::U16(x)),
                Err(error) => Err(error),
            },
            Scalar::U32 => match u32::deserialize(reader) {
                Ok(x) => Ok(Primitive::U32(x)),
                Err(error) => Err(error),
            },
            Scalar::U64 => match u64::deserialize(reader) {
                Ok(x) => Ok(Primitive::U64(x)),
                Err(error) => Err(error),
            },
            Scalar::U128 => match u128::deserialize(reader) {
                Ok(x) => Ok(Primitive::U128(x)),
                Err(error) => Err(error),
            },
            Scalar::I8 => match i8::deserialize(reader) {
                Ok(x) => Ok(Primitive::I8(x)),
                Err(error) => Err(error),
            },
            Scalar::I16 => match i16::deserialize(reader) {
                Ok(x) => Ok(Primitive::I16(x)),
                Err(error) => Err(error),
            },
            Scalar::I32 => match i32::deserialize(reader) {
                Ok(x) => Ok(Primitive::I32(x)),
                Err(error) => Err(error),
            },
            Scalar::I64 => match i64::deserialize(reader) {
                Ok(x) => Ok(Primitive::I64(x)),
                Err(error) => Err(error),
            },
            Scalar::I128 => match i128::deserialize(reader) {
                Ok(x) => Ok(Primitive::I128(x)),
                Err(error) => Err(error),
            },
            Scalar::F32 => match u32::deserialize(reader) {
                Ok(x) => Ok(Primitive::F32(x)),
                Err(error) => Err(error),
            },
            Scalar::F64 => match u64::deserialize(reader) {
                Ok(x) => Ok(Primitive::F64(x)),
                Err(error) => Err(error),
            },
            Scalar::Bool => match bool::deserialize(reader) {
                Ok(x) => Ok(Primitive::Bool(x)),
                Err(error) => Err(error),
            },
        }
    }
}

} // verus!
