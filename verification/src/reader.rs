//! The blocking byte source, and what a decode can fail with.

use vstd::prelude::*;
use vstd::slice::slice_subrange;
use crate::big_endian::{be_value, capacity, get_be};

verus! {

/// Why a decode stopped.
#[derive(Debug, Clone, Copy, PartialEq, Eq, Structural)]
pub enum DecodeError {
    /// The byte source ended before a read was complete.
    UnexpectedEof,
    /// The bytes of a text are not UTF-8; `valid_up_to` bytes of them are.
    InvalidUtf8 { valid_up_to: usize },
    /// A sum type's discriminant names no variant: the bytes are not of the expected type.
    InvalidDiscriminant { found: u8 },
}

impl DecodeError {
    /// Malformed or missing data is recoverable; a discriminant out of range is not.
    pub open spec fn recoverable(self) -> bool {
        !(self is InvalidDiscriminant)
    }

    /// Whether the caller may treat the failure as bad input and go on.
    pub fn is_recoverable(&self) -> (answer: bool)
        ensures
            answer == self.recoverable(),
    {
        match self {
            DecodeError::InvalidDiscriminant { .. } => false,
            _ => true,
        }
    }

    /// Whether the failure shows bytes that do not match the expected type.
    pub fn is_fatal(&self) -> (answer: bool)
        ensures
            answer == !self.recoverable(),
    {
        !self.is_recoverable()
    }
}

/// What decoding a byte sequence comes to: the value or the failure, and the
/// bytes that are left unread.
pub struct Decoding<V> {
    pub outcome: Result<V, DecodeError>,
    pub rest: Seq<u8>,
}

impl<V> Decoding<V> {
    pub open spec fn done(value: V, rest: Seq<u8>) -> Self {
        Decoding { outcome: Ok(value), rest }
    }

    pub open spec fn failed(error: DecodeError, rest: Seq<u8>) -> Self {
        Decoding { outcome: Err(error), rest }
    }

    /// A read that met the end of the source: everything that was left is gone.
    pub open spec fn starved() -> Self {
        Decoding { outcome: Err(DecodeError::UnexpectedEof), rest: Seq::empty() }
    }
}

/// Whether a decode's result is the expected outcome: the value with that
/// deep view, or that very error.
pub open spec fn delivers<T: DeepView>(
    result: Result<T, DecodeError>,
    expected: Result<T::V, DecodeError>,
) -> bool {
    match (result, expected) {
        (Ok(value), Ok(model)) => value.deep_view() == model,
        (Err(error), Err(cause)) => error == cause,
        _ => false,
    }
}

/// What reading a big-endian numeral of `width` bytes comes to.
pub open spec fn numeral_decoding(bytes: Seq<u8>, width: nat) -> Decoding<nat> {
    if bytes.len() < width {
        Decoding::starved()
    } else {
        Decoding::done(be_value(bytes.take(width as int)), bytes.skip(width as int))
    }
}

/// An in-memory byte source that is read front to back and never rewinds.
/// Its view is the bytes not yet read.
pub struct SliceReader<'a> {
    bytes: &'a [u8],
    position: usize,
}

impl<'a> View for SliceReader<'a> {
    type V = Seq<u8>;

    closed spec fn view(&self) -> Seq<u8> {
        self.bytes@.skip(self.position as int)
    }
}

impl<'a> SliceReader<'a> {
    #[verifier::type_invariant]
    spec fn in_bounds(self) -> bool {
        self.position <= self.bytes@.len()
    }

    /// A reader at the start of `bytes`.
    pub fn new(bytes: &'a [u8]) -> (reader: Self)
        ensures
            reader@ == bytes@,
    {
        let reader = SliceReader { bytes, position: 0 };
        assert(reader@ =~= bytes@);
        reader
    }

    /// How many bytes are left.
    pub fn remaining(&self) -> (count: usize)
        ensures
            count == self@.len(),
    {
        proof {
            use_type_invariant(self);
        }
        self.bytes.len() - self.position
    }

    /// Takes the next `count` bytes. If fewer are left, the read fails and
    /// takes them all.
    pub fn read_exact(&mut self, count: usize) -> (result: Result<&'a [u8], DecodeError>)
        ensures
            match result {
                Ok(chunk) => count <= old(self)@.len() && chunk@ == old(self)@.take(count as int)
                    && final(self)@ == old(self)@.skip(count as int),
                Err(error) => count > old(self)@.len() && error == DecodeError::UnexpectedEof
                    && final(self)@ == Seq::<u8>::empty(),
            },
    {
        proof {
            use_type_invariant(&*self);
        }
        let left = self.bytes.len() - self.position;
        if count <= left {
            let chunk = slice_subrange(self.bytes, self.position, self.position + count);
            self.position = self.position + count;
            assert(chunk@ =~= old(self)@.take(count as int));
            assert(self@ =~= old(self)@.skip(count as int));
            Ok(chunk)
        } else {
            self.position = self.bytes.len();
            assert(self@ =~= Seq::<u8>::empty());
            Err(DecodeError::UnexpectedEof)
        }
    }

    /// Takes a big-endian numeral of `width` bytes.
    pub fn read_be(&mut self, width: usize) -> (result: Result<u128, DecodeError>)
        requires
            width <= 16,
        ensures
            final(self)@ == numeral_decoding(old(self)@, width as nat).rest,
            match result {
                Ok(bits) => numeral_decoding(old(self)@, width as nat).outcome == Ok::<
                    nat,
                    DecodeError,
                >(bits as nat) && bits < capacity(width as nat),
                Err(error) => numeral_decoding(old(self)@, width as nat).outcome == Err::<
                    nat,
                    DecodeError,
                >(error),
            },
    {
        match self.read_exact(width) {
            Ok(chunk) => Ok(get_be(chunk)),
            Err(error) => Err(error),
        }
    }

    /// Takes the next byte.
    pub fn read_byte(&mut self) -> (result: Result<u8, DecodeError>)
        ensures
            match result {
                Ok(byte) => old(self)@.len() >= 1 && byte == old(self)@[0] && final(self)@
                    == old(self)@.skip(1),
                Err(error) => old(self)@.len() == 0 && error == DecodeError::UnexpectedEof
                    && final(self)@ == Seq::<u8>::empty(),
            },
    {
        match self.read_exact(1) {
            Ok(chunk) => Ok(chunk[0]),
            Err(error) => Err(error),
        }
    }
}

} // verus!
