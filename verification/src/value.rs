//! Values as data, and their bytes.

use vstd::prelude::*;
use crate::big_endian::{be_bytes, put_be};
use crate::scalar::{Primitive, Scalar};
use crate::Serializeable;

verus! {

/// A value of any shape. It carries what the encoding depends on: whether a
/// sequence is fixed or growable, and which variant of a sum it is.
#[derive(Debug, PartialEq, Eq)]
pub enum Value {
    /// A number or a boolean.
    Scalar(Primitive),
    /// A text.
    Text(String),
    /// The elements of a fixed sequence.
    Fixed(Vec<Value>),
    /// The elements of a growable sequence.
    Growable(Vec<Value>),
    /// What an owned indirection holds.
    Boxed(Box<Value>),
    /// The fields of a product, in declaration order.
    Product(Vec<Value>),
    /// The index of a variant of a sum, and that variant's fields in
    /// declaration order.
    Variant(u8, Vec<Value>),
}

/// The mathematical value that a `Value` stands for.
pub enum Datum {
    Scalar(Primitive),
    Text(Seq<char>),
    Fixed(Seq<Datum>),
    Growable(Seq<Datum>),
    Boxed(Box<Datum>),
    Product(Seq<Datum>),
    Variant(u8, Seq<Datum>),
}

impl Value {
    /// The mathematical value that this value stands for.
    pub open spec fn datum(self) -> Datum
        decreases self,
    {
        match self {
            Value::Scalar(scalar) => Datum::Scalar(scalar),
            Value::Text(text) => Datum::Text(text@),
            Value::Fixed(items) => Datum::Fixed(
                views(items@),
            ),
            Value::Growable(items) => Datum::Growable(
                views(items@),
            ),
            Value::Boxed(inner) => Datum::Boxed(Box::new(inner.datum())),
            Value::Product(fields) => Datum::Product(
                views(fields@),
            ),
            Value::Variant(index, fields) => Datum::Variant(
                index,
                views(fields@),
            ),
        }
    }
}

impl View for Value {
    type V = Datum;

    open spec fn view(&self) -> Datum {
        self.datum()
    }
}

impl DeepView for Value {
    type V = Datum;

    open spec fn deep_view(&self) -> Datum {
        self@
    }
}

/// The data that a list of values stands for.
pub open spec fn views(items: Seq<Value>) -> Seq<Datum>
    decreases items,
{
    Seq::new(
        items.len(),
        |i: int|
            if 0 <= i < items.len() {
                items[i].datum()
            } else {
                arbitrary()
            },
    )
}

/// The bytes of the values, one after the other.
pub open spec fn wire_all(items: Seq<Datum>) -> Seq<u8>
    decreases items,
{
    if items.len() == 0 {
        Seq::empty()
    } else {
        items[0].wire() + wire_all(items.skip(1))
    }
}

impl Datum {
    /// The bytes of the value.
    pub open spec fn wire(self) -> Seq<u8>
        decreases self,
    {
        match self {
            Datum::Scalar(scalar) => scalar.wire(),
            Datum::Text(text) => String::encoding(text),
            Datum::Fixed(items) => wire_all(items),
            Datum::Growable(items) => be_bytes(items.len(), 8) + wire_all(items),
            Datum::Boxed(inner) => inner.wire(),
            Datum::Product(fields) => wire_all(fields),
            Datum::Variant(index, fields) => seq![index] + wire_all(fields),
        }
    }
}

/// One more value at the end adds its bytes at the end.
pub proof fn lemma_wire_all_push(items: Seq<Datum>, last: Datum)
    ensures
        wire_all(items.push(last)) == wire_all(items) + last.wire(),
    decreases items.len(),
{
    let longer = items.push(last);
    if items.len() == 0 {
        assert(longer.skip(1) =~= Seq::<Datum>::empty());
        assert(wire_all(longer.skip(1)) =~= Seq::<u8>::empty());
        assert(wire_all(longer) =~= wire_all(items) + last.wire());
    } else {
        lemma_wire_all_push(items.skip(1), last);
        assert(longer.skip(1) =~= items.skip(1).push(last));
        assert(wire_all(longer) =~= wire_all(items) + last.wire());
    }
}

/// Values that all take `size` bytes take `size` bytes each, with nothing
/// between them.
pub proof fn lemma_wire_all_len(items: Seq<Datum>, size: nat)
    requires
        forall|i: int| 0 <= i < items.len() ==> (#[trigger] items[i]).wire().len() == size,
    ensures
        wire_all(items).len() == items.len() * size,
    decreases items.len(),
{
    if items.len() > 0 {
        let tail = items.skip(1);
        assert forall|i: int| 0 <= i < tail.len() implies (#[trigger] tail[i]).wire().len()
            == size by {
            assert(tail[i] == items[i + 1]);
        }
        lemma_wire_all_len(tail, size);
        assert(items.len() * size == size + tail.len() * size) by (nonlinear_arith)
            requires
                items.len() == tail.len() + 1,
        ;
    }
}

/// A fixed sequence of elements that all take `size` bytes takes `size` bytes
/// for each element.
pub proof fn lemma_fixed_length(items: Seq<Datum>, size: nat)
    requires
        forall|i: int| 0 <= i < items.len() ==> (#[trigger] items[i]).wire().len() == size,
    ensures
        Datum::Fixed(items).wire().len() == items.len() * size,
{
    lemma_wire_all_len(items, size);
}

/// A fixed sequence of scalars of one kind takes, for each of them, as many
/// bytes as the kind takes.
pub proof fn lemma_fixed_scalars_length(items: Seq<Datum>, kind: Scalar)
    requires
        forall|i: int|
            0 <= i < items.len() ==> (#[trigger] items[i]) is Scalar && items[i]->Scalar_0.kind()
                == kind,
    ensures
        Datum::Fixed(items).wire().len() == items.len() * kind.size(),
{
    assert forall|i: int| 0 <= i < items.len() implies (#[trigger] items[i]).wire().len()
        == kind.size() by {
        items[i]->Scalar_0.lemma_wire_len();
    }
    lemma_fixed_length(items, kind.size());
}

/// The bytes of a value depend on nothing but the value: two values that
/// stand for the same datum have the same bytes.
pub proof fn lemma_wire_deterministic(one: Value, other: Value)
    requires
        one@ == other@,
    ensures
        one@.wire() == other@.wire(),
{
}

impl Value {
    /// Appends the bytes of the value to `data`.
    pub fn serialize_into(&self, data: &mut Vec<u8>)
        ensures
            final(data)@ == old(data)@ + self@.wire(),
        decreases self, 0nat,
    {
        match self {
            Value::Scalar(scalar) => scalar.serialize_into(data),
            Value::Text(text) => text.serialize_into(data),
            Value::Fixed(items) => serialize_all(items, data),
            Value::Growable(items) => {
                put_be(data, items.len() as u128, 8);
                serialize_all(items, data);
                assert(data@ =~= old(data)@ + self@.wire());
            },
            Value::Boxed(inner) => inner.serialize_into(data),
            Value::Product(fields) => serialize_all(fields, data),
            Value::Variant(index, fields) => serialize_enum_variant(*index, fields, data),
        }
    }

    /// The bytes of the value.
    pub fn serialize(&self) -> (bytes: Vec<u8>)
        ensures
            bytes@ == self@.wire(),
    {
        let mut bytes: Vec<u8> = Vec::new();
        self.serialize_into(&mut bytes);
        assert(bytes@ =~= self@.wire());
        bytes
    }
}

/// Appends a variant of a sum: its discriminant byte, then its fields in
/// declaration order.
pub fn serialize_enum_variant(id: u8, fields: &Vec<Value>, data: &mut Vec<u8>)
    ensures
        final(data)@ == old(data)@ + Datum::Variant(id, views(fields@)).wire(),
    decreases fields, 1nat,
{
    data.push(id);
    serialize_all(fields, data);
    assert(data@ =~= old(data)@ + Datum::Variant(id, views(fields@)).wire());
}

/// Appends the bytes of each value in turn: fields in declaration order,
/// elements in sequence order.
pub fn serialize_all(items: &Vec<Value>, data: &mut Vec<u8>)
    ensures
        final(data)@ == old(data)@ + wire_all(views(items@)),
    decreases items, 0nat,
{
    let ghost all = views(items@);
    let mut i: usize = 0;
    assert(old(data)@ + wire_all(all.take(0)) =~= old(data)@);
    while i < items.len()
        invariant
            i <= items@.len(),
            all == views(items@),
            data@ == old(data)@ + wire_all(all.take(i as int)),
        decreases items@.len() - i,
    {
        items[i].serialize_into(data);
        proof {
            let shorter = all.take(i as int);
            assert(all.take(i + 1) =~= shorter.push(all[i as int]));
            lemma_wire_all_push(shorter, all[i as int]);
            assert(data@ =~= old(data)@ + wire_all(all.take(i + 1)));
        }
        i += 1;
    }
    assert(all.take(i as int) =~= all);
}

} // verus!
