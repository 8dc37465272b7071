//! Deriving a codec from the definitions of the aggregates: the definitions
//! are checked once, and the codec then decodes any shape over them by
//! walking the shape.

use vstd::prelude::*;
use crate::big_endian::lemma_capacity_values;
use crate::elements::prepend;
use crate::grammar::{
    all_conform, conforms, decoding, definition_fault, each_conforms, fields_grounded,
    fields_resolve, parse_elements, parse_fields, parse_shape, parse_sum, parse_variant,
    variants_resolve, well_formed, DeriveError,
};
use crate::reader::{delivers, DecodeError, Decoding, SliceReader};
use crate::round_trip::lemma_decoded_conforms;
use crate::scalar::Primitive;
use crate::shape::{Shape, TypeDef};
use crate::string_serialize::lemma_text_rest;
use crate::value::{views, Datum, Value};
use crate::Serializeable;

verus! {

/// The codec of a list of definitions that make a byte grammar.
pub struct Codec {
    defs: Vec<TypeDef>,
}

/// Whether a decode's result is the expected outcome: values that stand for
/// those data, or that very error.
pub open spec fn delivers_all(
    result: Result<Vec<Value>, DecodeError>,
    expected: Result<Seq<Datum>, DecodeError>,
) -> bool {
    match (result, expected) {
        (Ok(values), Ok(data)) => views(values@) == data,
        (Err(error), Err(cause)) => error == cause,
        _ => false,
    }
}

/// Computes `fields_resolve`.
fn check_fields_resolve(fields: &Vec<Shape>, count: usize) -> (answer: bool)
    ensures
        answer == fields_resolve(fields@, count as nat),
{
    let mut k: usize = 0;
    while k < fields.len()
        invariant
            k <= fields@.len(),
            forall|j: int| 0 <= j < k ==> (#[trigger] fields@[j]).resolves(count as nat),
        decreases fields@.len() - k,
    {
        if !fields[k].check_resolves(count) {
            return false;
        }
        k += 1;
    }
    true
}

/// Computes `fields_grounded`.
fn check_fields_grounded(fields: &Vec<Shape>, level: usize) -> (answer: bool)
    ensures
        answer == fields_grounded(fields@, level as nat),
{
    let mut k: usize = 0;
    while k < fields.len()
        invariant
            k <= fields@.len(),
            forall|j: int| 0 <= j < k ==> (#[trigger] fields@[j]).grounded(level as nat),
        decreases fields@.len() - k,
    {
        if !fields[k].check_grounded(level) {
            return false;
        }
        k += 1;
    }
    true
}

/// Computes `variants_resolve`.
fn check_variants_resolve(variants: &Vec<Vec<Shape>>, count: usize) -> (answer: bool)
    ensures
        answer == variants_resolve(variants@, count as nat),
{
    let mut v: usize = 0;
    while v < variants.len()
        invariant
            v <= variants@.len(),
            forall|j: int| 0 <= j < v ==> fields_resolve((#[trigger] variants@[j])@, count as nat),
        decreases variants@.len() - v,
    {
        if !check_fields_resolve(&variants[v], count) {
            return false;
        }
        v += 1;
    }
    true
}

/// Computes `definition_fault`.
fn check_definition(defs: &Vec<TypeDef>, index: usize) -> (fault: Option<DeriveError>)
    requires
        index < defs@.len(),
    ensures
        fault == definition_fault(defs@, index as int),
{
    match &defs[index] {
        TypeDef::Product(fields) => {
            if !check_fields_resolve(fields, defs.len()) {
                Some(DeriveError::UnknownType { definition: index })
            } else if !check_fields_grounded(fields, index) {
                Some(DeriveError::Ungrounded { definition: index })
            } else {
                None
            }
        },
        TypeDef::Sum(variants) => {
            if variants.len() > 256 {
                Some(DeriveError::TooManyVariants { definition: index })
            } else if !check_variants_resolve(variants, defs.len()) {
                Some(DeriveError::UnknownType { definition: index })
            } else {
                None
            }
        },
    }
}

/// Derives the codec of the aggregates defined by `defs`, or says what is
/// wrong with the first definition that is at fault.
pub fn derive_serializeable(defs: Vec<TypeDef>) -> (result: Result<Codec, DeriveError>)
    ensures
        match result {
            Ok(codec) => well_formed(defs@) && codec.definitions() == defs@,
            Err(error) => error.place() < defs@.len() && definition_fault(
                defs@,
                error.place() as int,
            ) == Some(error) && forall|i: int|
                0 <= i < error.place() ==> definition_fault(defs@, i) is None,
        },
{
    let mut index: usize = 0;
    while index < defs.len()
        invariant
            index <= defs@.len(),
            forall|i: int| 0 <= i < index ==> definition_fault(defs@, i) is None,
        decreases defs@.len() - index,
    {
        match check_definition(&defs, index) {
            Some(fault) => {
                return Err(fault);
            },
            None => {},
        }
        index += 1;
    }
    Ok(Codec { defs })
}

impl Codec {
    #[verifier::type_invariant]
    spec fn sound(self) -> bool {
        well_formed(self.defs@)
    }

    /// The definitions that the codec was derived from.
    pub closed spec fn definitions(&self) -> Seq<TypeDef> {
        self.defs@
    }

    /// The definitions that the codec was derived from: they make a byte
    /// grammar.
    pub fn defs(&self) -> (defs: &Vec<TypeDef>)
        ensures
            defs@ == self.definitions(),
            well_formed(defs@),
    {
        proof {
            use_type_invariant(self);
        }
        &self.defs
    }

    /// How many aggregates are defined.
    pub fn len(&self) -> (count: usize)
        ensures
            count == self.definitions().len(),
    {
        self.defs.len()
    }

    /// Whether `shape` is a shape over these definitions.
    pub fn accepts(&self, shape: &Shape) -> (answer: bool)
        ensures
            answer == shape.resolves(self.definitions().len()),
    {
        shape.check_resolves(self.defs.len())
    }

    /// Reads one value of `shape` from `reader`. On failure the bytes read so
    /// far stay read.
    pub fn deserialize(&self, shape: &Shape, reader: &mut SliceReader) -> (result: Result<
        Value,
        DecodeError,
    >)
        requires
            shape.resolves(self.definitions().len()),
        ensures
            final(reader)@ == decoding(self.definitions(), *shape, old(reader)@).rest,
            delivers(result, decoding(self.definitions(), *shape, old(reader)@).outcome),
            match result {
                Ok(value) => conforms(self.definitions(), *shape, value@),
                Err(_) => true,
            },
    {
        proof {
            use_type_invariant(self);
            shape.lemma_resolves_grounded(self.defs@.len());
            lemma_decoded_conforms(self.defs@, *shape, reader@);
        }
        self.deserialize_shape(shape, reader, Ghost(self.defs@.len()))
    }

    /// Whether `value` is a value of `shape`.
    pub fn conforms(&self, shape: &Shape, value: &Value) -> (answer: bool)
        ensures
            answer == conforms(self.definitions(), *shape, value@),
        decreases value,
    {
        match shape {
            Shape::Scalar(kind) => match value {
                Value::Scalar(scalar) => scalar.get_kind() == *kind,
                _ => false,
            },
            Shape::Text => match value {
                Value::Text(text) => {
                    let units = text.as_str().as_bytes();
                    assert(units@.len() == units.len());
                    true
                },
                _ => false,
            },
            Shape::Fixed(arity, element) => match value {
                Value::Fixed(items) => items.len() == *arity && self.all_conform(element, items),
                _ => false,
            },
            Shape::Growable(element) => match value {
                Value::Growable(items) => {
                    assert(items@.len() == items.len());
                    self.all_conform(element, items)
                },
                _ => false,
            },
            Shape::Boxed(inner) => match value {
                Value::Boxed(held) => self.conforms(inner, held),
                _ => false,
            },
            Shape::Named(index) => {
                if *index >= self.defs.len() {
                    return false;
                }
                match &self.defs[*index] {
                    TypeDef::Product(fields) => match value {
                        Value::Product(values) => self.each_conforms(fields, values),
                        _ => false,
                    },
                    TypeDef::Sum(variants) => match value {
                        Value::Variant(which, values) => (*which as usize) < variants.len()
                            && self.each_conforms(&variants[*which as usize], values),
                        _ => false,
                    },
                }
            },
        }
    }

    /// Whether every value is a value of `element`.
    fn all_conform(&self, element: &Shape, items: &Vec<Value>) -> (answer: bool)
        ensures
            answer == all_conform(self.definitions(), *element, views(items@)),
        decreases items,
    {
        let mut i: usize = 0;
        while i < items.len()
            invariant
                i <= items@.len(),
                forall|k: int|
                    0 <= k < i ==> conforms(
                        self.definitions(),
                        *element,
                        #[trigger] views(items@)[k],
                    ),
            decreases items@.len() - i,
        {
            if !self.conforms(element, &items[i]) {
                assert(views(items@)[i as int] == items@[i as int]@);
                return false;
            }
            assert(views(items@)[i as int] == items@[i as int]@);
            i += 1;
        }
        true
    }

    /// Whether each value is a value of the shape at its place.
    fn each_conforms(&self, shapes: &Vec<Shape>, values: &Vec<Value>) -> (answer: bool)
        ensures
            answer == each_conforms(self.definitions(), shapes@, views(values@)),
        decreases values,
    {
        if shapes.len() != values.len() {
            return false;
        }
        let mut i: usize = 0;
        while i < values.len()
            invariant
                i <= values@.len(),
                shapes@.len() == values@.len(),
                forall|k: int|
                    0 <= k < i ==> conforms(
                        self.definitions(),
                        shapes@[k],
                        #[trigger] views(values@)[k],
                    ),
            decreases values@.len() - i,
        {
            if !self.conforms(&shapes[i], &values[i]) {
                assert(views(values@)[i as int] == values@[i as int]@);
                return false;
            }
            assert(views(values@)[i as int] == values@[i as int]@);
            i += 1;
        }
        true
    }

    /// The bytes of `value` as a value of `shape`, or nothing if it is none.
    pub fn serialize(&self, shape: &Shape, value: &Value) -> (result: Option<Vec<u8>>)
        ensures
            match result {
                Some(bytes) => conforms(self.definitions(), *shape, value@) && bytes@
                    == value@.wire(),
                None => !conforms(self.definitions(), *shape, value@),
            },
    {
        if self.conforms(shape, value) {
            Some(value.serialize())
        } else {
            None
        }
    }

    fn deserialize_shape(
        &self,
        shape: &Shape,
        reader: &mut SliceReader,
        Ghost(level): Ghost<nat>,
    ) -> (result: Result<Value, DecodeError>)
        requires
            shape.resolves(self.definitions().len()),
            shape.grounded(level),
            level <= self.definitions().len(),
        ensures
            final(reader)@ == parse_shape(self.definitions(), *shape, old(reader)@, level).rest,
            delivers(result, parse_shape(self.definitions(), *shape, old(reader)@, level).outcome),
            final(reader)@.len() <= old(reader)@.len(),
        decreases old(reader)@.len(), level, 0nat, shape.height(), 0nat,
    {
        proof {
            use_type_invariant(self);
        }
        match shape {
            Shape::Scalar(kind) => {
                proof {
                    Primitive::lemma_decoding_rest(*kind, reader@);
                }
                match Primitive::deserialize(*kind, reader) {
                    Ok(scalar) => Ok(Value::Scalar(scalar)),
                    Err(error) => Err(error),
                }
            },
            Shape::Text => {
                proof {
                    lemma_text_rest(reader@);
                }
                match String::deserialize(reader) {
                    Ok(text) => Ok(Value::Text(text)),
                    Err(error) => Err(error),
                }
            },
            Shape::Fixed(arity, element) => {
                match self.deserialize_elements(element, *arity as u64, reader, Ghost(level)) {
                    Ok(items) => Ok(Value::Fixed(items)),
                    Err(error) => Err(error),
                }
            },
            Shape::Growable(element) => {
                proof {
                    lemma_capacity_values();
                    element.lemma_resolves_grounded(self.defs@.len());
                }
                match reader.read_be(8) {
                    Ok(count) => {
                        match self.deserialize_elements(
                            element,
                            count as u64,
                            reader,
                            Ghost(self.defs@.len()),
                        ) {
                            Ok(items) => Ok(Value::Growable(items)),
                            Err(error) => Err(error),
                        }
                    },
                    Err(error) => Err(error),
                }
            },
            Shape::Boxed(inner) => {
                match self.deserialize_shape(inner, reader, Ghost(level)) {
                    Ok(held) => Ok(Value::Boxed(Box::new(held))),
                    Err(error) => Err(error),
                }
            },
            Shape::Named(index) => {
                assert(definition_fault(self.defs@, *index as int) is None);
                match &self.defs[*index] {
                    TypeDef::Product(fields) => self.deserialize_struct(
                        fields,
                        reader,
                        Ghost(*index as nat),
                    ),
                    TypeDef::Sum(variants) => self.deserialize_enum(variants, reader),
                }
            },
        }
    }

    /// Decodes a product: its fields in declaration order.
    fn deserialize_struct(
        &self,
        fields: &Vec<Shape>,
        reader: &mut SliceReader,
        Ghost(level): Ghost<nat>,
    ) -> (result: Result<Value, DecodeError>)
        requires
            fields_resolve(fields@, self.definitions().len()),
            fields_grounded(fields@, level),
            level < self.definitions().len(),
        ensures
            final(reader)@ == parse_fields(self.definitions(), fields@, old(reader)@, level).rest,
            delivers(
                result,
                lift_product(parse_fields(self.definitions(), fields@, old(reader)@, level)).outcome,
            ),
            final(reader)@.len() <= old(reader)@.len(),
        decreases old(reader)@.len(), level, 2nat, 0nat, 0nat,
    {
        match self.deserialize_fields(fields, reader, Ghost(level)) {
            Ok(values) => Ok(Value::Product(values)),
            Err(error) => Err(error),
        }
    }

    /// Decodes a sum: the discriminant byte, then the variant that it names.
    fn deserialize_enum(&self, variants: &Vec<Vec<Shape>>, reader: &mut SliceReader) -> (result:
        Result<Value, DecodeError>)
        requires
            variants_resolve(variants@, self.definitions().len()),
        ensures
            final(reader)@ == parse_sum(self.definitions(), variants@, old(reader)@).rest,
            delivers(result, parse_sum(self.definitions(), variants@, old(reader)@).outcome),
            final(reader)@.len() <= old(reader)@.len(),
        decreases old(reader)@.len(), 0nat, 0nat, 0nat, 0nat,
    {
        match reader.read_byte() {
            Ok(id) => {
                if (id as usize) < variants.len() {
                    self.deserialize_enum_variant(&variants[id as usize], id, reader)
                } else {
                    Err(DecodeError::InvalidDiscriminant { found: id })
                }
            },
            Err(error) => Err(error),
        }
    }

    /// Decodes the fields of the variant with discriminant `id`.
    fn deserialize_enum_variant(&self, fields: &Vec<Shape>, id: u8, reader: &mut SliceReader) -> (result:
        Result<Value, DecodeError>)
        requires
            fields_resolve(fields@, self.definitions().len()),
        ensures
            final(reader)@ == parse_variant(self.definitions(), fields@, id, old(reader)@).rest,
            delivers(result, parse_variant(self.definitions(), fields@, id, old(reader)@).outcome),
            final(reader)@.len() <= old(reader)@.len(),
        decreases old(reader)@.len(), self.definitions().len(), 2nat, 0nat, 0nat,
    {
        proof {
            assert forall|k: int| 0 <= k < fields@.len() implies (#[trigger] fields@[k]).grounded(
                self.defs@.len(),
            ) by {
                fields@[k].lemma_resolves_grounded(self.defs@.len());
            }
        }
        match self.deserialize_fields(fields, reader, Ghost(self.defs@.len())) {
            Ok(values) => Ok(Value::Variant(id, values)),
            Err(error) => Err(error),
        }
    }

    /// Decodes one value of each shape in turn.
    fn deserialize_fields(
        &self,
        fields: &Vec<Shape>,
        reader: &mut SliceReader,
        Ghost(level): Ghost<nat>,
    ) -> (result: Result<Vec<Value>, DecodeError>)
        requires
            fields_resolve(fields@, self.definitions().len()),
            fields_grounded(fields@, level),
            level <= self.definitions().len(),
        ensures
            final(reader)@ == parse_fields(self.definitions(), fields@, old(reader)@, level).rest,
            delivers_all(
                result,
                parse_fields(self.definitions(), fields@, old(reader)@, level).outcome,
            ),
            final(reader)@.len() <= old(reader)@.len(),
        decreases old(reader)@.len(), level, 1nat, fields@.len(), 0nat,
    {
        let ghost defs = self.defs@;
        let ghost goal = parse_fields(defs, fields@, old(reader)@, level);
        let mut values: Vec<Value> = Vec::new();
        let mut i: usize = 0;
        proof {
            assert(fields@.skip(0) =~= fields@);
            match goal.outcome {
                Ok(data) => {
                    assert(views(values@) + data =~= data);
                },
                Err(_) => {},
            }
        }
        while i < fields.len()
            invariant
                i <= fields@.len(),
                defs == self.definitions(),
                fields_resolve(fields@, defs.len()),
                fields_grounded(fields@, level),
                level <= defs.len(),
                reader@.len() <= old(reader)@.len(),
                goal == parse_fields(defs, fields@, old(reader)@, level),
                goal == prepend(
                    views(values@),
                    parse_fields(defs, fields@.skip(i as int), reader@, level),
                ),
            decreases fields@.len() - i,
        {
            let ghost before = views(values@);
            let ghost left = fields@.skip(i as int);
            let ghost pending = parse_fields(defs, left, reader@, level);
            let ghost first = parse_shape(defs, fields@[i as int], reader@, level);
            assert(left[0] == fields@[i as int]);
            assert(left.skip(1) =~= fields@.skip(i + 1));
            match self.deserialize_shape(&fields[i], reader, Ghost(level)) {
                Ok(value) => {
                    values.push(value);
                    proof {
                        let later = parse_fields(defs, fields@.skip(i + 1), first.rest, level);
                        assert(pending == prepend(seq![value@], later));
                        assert(views(values@) =~= before.push(value@));
                        match later.outcome {
                            Ok(data) => {
                                assert(before + (seq![value@] + data) =~= views(values@) + data);
                            },
                            Err(_) => {},
                        }
                        assert(goal == prepend(views(values@), later));
                    }
                },
                Err(error) => {
                    proof {
                        assert(pending == Decoding::<Seq<Datum>>::failed(error, first.rest));
                    }
                    return Err(error);
                },
            }
            i += 1;
        }
        proof {
            assert(fields@.skip(i as int) =~= Seq::<Shape>::empty());
            assert(views(values@) + Seq::<Datum>::empty() =~= views(values@));
        }
        Ok(values)
    }

    /// Decodes `count` values of `element` in a row.
    fn deserialize_elements(
        &self,
        element: &Shape,
        count: u64,
        reader: &mut SliceReader,
        Ghost(level): Ghost<nat>,
    ) -> (result: Result<Vec<Value>, DecodeError>)
        requires
            element.resolves(self.definitions().len()),
            element.grounded(level),
            level <= self.definitions().len(),
        ensures
            final(reader)@ == parse_elements(
                self.definitions(),
                *element,
                count as nat,
                old(reader)@,
                level,
            ).rest,
            delivers_all(
                result,
                parse_elements(self.definitions(), *element, count as nat, old(reader)@, level).outcome,
            ),
            final(reader)@.len() <= old(reader)@.len(),
        decreases old(reader)@.len(), level, 0nat, element.height(), 1nat,
    {
        let ghost defs = self.defs@;
        let ghost goal = parse_elements(defs, *element, count as nat, old(reader)@, level);
        let mut values: Vec<Value> = Vec::new();
        let mut i: u64 = 0;
        proof {
            match goal.outcome {
                Ok(data) => {
                    assert(views(values@) + data =~= data);
                },
                Err(_) => {},
            }
        }
        while i < count
            invariant
                i <= count,
                defs == self.definitions(),
                element.resolves(defs.len()),
                element.grounded(level),
                level <= defs.len(),
                reader@.len() <= old(reader)@.len(),
                goal == parse_elements(defs, *element, count as nat, old(reader)@, level),
                goal == prepend(
                    views(values@),
                    parse_elements(defs, *element, (count - i) as nat, reader@, level),
                ),
            decreases count - i,
        {
            let ghost before = views(values@);
            let ghost pending = parse_elements(defs, *element, (count - i) as nat, reader@, level);
            let ghost first = parse_shape(defs, *element, reader@, level);
            match self.deserialize_shape(element, reader, Ghost(level)) {
                Ok(value) => {
                    values.push(value);
                    proof {
                        let later = parse_elements(
                            defs,
                            *element,
                            (count - i - 1) as nat,
                            first.rest,
                            level,
                        );
                        assert(pending == prepend(seq![value@], later));
                        assert(views(values@) =~= before.push(value@));
                        match later.outcome {
                            Ok(data) => {
                                assert(before + (seq![value@] + data) =~= views(values@) + data);
                            },
                            Err(_) => {},
                        }
                        assert(goal == prepend(views(values@), later));
                    }
                },
                Err(error) => {
                    proof {
                        assert(pending == Decoding::<Seq<Datum>>::failed(error, first.rest));
                    }
                    return Err(error);
                },
            }
            i += 1;
        }
        proof {
            assert(views(values@) + Seq::<Datum>::empty() =~= views(values@));
        }
        Ok(values)
    }
}

/// The decoding of a product from that of its fields.
pub open spec fn lift_product(fields: Decoding<Seq<Datum>>) -> Decoding<Datum> {
    crate::scalar::lift(fields, |values: Seq<Datum>| Datum::Product(values))
}

} // verus!
