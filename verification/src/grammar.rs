//! The byte grammar of a list of definitions: which values are values of a
//! shape, and what decoding bytes as a shape comes to.

use vstd::prelude::*;
use crate::big_endian::be_value;
use crate::elements::prepend;
use crate::reader::{DecodeError, Decoding};
use crate::scalar::{lift, Primitive};
use crate::shape::{Shape, TypeDef};
use crate::string_serialize::lemma_text_rest;
use crate::value::Datum;
use crate::Serializeable;

verus! {

/// Whether all these shapes name only aggregates among the first `count`
/// definitions.
pub open spec fn fields_resolve(fields: Seq<Shape>, count: nat) -> bool {
    forall|k: int| 0 <= k < fields.len() ==> (#[trigger] fields[k]).resolves(count)
}

/// Whether all these shapes start only with aggregates among the first
/// `level` definitions.
pub open spec fn fields_grounded(fields: Seq<Shape>, level: nat) -> bool {
    forall|k: int| 0 <= k < fields.len() ==> (#[trigger] fields[k]).grounded(level)
}

/// Whether the fields of every variant resolve.
pub open spec fn variants_resolve(variants: Seq<Vec<Shape>>, count: nat) -> bool {
    forall|v: int| 0 <= v < variants.len() ==> fields_resolve((#[trigger] variants[v])@, count)
}

/// Why a list of definitions is no byte grammar.
#[derive(Debug, Clone, Copy, PartialEq, Eq, Structural)]
pub enum DeriveError {
    /// A sum has more variants than one discriminant byte can tell apart.
    TooManyVariants { definition: usize },
    /// A field's shape names an aggregate that is not defined.
    UnknownType { definition: usize },
    /// A product starts with a value of itself or of a later definition:
    /// define what it starts with before it. A product that holds itself
    /// with no sum and no growable sequence in between has no finite value.
    Ungrounded { definition: usize },
}

impl DeriveError {
    /// The index of the definition at fault.
    pub open spec fn place(self) -> nat {
        match self {
            DeriveError::TooManyVariants { definition } => definition as nat,
            DeriveError::UnknownType { definition } => definition as nat,
            DeriveError::Ungrounded { definition } => definition as nat,
        }
    }

    /// The index of the definition at fault.
    pub fn definition(&self) -> (index: usize)
        ensures
            index == self.place(),
    {
        match self {
            DeriveError::TooManyVariants { definition } => *definition,
            DeriveError::UnknownType { definition } => *definition,
            DeriveError::Ungrounded { definition } => *definition,
        }
    }
}

/// What is wrong with the definition at `index`, if anything.
pub open spec fn definition_fault(defs: Seq<TypeDef>, index: int) -> Option<DeriveError> {
    match defs[index] {
        TypeDef::Product(fields) => if !fields_resolve(fields@, defs.len()) {
            Some(DeriveError::UnknownType { definition: index as usize })
        } else if !fields_grounded(fields@, index as nat) {
            Some(DeriveError::Ungrounded { definition: index as usize })
        } else {
            None
        },
        TypeDef::Sum(variants) => if variants@.len() > 256 {
            Some(DeriveError::TooManyVariants { definition: index as usize })
        } else if !variants_resolve(variants@, defs.len()) {
            Some(DeriveError::UnknownType { definition: index as usize })
        } else {
            None
        },
    }
}

/// Whether the definitions are a byte grammar: no definition is at fault.
pub open spec fn well_formed(defs: Seq<TypeDef>) -> bool {
    forall|i: int| 0 <= i < defs.len() ==> definition_fault(defs, i) is None
}

/// Whether `datum` is a value of `shape`.
pub open spec fn conforms(defs: Seq<TypeDef>, shape: Shape, datum: Datum) -> bool
    decreases datum,
{
    match (shape, datum) {
        (Shape::Scalar(kind), Datum::Scalar(scalar)) => scalar.kind() == kind,
        (Shape::Text, Datum::Text(text)) => String::encodable(text),
        (Shape::Fixed(arity, element), Datum::Fixed(items)) => items.len() == arity && forall|
            i: int,
        |
            0 <= i < items.len() ==> conforms(defs, *element, #[trigger] items[i]),
        (Shape::Growable(element), Datum::Growable(items)) => items.len() <= u64::MAX && forall|
            i: int,
        |
            0 <= i < items.len() ==> conforms(defs, *element, #[trigger] items[i]),
        (Shape::Boxed(inner), Datum::Boxed(held)) => conforms(defs, *inner, *held),
        (Shape::Named(index), Datum::Product(values)) => index < defs.len() && match defs[index as int] {
            TypeDef::Product(fields) => fields@.len() == values.len() && forall|i: int|
                0 <= i < values.len() ==> conforms(defs, fields@[i], #[trigger] values[i]),
            TypeDef::Sum(_) => false,
        },
        (Shape::Named(index), Datum::Variant(which, values)) => index < defs.len()
            && match defs[index as int] {
            TypeDef::Product(_) => false,
            TypeDef::Sum(variants) => which < variants@.len() && variants@[which as int]@.len()
                == values.len() && forall|i: int|
                0 <= i < values.len() ==> conforms(
                    defs,
                    variants@[which as int]@[i],
                    #[trigger] values[i],
                ),
        },
        _ => false,
    }
}

/// Whether each value is a value of the shape at its place.
pub open spec fn each_conforms(defs: Seq<TypeDef>, shapes: Seq<Shape>, values: Seq<Datum>) -> bool {
    shapes.len() == values.len() && forall|i: int|
        0 <= i < values.len() ==> conforms(defs, shapes[i], #[trigger] values[i])
}

/// Whether every value is a value of `element`.
pub open spec fn all_conform(defs: Seq<TypeDef>, element: Shape, items: Seq<Datum>) -> bool {
    forall|i: int| 0 <= i < items.len() ==> conforms(defs, element, #[trigger] items[i])
}

/// What decoding the front of `bytes` as a value of `shape` comes to.
///
/// `level` bounds the aggregates that may be entered before the next byte is
/// read; it is what makes the decode end. It is the number of definitions at
/// the start and whenever a byte has been read, and the index of a product
/// while its fields are decoded.
pub open spec fn parse_shape(defs: Seq<TypeDef>, shape: Shape, bytes: Seq<u8>, level: nat)
    -> Decoding<Datum>
    decreases bytes.len(), level, 0nat, shape.height(), 0nat,
{
    match shape {
        Shape::Scalar(kind) => lift(
            Primitive::decoding(kind, bytes),
            |scalar: Primitive| Datum::Scalar(scalar),
        ),
        Shape::Text => lift(String::decoding(bytes), |text: Seq<char>| Datum::Text(text)),
        Shape::Fixed(arity, element) => lift(
            parse_elements(defs, *element, arity as nat, bytes, level),
            |items: Seq<Datum>| Datum::Fixed(items),
        ),
        Shape::Growable(element) => if bytes.len() < 8 {
            Decoding::starved()
        } else {
            lift(
                parse_elements(defs, *element, be_value(bytes.take(8)), bytes.skip(8), defs.len()),
                |items: Seq<Datum>| Datum::Growable(items),
            )
        },
        Shape::Boxed(inner) => lift(
            parse_shape(defs, *inner, bytes, level),
            |held: Datum| Datum::Boxed(Box::new(held)),
        ),
        Shape::Named(index) => if index < level && index < defs.len() {
            match defs[index as int] {
                TypeDef::Product(fields) => lift(
                    parse_fields(defs, fields@, bytes, index as nat),
                    |values: Seq<Datum>| Datum::Product(values),
                ),
                TypeDef::Sum(variants) => parse_sum(defs, variants@, bytes),
            }
        } else {
            Decoding::starved()
        },
    }
}

/// What decoding a sum comes to: the discriminant byte chooses the variant
/// whose fields follow. A discriminant that names no variant is a failure of
/// its own kind, after the one byte.
pub open spec fn parse_sum(defs: Seq<TypeDef>, variants: Seq<Vec<Shape>>, bytes: Seq<u8>)
    -> Decoding<Datum>
    decreases bytes.len(), 0nat, 0nat, 0nat, 0nat,
{
    if bytes.len() < 1 {
        Decoding::starved()
    } else if bytes[0] >= variants.len() {
        Decoding::failed(DecodeError::InvalidDiscriminant { found: bytes[0] }, bytes.skip(1))
    } else {
        parse_variant(defs, variants[bytes[0] as int]@, bytes[0], bytes.skip(1))
    }
}

/// What decoding the fields of the variant with discriminant `id` comes to.
pub open spec fn parse_variant(defs: Seq<TypeDef>, fields: Seq<Shape>, id: u8, bytes: Seq<u8>)
    -> Decoding<Datum>
    decreases bytes.len(), defs.len(), 2nat, 0nat, 0nat,
{
    lift(
        parse_fields(defs, fields, bytes, defs.len()),
        |values: Seq<Datum>| Datum::Variant(id, values),
    )
}

/// What decoding `count` values of `element` in a row comes to.
///
/// What is left after a value is never longer than what there was
/// (`lemma_parse_shape_rest`), so the inner test always holds.
pub open spec fn parse_elements(
    defs: Seq<TypeDef>,
    element: Shape,
    count: nat,
    bytes: Seq<u8>,
    level: nat,
) -> Decoding<Seq<Datum>>
    decreases bytes.len(), level, 0nat, element.height(), count + 1,
{
    if count == 0 {
        Decoding::done(Seq::empty(), bytes)
    } else {
        let first = parse_shape(defs, element, bytes, level);
        match first.outcome {
            Ok(value) => if first.rest.len() <= bytes.len() {
                prepend(
                    seq![value],
                    parse_elements(defs, element, (count - 1) as nat, first.rest, level),
                )
            } else {
                Decoding::starved()
            },
            Err(error) => Decoding::failed(error, first.rest),
        }
    }
}

/// What decoding one value of each shape in turn comes to.
///
/// What is left after a value is never longer than what there was
/// (`lemma_parse_shape_rest`), so the inner test always holds.
pub open spec fn parse_fields(defs: Seq<TypeDef>, fields: Seq<Shape>, bytes: Seq<u8>, level: nat)
    -> Decoding<Seq<Datum>>
    decreases bytes.len(), level, 1nat, fields.len(), 0nat,
{
    if fields.len() == 0 {
        Decoding::done(Seq::empty(), bytes)
    } else {
        let first = parse_shape(defs, fields[0], bytes, level);
        match first.outcome {
            Ok(value) => if first.rest.len() <= bytes.len() {
                prepend(seq![value], parse_fields(defs, fields.skip(1), first.rest, level))
            } else {
                Decoding::starved()
            },
            Err(error) => Decoding::failed(error, first.rest),
        }
    }
}

/// What decoding the front of `bytes` as a value of `shape` comes to.
pub open spec fn decoding(defs: Seq<TypeDef>, shape: Shape, bytes: Seq<u8>) -> Decoding<Datum> {
    parse_shape(defs, shape, bytes, defs.len())
}

/// What is left after a value was decoded, or was not, is never longer than
/// what there was.
pub proof fn lemma_parse_shape_rest(defs: Seq<TypeDef>, shape: Shape, bytes: Seq<u8>, level: nat)
    ensures
        parse_shape(defs, shape, bytes, level).rest.len() <= bytes.len(),
    decreases bytes.len(), level, 0nat, shape.height(), 0nat,
{
    match shape {
        Shape::Scalar(kind) => {
            Primitive::lemma_decoding_rest(kind, bytes);
        },
        Shape::Text => {
            lemma_text_rest(bytes);
        },
        Shape::Fixed(arity, element) => {
            lemma_parse_elements_rest(defs, *element, arity as nat, bytes, level);
        },
        Shape::Growable(element) => {
            if bytes.len() >= 8 {
                lemma_parse_elements_rest(
                    defs,
                    *element,
                    be_value(bytes.take(8)),
                    bytes.skip(8),
                    defs.len(),
                );
            }
        },
        Shape::Boxed(inner) => {
            lemma_parse_shape_rest(defs, *inner, bytes, level);
        },
        Shape::Named(index) => {
            if index < level && index < defs.len() {
                match defs[index as int] {
                    TypeDef::Product(fields) => {
                        lemma_parse_fields_rest(defs, fields@, bytes, index as nat);
                    },
                    TypeDef::Sum(variants) => {
                        lemma_parse_sum_rest(defs, variants@, bytes);
                    },
                }
            }
        },
    }
}

/// What is left after a sum was decoded is never longer than what there was.
pub proof fn lemma_parse_sum_rest(defs: Seq<TypeDef>, variants: Seq<Vec<Shape>>, bytes: Seq<u8>)
    ensures
        parse_sum(defs, variants, bytes).rest.len() <= bytes.len(),
    decreases bytes.len(), 0nat, 0nat, 0nat, 0nat,
{
    if bytes.len() >= 1 && bytes[0] < variants.len() {
        lemma_parse_fields_rest(defs, variants[bytes[0] as int]@, bytes.skip(1), defs.len());
    }
}

/// What is left after elements were decoded is never longer than what there
/// was.
pub proof fn lemma_parse_elements_rest(
    defs: Seq<TypeDef>,
    element: Shape,
    count: nat,
    bytes: Seq<u8>,
    level: nat,
)
    ensures
        parse_elements(defs, element, count, bytes, level).rest.len() <= bytes.len(),
    decreases bytes.len(), level, 0nat, element.height(), count + 1,
{
    if count > 0 {
        let first = parse_shape(defs, element, bytes, level);
        lemma_parse_shape_rest(defs, element, bytes, level);
        if first.outcome is Ok {
            lemma_parse_elements_rest(defs, element, (count - 1) as nat, first.rest, level);
        }
    }
}

/// What is left after fields were decoded is never longer than what there was.
pub proof fn lemma_parse_fields_rest(
    defs: Seq<TypeDef>,
    fields: Seq<Shape>,
    bytes: Seq<u8>,
    level: nat,
)
    ensures
        parse_fields(defs, fields, bytes, level).rest.len() <= bytes.len(),
    decreases bytes.len(), level, 1nat, fields.len(), 0nat,
{
    if fields.len() > 0 {
        let first = parse_shape(defs, fields[0], bytes, level);
        lemma_parse_shape_rest(defs, fields[0], bytes, level);
        if first.outcome is Ok {
            lemma_parse_fields_rest(defs, fields.skip(1), first.rest, level);
        }
    }
}

/// The level does not change what a decode comes to, as long as the shape is
/// grounded at it: it only bounds the aggregates that may be entered.
pub proof fn lemma_parse_shape_level(defs: Seq<TypeDef>, shape: Shape, bytes: Seq<u8>, level: nat)
    requires
        shape.resolves(defs.len()),
        shape.grounded(level),
        level <= defs.len(),
    ensures
        parse_shape(defs, shape, bytes, level) == decoding(defs, shape, bytes),
    decreases shape, 0nat,
{
    match shape {
        Shape::Fixed(arity, element) => {
            element.lemma_resolves_grounded(defs.len());
            lemma_parse_elements_level(defs, *element, arity as nat, bytes, level);
        },
        Shape::Boxed(inner) => {
            lemma_parse_shape_level(defs, *inner, bytes, level);
        },
        _ => {},
    }
}

/// The level does not change what a decode of elements comes to.
pub proof fn lemma_parse_elements_level(
    defs: Seq<TypeDef>,
    element: Shape,
    count: nat,
    bytes: Seq<u8>,
    level: nat,
)
    requires
        element.resolves(defs.len()),
        element.grounded(level),
        level <= defs.len(),
    ensures
        parse_elements(defs, element, count, bytes, level) == parse_elements(
            defs,
            element,
            count,
            bytes,
            defs.len(),
        ),
    decreases element, count + 1,
{
    if count > 0 {
        lemma_parse_shape_level(defs, element, bytes, level);
        let first = parse_shape(defs, element, bytes, level);
        lemma_parse_elements_level(defs, element, (count - 1) as nat, first.rest, level);
    }
}

/// The level does not change what a decode of fields comes to.
pub proof fn lemma_parse_fields_level(
    defs: Seq<TypeDef>,
    fields: Seq<Shape>,
    bytes: Seq<u8>,
    level: nat,
)
    requires
        fields_resolve(fields, defs.len()),
        fields_grounded(fields, level),
        level <= defs.len(),
    ensures
        parse_fields(defs, fields, bytes, level) == parse_fields(defs, fields, bytes, defs.len()),
    decreases fields.len(),
{
    if fields.len() > 0 {
        lemma_parse_shape_level(defs, fields[0], bytes, level);
        let first = parse_shape(defs, fields[0], bytes, level);
        lemma_parse_fields_level(defs, fields.skip(1), first.rest, level);
    }
}

/// A discriminant byte that names no variant ends the decode of a sum with a
/// failure that is not recoverable, whatever follows the byte.
pub proof fn lemma_discriminant_out_of_range(defs: Seq<TypeDef>, index: usize, bytes: Seq<u8>)
    requires
        index < defs.len(),
        defs[index as int] is Sum,
        bytes.len() >= 1,
        bytes[0] >= defs[index as int]->Sum_0@.len(),
    ensures
        decoding(defs, Shape::Named(index), bytes) == Decoding::<Datum>::failed(
            DecodeError::InvalidDiscriminant { found: bytes[0] },
            bytes.skip(1),
        ),
        !(DecodeError::InvalidDiscriminant { found: bytes[0] }).recoverable(),
{
    let variants = defs[index as int]->Sum_0;
    assert(decoding(defs, Shape::Named(index), bytes) == parse_sum(defs, variants@, bytes));
}

} // verus!
