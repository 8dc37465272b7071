//! The laws of the byte grammar: decoding undoes encoding, and a cut-off
//! encoding is never taken for a value.

use vstd::prelude::*;
use crate::big_endian::{
    be_bytes, be_value, lemma_be_bytes_len, lemma_be_value_bound, lemma_capacity_values,
    lemma_numeral_prefix,
};
use crate::grammar::{
    all_conform, conforms, decoding, definition_fault, each_conforms, fields_grounded,
    fields_resolve, lemma_parse_shape_rest, parse_elements, parse_fields, parse_shape, parse_sum,
    parse_variant, well_formed,
};
use crate::reader::Decoding;
use crate::shape::{Shape, TypeDef};
use crate::string_serialize::lemma_decoded_text_fits;
use crate::value::{wire_all, Datum};
use crate::Serializeable;

verus! {

/// Decoding the bytes of a value of a shape, as that shape, gives the value
/// back and leaves what followed them.
pub proof fn lemma_round_trip(defs: Seq<TypeDef>, shape: Shape, datum: Datum, rest: Seq<u8>)
    requires
        well_formed(defs),
        shape.resolves(defs.len()),
        conforms(defs, shape, datum),
    ensures
        decoding(defs, shape, datum.wire() + rest) == Decoding::done(datum, rest),
{
    shape.lemma_resolves_grounded(defs.len());
    lemma_shape_round_trip(defs, shape, datum, rest, defs.len());
}

/// Decoding a proper prefix of the bytes of a value fails for want of bytes,
/// and uses up the prefix.
pub proof fn lemma_truncated(defs: Seq<TypeDef>, shape: Shape, datum: Datum, cut: int)
    requires
        well_formed(defs),
        shape.resolves(defs.len()),
        conforms(defs, shape, datum),
        0 <= cut < datum.wire().len(),
    ensures
        decoding(defs, shape, datum.wire().take(cut)) == Decoding::<Datum>::starved(),
{
    shape.lemma_resolves_grounded(defs.len());
    lemma_shape_truncated(defs, shape, datum, cut, defs.len());
}

/// The round trip at any level at which the shape is grounded.
pub proof fn lemma_shape_round_trip(
    defs: Seq<TypeDef>,
    shape: Shape,
    datum: Datum,
    rest: Seq<u8>,
    level: nat,
)
    requires
        well_formed(defs),
        shape.resolves(defs.len()),
        shape.grounded(level),
        level <= defs.len(),
        conforms(defs, shape, datum),
    ensures
        parse_shape(defs, shape, datum.wire() + rest, level) == Decoding::done(datum, rest),
    decreases datum,
{
    let bytes = datum.wire() + rest;
    match (shape, datum) {
        (Shape::Scalar(kind), Datum::Scalar(scalar)) => {
            scalar.lemma_round_trip(rest);
        },
        (Shape::Text, Datum::Text(text)) => {
            String::lemma_round_trip(text, rest);
        },
        (Shape::Fixed(arity, element), Datum::Fixed(items)) => {
            lemma_elements_round_trip(defs, *element, items, rest, level);
        },
        (Shape::Growable(element), Datum::Growable(items)) => {
            let later = wire_all(items) + rest;
            lemma_capacity_values();
            lemma_numeral_prefix(items.len(), 8, later);
            assert(bytes =~= be_bytes(items.len(), 8) + later);
            element.lemma_resolves_grounded(defs.len());
            lemma_elements_round_trip(defs, *element, items, rest, defs.len());
        },
        (Shape::Boxed(inner), Datum::Boxed(held)) => {
            lemma_shape_round_trip(defs, *inner, *held, rest, level);
        },
        (Shape::Named(index), Datum::Product(values)) => {
            assert(definition_fault(defs, index as int) is None);
            let fields = defs[index as int]->Product_0;
            lemma_fields_round_trip(defs, fields@, values, rest, index as nat);
        },
        (Shape::Named(index), Datum::Variant(which, values)) => {
            assert(definition_fault(defs, index as int) is None);
            let variants = defs[index as int]->Sum_0;
            let fields = variants@[which as int]@;
            let later = wire_all(values) + rest;
            assert(bytes =~= seq![which] + later);
            assert(bytes.skip(1) =~= later);
            assert forall|k: int| 0 <= k < fields.len() implies (#[trigger] fields[k]).grounded(
                defs.len(),
            ) by {
                fields[k].lemma_resolves_grounded(defs.len());
            }
            lemma_fields_round_trip(defs, fields, values, rest, defs.len());
            assert(parse_shape(defs, shape, bytes, level) == parse_sum(defs, variants@, bytes));
            assert(parse_sum(defs, variants@, bytes) == parse_variant(defs, fields, which, later));
            assert(parse_variant(defs, fields, which, later) == Decoding::done(datum, rest));
        },
        _ => {},
    }
}

/// The round trip of the elements of a sequence.
pub proof fn lemma_elements_round_trip(
    defs: Seq<TypeDef>,
    element: Shape,
    items: Seq<Datum>,
    rest: Seq<u8>,
    level: nat,
)
    requires
        well_formed(defs),
        element.resolves(defs.len()),
        element.grounded(level),
        level <= defs.len(),
        all_conform(defs, element, items),
    ensures
        parse_elements(defs, element, items.len(), wire_all(items) + rest, level)
            == Decoding::done(items, rest),
    decreases items,
{
    if items.len() == 0 {
        assert(wire_all(items) + rest =~= rest);
        assert(items =~= Seq::<Datum>::empty());
    } else {
        let tail = items.skip(1);
        let later = wire_all(tail) + rest;
        assert(wire_all(items) + rest =~= items[0].wire() + later);
        lemma_shape_round_trip(defs, element, items[0], later, level);
        assert forall|i: int| 0 <= i < tail.len() implies conforms(
            defs,
            element,
            #[trigger] tail[i],
        ) by {
            assert(tail[i] == items[i + 1]);
        }
        lemma_elements_round_trip(defs, element, tail, rest, level);
        assert(seq![items[0]] + tail =~= items);
    }
}

/// The round trip of the fields of a product or of a variant.
pub proof fn lemma_fields_round_trip(
    defs: Seq<TypeDef>,
    fields: Seq<Shape>,
    values: Seq<Datum>,
    rest: Seq<u8>,
    level: nat,
)
    requires
        well_formed(defs),
        fields_resolve(fields, defs.len()),
        fields_grounded(fields, level),
        level <= defs.len(),
        each_conforms(defs, fields, values),
    ensures
        parse_fields(defs, fields, wire_all(values) + rest, level) == Decoding::done(values, rest),
    decreases values,
{
    if values.len() == 0 {
        assert(wire_all(values) + rest =~= rest);
        assert(values =~= Seq::<Datum>::empty());
    } else {
        let tail = values.skip(1);
        let later = wire_all(tail) + rest;
        assert(wire_all(values) + rest =~= values[0].wire() + later);
        lemma_shape_round_trip(defs, fields[0], values[0], later, level);
        assert forall|i: int| 0 <= i < tail.len() implies conforms(
            defs,
            fields.skip(1)[i],
            #[trigger] tail[i],
        ) by {
            assert(tail[i] == values[i + 1]);
        }
        lemma_fields_round_trip(defs, fields.skip(1), tail, rest, level);
        assert(seq![values[0]] + tail =~= values);
    }
}

/// The cut-off law at any level at which the shape is grounded.
pub proof fn lemma_shape_truncated(
    defs: Seq<TypeDef>,
    shape: Shape,
    datum: Datum,
    cut: int,
    level: nat,
)
    requires
        well_formed(defs),
        shape.resolves(defs.len()),
        shape.grounded(level),
        level <= defs.len(),
        conforms(defs, shape, datum),
        0 <= cut < datum.wire().len(),
    ensures
        parse_shape(defs, shape, datum.wire().take(cut), level) == Decoding::<Datum>::starved(),
    decreases datum,
{
    let bytes = datum.wire().take(cut);
    match (shape, datum) {
        (Shape::Scalar(kind), Datum::Scalar(scalar)) => {
            scalar.lemma_truncated(cut);
        },
        (Shape::Text, Datum::Text(text)) => {
            String::lemma_truncated(text, cut);
        },
        (Shape::Fixed(arity, element), Datum::Fixed(items)) => {
            lemma_elements_truncated(defs, *element, items, cut, level);
        },
        (Shape::Growable(element), Datum::Growable(items)) => {
            lemma_be_bytes_len(items.len(), 8);
            if cut >= 8 {
                let later = wire_all(items).take(cut - 8);
                lemma_capacity_values();
                lemma_numeral_prefix(items.len(), 8, later);
                assert(bytes =~= be_bytes(items.len(), 8) + later);
                element.lemma_resolves_grounded(defs.len());
                lemma_elements_truncated(defs, *element, items, cut - 8, defs.len());
            }
        },
        (Shape::Boxed(inner), Datum::Boxed(held)) => {
            lemma_shape_truncated(defs, *inner, *held, cut, level);
        },
        (Shape::Named(index), Datum::Product(values)) => {
            assert(definition_fault(defs, index as int) is None);
            let fields = defs[index as int]->Product_0;
            lemma_fields_truncated(defs, fields@, values, cut, index as nat);
        },
        (Shape::Named(index), Datum::Variant(which, values)) => {
            assert(definition_fault(defs, index as int) is None);
            let variants = defs[index as int]->Sum_0;
            let fields = variants@[which as int]@;
            if cut >= 1 {
                let later = wire_all(values).take(cut - 1);
                assert(bytes =~= seq![which] + later);
                assert(bytes.skip(1) =~= later);
                assert forall|k: int| 0 <= k < fields.len() implies (
                #[trigger] fields[k]).grounded(defs.len()) by {
                    fields[k].lemma_resolves_grounded(defs.len());
                }
                lemma_fields_truncated(defs, fields, values, cut - 1, defs.len());
                assert(parse_sum(defs, variants@, bytes) == parse_variant(
                    defs,
                    fields,
                    which,
                    later,
                ));
                assert(parse_variant(defs, fields, which, later) == Decoding::<Datum>::starved());
            }
            assert(parse_shape(defs, shape, bytes, level) == parse_sum(defs, variants@, bytes));
            assert(parse_sum(defs, variants@, bytes) == Decoding::<Datum>::starved());
        },
        _ => {},
    }
}

/// The cut-off law of the elements of a sequence.
pub proof fn lemma_elements_truncated(
    defs: Seq<TypeDef>,
    element: Shape,
    items: Seq<Datum>,
    cut: int,
    level: nat,
)
    requires
        well_formed(defs),
        element.resolves(defs.len()),
        element.grounded(level),
        level <= defs.len(),
        all_conform(defs, element, items),
        0 <= cut < wire_all(items).len(),
    ensures
        parse_elements(defs, element, items.len(), wire_all(items).take(cut), level)
            == Decoding::<Seq<Datum>>::starved(),
    decreases items,
{
    if items.len() > 0 {
        let head = items[0].wire();
        let tail = items.skip(1);
        let whole = wire_all(items);
        if cut < head.len() {
            assert(whole.take(cut) =~= head.take(cut));
            lemma_shape_truncated(defs, element, items[0], cut, level);
        } else {
            let later = wire_all(tail).take(cut - head.len());
            assert(whole.take(cut) =~= head + later);
            lemma_shape_round_trip(defs, element, items[0], later, level);
            assert forall|i: int| 0 <= i < tail.len() implies conforms(
                defs,
                element,
                #[trigger] tail[i],
            ) by {
                assert(tail[i] == items[i + 1]);
            }
            lemma_elements_truncated(defs, element, tail, cut - head.len(), level);
        }
    }
}

/// The cut-off law of the fields of a product or of a variant.
pub proof fn lemma_fields_truncated(
    defs: Seq<TypeDef>,
    fields: Seq<Shape>,
    values: Seq<Datum>,
    cut: int,
    level: nat,
)
    requires
        well_formed(defs),
        fields_resolve(fields, defs.len()),
        fields_grounded(fields, level),
        level <= defs.len(),
        each_conforms(defs, fields, values),
        0 <= cut < wire_all(values).len(),
    ensures
        parse_fields(defs, fields, wire_all(values).take(cut), level) == Decoding::<
            Seq<Datum>,
        >::starved(),
    decreases values,
{
    if values.len() > 0 {
        let head = values[0].wire();
        let tail = values.skip(1);
        let whole = wire_all(values);
        if cut < head.len() {
            assert(whole.take(cut) =~= head.take(cut));
            lemma_shape_truncated(defs, fields[0], values[0], cut, level);
        } else {
            let later = wire_all(tail).take(cut - head.len());
            assert(whole.take(cut) =~= head + later);
            lemma_shape_round_trip(defs, fields[0], values[0], later, level);
            assert forall|i: int| 0 <= i < tail.len() implies conforms(
                defs,
                fields.skip(1)[i],
                #[trigger] tail[i],
            ) by {
                assert(tail[i] == values[i + 1]);
            }
            lemma_fields_truncated(defs, fields.skip(1), tail, cut - head.len(), level);
        }
    }
}

/// What a decode gives is a value of the shape that was asked for.
pub proof fn lemma_decoded_conforms(defs: Seq<TypeDef>, shape: Shape, bytes: Seq<u8>)
    requires
        well_formed(defs),
        shape.resolves(defs.len()),
    ensures
        match decoding(defs, shape, bytes).outcome {
            Ok(datum) => conforms(defs, shape, datum),
            Err(_) => true,
        },
{
    shape.lemma_resolves_grounded(defs.len());
    lemma_parse_shape_conforms(defs, shape, bytes, defs.len());
}

/// A decoded value is a value of its shape, at any level at which the shape
/// is grounded.
pub proof fn lemma_parse_shape_conforms(
    defs: Seq<TypeDef>,
    shape: Shape,
    bytes: Seq<u8>,
    level: nat,
)
    requires
        well_formed(defs),
        shape.resolves(defs.len()),
        shape.grounded(level),
        level <= defs.len(),
    ensures
        match parse_shape(defs, shape, bytes, level).outcome {
            Ok(datum) => conforms(defs, shape, datum),
            Err(_) => true,
        },
    decreases bytes.len(), level, 0nat, shape.height(), 0nat,
{
    match shape {
        Shape::Scalar(kind) => {},
        Shape::Text => {
            lemma_decoded_text_fits(bytes);
        },
        Shape::Fixed(arity, element) => {
            lemma_parse_elements_conforms(defs, *element, arity as nat, bytes, level);
        },
        Shape::Growable(element) => {
            if bytes.len() >= 8 {
                lemma_be_value_bound(bytes.take(8));
                lemma_capacity_values();
                element.lemma_resolves_grounded(defs.len());
                lemma_parse_elements_conforms(
                    defs,
                    *element,
                    be_value(bytes.take(8)),
                    bytes.skip(8),
                    defs.len(),
                );
            }
        },
        Shape::Boxed(inner) => {
            lemma_parse_shape_conforms(defs, *inner, bytes, level);
        },
        Shape::Named(index) => {
            assert(definition_fault(defs, index as int) is None);
            match defs[index as int] {
                TypeDef::Product(fields) => {
                    lemma_parse_fields_conforms(defs, fields@, bytes, index as nat);
                },
                TypeDef::Sum(variants) => {
                    assert(parse_shape(defs, shape, bytes, level) == parse_sum(
                        defs,
                        variants@,
                        bytes,
                    ));
                    if bytes.len() >= 1 && bytes[0] < variants@.len() {
                        let fields = variants@[bytes[0] as int]@;
                        assert(parse_sum(defs, variants@, bytes) == parse_variant(
                            defs,
                            fields,
                            bytes[0],
                            bytes.skip(1),
                        ));
                        assert forall|k: int| 0 <= k < fields.len() implies (
                        #[trigger] fields[k]).grounded(defs.len()) by {
                            fields[k].lemma_resolves_grounded(defs.len());
                        }
                        lemma_parse_fields_conforms(defs, fields, bytes.skip(1), defs.len());
                    }
                },
            }
        },
    }
}

/// Decoded elements are as many as were asked for, each a value of the
/// element shape.
pub proof fn lemma_parse_elements_conforms(
    defs: Seq<TypeDef>,
    element: Shape,
    count: nat,
    bytes: Seq<u8>,
    level: nat,
)
    requires
        well_formed(defs),
        element.resolves(defs.len()),
        element.grounded(level),
        level <= defs.len(),
    ensures
        match parse_elements(defs, element, count, bytes, level).outcome {
            Ok(items) => items.len() == count && all_conform(defs, element, items),
            Err(_) => true,
        },
    decreases bytes.len(), level, 0nat, element.height(), count + 1,
{
    if count > 0 {
        let first = parse_shape(defs, element, bytes, level);
        lemma_parse_shape_conforms(defs, element, bytes, level);
        lemma_parse_shape_rest(defs, element, bytes, level);
        if first.outcome is Ok {
            lemma_parse_elements_conforms(defs, element, (count - 1) as nat, first.rest, level);
        }
    }
}

/// Decoded fields are values of the shapes at their places.
pub proof fn lemma_parse_fields_conforms(
    defs: Seq<TypeDef>,
    fields: Seq<Shape>,
    bytes: Seq<u8>,
    level: nat,
)
    requires
        well_formed(defs),
        fields_resolve(fields, defs.len()),
        fields_grounded(fields, level),
        level <= defs.len(),
    ensures
        match parse_fields(defs, fields, bytes, level).outcome {
            Ok(values) => each_conforms(defs, fields, values),
            Err(_) => true,
        },
    decreases bytes.len(), level, 1nat, fields.len(), 0nat,
{
    if fields.len() > 0 {
        let first = parse_shape(defs, fields[0], bytes, level);
        lemma_parse_shape_conforms(defs, fields[0], bytes, level);
        lemma_parse_shape_rest(defs, fields[0], bytes, level);
        if first.outcome is Ok {
            let later = parse_fields(defs, fields.skip(1), first.rest, level);
            lemma_parse_fields_conforms(defs, fields.skip(1), first.rest, level);
            match later.outcome {
                Ok(values) => {
                    let all = seq![first.outcome->Ok_0] + values;
                    assert forall|i: int| 0 <= i < all.len() implies conforms(
                        defs,
                        fields[i],
                        #[trigger] all[i],
                    ) by {
                        if i > 0 {
                            assert(all[i] == values[i - 1]);
                            assert(fields[i] == fields.skip(1)[i - 1]);
                        }
                    }
                },
                Err(_) => {},
            }
        }
    }
}

} // verus!
