use serializeable::derive::{derive_serializeable, Codec};
use serializeable::grammar::DeriveError;
use serializeable::reader::{DecodeError, SliceReader};
use serializeable::scalar::{Primitive, Scalar};
use serializeable::shape::{Shape, TypeDef};
use serializeable::value::{serialize_all, serialize_enum_variant, Value};

fn byte(x: u8) -> Value {
    Value::Scalar(Primitive::U8(x))
}

fn short(x: u16) -> Value {
    Value::Scalar(Primitive::U16(x))
}

fn boxed(shape: Shape) -> Shape {
    Shape::Boxed(Box::new(shape))
}

fn growable(shape: Shape) -> Shape {
    Shape::Growable(Box::new(shape))
}

fn fixed(arity: usize, shape: Shape) -> Shape {
    Shape::Fixed(arity, Box::new(shape))
}

// 0: enum List { Nil, Cons(u8, Box<List>) }
// 1: struct Pair { a: u8, b: u16 }
// 2: struct Tree { label: u8, children: Vec<Tree> }
// 3: struct Unit;
// 4: struct Outer { pair: Pair, grid: [[u8; 2]; 2], name: String, unit: Unit }
// 5: enum Mixed { Empty, Named { pair: Pair }, Many(Vec<u16>, bool) }
fn library() -> Codec {
    derive_serializeable(vec![
        TypeDef::Sum(vec![vec![], vec![Shape::Scalar(Scalar::U8), boxed(Shape::Named(0))]]),
        TypeDef::Product(vec![Shape::Scalar(Scalar::U8), Shape::Scalar(Scalar::U16)]),
        TypeDef::Product(vec![Shape::Scalar(Scalar::U8), growable(Shape::Named(2))]),
        TypeDef::Product(vec![]),
        TypeDef::Product(vec![
            Shape::Named(1),
            fixed(2, fixed(2, Shape::Scalar(Scalar::U8))),
            Shape::Text,
            Shape::Named(3),
        ]),
        TypeDef::Sum(vec![
            vec![],
            vec![Shape::Named(1)],
            vec![growable(Shape::Scalar(Scalar::U16)), Shape::Scalar(Scalar::Bool)],
        ]),
    ])
    .unwrap()
}

fn list(items: &[u8]) -> Value {
    let mut value = Value::Variant(0, vec![]);
    for item in items.iter().rev() {
        value = Value::Variant(1, vec![byte(*item), Value::Boxed(Box::new(value))]);
    }
    value
}

fn pair(a: u8, b: u16) -> Value {
    Value::Product(vec![byte(a), short(b)])
}

fn tree(label: u8, children: Vec<Value>) -> Value {
    Value::Product(vec![byte(label), Value::Growable(children)])
}

fn outer() -> Value {
    Value::Product(vec![
        pair(1, 2),
        Value::Fixed(vec![
            Value::Fixed(vec![byte(3), byte(4)]),
            Value::Fixed(vec![byte(5), byte(6)]),
        ]),
        Value::Text(String::from("ok")),
        Value::Product(vec![]),
    ])
}

fn round_trip(codec: &Codec, shape: &Shape, value: Value) -> Vec<u8> {
    assert!(codec.accepts(shape));
    assert!(codec.conforms(shape, &value));
    let bytes = codec.serialize(shape, &value).unwrap();
    assert_eq!(bytes, value.serialize());
    let mut reader = SliceReader::new(&bytes);
    assert_eq!(codec.deserialize(shape, &mut reader), Ok(value));
    assert_eq!(reader.remaining(), 0);
    bytes
}

#[test]
fn product_is_its_fields_in_declaration_order() {
    let codec = library();
    let bytes = round_trip(&codec, &Shape::Named(1), pair(1, 2));
    assert_eq!(bytes, vec![1, 0, 2]);
}

#[test]
fn empty_product_takes_no_bytes() {
    let codec = library();
    let bytes = round_trip(&codec, &Shape::Named(3), Value::Product(vec![]));
    assert_eq!(bytes, Vec::<u8>::new());
}

#[test]
fn sum_is_discriminant_then_fields() {
    let codec = library();
    assert_eq!(round_trip(&codec, &Shape::Named(5), Value::Variant(0, vec![])), vec![0]);
    assert_eq!(
        round_trip(&codec, &Shape::Named(5), Value::Variant(1, vec![pair(7, 8)])),
        vec![1, 7, 0, 8]
    );
    assert_eq!(
        round_trip(
            &codec,
            &Shape::Named(5),
            Value::Variant(
                2,
                vec![
                    Value::Growable(vec![short(0x0102)]),
                    Value::Scalar(Primitive::Bool(true))
                ]
            )
        ),
        vec![2, 0, 0, 0, 0, 0, 0, 0, 1, 1, 2, 1]
    );
}

#[test]
fn recursive_sum_through_a_box() {
    let codec = library();
    assert_eq!(round_trip(&codec, &Shape::Named(0), list(&[])), vec![0]);
    assert_eq!(
        round_trip(&codec, &Shape::Named(0), list(&[4, 5, 6])),
        vec![1, 4, 1, 5, 1, 6, 0]
    );
}

#[test]
fn recursive_product_through_a_growable_sequence() {
    let codec = library();
    let value = tree(1, vec![tree(2, vec![]), tree(3, vec![tree(4, vec![])])]);
    let bytes = round_trip(&codec, &Shape::Named(2), value);
    assert_eq!(
        bytes,
        vec![
            1, 0, 0, 0, 0, 0, 0, 0, 2, 2, 0, 0, 0, 0, 0, 0, 0, 0, 3, 0, 0, 0, 0, 0, 0, 0, 1, 4,
            0, 0, 0, 0, 0, 0, 0, 0
        ]
    );
}

#[test]
fn nested_aggregates() {
    let codec = library();
    let bytes = round_trip(&codec, &Shape::Named(4), outer());
    assert_eq!(bytes, vec![1, 0, 2, 3, 4, 5, 6, 0, 0, 0, 0, 0, 0, 0, 2, 0x6F, 0x6B]);
}

#[test]
fn shapes_without_aggregates() {
    let codec = derive_serializeable(vec![]).unwrap();
    assert_eq!(codec.len(), 0);
    assert_eq!(
        round_trip(&codec, &Shape::Scalar(Scalar::I32), Value::Scalar(Primitive::I32(-2))),
        vec![0xFF, 0xFF, 0xFF, 0xFE]
    );
    assert_eq!(
        round_trip(&codec, &Shape::Text, Value::Text(String::from("a"))),
        vec![0, 0, 0, 0, 0, 0, 0, 1, 0x61]
    );
    assert_eq!(
        round_trip(
            &codec,
            &growable(boxed(Shape::Scalar(Scalar::Bool))),
            Value::Growable(vec![Value::Boxed(Box::new(Value::Scalar(Primitive::Bool(true))))])
        ),
        vec![0, 0, 0, 0, 0, 0, 0, 1, 1]
    );
    assert_eq!(
        round_trip(&codec, &fixed(0, Shape::Text), Value::Fixed(vec![])),
        Vec::<u8>::new()
    );
    assert!(!codec.accepts(&Shape::Named(0)));
    assert!(!codec.accepts(&growable(fixed(3, Shape::Named(0)))));
}

#[test]
fn fixed_sequence_of_fixed_size_elements_takes_arity_times_size() {
    let codec = library();
    let items: Vec<Value> = (0..7).map(|i| pair(i, 300)).collect();
    let bytes = round_trip(&codec, &fixed(7, Shape::Named(1)), Value::Fixed(items));
    assert_eq!(bytes.len(), 7 * 3);
}

#[test]
fn truncated_aggregate_is_a_recoverable_error() {
    let codec = library();
    let cases = [
        (Shape::Named(4), outer()),
        (Shape::Named(0), list(&[1, 2])),
        (Shape::Named(2), tree(1, vec![tree(2, vec![])])),
        (
            growable(Shape::Named(1)),
            Value::Growable(vec![pair(1, 2), pair(3, 4)]),
        ),
    ];
    for (shape, value) in cases {
        let bytes = value.serialize();
        for cut in 0..bytes.len() {
            let mut reader = SliceReader::new(&bytes[..cut]);
            let result = codec.deserialize(&shape, &mut reader);
            assert_eq!(result, Err(DecodeError::UnexpectedEof));
            assert!(result.unwrap_err().is_recoverable());
            assert_eq!(reader.remaining(), 0);
        }
    }
}

#[test]
fn discriminant_at_variant_count_is_fatal() {
    let codec = library();
    let bytes = [3u8, 0, 0];
    let mut reader = SliceReader::new(&bytes);
    let result = codec.deserialize(&Shape::Named(5), &mut reader);
    assert_eq!(result, Err(DecodeError::InvalidDiscriminant { found: 3 }));
    assert!(result.unwrap_err().is_fatal());
    assert_eq!(reader.remaining(), 2);
    let nested = [1u8, 9, 2];
    assert_eq!(
        codec.deserialize(&Shape::Named(0), &mut SliceReader::new(&nested)),
        Err(DecodeError::InvalidDiscriminant { found: 2 })
    );
}

#[test]
fn invalid_text_inside_an_aggregate() {
    let codec = library();
    let mut bytes = outer().serialize();
    let last = bytes.len() - 1;
    bytes[last] = 0xFF;
    bytes.push(0x55);
    let mut reader = SliceReader::new(&bytes);
    assert_eq!(
        codec.deserialize(&Shape::Named(4), &mut reader),
        Err(DecodeError::InvalidUtf8 { valid_up_to: 1 })
    );
    assert_eq!(reader.remaining(), 1);
}

#[test]
fn decoding_leaves_what_follows() {
    let codec = library();
    let mut bytes = pair(1, 2).serialize();
    bytes.extend_from_slice(&[0, 9]);
    let mut reader = SliceReader::new(&bytes);
    assert_eq!(codec.deserialize(&Shape::Named(1), &mut reader), Ok(pair(1, 2)));
    assert_eq!(reader.remaining(), 2);
    assert_eq!(codec.deserialize(&Shape::Named(0), &mut reader), Ok(list(&[])));
    assert_eq!(reader.remaining(), 1);
}

#[test]
fn values_of_another_shape_do_not_conform() {
    let codec = library();
    let cases = [
        (Shape::Scalar(Scalar::U8), short(1)),
        (Shape::Scalar(Scalar::U32), Value::Scalar(Primitive::F32(1))),
        (Shape::Text, byte(1)),
        (fixed(2, Shape::Scalar(Scalar::U8)), Value::Fixed(vec![byte(1)])),
        (fixed(1, Shape::Scalar(Scalar::U8)), Value::Growable(vec![byte(1)])),
        (fixed(1, Shape::Scalar(Scalar::U8)), Value::Fixed(vec![short(1)])),
        (growable(Shape::Scalar(Scalar::U8)), Value::Growable(vec![byte(1), short(1)])),
        (boxed(Shape::Scalar(Scalar::U8)), byte(1)),
        (Shape::Scalar(Scalar::U8), Value::Boxed(Box::new(byte(1)))),
        (Shape::Named(1), Value::Product(vec![byte(1)])),
        (Shape::Named(1), Value::Product(vec![short(1), byte(1)])),
        (Shape::Named(1), Value::Variant(0, vec![])),
        (Shape::Named(0), Value::Product(vec![])),
        (Shape::Named(0), Value::Variant(2, vec![])),
        (Shape::Named(0), Value::Variant(0, vec![byte(1)])),
        (Shape::Named(0), Value::Variant(1, vec![byte(1), list(&[])])),
        (Shape::Named(6), Value::Product(vec![])),
        (Shape::Named(6), Value::Variant(0, vec![])),
    ];
    for (shape, value) in cases {
        assert!(!codec.conforms(&shape, &value));
        assert_eq!(codec.serialize(&shape, &value), None);
    }
}

#[test]
fn two_hundred_fifty_six_variants_are_the_limit() {
    let full: Vec<Vec<Shape>> = (0..256).map(|_| vec![]).collect();
    let codec = derive_serializeable(vec![TypeDef::Sum(full)]).unwrap();
    let last = Value::Variant(255, vec![]);
    assert!(codec.conforms(&Shape::Named(0), &last));
    assert_eq!(last.serialize(), vec![255]);
    assert_eq!(
        codec.deserialize(&Shape::Named(0), &mut SliceReader::new(&[255u8])),
        Ok(last)
    );
    let over: Vec<Vec<Shape>> = (0..257).map(|_| vec![]).collect();
    let result = derive_serializeable(vec![TypeDef::Product(vec![]), TypeDef::Sum(over)]);
    assert_eq!(result.err(), Some(DeriveError::TooManyVariants { definition: 1 }));
}

#[test]
fn unknown_type_is_refused() {
    let result = derive_serializeable(vec![TypeDef::Product(vec![growable(Shape::Named(1))])]);
    assert_eq!(result.err(), Some(DeriveError::UnknownType { definition: 0 }));
    let result = derive_serializeable(vec![
        TypeDef::Product(vec![]),
        TypeDef::Sum(vec![vec![], vec![Shape::Scalar(Scalar::U8), boxed(Shape::Named(2))]]),
    ]);
    let error = result.err().unwrap();
    assert_eq!(error, DeriveError::UnknownType { definition: 1 });
    assert_eq!(error.definition(), 1);
}

#[test]
fn product_that_starts_with_itself_is_refused() {
    let result = derive_serializeable(vec![TypeDef::Product(vec![boxed(Shape::Named(0))])]);
    assert_eq!(result.err(), Some(DeriveError::Ungrounded { definition: 0 }));
    let result = derive_serializeable(vec![
        TypeDef::Product(vec![Shape::Scalar(Scalar::U8), fixed(2, Shape::Named(1))]),
        TypeDef::Product(vec![]),
    ]);
    assert_eq!(result.err(), Some(DeriveError::Ungrounded { definition: 0 }));
    let reordered = derive_serializeable(vec![
        TypeDef::Product(vec![]),
        TypeDef::Product(vec![Shape::Scalar(Scalar::U8), fixed(2, Shape::Named(0))]),
    ]);
    assert!(reordered.is_ok());
}

#[test]
fn first_faulty_definition_is_reported() {
    let over: Vec<Vec<Shape>> = (0..300).map(|_| vec![]).collect();
    let result = derive_serializeable(vec![
        TypeDef::Product(vec![Shape::Scalar(Scalar::U8)]),
        TypeDef::Product(vec![Shape::Named(9)]),
        TypeDef::Sum(over),
    ]);
    assert_eq!(result.err(), Some(DeriveError::UnknownType { definition: 1 }));
}

#[test]
fn values_serialize_without_a_codec() {
    assert_eq!(byte(7).serialize(), vec![7]);
    assert_eq!(Value::Text(String::from("hi")).serialize(), vec![0, 0, 0, 0, 0, 0, 0, 2, 0x68, 0x69]);
    assert_eq!(Value::Fixed(vec![byte(1), byte(2)]).serialize(), vec![1, 2]);
    assert_eq!(
        Value::Growable(vec![byte(1), byte(2)]).serialize(),
        vec![0, 0, 0, 0, 0, 0, 0, 2, 1, 2]
    );
    assert_eq!(Value::Boxed(Box::new(short(3))).serialize(), vec![0, 3]);
    assert_eq!(Value::Product(vec![short(3), byte(4)]).serialize(), vec![0, 3, 4]);
    assert_eq!(Value::Variant(9, vec![short(3)]).serialize(), vec![9, 0, 3]);
    let mut data = vec![0xAA];
    Value::Variant(1, vec![]).serialize_into(&mut data);
    serialize_all(&vec![byte(1), short(2)], &mut data);
    assert_eq!(data, vec![0xAA, 1, 1, 0, 2]);
}

#[test]
fn encoding_a_value_twice_gives_the_same_bytes() {
    assert_eq!(outer().serialize(), outer().serialize());
    let codec = library();
    assert_eq!(
        codec.serialize(&Shape::Named(4), &outer()),
        codec.serialize(&Shape::Named(4), &outer())
    );
}

#[test]
fn variant_is_written_as_discriminant_then_fields() {
    let mut data = vec![0x10u8];
    serialize_enum_variant(2, &vec![short(0x0304), byte(5)], &mut data);
    assert_eq!(data, vec![0x10, 2, 3, 4, 5]);
    serialize_enum_variant(0, &vec![], &mut data);
    assert_eq!(data, vec![0x10, 2, 3, 4, 5, 0]);
}

#[test]
fn codec_keeps_its_definitions() {
    let codec = library();
    assert_eq!(codec.len(), 6);
    assert_eq!(codec.defs().len(), 6);
    assert_eq!(
        codec.defs()[1],
        TypeDef::Product(vec![Shape::Scalar(Scalar::U8), Shape::Scalar(Scalar::U16)])
    );
    assert!(codec.accepts(&Shape::Named(5)));
    assert!(!codec.accepts(&Shape::Named(6)));
}

#[test]
fn floats_in_aggregates() {
    let codec = derive_serializeable(vec![TypeDef::Product(vec![
        Shape::Scalar(Scalar::F32),
        Shape::Scalar(Scalar::F64),
    ])])
    .unwrap();
    let value = Value::Product(vec![
        Value::Scalar(Primitive::F32(2.5f32.to_bits())),
        Value::Scalar(Primitive::F64((-1.0f64).to_bits())),
    ]);
    let bytes = round_trip(&codec, &Shape::Named(0), value);
    let mut expected = 2.5f32.to_be_bytes().to_vec();
    expected.extend_from_slice(&(-1.0f64).to_be_bytes());
    assert_eq!(bytes, expected);
}

#[test]
fn shape_checks() {
    let shape = fixed(2, boxed(Shape::Named(3)));
    assert!(shape.check_resolves(4));
    assert!(!shape.check_resolves(3));
    assert!(shape.check_grounded(4));
    assert!(!shape.check_grounded(3));
    let behind = growable(Shape::Named(3));
    assert!(!behind.check_resolves(3));
    assert!(behind.check_grounded(0));
    assert!(Shape::Text.check_resolves(0));
    assert!(Shape::Scalar(Scalar::U8).check_grounded(0));
}
