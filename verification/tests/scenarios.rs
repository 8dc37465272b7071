use serializeable::derive::derive_serializeable;
use serializeable::reader::{DecodeError, SliceReader};
use serializeable::scalar::{Primitive, Scalar};
use serializeable::shape::{Shape, TypeDef};
use serializeable::value::Value;
use serializeable::Serializeable;

fn int32(x: i32) -> Value {
    Value::Scalar(Primitive::I32(x))
}

fn test_struct() -> Vec<TypeDef> {
    vec![TypeDef::Product(vec![
        Shape::Scalar(Scalar::I32),
        Shape::Scalar(Scalar::Bool),
    ])]
}

fn test_enum() -> Vec<TypeDef> {
    vec![TypeDef::Sum(vec![
        vec![],
        vec![Shape::Scalar(Scalar::I32)],
        vec![Shape::Boxed(Box::new(Shape::Named(0)))],
    ])]
}

#[test]
fn product_of_int32_and_bool_takes_five_zero_bytes() {
    let codec = derive_serializeable(test_struct()).unwrap();
    let value = Value::Product(vec![int32(0), Value::Scalar(Primitive::Bool(false))]);
    let bytes = codec.serialize(&Shape::Named(0), &value).unwrap();
    assert_eq!(bytes, vec![0u8, 0, 0, 0, 0]);
    let mut reader = SliceReader::new(&bytes);
    assert_eq!(codec.deserialize(&Shape::Named(0), &mut reader), Ok(value));
    assert_eq!(reader.remaining(), 0);
}

#[test]
fn unit_variant_at_index_zero_takes_one_zero_byte() {
    let codec = derive_serializeable(test_enum()).unwrap();
    let value = Value::Variant(0, vec![]);
    let bytes = codec.serialize(&Shape::Named(0), &value).unwrap();
    assert_eq!(bytes, vec![0u8]);
}

#[test]
fn growable_sequence_of_two_bytes() {
    let bytes = vec![0x05u8, 0x09].serialize();
    assert_eq!(bytes, vec![0u8, 0, 0, 0, 0, 0, 0, 2, 5, 9]);
    let value = Value::Growable(vec![
        Value::Scalar(Primitive::U8(5)),
        Value::Scalar(Primitive::U8(9)),
    ]);
    assert_eq!(value.serialize(), bytes);
}

#[test]
fn discriminant_out_of_range_is_fatal() {
    let codec = derive_serializeable(test_enum()).unwrap();
    let bytes = [0xFFu8, 1, 2, 3];
    let mut reader = SliceReader::new(&bytes);
    let result = codec.deserialize(&Shape::Named(0), &mut reader);
    assert_eq!(result, Err(DecodeError::InvalidDiscriminant { found: 0xFF }));
    let error = result.unwrap_err();
    assert!(error.is_fatal());
    assert!(!error.is_recoverable());
    assert_eq!(reader.remaining(), 3);
}

#[test]
fn nested_enum_round_trip() {
    let codec = derive_serializeable(test_enum()).unwrap();
    let value = Value::Variant(
        2,
        vec![Value::Boxed(Box::new(Value::Variant(1, vec![int32(18)])))],
    );
    let bytes = codec.serialize(&Shape::Named(0), &value).unwrap();
    assert_eq!(bytes, vec![2u8, 1, 0, 0, 0, 18]);
    let mut reader = SliceReader::new(&bytes);
    assert_eq!(codec.deserialize(&Shape::Named(0), &mut reader), Ok(value));
}
