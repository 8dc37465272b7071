use serializeable::derive::{derive_serializeable, Codec};
use serializeable::reader::{DecodeError, SliceReader};
use serializeable::scalar::{Primitive, Scalar};
use serializeable::shape::{Shape, TypeDef};
use serializeable::suspend::Decoder;
use serializeable::value::Value;

// 0: enum List { Nil, Cons(i32, Box<List>) }
// 1: struct Record { id: u16, name: String, tags: Vec<u8>, pair: [bool; 2], next: List }
// 2: struct Unit;
fn records() -> Codec {
    derive_serializeable(vec![
        TypeDef::Sum(vec![
            vec![],
            vec![Shape::Scalar(Scalar::I32), Shape::Boxed(Box::new(Shape::Named(0)))],
        ]),
        TypeDef::Product(vec![
            Shape::Scalar(Scalar::U16),
            Shape::Text,
            Shape::Growable(Box::new(Shape::Scalar(Scalar::U8))),
            Shape::Fixed(2, Box::new(Shape::Scalar(Scalar::Bool))),
            Shape::Named(0),
        ]),
        TypeDef::Product(vec![]),
    ])
    .unwrap()
}

fn record() -> Value {
    Value::Product(vec![
        Value::Scalar(Primitive::U16(513)),
        Value::Text(String::from("n\u{e4}me")),
        Value::Growable(vec![
            Value::Scalar(Primitive::U8(1)),
            Value::Scalar(Primitive::U8(2)),
        ]),
        Value::Fixed(vec![
            Value::Scalar(Primitive::Bool(true)),
            Value::Scalar(Primitive::Bool(false)),
        ]),
        Value::Variant(
            1,
            vec![
                Value::Scalar(Primitive::I32(-5)),
                Value::Boxed(Box::new(Value::Variant(0, vec![]))),
            ],
        ),
    ])
}

// Runs the decoder over `input`, reading exactly what it asks for. Gives the
// result, the number of bytes taken from the input, and the sizes of the reads.
fn drive(codec: &Codec, shape: &Shape, input: &[u8]) -> (Result<Value, DecodeError>, usize, Vec<usize>) {
    assert!(codec.accepts(shape));
    let mut decoder = Decoder::new(codec, shape);
    let mut at = 0;
    let mut reads = Vec::new();
    loop {
        if decoder.is_finished() {
            return (decoder.finish(), at, reads);
        }
        let count = decoder.wants();
        if count == 0 {
            decoder = decoder.advance();
        } else if input.len() - at < count {
            return (Err(DecodeError::UnexpectedEof), input.len(), reads);
        } else {
            decoder = decoder.feed(&input[at..at + count]);
            at += count;
            reads.push(count);
        }
    }
}

fn blocking(codec: &Codec, shape: &Shape, input: &[u8]) -> (Result<Value, DecodeError>, usize) {
    let mut reader = SliceReader::new(input);
    let result = codec.deserialize(shape, &mut reader);
    (result, input.len() - reader.remaining())
}

fn agree(codec: &Codec, shape: &Shape, input: &[u8]) {
    let (suspended, taken, _) = drive(codec, shape, input);
    let (direct, consumed) = blocking(codec, shape, input);
    assert_eq!(suspended, direct);
    assert_eq!(taken, consumed);
}

#[test]
fn suspended_decode_gives_the_value() {
    let codec = records();
    let bytes = record().serialize();
    let (result, taken, _) = drive(&codec, &Shape::Named(1), &bytes);
    assert_eq!(result, Ok(record()));
    assert_eq!(taken, bytes.len());
}

#[test]
fn suspended_decode_reads_what_the_blocking_decode_reads() {
    let codec = records();
    let bytes = record().serialize();
    let (_, _, reads) = drive(&codec, &Shape::Named(1), &bytes);
    assert_eq!(reads, vec![2, 8, 1, 1, 1, 1, 1, 8, 1, 1, 1, 1, 1, 4, 1]);
    assert_eq!(reads.iter().sum::<usize>(), bytes.len());
}

#[test]
fn suspended_and_blocking_decode_agree() {
    let codec = records();
    let mut bytes = record().serialize();
    bytes.extend_from_slice(&[1, 2, 3]);
    agree(&codec, &Shape::Named(1), &bytes);
    agree(&codec, &Shape::Named(0), &[0]);
    agree(&codec, &Shape::Named(0), &[1, 0, 0, 0, 1, 1, 0, 0, 0, 2, 0, 0xEE]);
    agree(&codec, &Shape::Named(2), &[5, 6]);
    agree(&codec, &Shape::Named(2), &[]);
    agree(&codec, &Shape::Text, &[0, 0, 0, 0, 0, 0, 0, 0, 9]);
    agree(&codec, &Shape::Fixed(0, Box::new(Shape::Named(1))), &[9]);
    agree(&codec, &Shape::Fixed(3, Box::new(Shape::Named(2))), &[9]);
    agree(
        &codec,
        &Shape::Growable(Box::new(Shape::Named(2))),
        &[0, 0, 0, 0, 0, 0, 0, 4, 9],
    );
    agree(
        &codec,
        &Shape::Growable(Box::new(Shape::Growable(Box::new(Shape::Scalar(Scalar::U16))))),
        &[0, 0, 0, 0, 0, 0, 0, 2, 0, 0, 0, 0, 0, 0, 0, 1, 1, 2, 0, 0, 0, 0, 0, 0, 0, 0, 7],
    );
    agree(&codec, &Shape::Boxed(Box::new(Shape::Boxed(Box::new(Shape::Scalar(Scalar::I64))))), &[0xFF; 9]);
}

#[test]
fn suspended_and_blocking_decode_agree_on_every_prefix() {
    let codec = records();
    let bytes = record().serialize();
    for cut in 0..bytes.len() {
        let (result, taken, _) = drive(&codec, &Shape::Named(1), &bytes[..cut]);
        assert_eq!(result, Err(DecodeError::UnexpectedEof));
        assert_eq!(taken, cut);
        agree(&codec, &Shape::Named(1), &bytes[..cut]);
    }
}

#[test]
fn suspended_and_blocking_decode_agree_on_failures() {
    let codec = records();
    let (result, taken, _) = drive(&codec, &Shape::Named(0), &[2, 7, 7]);
    assert_eq!(result, Err(DecodeError::InvalidDiscriminant { found: 2 }));
    assert_eq!(taken, 1);
    agree(&codec, &Shape::Named(0), &[2, 7, 7]);
    agree(&codec, &Shape::Named(0), &[0xFF]);
    agree(&codec, &Shape::Named(0), &[1, 0, 0, 0, 1, 9]);
    let invalid = [0u8, 0, 0, 0, 0, 0, 0, 2, 0x61, 0x80, 0x33];
    let (result, taken, _) = drive(&codec, &Shape::Text, &invalid);
    assert_eq!(result, Err(DecodeError::InvalidUtf8 { valid_up_to: 1 }));
    assert_eq!(taken, 10);
    agree(&codec, &Shape::Text, &invalid);
    let mut broken = record().serialize();
    broken[11] = 0xC0;
    agree(&codec, &Shape::Named(1), &broken);
}

#[test]
fn decoder_says_what_it_needs() {
    let codec = records();
    let shape = Shape::Named(0);
    let decoder = Decoder::new(&codec, &shape);
    assert!(!decoder.is_finished());
    assert_eq!(decoder.wants(), 1);
    let decoder = decoder.feed(&[1]);
    assert_eq!(decoder.wants(), 4);
    let decoder = decoder.feed(&[0, 0, 0, 7]);
    assert_eq!(decoder.wants(), 0);
    assert!(!decoder.is_finished());
    let decoder = decoder.advance();
    assert_eq!(decoder.wants(), 0);
    let decoder = decoder.advance();
    assert_eq!(decoder.wants(), 1);
    let decoder = decoder.feed(&[0]);
    let decoder = decoder.advance();
    assert!(!decoder.is_finished());
    let decoder = decoder.advance();
    assert!(decoder.is_finished());
    assert_eq!(decoder.wants(), 0);
    let decoder = decoder.advance();
    assert!(decoder.is_finished());
    assert_eq!(
        decoder.finish(),
        Ok(Value::Variant(
            1,
            vec![
                Value::Scalar(Primitive::I32(7)),
                Value::Boxed(Box::new(Value::Variant(0, vec![])))
            ]
        ))
    );
}

#[test]
fn decoder_stays_failed() {
    let codec = records();
    let shape = Shape::Named(0);
    let decoder = Decoder::new(&codec, &shape).feed(&[9]);
    assert!(decoder.is_finished());
    let decoder = decoder.advance();
    assert!(decoder.is_finished());
    assert_eq!(decoder.wants(), 0);
    assert_eq!(decoder.finish(), Err(DecodeError::InvalidDiscriminant { found: 9 }));
}

fn by_steps(codec: &Codec, shape: &Shape, input: &[u8]) -> (Result<Value, DecodeError>, usize) {
    let mut reader = SliceReader::new(input);
    let result = serializeable::suspend::deserialize(codec, shape, &mut reader);
    (result, input.len() - reader.remaining())
}

#[test]
fn run_gives_what_the_blocking_decode_gives() {
    let codec = records();
    let mut bytes = record().serialize();
    bytes.extend_from_slice(&[4, 5]);
    assert_eq!(by_steps(&codec, &Shape::Named(1), &bytes), (Ok(record()), bytes.len() - 2));
    for cut in 0..bytes.len() - 2 {
        assert_eq!(
            by_steps(&codec, &Shape::Named(1), &bytes[..cut]),
            blocking(&codec, &Shape::Named(1), &bytes[..cut])
        );
        assert_eq!(
            by_steps(&codec, &Shape::Named(1), &bytes[..cut]),
            (Err(DecodeError::UnexpectedEof), cut)
        );
    }
    let inputs: [&[u8]; 5] = [
        &[2, 7, 7],
        &[0, 1],
        &[1, 0, 0, 0, 1, 9, 1],
        &[],
        &[1, 0xFF, 0xFF, 0xFF, 0xFF, 1, 0, 0, 0, 0, 0],
    ];
    for input in inputs {
        assert_eq!(
            by_steps(&codec, &Shape::Named(0), input),
            blocking(&codec, &Shape::Named(0), input)
        );
    }
    let many_units = Shape::Fixed(1000, Box::new(Shape::Fixed(50, Box::new(Shape::Named(2)))));
    let (result, taken) = by_steps(&codec, &many_units, &[1, 2, 3]);
    assert_eq!(taken, 0);
    assert_eq!(result, blocking(&codec, &many_units, &[1, 2, 3]).0);
}

#[test]
fn run_takes_up_a_decode_in_progress() {
    let codec = records();
    let shape = Shape::Named(0);
    let bytes = [1u8, 0, 0, 1, 0, 0, 77];
    let decoder = Decoder::new(&codec, &shape).feed(&bytes[..1]).feed(&bytes[1..5]);
    let mut reader = SliceReader::new(&bytes[5..]);
    assert_eq!(decoder.run(&mut reader), blocking(&codec, &shape, &bytes).0);
    assert_eq!(reader.remaining(), 1);
    let starved = Decoder::new(&codec, &shape).feed(&bytes[..1]);
    let mut short = SliceReader::new(&bytes[1..3]);
    assert_eq!(starved.run(&mut short), Err(DecodeError::UnexpectedEof));
    assert_eq!(short.remaining(), 0);
}

#[test]
fn arbitrary_bytes_decode_alike_and_to_values_of_the_shape() {
    let codec = records();
    let shapes = [
        Shape::Named(0),
        Shape::Named(1),
        Shape::Growable(Box::new(Shape::Named(0))),
        Shape::Fixed(3, Box::new(Shape::Text)),
    ];
    let mut seed: u32 = 0x2545F491;
    for round in 0..400 {
        let mut input = Vec::new();
        let length = (round % 40) as usize;
        for _ in 0..length {
            seed = seed.wrapping_mul(1664525).wrapping_add(1013904223);
            let byte = (seed >> 24) as u8;
            // small bytes keep lengths and discriminants within reach
            input.push(if seed & 0x300 == 0 { byte } else { byte % 3 });
        }
        for shape in shapes.iter() {
            let direct = blocking(&codec, shape, &input);
            assert_eq!(by_steps(&codec, shape, &input), direct);
            let (driven, taken, _) = drive(&codec, shape, &input);
            assert_eq!((driven, taken), direct);
            if let Ok(value) = &direct.0 {
                assert!(codec.conforms(shape, value));
            }
        }
    }
}
