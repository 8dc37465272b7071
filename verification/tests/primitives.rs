use serializeable::big_endian::{all_ones, get_be, put_be, signed_from_bits, signed_to_bits};
use serializeable::primitive_serialize::{F32Bits, F64Bits};
use serializeable::reader::{DecodeError, SliceReader};
use serializeable::scalar::{Primitive, Scalar};
use serializeable::Serializeable;

#[test]
fn unsigned_integers_are_big_endian() {
    assert_eq!(0xABu8.serialize(), vec![0xAB]);
    assert_eq!(0x0102u16.serialize(), vec![1, 2]);
    assert_eq!(0x01020304u32.serialize(), vec![1, 2, 3, 4]);
    assert_eq!(0x0102030405060708u64.serialize(), vec![1, 2, 3, 4, 5, 6, 7, 8]);
    assert_eq!(
        0x0102030405060708090A0B0C0D0E0F10u128.serialize(),
        vec![1, 2, 3, 4, 5, 6, 7, 8, 9, 10, 11, 12, 13, 14, 15, 16]
    );
    assert_eq!(u128::MAX.serialize(), vec![0xFF; 16]);
    assert_eq!(0u64.serialize(), vec![0; 8]);
}

#[test]
fn signed_integers_are_twos_complement() {
    assert_eq!((-1i8).serialize(), vec![0xFF]);
    assert_eq!((-2i16).serialize(), vec![0xFF, 0xFE]);
    assert_eq!(i32::MIN.serialize(), vec![0x80, 0, 0, 0]);
    assert_eq!(i32::MAX.serialize(), vec![0x7F, 0xFF, 0xFF, 0xFF]);
    assert_eq!((-256i64).serialize(), vec![0xFF, 0xFF, 0xFF, 0xFF, 0xFF, 0xFF, 0xFF, 0x00]);
    let mut lowest = vec![0u8; 16];
    lowest[0] = 0x80;
    assert_eq!(i128::MIN.serialize(), lowest);
    assert_eq!((-1i128).serialize(), vec![0xFF; 16]);
    assert_eq!(18i32.serialize(), vec![0, 0, 0, 18]);
}

#[test]
fn integers_agree_with_the_standard_library() {
    assert_eq!(0xDEADBEEFu32.serialize(), 0xDEADBEEFu32.to_be_bytes().to_vec());
    assert_eq!((-123456789i64).serialize(), (-123456789i64).to_be_bytes().to_vec());
    assert_eq!(i16::MIN.serialize(), i16::MIN.to_be_bytes().to_vec());
    assert_eq!(
        (-170141183460469231731687303715884105i128).serialize(),
        (-170141183460469231731687303715884105i128).to_be_bytes().to_vec()
    );
}

#[test]
fn integers_round_trip() {
    for value in [0u16, 1, 255, 256, 0xFFFF] {
        let bytes = value.serialize();
        assert_eq!(u16::deserialize(&mut SliceReader::new(&bytes)), Ok(value));
    }
    for value in [i64::MIN, -1, 0, 1, i64::MAX] {
        let bytes = value.serialize();
        assert_eq!(i64::deserialize(&mut SliceReader::new(&bytes)), Ok(value));
    }
    for value in [i8::MIN, -1, 0, 1, i8::MAX] {
        let bytes = value.serialize();
        assert_eq!(i8::deserialize(&mut SliceReader::new(&bytes)), Ok(value));
    }
    for value in [i128::MIN, -1, 0, 1, i128::MAX] {
        let bytes = value.serialize();
        assert_eq!(i128::deserialize(&mut SliceReader::new(&bytes)), Ok(value));
    }
    for value in [0u128, 1, u128::MAX] {
        let bytes = value.serialize();
        assert_eq!(u128::deserialize(&mut SliceReader::new(&bytes)), Ok(value));
    }
}

#[test]
fn decoding_an_integer_takes_exactly_its_width() {
    let bytes = [0u8, 0, 1, 0, 9, 9];
    let mut reader = SliceReader::new(&bytes);
    assert_eq!(u32::deserialize(&mut reader), Ok(256));
    assert_eq!(reader.remaining(), 2);
    assert_eq!(u16::deserialize(&mut reader), Ok(0x0909));
    assert_eq!(reader.remaining(), 0);
}

#[test]
fn short_read_is_a_recoverable_error() {
    let bytes = [1u8, 2, 3];
    let mut reader = SliceReader::new(&bytes);
    let result = u32::deserialize(&mut reader);
    assert_eq!(result, Err(DecodeError::UnexpectedEof));
    assert!(result.unwrap_err().is_recoverable());
    assert_eq!(reader.remaining(), 0);
    let nothing: [u8; 0] = [];
    assert_eq!(
        i128::deserialize(&mut SliceReader::new(&nothing)),
        Err(DecodeError::UnexpectedEof)
    );
    assert_eq!(
        bool::deserialize(&mut SliceReader::new(&nothing)),
        Err(DecodeError::UnexpectedEof)
    );
}

#[test]
fn bool_is_one_byte() {
    assert_eq!(true.serialize(), vec![1]);
    assert_eq!(false.serialize(), vec![0]);
}

#[test]
fn any_nonzero_byte_decodes_to_true() {
    assert_eq!(bool::deserialize(&mut SliceReader::new(&[0u8])), Ok(false));
    assert_eq!(bool::deserialize(&mut SliceReader::new(&[1u8])), Ok(true));
    assert_eq!(bool::deserialize(&mut SliceReader::new(&[2u8])), Ok(true));
    assert_eq!(bool::deserialize(&mut SliceReader::new(&[0xFFu8])), Ok(true));
}

#[test]
fn serialize_into_appends() {
    let mut data = vec![7u8];
    0x0102u16.serialize_into(&mut data);
    true.serialize_into(&mut data);
    assert_eq!(data, vec![7, 1, 2, 1]);
}

#[test]
fn encoding_twice_gives_the_same_bytes() {
    let value = -77i32;
    assert_eq!(value.serialize(), value.serialize());
    let text = String::from("twice");
    assert_eq!(text.serialize(), text.serialize());
}

#[test]
fn big_endian_helpers() {
    let mut data = Vec::new();
    put_be(&mut data, 0x010203, 3);
    assert_eq!(data, vec![1, 2, 3]);
    put_be(&mut data, 0x010203, 2);
    assert_eq!(data, vec![1, 2, 3, 2, 3]);
    put_be(&mut data, 5, 0);
    assert_eq!(data.len(), 5);
    assert_eq!(get_be(&[1, 2, 3]), 0x010203);
    assert_eq!(get_be(&[]), 0);
    assert_eq!(get_be(&[0xFF; 16]), u128::MAX);
    assert_eq!(all_ones(0), 0);
    assert_eq!(all_ones(2), 0xFFFF);
    assert_eq!(all_ones(16), u128::MAX);
    assert_eq!(signed_to_bits(-1, 2), 0xFFFF);
    assert_eq!(signed_to_bits(5, 2), 5);
    assert_eq!(signed_to_bits(-128, 1), 0x80);
    assert_eq!(signed_from_bits(0xFFFF, 2), -1);
    assert_eq!(signed_from_bits(0x7FFF, 2), 32767);
    assert_eq!(signed_from_bits(0x8000, 2), -32768);
    assert_eq!(signed_from_bits(u128::MAX, 16), -1);
}

#[test]
fn reader_reads_front_to_back() {
    let bytes = [1u8, 2, 3, 4, 5];
    let mut reader = SliceReader::new(&bytes);
    assert_eq!(reader.remaining(), 5);
    assert_eq!(reader.read_byte(), Ok(1));
    assert_eq!(reader.read_exact(2), Ok(&bytes[1..3]));
    assert_eq!(reader.read_exact(0), Ok(&bytes[0..0]));
    assert_eq!(reader.read_be(2), Ok(0x0405));
    assert_eq!(reader.remaining(), 0);
    assert_eq!(reader.read_byte(), Err(DecodeError::UnexpectedEof));
}

#[test]
fn failed_read_takes_what_is_left() {
    let bytes = [1u8, 2, 3];
    let mut reader = SliceReader::new(&bytes);
    assert_eq!(reader.read_exact(4), Err(DecodeError::UnexpectedEof));
    assert_eq!(reader.remaining(), 0);
    let mut other = SliceReader::new(&bytes);
    assert_eq!(other.read_be(8), Err(DecodeError::UnexpectedEof));
    assert_eq!(other.remaining(), 0);
}

#[test]
fn scalar_values_carry_their_kind() {
    assert_eq!(Primitive::U8(3).get_kind(), Scalar::U8);
    assert_eq!(Primitive::I128(-3).get_kind(), Scalar::I128);
    assert_eq!(Primitive::F32(0).get_kind(), Scalar::F32);
    assert_eq!(Primitive::Bool(true).get_kind(), Scalar::Bool);
    assert_eq!(Scalar::U8.width(), 1);
    assert_eq!(Scalar::I16.width(), 2);
    assert_eq!(Scalar::F32.width(), 4);
    assert_eq!(Scalar::F64.width(), 8);
    assert_eq!(Scalar::U128.width(), 16);
    assert_eq!(Scalar::Bool.width(), 1);
}

#[test]
fn floats_are_their_ieee_bytes() {
    let mut data = Vec::new();
    Primitive::F32(1.5f32.to_bits()).serialize_into(&mut data);
    assert_eq!(data, vec![0x3F, 0xC0, 0, 0]);
    assert_eq!(data, 1.5f32.to_be_bytes().to_vec());
    let mut wide = Vec::new();
    Primitive::F64((-2.0f64).to_bits()).serialize_into(&mut wide);
    assert_eq!(wide, vec![0xC0, 0, 0, 0, 0, 0, 0, 0]);
    let decoded = Primitive::deserialize(Scalar::F64, &mut SliceReader::new(&wide));
    match decoded {
        Ok(Primitive::F64(bits)) => assert_eq!(f64::from_bits(bits), -2.0),
        _ => panic!("not a 64-bit float"),
    }
    let single = Primitive::deserialize(Scalar::F32, &mut SliceReader::new(&data));
    assert_eq!(single, Ok(Primitive::F32(1.5f32.to_bits())));
}

#[test]
fn every_scalar_kind_round_trips() {
    let values = [
        Primitive::U8(200),
        Primitive::U16(50000),
        Primitive::U32(4000000000),
        Primitive::U64(u64::MAX),
        Primitive::U128(1 << 100),
        Primitive::I8(-100),
        Primitive::I16(-30000),
        Primitive::I32(-2000000000),
        Primitive::I64(i64::MIN),
        Primitive::I128(-(1 << 100)),
        Primitive::F32(0x7FC00000),
        Primitive::F64(0x7FF8000000000001),
        Primitive::Bool(true),
    ];
    for value in values {
        let mut data = Vec::new();
        value.serialize_into(&mut data);
        assert_eq!(data.len(), value.get_kind().width());
        let mut reader = SliceReader::new(&data);
        assert_eq!(Primitive::deserialize(value.get_kind(), &mut reader), Ok(value));
        assert_eq!(reader.remaining(), 0);
        let short = &data[..data.len() - 1];
        assert_eq!(
            Primitive::deserialize(value.get_kind(), &mut SliceReader::new(short)),
            Err(DecodeError::UnexpectedEof)
        );
    }
}

#[test]
fn float_bit_patterns_through_the_trait() {
    let single = F32Bits { bits: 1.5f32.to_bits() };
    assert_eq!(single.serialize(), vec![0x3F, 0xC0, 0, 0]);
    let double = F64Bits { bits: 1.0f64.to_bits() };
    assert_eq!(double.serialize(), vec![0x3F, 0xF0, 0, 0, 0, 0, 0, 0]);
    assert_eq!(double.serialize(), 1.0f64.to_be_bytes().to_vec());
    let bytes = (-0.25f32).to_be_bytes();
    let decoded = F32Bits::deserialize(&mut SliceReader::new(&bytes)).unwrap();
    assert_eq!(f32::from_bits(decoded.bits), -0.25);
    let wide = f64::MAX.to_be_bytes();
    let decoded = F64Bits::deserialize(&mut SliceReader::new(&wide)).unwrap();
    assert_eq!(f64::from_bits(decoded.bits), f64::MAX);
    assert_eq!(
        F64Bits::deserialize(&mut SliceReader::new(&wide[..7])),
        Err(DecodeError::UnexpectedEof)
    );
    let samples: Vec<F32Bits> = vec![single, F32Bits { bits: f32::NAN.to_bits() }];
    let encoded = samples.serialize();
    assert_eq!(encoded.len(), 8 + 2 * 4);
    assert_eq!(Vec::<F32Bits>::deserialize(&mut SliceReader::new(&encoded)), Ok(samples));
}
