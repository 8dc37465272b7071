use serializeable::reader::{DecodeError, SliceReader};
use serializeable::elements::{deserialize_elements, serialize_elements};
use serializeable::string_serialize::text_from_bytes;
use serializeable::Serializeable;

#[test]
fn growable_sequence_has_a_length_prefix() {
    let items: Vec<u16> = vec![1, 258];
    assert_eq!(items.serialize(), vec![0, 0, 0, 0, 0, 0, 0, 2, 0, 1, 1, 2]);
    let nothing: Vec<u32> = Vec::new();
    assert_eq!(nothing.serialize(), vec![0; 8]);
}

#[test]
fn growable_sequence_round_trips() {
    let items: Vec<i32> = vec![-1, 0, 1, i32::MAX];
    let bytes = items.serialize();
    let mut reader = SliceReader::new(&bytes);
    assert_eq!(Vec::<i32>::deserialize(&mut reader), Ok(items));
    assert_eq!(reader.remaining(), 0);
}

#[test]
fn growable_sequence_reads_exactly_its_length() {
    let bytes = [0u8, 0, 0, 0, 0, 0, 0, 2, 5, 9, 7, 7];
    let mut reader = SliceReader::new(&bytes);
    assert_eq!(Vec::<u8>::deserialize(&mut reader), Ok(vec![5, 9]));
    assert_eq!(reader.remaining(), 2);
}

#[test]
fn truncated_growable_sequence_is_a_recoverable_error() {
    let bytes = vec![0x05u8, 0x09].serialize();
    assert_eq!(bytes.len(), 10);
    for cut in 0..bytes.len() {
        let mut reader = SliceReader::new(&bytes[..cut]);
        let result = Vec::<u8>::deserialize(&mut reader);
        assert_eq!(result, Err(DecodeError::UnexpectedEof));
        assert!(result.unwrap_err().is_recoverable());
        assert_eq!(reader.remaining(), 0);
    }
}

#[test]
fn declared_length_beyond_the_bytes_is_an_error() {
    let bytes = [0xFFu8, 0xFF, 0xFF, 0xFF, 0xFF, 0xFF, 0xFF, 0xFF, 1, 2, 3];
    let mut reader = SliceReader::new(&bytes);
    assert_eq!(Vec::<u8>::deserialize(&mut reader), Err(DecodeError::UnexpectedEof));
    let wide = [0u8, 0, 0, 0, 0, 0, 0, 2, 0, 0, 0, 1, 0, 0];
    assert_eq!(
        Vec::<u32>::deserialize(&mut SliceReader::new(&wide)),
        Err(DecodeError::UnexpectedEof)
    );
}

#[test]
fn fixed_sequence_has_no_prefix() {
    let items: [u16; 3] = [1, 2, 3];
    assert_eq!(items.serialize(), vec![0, 1, 0, 2, 0, 3]);
    let none: [u64; 0] = [];
    assert_eq!(none.serialize(), Vec::<u8>::new());
}

#[test]
fn fixed_sequence_takes_arity_times_element_size() {
    let bytes = [7u32; 5].serialize();
    assert_eq!(bytes.len(), 5 * 4);
    let grid = [[0u16; 3]; 4].serialize();
    assert_eq!(grid.len(), 4 * 3 * 2);
    let wide = [1i128; 2].serialize();
    assert_eq!(wide.len(), 2 * 16);
}

#[test]
fn fixed_sequence_round_trips() {
    let items: [i16; 4] = [-1, 2, -3, 4];
    let bytes = items.serialize();
    let mut reader = SliceReader::new(&bytes);
    assert_eq!(<[i16; 4]>::deserialize(&mut reader), Ok(items));
    assert_eq!(reader.remaining(), 0);
    let grid: [[u8; 2]; 3] = [[1, 2], [3, 4], [5, 6]];
    assert_eq!(grid.serialize(), vec![1, 2, 3, 4, 5, 6]);
    assert_eq!(
        <[[u8; 2]; 3]>::deserialize(&mut SliceReader::new(&grid.serialize())),
        Ok(grid)
    );
    let none: [u64; 0] = [];
    assert_eq!(<[u64; 0]>::deserialize(&mut SliceReader::new(&[1u8, 2])), Ok(none));
}

#[test]
fn fixed_sequence_fails_as_a_whole() {
    let bytes = [0u8, 1, 0, 2, 0];
    let mut reader = SliceReader::new(&bytes);
    assert_eq!(<[u16; 3]>::deserialize(&mut reader), Err(DecodeError::UnexpectedEof));
    assert_eq!(reader.remaining(), 0);
}

#[test]
fn sequences_of_sequences() {
    let nested: Vec<Vec<u8>> = vec![vec![1], vec![], vec![2, 3]];
    let bytes = nested.serialize();
    assert_eq!(
        bytes,
        vec![
            0, 0, 0, 0, 0, 0, 0, 3, 0, 0, 0, 0, 0, 0, 0, 1, 1, 0, 0, 0, 0, 0, 0, 0, 0, 0, 0, 0,
            0, 0, 0, 0, 2, 2, 3
        ]
    );
    assert_eq!(Vec::<Vec<u8>>::deserialize(&mut SliceReader::new(&bytes)), Ok(nested));
    let pairs: Vec<[bool; 2]> = vec![[true, false], [false, false]];
    let encoded = pairs.serialize();
    assert_eq!(encoded, vec![0, 0, 0, 0, 0, 0, 0, 2, 1, 0, 0, 0]);
    assert_eq!(Vec::<[bool; 2]>::deserialize(&mut SliceReader::new(&encoded)), Ok(pairs));
}

#[test]
fn box_adds_no_bytes() {
    let boxed = Box::new(0x01020304u32);
    assert_eq!(boxed.serialize(), 0x01020304u32.serialize());
    let bytes = boxed.serialize();
    let mut reader = SliceReader::new(&bytes);
    assert_eq!(Box::<u32>::deserialize(&mut reader), Ok(boxed));
    assert_eq!(reader.remaining(), 0);
    let twice = Box::new(Box::new(true));
    assert_eq!(twice.serialize(), vec![1]);
    assert_eq!(
        Box::<u32>::deserialize(&mut SliceReader::new(&[1u8])),
        Err(DecodeError::UnexpectedEof)
    );
}

#[test]
fn text_is_length_then_utf8() {
    let text = String::from("h\u{e9}");
    assert_eq!(text.serialize(), vec![0, 0, 0, 0, 0, 0, 0, 3, 0x68, 0xC3, 0xA9]);
    assert_eq!(String::new().serialize(), vec![0; 8]);
    let bytes = text.as_bytes().to_vec();
    assert_eq!(text.serialize(), bytes.serialize());
}

#[test]
fn text_round_trips() {
    for text in ["", "plain", "gr\u{fc}\u{df}e", "\u{1F600} and \u{4e2d}\u{6587}"] {
        let owned = String::from(text);
        let bytes = owned.serialize();
        let mut reader = SliceReader::new(&bytes);
        assert_eq!(String::deserialize(&mut reader), Ok(owned));
        assert_eq!(reader.remaining(), 0);
    }
}

#[test]
fn invalid_utf8_is_a_recoverable_error_that_says_where() {
    let bytes = [0u8, 0, 0, 0, 0, 0, 0, 3, 0x61, 0xFF, 0x62, 0x7A];
    let mut reader = SliceReader::new(&bytes);
    let result = String::deserialize(&mut reader);
    assert_eq!(result, Err(DecodeError::InvalidUtf8 { valid_up_to: 1 }));
    let error = result.unwrap_err();
    assert!(error.is_recoverable());
    assert!(!error.is_fatal());
    assert_eq!(reader.remaining(), 1);
    let cut_short = [0u8, 0, 0, 0, 0, 0, 0, 2, 0x61, 0xC3];
    assert_eq!(
        String::deserialize(&mut SliceReader::new(&cut_short)),
        Err(DecodeError::InvalidUtf8 { valid_up_to: 1 })
    );
    let surrogate = [0u8, 0, 0, 0, 0, 0, 0, 3, 0xED, 0xA0, 0x80];
    assert_eq!(
        String::deserialize(&mut SliceReader::new(&surrogate)),
        Err(DecodeError::InvalidUtf8 { valid_up_to: 0 })
    );
}

#[test]
fn truncated_text_is_a_recoverable_error() {
    let bytes = String::from("text").serialize();
    for cut in 0..bytes.len() {
        assert_eq!(
            String::deserialize(&mut SliceReader::new(&bytes[..cut])),
            Err(DecodeError::UnexpectedEof)
        );
    }
}

#[test]
fn text_from_bytes_validates() {
    assert_eq!(text_from_bytes(vec![0x68, 0x69]), Ok(String::from("hi")));
    assert_eq!(text_from_bytes(vec![]), Ok(String::new()));
    assert_eq!(
        text_from_bytes(vec![0x68, 0x69, 0x80]),
        Err(DecodeError::InvalidUtf8 { valid_up_to: 2 })
    );
    assert_eq!(
        text_from_bytes(vec![0xE4, 0xB8, 0xAD, 0xE4, 0xB8]),
        Err(DecodeError::InvalidUtf8 { valid_up_to: 3 })
    );
}

#[test]
fn elements_in_a_row() {
    let mut data = vec![9u8];
    serialize_elements(&[1u16, 2], &mut data);
    assert_eq!(data, vec![9, 0, 1, 0, 2]);
    let mut reader = SliceReader::new(&data[1..]);
    assert_eq!(deserialize_elements::<u16>(&mut reader, 2), Ok(vec![1, 2]));
    let mut again = SliceReader::new(&data[1..]);
    assert_eq!(deserialize_elements::<u16>(&mut again, 0), Ok(vec![]));
    assert_eq!(again.remaining(), 4);
    assert_eq!(
        deserialize_elements::<u16>(&mut again, 3),
        Err(DecodeError::UnexpectedEof)
    );
}
