use trilogy_save_editor::containers::{deserialize_from_array, FixedBytes};
use trilogy_save_editor::cursor::SaveCursor;
use trilogy_save_editor::error::SaveError;
use trilogy_save_editor::ordered_map::{deserialize_from_indexmap, SaveMap};
use trilogy_save_editor::rc_ui::RcUi;
use trilogy_save_editor::save_data::{
    deserialize_enum_from_u32, deserialize_enum_from_u8, deserialize_from_bool, Float32, SaveData,
};
use trilogy_save_editor::text::{deserialize_from_string, SaveString};

fn encode<T: SaveData>(v: &T) -> Vec<u8> {
    let mut out = Vec::new();
    v.serialize(&mut out);
    out
}

#[test]
fn cursor_reads_in_order() {
    let mut c = SaveCursor::new(vec![1, 2, 3, 4, 5]);
    assert_eq!(c.read(2), Ok(vec![1, 2]));
    assert_eq!(c.position(), 2);
    assert_eq!(c.read(3), Ok(vec![3, 4, 5]));
    assert_eq!(c.remaining(), 0);
    assert_eq!(c.read(0), Ok(vec![]));
}

#[test]
fn cursor_read_past_end_leaves_position() {
    let mut c = SaveCursor::new(vec![1, 2, 3]);
    assert_eq!(c.read(1), Ok(vec![1]));
    assert_eq!(c.read(3), Err(SaveError::UnexpectedEndOfFile));
    assert_eq!(c.position(), 1);
    assert_eq!(c.read(2), Ok(vec![2, 3]));
    let mut empty = SaveCursor::new(vec![]);
    assert_eq!(empty.read(1), Err(SaveError::UnexpectedEndOfFile));
    assert_eq!(empty.position(), 0);
}

#[test]
fn integers_are_little_endian() {
    let mut c = SaveCursor::new(vec![0x78, 0x56, 0x34, 0x12, 0xFF, 0xFF, 0xFF, 0xFF, 0x34, 0x12, 0xFE, 0xFF, 0x80]);
    assert_eq!(u32::deserialize(&mut c), Ok(0x1234_5678));
    assert_eq!(i32::deserialize(&mut c), Ok(-1));
    assert_eq!(u16::deserialize(&mut c), Ok(0x1234));
    assert_eq!(i16::deserialize(&mut c), Ok(-2));
    assert_eq!(i8::deserialize(&mut c), Ok(-128));
    assert_eq!(u8::deserialize(&mut c), Err(SaveError::UnexpectedEndOfFile));
    assert_eq!(encode(&0x1234_5678u32), vec![0x78, 0x56, 0x34, 0x12]);
    assert_eq!(encode(&-2i32), vec![0xFE, 0xFF, 0xFF, 0xFF]);
    assert_eq!(encode(&-2i16), vec![0xFE, 0xFF]);
    assert_eq!(encode(&-128i8), vec![0x80]);
}

#[test]
fn short_integer_fails() {
    let mut c = SaveCursor::new(vec![1, 2, 3]);
    assert_eq!(i32::deserialize(&mut c), Err(SaveError::UnexpectedEndOfFile));
    assert_eq!(c.position(), 0);
}

#[test]
fn float_keeps_its_bits() {
    let mut c = SaveCursor::new(1.5f32.to_le_bytes().to_vec());
    let f = Float32::deserialize(&mut c).unwrap();
    assert_eq!(f32::from_bits(f.bits), 1.5);
    assert_eq!(encode(&f), 1.5f32.to_le_bytes().to_vec());
}

#[test]
fn bool_zero_is_false() {
    let mut c = SaveCursor::new(vec![0, 0, 0, 0]);
    assert_eq!(deserialize_from_bool(&mut c), Ok(false));
    assert_eq!(c.position(), 4);
}

#[test]
fn bool_non_zero_is_true() {
    let mut c = SaveCursor::new(vec![1, 0, 0, 0, 0xFF, 0xFF, 0xFF, 0xFF, 0, 0, 0, 0x80]);
    assert_eq!(bool::deserialize(&mut c), Ok(true));
    assert_eq!(bool::deserialize(&mut c), Ok(true));
    assert_eq!(bool::deserialize(&mut c), Ok(true));
    assert_eq!(encode(&true), vec![1, 0, 0, 0]);
    assert_eq!(encode(&false), vec![0, 0, 0, 0]);
}

#[test]
fn string_length_zero_is_empty() {
    let mut c = SaveCursor::new(vec![0, 0, 0, 0, 9]);
    let s = deserialize_from_string(&mut c).unwrap();
    assert_eq!(s.as_str(), "");
    assert!(!s.is_unicode());
    assert_eq!(c.position(), 4);
    assert_eq!(encode(&s), vec![0, 0, 0, 0]);
}

#[test]
fn string_negative_length_is_utf16() {
    // -3: three UTF-16 units, six bytes
    let bytes = vec![0xFD, 0xFF, 0xFF, 0xFF, 0x61, 0x00, 0x62, 0x00, 0xE9, 0x00, 0x7A];
    let mut c = SaveCursor::new(bytes.clone());
    let s = deserialize_from_string(&mut c).unwrap();
    assert_eq!(s.as_str(), "abé");
    assert!(s.is_unicode());
    assert_eq!(c.position(), 10);
    assert_eq!(encode(&s), bytes[..10].to_vec());
}

#[test]
fn string_utf16_surrogate_pair() {
    // U+1F600 is D83D DE00
    let bytes = vec![0xFE, 0xFF, 0xFF, 0xFF, 0x3D, 0xD8, 0x00, 0xDE];
    let mut c = SaveCursor::new(bytes.clone());
    let s = SaveString::deserialize(&mut c).unwrap();
    assert_eq!(s.as_str(), "\u{1F600}");
    assert_eq!(encode(&s), bytes);
}

#[test]
fn string_positive_length_is_windows_1252() {
    let bytes = vec![5, 0, 0, 0, 0x68, 0xE9, 0x6C, 0x80, 0x6F];
    let mut c = SaveCursor::new(bytes.clone());
    let s = deserialize_from_string(&mut c).unwrap();
    assert_eq!(s.as_str(), "hél€o");
    assert!(!s.is_unicode());
    assert_eq!(c.position(), 9);
    assert_eq!(encode(&s), bytes);
}

#[test]
fn string_bad_utf16_is_an_error() {
    // a lone high surrogate
    let mut c = SaveCursor::new(vec![0xFF, 0xFF, 0xFF, 0xFF, 0x00, 0xD8]);
    assert_eq!(deserialize_from_string(&mut c).err(), Some(SaveError::StringEncodingError));
}

#[test]
fn string_short_body_is_end_of_file() {
    let mut c = SaveCursor::new(vec![5, 0, 0, 0, 0x61, 0x62]);
    assert_eq!(deserialize_from_string(&mut c).err(), Some(SaveError::UnexpectedEndOfFile));
    let mut c = SaveCursor::new(vec![0xFE, 0xFF, 0xFF, 0xFF, 0x61, 0x00]);
    assert_eq!(deserialize_from_string(&mut c).err(), Some(SaveError::UnexpectedEndOfFile));
    let mut c = SaveCursor::new(vec![0x00, 0x00, 0x00, 0x80]);
    assert_eq!(deserialize_from_string(&mut c).err(), Some(SaveError::UnexpectedEndOfFile));
}

#[test]
fn new_text_prefers_windows_1252() {
    let s = SaveString::new(String::from("caf€"));
    assert!(!s.is_unicode());
    assert_eq!(encode(&s), vec![4, 0, 0, 0, 0x63, 0x61, 0x66, 0x80]);
    let u = SaveString::new(String::from("日本"));
    assert!(u.is_unicode());
    assert_eq!(encode(&u), vec![0xFE, 0xFF, 0xFF, 0xFF, 0xE5, 0x65, 0x2C, 0x67]);
    let e = SaveString::new(String::new());
    assert!(!e.is_unicode());
    assert_eq!(encode(&e), vec![0, 0, 0, 0]);
    assert_eq!(encode(&SaveString::empty()), vec![0, 0, 0, 0]);
}

#[test]
fn enum_u8_unknown_value_fails() {
    let mut c = SaveCursor::new(vec![7]);
    assert_eq!(deserialize_enum_from_u8(&mut c, &[0, 1, 2]), Err(SaveError::InvalidEnumValue));
    let mut c = SaveCursor::new(vec![2]);
    assert_eq!(deserialize_enum_from_u8(&mut c, &[0, 1, 2]), Ok(2));
    let mut c = SaveCursor::new(vec![]);
    assert_eq!(deserialize_enum_from_u8(&mut c, &[0, 1, 2]), Err(SaveError::UnexpectedEndOfFile));
}

#[test]
fn enum_u32_checks_its_variants() {
    let mut c = SaveCursor::new(vec![3, 0, 0, 0, 4, 0, 0, 0]);
    assert_eq!(deserialize_enum_from_u32(&mut c, &[1, 3]), Ok(3));
    assert_eq!(deserialize_enum_from_u32(&mut c, &[1, 3]), Err(SaveError::InvalidEnumValue));
}

#[test]
fn sequence_of_zero_is_empty() {
    let mut c = SaveCursor::new(vec![0, 0, 0, 0]);
    let v: Vec<i32> = deserialize_from_array(&mut c).unwrap();
    assert!(v.is_empty());
    assert_eq!(c.position(), 4);
    assert_eq!(encode(&v), vec![0, 0, 0, 0]);
}

#[test]
fn sequence_keeps_source_order() {
    let bytes = vec![2, 0, 0, 0, 10, 0, 0, 0, 0xFF, 0xFF, 0xFF, 0xFF];
    let mut c = SaveCursor::new(bytes.clone());
    let v: Vec<i32> = Vec::deserialize(&mut c).unwrap();
    assert_eq!(v, vec![10, -1]);
    assert_eq!(encode(&v), bytes);
}

#[test]
fn sequence_short_of_items_fails() {
    let mut c = SaveCursor::new(vec![3, 0, 0, 0, 1, 2]);
    let r: Result<Vec<u8>, SaveError> = deserialize_from_array(&mut c);
    assert_eq!(r, Err(SaveError::UnexpectedEndOfFile));
}

#[test]
fn sequence_of_strings_round_trips() {
    let bytes = vec![2, 0, 0, 0, 1, 0, 0, 0, 0x41, 0xFF, 0xFF, 0xFF, 0xFF, 0x42, 0x00];
    let mut c = SaveCursor::new(bytes.clone());
    let v: Vec<SaveString> = Vec::deserialize(&mut c).unwrap();
    assert_eq!(v.len(), 2);
    assert_eq!(v[0].as_str(), "A");
    assert_eq!(v[1].as_str(), "B");
    assert!(v[1].is_unicode());
    assert_eq!(encode(&v), bytes);
}

#[test]
fn map_repeated_key_takes_last_value() {
    let bytes = vec![
        3, 0, 0, 0, //
        1, 0, 0, 0, 0xA, 0, 0, 0, //
        2, 0, 0, 0, 0xB, 0, 0, 0, //
        1, 0, 0, 0, 0xC, 0, 0, 0,
    ];
    let mut c = SaveCursor::new(bytes);
    let m: SaveMap<i32> = deserialize_from_indexmap(&mut c).unwrap();
    assert_eq!(m.len(), 2);
    assert_eq!(m.get_index(0), (1, &0xC));
    assert_eq!(m.get_index(1), (2, &0xB));
    assert_eq!(c.position(), 28);
    assert_eq!(encode(&m), vec![2, 0, 0, 0, 1, 0, 0, 0, 0xC, 0, 0, 0, 2, 0, 0, 0, 0xB, 0, 0, 0]);
}

#[test]
fn map_without_repeats_round_trips() {
    let bytes = vec![2, 0, 0, 0, 5, 0, 0, 0, 1, 0, 0, 0, 3, 0, 0, 0, 0, 0, 0, 0];
    let mut c = SaveCursor::new(bytes.clone());
    let m: SaveMap<bool> = SaveMap::deserialize(&mut c).unwrap();
    assert_eq!(m.get_index(0), (5, &true));
    assert_eq!(m.get_index(1), (3, &false));
    assert_eq!(encode(&m), bytes);
    let mut empty = SaveCursor::new(vec![0, 0, 0, 0]);
    let e: SaveMap<bool> = SaveMap::deserialize(&mut empty).unwrap();
    assert_eq!(e.len(), 0);
}

#[test]
fn fixed_bytes_read_their_length() {
    let mut c = SaveCursor::new(vec![9, 8, 7, 6]);
    let a = FixedBytes::<3>::deserialize(&mut c).unwrap();
    assert_eq!(a.as_slice(), &[9, 8, 7]);
    assert_eq!(encode(&a), vec![9, 8, 7]);
    assert_eq!(FixedBytes::<2>::deserialize(&mut c).err(), Some(SaveError::UnexpectedEndOfFile));
    assert!(FixedBytes::<2>::from_vec(vec![1, 2, 3]).is_none());
    assert_eq!(FixedBytes::<2>::from_vec(vec![1, 2]).unwrap().as_slice(), &[1, 2]);
}

#[test]
fn record_fields_in_order() {
    let bytes = vec![7, 0, 0, 0, 0, 0, 0, 0, 2, 0, 0, 0, 0x68, 0x69];
    let mut c = SaveCursor::new(bytes.clone());
    let r = <(i32, (bool, SaveString))>::deserialize(&mut c).unwrap();
    assert_eq!(r.0, 7);
    assert!(!(r.1).0);
    assert_eq!((r.1).1.as_str(), "hi");
    assert_eq!(encode(&r), bytes);
}

#[test]
fn rc_ui_holds_and_edits() {
    let mut n = RcUi::new(4);
    assert_eq!(*n.borrow(), 4);
    *n.borrow_mut() = 9;
    assert_eq!(*n.borrow(), 9);
    assert_eq!(n.into_inner(), 9);
}

#[test]
fn map_insert_keeps_first_place() {
    let mut m: SaveMap<u8> = SaveMap::new();
    m.insert(1, b'A');
    m.insert(2, b'B');
    m.insert(1, b'C');
    assert_eq!(m.len(), 2);
    assert_eq!(m.get_index(0), (1, &b'C'));
    assert_eq!(m.get_index(1), (2, &b'B'));
    *m.value_at_mut(1) = b'D';
    assert_eq!(m.get_index(1), (2, &b'D'));
    assert_eq!(encode(&m), vec![2, 0, 0, 0, 1, 0, 0, 0, b'C', 2, 0, 0, 0, b'D']);
}

#[test]
fn enum_rejection_consumes_the_field() {
    let mut c = SaveCursor::new(vec![0x00, 0x01, 0x00, 0x00, 9]);
    assert_eq!(deserialize_enum_from_u32(&mut c, &[0, 1, 2]), Err(SaveError::InvalidEnumValue));
    assert_eq!(c.position(), 4);
    let mut c = SaveCursor::new(vec![7, 9]);
    assert_eq!(deserialize_enum_from_u8(&mut c, &[0, 1, 2]), Err(SaveError::InvalidEnumValue));
    assert_eq!(c.position(), 1);
    let mut c = SaveCursor::new(vec![1, 0, 0]);
    assert_eq!(deserialize_enum_from_u32(&mut c, &[1]), Err(SaveError::UnexpectedEndOfFile));
    assert_eq!(c.position(), 0);
}

#[test]
fn short_bool_leaves_position() {
    let mut c = SaveCursor::new(vec![1, 0, 0]);
    assert_eq!(deserialize_from_bool(&mut c), Err(SaveError::UnexpectedEndOfFile));
    assert_eq!(c.position(), 0);
}

#[test]
fn bad_utf16_consumes_the_string() {
    let mut c = SaveCursor::new(vec![0xFF, 0xFF, 0xFF, 0xFF, 0x00, 0xD8, 5]);
    assert_eq!(deserialize_from_string(&mut c).err(), Some(SaveError::StringEncodingError));
    assert_eq!(c.position(), 6);
}
