use archive::buffer::{ArchiveBuffer, ArchiveError};
use archive::containers::{read_box, read_option, read_option_slice, read_rel, read_slice};
use archive::hash::hash_bytes;
use archive::map::{map_contains_key, map_get, map_len, map_shape, map_slot};
use archive::table::place_keys;
use archive::tuple::{read_pair, read_triple};
use archive::plain::Plain;
use archive::read::{read_array, read_plain};
use std::collections::HashMap;
use std::fmt::Debug;

const BUFFER_SIZE: usize = 256;

fn writer() -> ArchiveBuffer {
    ArchiveBuffer::new(vec![0u8; BUFFER_SIZE])
}

fn test_archive<T: Plain + PartialEq + Debug>(value: T) {
    let mut w = writer();
    let pos = w.archive(&value).expect("failed to archive value");
    let buf = w.into_inner();
    assert_eq!(read_plain::<T>(&buf, pos), value);
}

fn test_archive_option<T: Plain + PartialEq + Debug>(value: Option<T>) {
    let mut w = writer();
    let pos = w.archive_option(&value).expect("failed to archive value");
    let buf = w.into_inner();
    assert_eq!(read_option::<T>(&buf, pos), value);
}

fn test_archive_ref<T: Plain + PartialEq + Debug + Clone>(value: &[T]) {
    let mut w = writer();
    let pos = w.archive_ref(value).expect("failed to archive ref");
    let buf = w.into_inner();
    assert_eq!(read_slice::<T>(&buf, pos).unwrap(), value.to_vec());
}

fn test_archive_str(value: &str) {
    let mut w = writer();
    let pos = w.archive_str(value).expect("failed to archive ref");
    let buf = w.into_inner();
    assert_eq!(read_slice::<u8>(&buf, pos).unwrap(), value.as_bytes().to_vec());
}

/// An optional run: the items, then the tag, then a reference to the items.
fn test_archive_some_slice<T: Plain + PartialEq + Debug + Clone>(value: &[T]) {
    let mut w = writer();
    let tag = w.archive_option_slice(Some(value)).expect("failed to archive value");
    let buf = w.into_inner();
    assert_eq!(read_plain::<u8>(&buf, tag), 1);
    assert_eq!(read_option_slice::<T>(&buf, tag), Some(Some(value.to_vec())));
}

#[test]
fn archive_primitives() {
    test_archive(());
    test_archive(true);
    test_archive(false);
    let mut w = writer();
    let pos = w.archive(&1234567f32.to_bits()).expect("failed to archive value");
    let buf = w.into_inner();
    assert_eq!(f32::from_bits(read_plain::<u32>(&buf, pos)), 1234567f32);
    let mut w = writer();
    let pos = w.archive(&12345678901234f64.to_bits()).expect("failed to archive value");
    let buf = w.into_inner();
    assert_eq!(f64::from_bits(read_plain::<u64>(&buf, pos)), 12345678901234f64);
    test_archive(123i8);
    test_archive(123456i32);
    test_archive(1234567890i128);
    test_archive(123u8);
    test_archive(123456u32);
    test_archive(1234567890u128);

    let mut w = writer();
    let pos = w.archive_triple(&(24i32, true, 16f32.to_bits())).expect("failed to archive value");
    let buf = w.into_inner();
    let (a, b, c) = read_triple::<i32, bool, u32>(&buf, pos).unwrap();
    assert_eq!((a, b, f32::from_bits(c)), (24, true, 16f32));

    let mut w = writer();
    let pos = w.archive_array(&[1i32, 2, 3, 4, 5, 6]).expect("failed to archive value");
    let buf = w.into_inner();
    assert_eq!(read_array::<i32>(&buf, pos, 6), vec![1, 2, 3, 4, 5, 6]);

    test_archive_option(Option::<()>::None);
    test_archive_option(Some(42i32));
}

#[test]
fn archive_refs() {
    test_archive_ref::<i32>(&[1, 2, 3, 4]);
    test_archive_str("hello world");
    test_archive_ref::<i32>([1, 2, 3, 4].as_ref());
}

#[test]
fn archive_containers() {
    let boxed = Box::new(42i32);
    let mut w = writer();
    let pos = w.archive_box(&*boxed).expect("failed to archive ref");
    let buf = w.into_inner();
    assert_eq!(read_box::<i32>(&buf, pos), Some(*boxed));

    test_archive_str(&"hello world".to_string().into_boxed_str());
    test_archive_ref::<i32>(&vec![1, 2, 3, 4].into_boxed_slice());
    test_archive_str(&"hello world".to_string());
    test_archive_ref::<i32>(&vec![1, 2, 3, 4]);
}

#[test]
fn archive_composition() {
    // Some(Box::new(42))
    let mut w = writer();
    let p = w.archive(&42i32).expect("failed to archive value");
    let tag = w.archive_tag(true, 4).expect("failed to archive value");
    w.archive_rel_ptr(p).expect("failed to archive value");
    let buf = w.into_inner();
    assert_eq!(read_plain::<u8>(&buf, tag), 1);
    assert_eq!(read_box::<i32>(&buf, tag + 4), Some(42));

    test_archive_some_slice("hello world".to_string().into_boxed_str().as_bytes());
    test_archive_some_slice::<i32>(&vec![1, 2, 3, 4].into_boxed_slice());
    test_archive_some_slice("hello world".to_string().as_bytes());
    test_archive_some_slice::<i32>(&vec![1, 2, 3, 4]);

    // Some(Box::new(vec![1, 2, 3, 4]))
    let inner = Box::new(vec![1i32, 2, 3, 4]);
    let mut w = writer();
    let q = w.archive_ref(&inner[..]).expect("failed to archive value");
    let tag = w.archive_tag(true, 4).expect("failed to archive value");
    w.archive_rel_ptr(q).expect("failed to archive value");
    let buf = w.into_inner();
    assert_eq!(read_plain::<u8>(&buf, tag), 1);
    let q2 = read_rel(&buf, tag + 4).unwrap();
    assert_eq!(q2, q);
    assert_eq!(read_slice::<i32>(&buf, q2).unwrap(), *inner);
}

fn archive_byte_map(keys: &Vec<Vec<u8>>, values: &Vec<Vec<u8>>) -> (Vec<u8>, usize) {
    let mut w = writer();
    let hp = w.archive_map(keys, values).expect("failed to archive value");
    (w.into_inner(), hp)
}

fn slot_entries(buf: &[u8], hp: usize) -> Vec<(Vec<u8>, Vec<u8>)> {
    let (_, cap) = map_shape(buf, hp).unwrap();
    (0..cap).filter_map(|j| map_slot(buf, hp, j)).collect()
}

#[test]
fn archive_hash_map() {
    let empty = HashMap::<i32, i32>::new();
    let (buf, hp) = archive_byte_map(&Vec::new(), &Vec::new());
    assert_eq!(map_len(&buf, hp), empty.len());
    assert!(slot_entries(&buf, hp).is_empty());

    let mut hash_map = HashMap::new();
    hash_map.insert(1i32, 2i32);
    hash_map.insert(3, 4);
    hash_map.insert(5, 6);
    hash_map.insert(7, 8);
    let keys: Vec<Vec<u8>> = hash_map.keys().map(|k| k.to_le_bytes().to_vec()).collect();
    let values: Vec<Vec<u8>> = hash_map.keys().map(|k| hash_map[k].to_le_bytes().to_vec()).collect();
    let (buf, hp) = archive_byte_map(&keys, &values);
    assert_eq!(map_len(&buf, hp), hash_map.len());
    for (key, value) in hash_map.iter() {
        assert!(map_contains_key(&buf, hp, &key.to_le_bytes()));
        assert_eq!(map_get(&buf, hp, &key.to_le_bytes()).unwrap(), value.to_le_bytes().to_vec());
    }
    for (key, value) in slot_entries(&buf, hp) {
        let key = i32::from_le_bytes(key.try_into().unwrap());
        let value = i32::from_le_bytes(value.try_into().unwrap());
        assert_eq!(hash_map[&key], value);
    }

    let mut hash_map = HashMap::new();
    hash_map.insert("hello".to_string(), "world".to_string());
    hash_map.insert("foo".to_string(), "bar".to_string());
    hash_map.insert("baz".to_string(), "bat".to_string());
    let keys: Vec<Vec<u8>> = hash_map.keys().map(|k| k.as_bytes().to_vec()).collect();
    let values: Vec<Vec<u8>> = hash_map.keys().map(|k| hash_map[k].as_bytes().to_vec()).collect();
    let (buf, hp) = archive_byte_map(&keys, &values);

    assert!(map_len(&buf, hp) == hash_map.len());

    for (key, value) in hash_map.iter() {
        assert!(map_contains_key(&buf, hp, key.as_bytes()));
        assert!(map_get(&buf, hp, key.as_bytes()).unwrap() == value.as_bytes());
    }

    let entries = slot_entries(&buf, hp);
    assert_eq!(entries.len(), hash_map.len());
    for (key, value) in entries {
        let key = String::from_utf8(key).unwrap();
        assert!(hash_map.contains_key(key.as_str()));
        assert!(hash_map[key.as_str()].as_bytes() == &value[..]);
    }
}

struct TestSimple {
    a: (),
    b: i32,
    c: String,
    d: Option<i32>,
}

/// Positions of the fields of an archived `TestSimple`.
struct ArchivedSimple {
    a: usize,
    b: usize,
    c: usize,
    d: usize,
}

/// Archives the out-of-line part of `v` (the text of `c`).
fn simple_children(w: &mut ArchiveBuffer, v: &TestSimple) -> usize {
    w.archive_array(v.c.as_bytes()).expect("failed to archive value")
}

/// Archives the inline part of `v`, fields in order.
fn simple_inline(w: &mut ArchiveBuffer, v: &TestSimple, c_bytes: usize) -> ArchivedSimple {
    w.align(4).expect("failed to archive value");
    let a = w.archive(&v.a).expect("failed to archive value");
    let b = w.archive(&v.b).expect("failed to archive value");
    let c = w.archive_ref_to(c_bytes, v.c.len()).expect("failed to archive value");
    let d = w.archive_option(&v.d).expect("failed to archive value");
    ArchivedSimple { a, b, c, d }
}

fn simple_eq(buf: &[u8], at: &ArchivedSimple, v: &TestSimple) -> bool {
    read_plain::<()>(buf, at.a) == v.a
        && read_plain::<i32>(buf, at.b) == v.b
        && read_slice::<u8>(buf, at.c).unwrap() == v.c.as_bytes()
        && read_option::<i32>(buf, at.d) == v.d
}

fn simple() -> TestSimple {
    TestSimple { a: (), b: 42, c: "hello world".to_string(), d: Some(42) }
}

#[test]
fn archive_simple_struct() {
    let value = simple();
    let mut w = writer();
    let c = simple_children(&mut w, &value);
    let at = simple_inline(&mut w, &value, c);
    let buf = w.into_inner();
    assert!(simple_eq(&buf, &at, &value));
    assert_eq!(at.b % 4, 0);

    let values = vec![simple(), simple()];
    let mut w = writer();
    let children: Vec<usize> = values.iter().map(|v| simple_children(&mut w, v)).collect();
    let inline: Vec<ArchivedSimple> =
        values.iter().zip(children.iter()).map(|(v, c)| simple_inline(&mut w, v, *c)).collect();
    let q = w.archive_ref_to(inline[0].a, values.len()).expect("failed to archive value");
    let buf = w.into_inner();
    let first = read_rel(&buf, q).unwrap();
    assert_eq!(read_plain::<u32>(&buf, q + 4) as usize, values.len());
    assert_eq!(first, inline[0].a);
    let size = inline[1].a - inline[0].a;
    for (i, v) in values.iter().enumerate() {
        let at = ArchivedSimple {
            a: first + i * size,
            b: first + i * size + (inline[0].b - inline[0].a),
            c: first + i * size + (inline[0].c - inline[0].a),
            d: first + i * size + (inline[0].d - inline[0].a),
        };
        assert!(simple_eq(&buf, &at, v));
    }
}

#[test]
fn scalars_use_little_endian_bytes() {
    let mut w = writer();
    let pos = w.archive(&0x0102_0304u32).unwrap();
    let buf = w.into_inner();
    assert_eq!(&buf[pos..pos + 4], &[4, 3, 2, 1]);
    let mut w = writer();
    let pos = w.archive(&-2i16).unwrap();
    let buf = w.into_inner();
    assert_eq!(&buf[pos..pos + 2], &[0xfe, 0xff]);
    assert_eq!(read_plain::<i16>(&buf, pos), -2);
}

#[test]
fn signed_extremes_round_trip() {
    test_archive(i8::MIN);
    test_archive(i16::MIN);
    test_archive(i32::MIN);
    test_archive(i64::MIN);
    test_archive(i128::MIN);
    test_archive(i128::MAX);
    test_archive(u128::MAX);
    test_archive(-1i64);
}

#[test]
fn values_start_at_their_alignment() {
    let mut w = writer();
    assert_eq!(w.archive(&7u8), Ok(0));
    assert_eq!(w.archive(&9u64), Ok(8));
    assert_eq!(w.pos(), 16);
    assert_eq!(w.archive(&true), Ok(16));
    assert_eq!(w.archive(&3u16), Ok(18));
    assert_eq!(w.archive(&5u128), Ok(32));
    let buf = w.into_inner();
    assert_eq!(&buf[1..8], &[0u8; 7]);
}

#[test]
fn overflow_fails_at_first_write_past_the_end() {
    let mut w = ArchiveBuffer::new(vec![0u8; 6]);
    assert_eq!(w.archive(&1u32), Ok(0));
    assert_eq!(w.archive(&2u8), Ok(4));
    assert_eq!(w.archive(&3u16), Err(ArchiveError::Overflow));
    let mut w = ArchiveBuffer::new(vec![0u8; 6]);
    assert_eq!(w.write(&[1, 2, 3, 4, 5, 6]), Ok(0));
    assert_eq!(w.write(&[7]), Err(ArchiveError::Overflow));
    let mut w = ArchiveBuffer::new(vec![0u8; 8]);
    assert_eq!(w.archive_ref(&[1u8, 2, 3]), Err(ArchiveError::Overflow));
}

#[test]
fn align_zero_is_refused() {
    let mut w = writer();
    assert_eq!(w.align(0), Err(ArchiveError::Alignment));
    w.write(&[1, 2, 3]).unwrap();
    assert_eq!(w.align(4), Ok(4));
    assert_eq!(w.align(4), Ok(4));
}

#[test]
fn relative_pointer_out_of_range() {
    let mut w = writer();
    assert_eq!(w.archive_rel_ptr(usize::MAX), Err(ArchiveError::OffsetOverflow));
    let mut w = writer();
    let q = w.archive_rel_ptr(200).unwrap();
    let buf = w.into_inner();
    assert_eq!(read_rel(&buf, q), Some(200));
}

#[test]
fn empty_runs_round_trip() {
    test_archive_ref::<u32>(&[]);
    test_archive_str("");
}

#[test]
fn slice_reference_layout() {
    let mut w = writer();
    let q = w.archive_ref(&[9u16, 8]).unwrap();
    let buf = w.into_inner();
    assert_eq!(q, 4);
    assert_eq!(&buf[0..12], &[9, 0, 8, 0, 0xfc, 0xff, 0xff, 0xff, 2, 0, 0, 0]);
}

#[test]
fn option_layout_and_none() {
    let mut w = writer();
    let pos = w.archive_option(&Some(5u32)).unwrap();
    let buf = w.into_inner();
    assert_eq!(&buf[pos..pos + 8], &[1, 0, 0, 0, 5, 0, 0, 0]);
    test_archive_option(Option::<u64>::None);
    test_archive_option(Some(true));
}

#[test]
fn hash_known_values() {
    assert_eq!(hash_bytes(b""), 0xcbf2_9ce4_8422_2325);
    assert_eq!(hash_bytes(b"a"), 0xaf63_dc4c_8601_ec8c);
}

#[test]
fn map_misses_absent_keys() {
    let keys = vec![b"one".to_vec(), b"two".to_vec()];
    let values = vec![b"1".to_vec(), b"2".to_vec()];
    let (buf, hp) = archive_byte_map(&keys, &values);
    assert_eq!(map_len(&buf, hp), 2);
    assert_eq!(map_get(&buf, hp, b"three"), None);
    assert!(!map_contains_key(&buf, hp, b""));
    assert_eq!(map_get(&buf, hp, b"two"), Some(b"2".to_vec()));
    let (buf, hp) = archive_byte_map(&Vec::new(), &Vec::new());
    assert_eq!(map_get(&buf, hp, b"one"), None);
}

#[test]
fn map_too_large_for_region() {
    let keys = vec![b"one".to_vec(), b"two".to_vec()];
    let values = vec![b"1".to_vec(), b"2".to_vec()];
    let mut w = ArchiveBuffer::new(vec![0u8; 32]);
    assert_eq!(w.archive_map(&keys, &values), Err(ArchiveError::Overflow));
}

#[test]
fn placement_needs_more_slots_than_keys() {
    let keys = vec![b"a".to_vec(), b"b".to_vec(), b"c".to_vec()];
    assert!(place_keys(&keys, 2).is_none());
    let (slots, at) = place_keys(&keys, 3).unwrap();
    assert_eq!(slots.len(), 3);
    for (e, j) in at.iter().enumerate() {
        assert_eq!(slots[*j], Some(e));
    }
    let (slots, _) = place_keys(&keys, 7).unwrap();
    assert_eq!(slots.iter().filter(|s| s.is_some()).count(), 3);
}

#[test]
fn pair_fields_keep_their_alignment() {
    let mut w = writer();
    w.write(&[9]).unwrap();
    let pos = w.archive_pair(&(7u16, 0x0102_0304u32)).unwrap();
    assert_eq!(pos, 2);
    assert_eq!(w.pos(), 8);
    let buf = w.into_inner();
    assert_eq!(&buf[2..8], &[7, 0, 4, 3, 2, 1]);
    assert_eq!(read_pair::<u16, u32>(&buf, pos), Some((7, 0x0102_0304)));
    let mut w = ArchiveBuffer::new(vec![0u8; 7]);
    assert_eq!(w.archive_pair(&(7u16, 1u32)), Err(ArchiveError::Overflow));
}

#[test]
fn optional_run_none_and_empty() {
    let mut w = writer();
    let tag = w.archive_option_slice::<i32>(None).unwrap();
    let buf = w.into_inner();
    assert_eq!(read_option_slice::<i32>(&buf, tag), Some(None));
    let mut w = writer();
    let tag = w.archive_option_slice::<u8>(Some(&[])).unwrap();
    let buf = w.into_inner();
    assert_eq!(read_option_slice::<u8>(&buf, tag), Some(Some(Vec::new())));
}
