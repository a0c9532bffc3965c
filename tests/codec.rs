use ink_storage_traits::codec::{
    decode, decode_bool, decode_entry, decode_map, decode_opt, decode_seq, decode_u32, encode,
    encode_bool, encode_entry, encode_map, encode_opt, encode_seq, encode_u32, DecodeError, Entry,
    PackedMap, Record,
};

#[test]
fn integer_is_four_bytes_little_endian() {
    let mut out = Vec::new();
    encode_u32(0x0403_0201, &mut out);
    assert_eq!(out, vec![1, 2, 3, 4]);
    assert_eq!(decode_u32(&out, 0), Ok((0x0403_0201, 4)));
    assert_eq!(decode_u32(&vec![1, 2, 3], 0), Err(DecodeError::Truncated));
}

#[test]
fn flag_round_trip_and_errors() {
    let mut out = Vec::new();
    encode_bool(true, &mut out);
    encode_bool(false, &mut out);
    assert_eq!(out, vec![1, 0]);
    assert_eq!(decode_bool(&out, 0), Ok((true, 1)));
    assert_eq!(decode_bool(&out, 1), Ok((false, 2)));
    assert_eq!(decode_bool(&out, 2), Err(DecodeError::Truncated));
    assert_eq!(decode_bool(&vec![2], 0), Err(DecodeError::UnknownVariant));
}

#[test]
fn optional_integer_round_trip() {
    let mut out = Vec::new();
    encode_opt(Some(7), &mut out);
    encode_opt(None, &mut out);
    assert_eq!(out, vec![1, 7, 0, 0, 0, 0]);
    assert_eq!(decode_opt(&out, 0), Ok((Some(7), 5)));
    assert_eq!(decode_opt(&out, 5), Ok((None, 6)));
    assert_eq!(decode_opt(&vec![1, 7, 0], 0), Err(DecodeError::Truncated));
    assert_eq!(decode_opt(&vec![3], 0), Err(DecodeError::UnknownVariant));
}

#[test]
fn sequence_round_trip() {
    let v = vec![5u32, 0, u32::MAX];
    let mut out = Vec::new();
    encode_seq(&v, &mut out);
    assert_eq!(out.len(), 16);
    assert_eq!(&out[..4], &[3, 0, 0, 0]);
    assert_eq!(decode_seq(&out, 0), Ok((v, 16)));
    let mut empty = Vec::new();
    encode_seq(&Vec::new(), &mut empty);
    assert_eq!(empty, vec![0, 0, 0, 0]);
    assert_eq!(decode_seq(&empty, 0), Ok((Vec::new(), 4)));
}

#[test]
fn sequence_shorter_than_its_count_is_truncated() {
    let bytes = vec![2, 0, 0, 0, 1, 0, 0, 0];
    assert_eq!(decode_seq(&bytes, 0), Err(DecodeError::Truncated));
    assert_eq!(decode_seq(&vec![0xff, 0xff, 0xff, 0xff], 0), Err(DecodeError::Truncated));
}

#[test]
fn map_insert_replaces_and_orders() {
    let mut m = PackedMap::new();
    m.insert(9, 90);
    m.insert(3, 30);
    m.insert(9, 91);
    assert_eq!(m.len(), 2);
    assert_eq!(m.get(9), Some(91));
    assert_eq!(m.get(3), Some(30));
    assert_eq!(m.get(4), None);
    assert_eq!(m.entries(), &vec![(3, 30), (9, 91)]);
}

#[test]
fn map_encoding_is_independent_of_insertion_order() {
    let mut a = PackedMap::new();
    let mut b = PackedMap::new();
    for (k, v) in [(1u32, 10u32), (7, 70), (4, 40), (2, 20)] {
        a.insert(k, v);
    }
    for (k, v) in [(2u32, 20u32), (4, 40), (1, 10), (7, 70)] {
        b.insert(k, v);
    }
    let mut ea = Vec::new();
    let mut eb = Vec::new();
    encode_map(&a, &mut ea);
    encode_map(&b, &mut eb);
    assert_eq!(ea, eb);
    assert_eq!(ea.len(), 4 + 8 * 4);
    assert_eq!(&ea[4..12], &[1, 0, 0, 0, 10, 0, 0, 0]);
}

#[test]
fn map_round_trip() {
    let mut m = PackedMap::new();
    m.insert(300, 1);
    m.insert(2, 2);
    let mut out = Vec::new();
    encode_map(&m, &mut out);
    let (d, end) = decode_map(&out, 0).unwrap();
    assert_eq!(end, out.len());
    assert_eq!(d.entries(), m.entries());
}

#[test]
fn map_accepts_entries_in_any_order() {
    let bytes = vec![2, 0, 0, 0, 9, 0, 0, 0, 1, 0, 0, 0, 3, 0, 0, 0, 2, 0, 0, 0];
    let (m, end) = decode_map(&bytes, 0).unwrap();
    assert_eq!(end, 20);
    assert_eq!(m.entries(), &vec![(3, 2), (9, 1)]);
    assert_eq!(decode_map(&bytes[..19].to_vec(), 0).unwrap_err(), DecodeError::Truncated);
}

fn sample_entries() -> Vec<Entry> {
    let mut table = PackedMap::new();
    table.insert(5, 50);
    table.insert(1, 10);
    vec![
        Entry::Empty,
        Entry::Flag(true),
        Entry::Number(Some(42)),
        Entry::Number(None),
        Entry::Pair(1, 2),
        Entry::List(vec![3, 4, 5]),
        Entry::Table(table),
    ]
}

fn same_entry(a: &Entry, b: &Entry) -> bool {
    match (a, b) {
        (Entry::Empty, Entry::Empty) => true,
        (Entry::Flag(x), Entry::Flag(y)) => x == y,
        (Entry::Number(x), Entry::Number(y)) => x == y,
        (Entry::Pair(x1, x2), Entry::Pair(y1, y2)) => x1 == y1 && x2 == y2,
        (Entry::List(x), Entry::List(y)) => x == y,
        (Entry::Table(x), Entry::Table(y)) => x.entries() == y.entries(),
        _ => false,
    }
}

#[test]
fn entry_round_trip_for_every_variant() {
    for e in sample_entries() {
        let mut out = Vec::new();
        encode_entry(&e, &mut out);
        let (d, end) = decode_entry(&out, 0).unwrap();
        assert_eq!(end, out.len());
        assert!(same_entry(&e, &d));
    }
}

#[test]
fn entry_discriminant_then_payload() {
    let mut out = Vec::new();
    encode_entry(&Entry::Pair(1, 2), &mut out);
    assert_eq!(out, vec![3, 1, 0, 0, 0, 2, 0, 0, 0]);
    assert_eq!(decode_entry(&vec![6], 0).unwrap_err(), DecodeError::UnknownVariant);
    assert_eq!(decode_entry(&vec![3, 1, 0], 0).unwrap_err(), DecodeError::Truncated);
    assert_eq!(decode_entry(&vec![1, 9], 0).unwrap_err(), DecodeError::UnknownVariant);
}

#[test]
fn record_round_trip() {
    for e in sample_entries() {
        let r = Record { id: 0xabcd, active: true, entry: e };
        let bytes = encode(&r);
        let d = decode(&bytes).unwrap();
        assert_eq!(d.id, r.id);
        assert_eq!(d.active, r.active);
        assert!(same_entry(&d.entry, &r.entry));
    }
}

#[test]
fn record_fields_in_declared_order() {
    let r = Record { id: 1, active: false, entry: Entry::Empty };
    assert_eq!(encode(&r), vec![1, 0, 0, 0, 0, 0]);
}

#[test]
fn empty_input_against_nested_record_is_truncated() {
    assert_eq!(decode(&Vec::new()).unwrap_err(), DecodeError::Truncated);
    assert_eq!(decode_entry(&Vec::new(), 0).unwrap_err(), DecodeError::Truncated);
    assert_eq!(decode_map(&Vec::new(), 0).unwrap_err(), DecodeError::Truncated);
    assert_eq!(decode_seq(&Vec::new(), 0), Err(DecodeError::Truncated));
}

#[test]
fn every_prefix_of_a_record_is_truncated() {
    let mut table = PackedMap::new();
    table.insert(8, 80);
    let r = Record { id: 77, active: true, entry: Entry::Table(table) };
    let bytes = encode(&r);
    for n in 0..bytes.len() {
        assert_eq!(decode(&bytes[..n].to_vec()).unwrap_err(), DecodeError::Truncated);
    }
}
