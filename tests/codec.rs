use lsm_wal::codec::{append_set, encode_delete, encode_set, read_le};
use lsm_wal::order::{compare_bytes, sort_segment_names};
use lsm_wal::reader::{read_all, SegmentReader};
use std::cmp::Ordering;

#[test]
fn delete_record_layout() {
    let bytes = encode_delete(b"k", 0x0102);
    let mut want = vec![1u8, 0x02, 0x01];
    want.extend_from_slice(&[0u8; 14]);
    want.extend_from_slice(&[1, 0, 0, 0, 0, 0, 0, 0]);
    want.push(b'k');
    assert_eq!(bytes, want);
}

#[test]
fn set_record_layout() {
    let bytes = encode_set(b"ab", b"xyz", 7);
    let mut want = vec![0u8, 7];
    want.extend_from_slice(&[0u8; 15]);
    want.extend_from_slice(&[2, 0, 0, 0, 0, 0, 0, 0]);
    want.extend_from_slice(b"ab");
    want.extend_from_slice(&[3, 0, 0, 0, 0, 0, 0, 0]);
    want.extend_from_slice(b"xyz");
    assert_eq!(bytes.len(), 1 + 16 + 8 + 2 + 8 + 3);
    assert_eq!(bytes, want);
}

#[test]
fn append_set_extends() {
    let mut out = vec![9u8];
    append_set(&mut out, b"", b"", u128::MAX);
    assert_eq!(out.len(), 1 + 33);
    assert_eq!(out[0], 9);
    assert_eq!(out[1], 0);
    assert!(out[2..18].iter().all(|b| *b == 0xff));
}

#[test]
fn little_endian_reads() {
    let data = [0x78u8, 0x56, 0x34, 0x12, 0xff];
    assert_eq!(read_le(&data, 0, 4), 0x1234_5678);
    assert_eq!(read_le(&data, 1, 0), 0);
    assert_eq!(read_le(&data, 4, 1), 0xff);
    let max = [0xffu8; 16];
    assert_eq!(read_le(&max, 0, 16), u128::MAX);
}

#[test]
fn round_trip_various_lengths() {
    let big = vec![0xabu8; 10000];
    let cases: Vec<(Vec<u8>, Option<Vec<u8>>, u128)> = vec![
        (vec![], Some(vec![]), 0),
        (vec![1], Some(vec![2]), 1),
        (big.clone(), Some(big.clone()), u128::MAX),
        (vec![], None, 3),
        (vec![7], None, 4),
        (big.clone(), None, 5),
    ];
    for (k, v, ts) in cases {
        let bytes = match &v {
            Some(v) => encode_set(&k, v, ts),
            None => encode_delete(&k, ts),
        };
        let got = read_all(bytes);
        assert_eq!(got.len(), 1);
        assert_eq!(got[0].key, k);
        assert_eq!(got[0].value, v);
        assert_eq!(got[0].timestamp, ts);
        assert_eq!(got[0].deleted, v.is_none());
    }
}

#[test]
fn truncated_last_record_is_dropped() {
    let mut seg = encode_set(b"k1", b"v1", 0);
    seg.extend(encode_delete(b"k2", 1));
    let prefix_len = seg.len();
    let last = encode_set(b"k3", b"value three", 2);
    seg.extend(last.iter());
    for cut in 1..=last.len() {
        let data = seg[..seg.len() - cut].to_vec();
        let got = read_all(data.clone());
        assert_eq!(got.len(), 2);
        assert_eq!(got[0].key, b"k1");
        assert_eq!(got[1].key, b"k2");
        assert!(got[1].deleted);

        let mut reader = SegmentReader::new(data);
        assert!(reader.next_entry().is_some());
        assert!(reader.next_entry().is_some());
        assert!(reader.next_entry().is_none());
        assert_eq!(reader.stopped_short(), cut < last.len());
    }
    assert_eq!(read_all(seg[..prefix_len].to_vec()).len(), 2);
    assert_eq!(read_all(seg).len(), 3);
}

#[test]
fn clean_end_is_not_short() {
    let mut reader = SegmentReader::new(encode_delete(b"a", 0));
    assert!(reader.next_entry().is_some());
    assert!(reader.next_entry().is_none());
    assert!(!reader.stopped_short());
    let mut empty = SegmentReader::new(Vec::new());
    assert!(empty.next_entry().is_none());
    assert!(!empty.stopped_short());
}

#[test]
fn byte_order() {
    assert_eq!(compare_bytes(b"a", b"b"), Ordering::Less);
    assert_eq!(compare_bytes(b"ab", b"a"), Ordering::Greater);
    assert_eq!(compare_bytes(b"", b""), Ordering::Equal);
    assert_eq!(compare_bytes(b"", b"\x00"), Ordering::Less);
    assert_eq!(compare_bytes(b"\xff", b"\x01\x02"), Ordering::Greater);
}

#[test]
fn segment_names_sort() {
    let names = vec![
        b"1700000000000002.wal".to_vec(),
        b"1700000000000000.wal".to_vec(),
        b"1700000000000010.wal".to_vec(),
        b"1700000000000001.wal".to_vec(),
    ];
    let sorted = sort_segment_names(names);
    assert_eq!(
        sorted,
        vec![
            b"1700000000000000.wal".to_vec(),
            b"1700000000000001.wal".to_vec(),
            b"1700000000000002.wal".to_vec(),
            b"1700000000000010.wal".to_vec(),
        ]
    );
    assert!(sort_segment_names(Vec::new()).is_empty());
}
