use lsm_wal::codec::{encode_delete, encode_set};
use lsm_wal::order::sort_segment_names;
use lsm_wal::reader::read_all;
use lsm_wal::recovery::replay_segments;

fn two_segments() -> (Vec<u8>, Vec<u8>) {
    let mut a = encode_set(b"k1", b"v1", 0);
    a.extend(encode_set(b"k2", b"v2", 1));
    let mut b = encode_delete(b"k1", 2);
    b.extend(encode_set(b"k2", b"v3", 3));
    (a, b)
}

#[test]
fn replay_two_segments_in_name_order() {
    let (a, b) = two_segments();
    let names = sort_segment_names(vec![b"1700000000000005.wal".to_vec(), b"1700000000000001.wal".to_vec()]);
    assert_eq!(names[0], b"1700000000000001.wal".to_vec());
    let (mem, log) = replay_segments(vec![a, b]);
    assert_eq!(mem.len(), 2);
    let k1 = mem.get(b"k1").unwrap();
    assert!(k1.deleted);
    assert_eq!(k1.value, None);
    assert_eq!(k1.timestamp, 2);
    let k2 = mem.get(b"k2").unwrap();
    assert_eq!(k2.value.as_ref().unwrap(), b"v3");
    assert_eq!(k2.timestamp, 3);

    let records = read_all(log);
    let got: Vec<(Vec<u8>, Option<Vec<u8>>, u128)> =
        records.into_iter().map(|r| (r.key, r.value, r.timestamp)).collect();
    assert_eq!(
        got,
        vec![
            (b"k1".to_vec(), Some(b"v1".to_vec()), 0),
            (b"k2".to_vec(), Some(b"v2".to_vec()), 1),
            (b"k1".to_vec(), None, 2),
            (b"k2".to_vec(), Some(b"v3".to_vec()), 3),
        ]
    );
}

#[test]
fn replay_order_decides_the_winner() {
    let (a, b) = two_segments();
    let (mem, _) = replay_segments(vec![b, a]);
    let k1 = mem.get(b"k1").unwrap();
    assert!(!k1.deleted);
    assert_eq!(k1.value.as_ref().unwrap(), b"v1");
    assert_eq!(mem.get(b"k2").unwrap().value.as_ref().unwrap(), b"v2");
}

#[test]
fn replay_again_gives_same_entries() {
    let (a, mut b) = two_segments();
    b.extend(&encode_set(b"k3", b"cut short", 9)[..10]);
    let (first, log) = replay_segments(vec![a, b]);
    let (second, log2) = replay_segments(vec![log.clone()]);
    assert_eq!(log, log2);
    assert_eq!(first.len(), second.len());
    assert_eq!(first.size(), second.size());
    for (x, y) in first.entries().iter().zip(second.entries().iter()) {
        assert_eq!(x.key, y.key);
        assert_eq!(x.value, y.value);
        assert_eq!(x.timestamp, y.timestamp);
        assert_eq!(x.deleted, y.deleted);
    }
}

#[test]
fn replay_of_nothing_is_empty() {
    let (mem, log) = replay_segments(Vec::new());
    assert_eq!(mem.len(), 0);
    assert!(log.is_empty());
    let (mem, log) = replay_segments(vec![Vec::new(), vec![1, 2, 3]]);
    assert_eq!(mem.len(), 0);
    assert!(log.is_empty());
}

#[test]
fn replay_size_counts_final_entries() {
    let (a, b) = two_segments();
    let (mem, _) = replay_segments(vec![a, b]);
    assert_eq!(mem.size(), (2 + 17) + (2 + 2 + 17));
}
