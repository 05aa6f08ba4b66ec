use lsm_wal::memtable::{MemTable, MemTableEntry};

fn computed_size(entries: &[MemTableEntry]) -> usize {
    entries
        .iter()
        .map(|e| e.key.len() + e.value.as_ref().map_or(0, |v| v.len()) + 17)
        .sum()
}

#[test]
fn test_mem_table_get_not_exists() {
    let mut mem_table = MemTable::new();
    mem_table.set(b"key 1", b"value", 0);

    let res = mem_table.get(b"key 2");

    assert_eq!(res.is_some(), false);
}

#[test]
fn test_mem_table_get_exists() {
    let mut mem_table = MemTable::new();
    mem_table.set(b"key 1", b"some value", 0);
    mem_table.set(b"key 2", b"some value", 1);

    let res = mem_table.get(b"key 2");

    assert_eq!(res.is_some(), true);
    let res = res.unwrap();
    assert_eq!(res.key, b"key 2");
    assert_eq!(res.value.as_ref().unwrap(), b"some value");
    assert_eq!(res.timestamp, 1);
    assert_eq!(res.deleted, false);
}

#[test]
fn test_mem_table_delete_not_exists() {
    let mut mem_table = MemTable::new();
    mem_table.set(b"key 1", b"value", 0);

    mem_table.delete(b"key 2", 1);

    let entry = mem_table.get(b"key 2").unwrap();
    assert_eq!(entry.key, b"key 2");
    assert_eq!(entry.value, None);
    assert_eq!(entry.timestamp, 1);
    assert_eq!(entry.deleted, true);

    assert_eq!(mem_table.len(), 2);
    assert_eq!(mem_table.entries()[1].key, b"key 2");
    assert_eq!(mem_table.entries()[1].value, None);
    assert_eq!(mem_table.entries()[1].timestamp, 1);
    assert_eq!(mem_table.entries()[1].deleted, true);
}

#[test]
fn test_mem_table_delete_exists() {
    let mut mem_table = MemTable::new();
    mem_table.set(b"key 1", b"value", 0);

    mem_table.delete(b"key 1", 1);

    let entry = mem_table.get(b"key 1").unwrap();
    assert_eq!(entry.key, b"key 1");
    assert_eq!(entry.value, None);
    assert_eq!(entry.timestamp, 1);
    assert_eq!(entry.deleted, true);

    assert_eq!(mem_table.len(), 1);
    assert_eq!(mem_table.entries()[0].key, b"key 1");
    assert_eq!(mem_table.entries()[0].value, None);
    assert_eq!(mem_table.entries()[0].timestamp, 1);
    assert_eq!(mem_table.entries()[0].deleted, true);
}

#[test]
fn test_mem_table_set() {
    let mut mem_table = MemTable::new();

    mem_table.set(b"key 1", b"some value", 0);

    assert_eq!(mem_table.len(), 1);
    assert_eq!(mem_table.entries()[0].key, b"key 1");
    assert_eq!(mem_table.entries()[0].value.as_ref().unwrap(), b"some value");
    assert_eq!(mem_table.entries()[0].timestamp, 0);
    assert_eq!(mem_table.entries()[0].deleted, false);
}

#[test]
fn test_mem_table_set_override() {
    let mut mem_table = MemTable::new();
    mem_table.set(b"key 1", b"some value", 0);

    mem_table.set(b"key 1", b"some value upd", 1);

    assert_eq!(mem_table.len(), 1);
    assert_eq!(mem_table.entries()[0].key, b"key 1");
    assert_eq!(mem_table.entries()[0].value.as_ref().unwrap(), b"some value upd");
    assert_eq!(mem_table.entries()[0].timestamp, 1);
    assert_eq!(mem_table.entries()[0].deleted, false);
}

#[test]
fn overwrite_adjusts_size_by_value_difference() {
    let mut m = MemTable::new();
    m.set(b"a", b"1", 0);
    m.set(b"a", b"22", 1);
    assert_eq!(m.len(), 1);
    let e = m.get(b"a").unwrap();
    assert_eq!(e.value.as_ref().unwrap(), b"22");
    assert_eq!(e.timestamp, 1);
    assert_eq!(m.size(), 1 + 2 + 17);
}

#[test]
fn overwrite_with_shorter_value_shrinks_size() {
    let mut m = MemTable::new();
    m.set(b"a", b"12345", 0);
    assert_eq!(m.size(), 1 + 5 + 17);
    m.set(b"a", b"1", 1);
    assert_eq!(m.size(), 1 + 1 + 17);
}

#[test]
fn delete_sizes() {
    let mut m = MemTable::new();
    m.delete(b"gone", 0);
    assert_eq!(m.size(), 4 + 17);
    m.set(b"key", b"value", 1);
    assert_eq!(m.size(), 4 + 17 + 3 + 5 + 17);
    m.delete(b"key", 2);
    assert_eq!(m.size(), 4 + 17 + 3 + 17);
    m.set(b"gone", b"back", 3);
    assert_eq!(m.size(), 4 + 4 + 17 + 3 + 17);
}

#[test]
fn empty_key_and_value() {
    let mut m = MemTable::new();
    m.set(b"", b"", 5);
    assert_eq!(m.len(), 1);
    assert_eq!(m.size(), 17);
    let e = m.get(b"").unwrap();
    assert_eq!(e.value.as_ref().unwrap().len(), 0);
    assert!(m.get(b"x").is_none());
}

#[test]
fn entries_stay_sorted_and_unique() {
    let mut m = MemTable::new();
    let keys: [&[u8]; 7] = [b"m", b"b", b"z", b"ab", b"b", b"", b"mm"];
    for (i, k) in keys.iter().enumerate() {
        if i % 3 == 2 {
            m.delete(k, i as u128);
        } else {
            m.set(k, b"v", i as u128);
        }
    }
    let got: Vec<&[u8]> = m.entries().iter().map(|e| e.key.as_slice()).collect();
    let want: Vec<&[u8]> = vec![b"", b"ab", b"b", b"m", b"mm", b"z"];
    assert_eq!(got, want);
    assert_eq!(m.len(), 6);
}

#[test]
fn last_operation_on_each_key_wins() {
    let mut m = MemTable::new();
    m.set(b"x", b"1", 0);
    m.set(b"y", b"2", 1);
    m.delete(b"x", 2);
    m.set(b"y", b"3", 3);
    m.set(b"z", b"4", 4);
    m.delete(b"z", 5);
    m.set(b"z", b"5", 6);
    assert_eq!(m.len(), 3);
    let x = m.get(b"x").unwrap();
    assert!(x.deleted && x.value.is_none() && x.timestamp == 2);
    let y = m.get(b"y").unwrap();
    assert!(!y.deleted && y.value.as_ref().unwrap() == b"3" && y.timestamp == 3);
    let z = m.get(b"z").unwrap();
    assert!(!z.deleted && z.value.as_ref().unwrap() == b"5" && z.timestamp == 6);
}

#[test]
fn size_matches_recomputation_after_every_step() {
    let mut m = MemTable::new();
    let ops: [(&[u8], Option<&[u8]>); 8] = [
        (b"k1", Some(b"abc")),
        (b"k2", None),
        (b"k1", Some(b"")),
        (b"k2", Some(b"0123456789")),
        (b"k3", Some(b"x")),
        (b"k1", None),
        (b"k3", Some(b"longer value")),
        (b"k2", None),
    ];
    for (i, (k, v)) in ops.iter().enumerate() {
        match v {
            Some(v) => m.set(k, v, i as u128),
            None => m.delete(k, i as u128),
        }
        assert_eq!(m.size(), computed_size(m.entries()));
    }
}

#[test]
fn take_leaves_empty_table() {
    let mut m = MemTable::new();
    m.set(b"a", b"b", 0);
    let full = m.take();
    assert_eq!(full.len(), 1);
    assert_eq!(full.size(), 19);
    assert_eq!(m.len(), 0);
    assert_eq!(m.size(), 0);
    assert!(m.get(b"a").is_none());
}
