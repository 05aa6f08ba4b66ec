//! The memtable: a sorted, unique-key index of the latest value or tombstone
//! of each key, with an approximate byte size.
use std::cmp::Ordering;
use vstd::prelude::*;
use vstd::slice::slice_to_vec;
use crate::order::{compare_bytes, lex_lt, lemma_lex_irreflexive, lemma_lex_transitive};
use crate::record::{Record, record_wf, set_record, delete_record, bytes_view};

verus! {

broadcast use vstd::seq_lib::group_seq_properties;

/// Bytes held by a value, zero for a tombstone.
pub open spec fn value_len(r: Record) -> nat {
    match r.value {
        Some(v) => v.len(),
        None => 0,
    }
}

/// Size accounted for one entry: key, value, 16 bytes of timestamp and one of
/// tombstone flag.
pub open spec fn entry_size(r: Record) -> nat {
    r.key.len() + value_len(r) + 17
}

/// Size of a sequence of entries, summed from scratch.
pub open spec fn total_size(s: Seq<Record>) -> nat
    decreases s.len(),
{
    if s.len() == 0 {
        0
    } else {
        total_size(s.drop_last()) + entry_size(s.last())
    }
}

/// Keys strictly increase along the sequence.
pub open spec fn keys_sorted(s: Seq<Record>) -> bool {
    forall|i: int, j: int| #![trigger s[i], s[j]] 0 <= i < j < s.len() ==> lex_lt(s[i].key, s[j].key)
}

/// The map from each key of the sequence to its entry.
pub open spec fn contents(s: Seq<Record>) -> Map<Seq<u8>, Record> {
    Map::new(
        |k: Seq<u8>| exists|i: int| 0 <= i < s.len() && #[trigger] s[i].key == k,
        |k: Seq<u8>| s[choose|i: int| 0 <= i < s.len() && #[trigger] s[i].key == k],
    )
}

/// An in-memory entry: the counterpart of a log record.
pub struct MemTableEntry {
    pub key: Vec<u8>,
    pub value: Option<Vec<u8>>,
    pub timestamp: u128,
    pub deleted: bool,
}

impl View for MemTableEntry {
    type V = Record;

    open spec fn view(&self) -> Record {
        Record {
            key: self.key@,
            value: bytes_view(self.value),
            timestamp: self.timestamp,
            deleted: self.deleted,
        }
    }
}

pub struct MemTable {
    entries: Vec<MemTableEntry>,
    size: usize,
}

impl View for MemTable {
    type V = Map<Seq<u8>, Record>;

    /// The entry held for each key.
    open spec fn view(&self) -> Map<Seq<u8>, Record> {
        contents(self.records())
    }
}

proof fn lemma_keys_unique(s: Seq<Record>, i: int, j: int)
    requires
        keys_sorted(s),
        0 <= i < s.len(),
        0 <= j < s.len(),
        s[i].key == s[j].key,
    ensures
        i == j,
{
    if i < j || j < i {
        lemma_lex_irreflexive(s[i].key);
    }
}

proof fn lemma_contents_index(s: Seq<Record>, i: int)
    requires
        keys_sorted(s),
        0 <= i < s.len(),
    ensures
        contents(s).contains_key(s[i].key),
        contents(s)[s[i].key] == s[i],
{
    let k = s[i].key;
    assert(contents(s).contains_key(k));
    let j = choose|j: int| 0 <= j < s.len() && #[trigger] s[j].key == k;
    lemma_keys_unique(s, i, j);
}

proof fn lemma_contents_update(s: Seq<Record>, i: int, r: Record)
    requires
        keys_sorted(s),
        0 <= i < s.len(),
        s[i].key == r.key,
    ensures
        keys_sorted(s.update(i, r)),
        contents(s.update(i, r)) == contents(s).insert(r.key, r),
{
    let t = s.update(i, r);
    assert forall|a: int| 0 <= a < t.len() implies #[trigger] t[a].key == s[a].key by {}
    assert(keys_sorted(t));
    let m = contents(s).insert(r.key, r);
    assert forall|k: Seq<u8>| contents(t).contains_key(k) <==> m.contains_key(k) by {
        if contents(t).contains_key(k) {
            let j = choose|j: int| 0 <= j < t.len() && #[trigger] t[j].key == k;
            assert(s[j].key == k);
        }
        if contents(s).contains_key(k) {
            let j = choose|j: int| 0 <= j < s.len() && #[trigger] s[j].key == k;
            assert(t[j].key == k);
        }
        if k == r.key {
            assert(t[i].key == k);
        }
    }
    assert forall|k: Seq<u8>| contents(t).contains_key(k) implies contents(t)[k] == m[k] by {
        let j = choose|j: int| 0 <= j < t.len() && #[trigger] t[j].key == k;
        lemma_contents_index(t, j);
        if j != i {
            lemma_contents_index(s, j);
            if k == r.key {
                lemma_keys_unique(t, i, j);
            }
        }
    }
    assert(contents(t) =~= m);
}

proof fn lemma_contents_insert(s: Seq<Record>, p: int, r: Record)
    requires
        keys_sorted(s),
        0 <= p <= s.len(),
        forall|k: int| 0 <= k < p ==> lex_lt(#[trigger] s[k].key, r.key),
        forall|k: int| p <= k < s.len() ==> lex_lt(r.key, #[trigger] s[k].key),
    ensures
        keys_sorted(s.insert(p, r)),
        contents(s.insert(p, r)) == contents(s).insert(r.key, r),
{
    let t = s.insert(p, r);
    assert forall|a: int, b: int| #![trigger t[a], t[b]] 0 <= a < b < t.len() implies lex_lt(t[a].key, t[b].key) by {
        if a < p && b > p {
            assert(s[a] == t[a] && s[b - 1] == t[b]);
        } else if a < p && b == p {
        } else if a == p {
            assert(s[b - 1] == t[b]);
        } else if b < p {
        } else {
            assert(s[a - 1] == t[a] && s[b - 1] == t[b]);
        }
    }
    let m = contents(s).insert(r.key, r);
    assert forall|k: Seq<u8>| contents(t).contains_key(k) <==> m.contains_key(k) by {
        if contents(t).contains_key(k) {
            let j = choose|j: int| 0 <= j < t.len() && #[trigger] t[j].key == k;
            if j < p {
                assert(s[j].key == k);
            } else if j > p {
                assert(s[j - 1].key == k);
            }
        }
        if contents(s).contains_key(k) {
            let j = choose|j: int| 0 <= j < s.len() && #[trigger] s[j].key == k;
            if j < p {
                assert(t[j].key == k);
            } else {
                assert(t[j + 1].key == k);
            }
        }
        if k == r.key {
            assert(t[p].key == k);
        }
    }
    assert forall|k: Seq<u8>| contents(t).contains_key(k) implies contents(t)[k] == m[k] by {
        let j = choose|j: int| 0 <= j < t.len() && #[trigger] t[j].key == k;
        lemma_contents_index(t, j);
        if j != p {
            let js = if j < p { j } else { j - 1 };
            assert(t[j] == s[js]);
            lemma_contents_index(s, js);
            if k == r.key {
                lemma_keys_unique(t, p, j);
            }
        }
    }
    assert(contents(t) =~= m);
}

proof fn lemma_contents_len(s: Seq<Record>)
    requires
        keys_sorted(s),
    ensures
        contents(s).dom().finite(),
        contents(s).len() == s.len(),
{
    let keys = s.map_values(|r: Record| r.key);
    assert forall|a: int, b: int| 0 <= a < keys.len() && 0 <= b < keys.len() && a != b
        implies keys[a] != keys[b] by {
        if keys[a] == keys[b] {
            lemma_keys_unique(s, a, b);
        }
    }
    assert(keys.no_duplicates());
    keys.unique_seq_to_set();
    assert forall|k: Seq<u8>| contents(s).dom().contains(k) <==> keys.to_set().contains(k) by {
        if contents(s).dom().contains(k) {
            let j = choose|j: int| 0 <= j < s.len() && #[trigger] s[j].key == k;
            assert(keys[j] == k);
        }
        if keys.to_set().contains(k) {
            let j = choose|j: int| 0 <= j < keys.len() && keys[j] == k;
            assert(s[j].key == k);
        }
    }
    assert(contents(s).dom() =~= keys.to_set());
}

proof fn lemma_total_size_update(s: Seq<Record>, i: int, r: Record)
    requires
        0 <= i < s.len(),
    ensures
        total_size(s) >= entry_size(s[i]),
        total_size(s.update(i, r)) == total_size(s) - entry_size(s[i]) + entry_size(r),
    decreases s.len(),
{
    let t = s.update(i, r);
    if i == s.len() - 1 {
        assert(t.drop_last() =~= s.drop_last());
    } else {
        assert(t.drop_last() =~= s.drop_last().update(i, r));
        lemma_total_size_update(s.drop_last(), i, r);
    }
}

proof fn lemma_total_size_insert(s: Seq<Record>, p: int, r: Record)
    requires
        0 <= p <= s.len(),
    ensures
        total_size(s.insert(p, r)) == total_size(s) + entry_size(r),
    decreases s.len(),
{
    let t = s.insert(p, r);
    if p == s.len() {
        assert(t.drop_last() =~= s);
    } else {
        assert(t.drop_last() =~= s.drop_last().insert(p, r));
        lemma_total_size_insert(s.drop_last(), p, r);
    }
}

impl MemTable {
    /// The entries in key order.
    pub closed spec fn records(&self) -> Seq<Record> {
        self.entries@.map_values(|e: MemTableEntry| e@)
    }

    pub closed spec fn size_spec(&self) -> nat {
        self.size as nat
    }

    /// Keys strictly increase, every entry's tombstone flag agrees with its
    /// value, and the size counter equals the from-scratch sum.
    pub open spec fn wf(&self) -> bool {
        &&& keys_sorted(self.records())
        &&& forall|i: int| 0 <= i < self.records().len() ==> record_wf(#[trigger] self.records()[i])
        &&& self.size_spec() == total_size(self.records())
    }

    /// The size after `set(key, value, _)`.
    pub open spec fn size_after_set(&self, key: Seq<u8>, value: Seq<u8>) -> int {
        if self@.contains_key(key) {
            self.size_spec() - value_len(self@[key]) + value.len()
        } else {
            (self.size_spec() + key.len() + value.len() + 17) as int
        }
    }

    /// The size after `delete(key, _)`.
    pub open spec fn size_after_delete(&self, key: Seq<u8>) -> int {
        if self@.contains_key(key) {
            self.size_spec() - value_len(self@[key])
        } else {
            (self.size_spec() + key.len() + 17) as int
        }
    }

    pub fn new() -> (r: MemTable)
        ensures
            r.wf(),
            r@ == Map::<Seq<u8>, Record>::empty(),
            r.records().len() == 0,
            r.size_spec() == 0,
    {
        let r = MemTable { entries: Vec::new(), size: 0 };
        assert(r.records() =~= Seq::<Record>::empty());
        assert(r@ =~= Map::<Seq<u8>, Record>::empty());
        r
    }
    /// Locates `key` by binary search: `Ok` with its index, or `Err` with the
    /// index at which it would be inserted to keep the keys sorted.
    fn get_index(&self, key: &[u8]) -> (r: Result<usize, usize>)
        requires
            self.wf(),
        ensures
            match r {
                Ok(i) => i < self.records().len() && self.records()[i as int].key == key@,
                Err(i) => {
                    &&& i <= self.records().len()
                    &&& forall|k: int| 0 <= k < i ==> lex_lt(#[trigger] self.records()[k].key, key@)
                    &&& forall|k: int| i <= k < self.records().len() ==> lex_lt(key@, #[trigger] self.records()[k].key)
                },
            },
    {
        let ghost s = self.records();
        let mut lo: usize = 0;
        let mut hi: usize = self.entries.len();
        while lo < hi
            invariant
                s == self.records(),
                s.len() == self.entries@.len(),
                self.wf(),
                lo <= hi <= s.len(),
                forall|k: int| 0 <= k < lo ==> lex_lt(#[trigger] s[k].key, key@),
                forall|k: int| hi <= k < s.len() ==> lex_lt(key@, #[trigger] s[k].key),
            decreases hi - lo,
        {
            let mid = lo + (hi - lo) / 2;
            assert(s[mid as int] == self.entries@[mid as int]@);
            match compare_bytes(self.entries[mid].key.as_slice(), key) {
                Ordering::Less => {
                    assert forall|k: int| 0 <= k < mid + 1 implies lex_lt(#[trigger] s[k].key, key@) by {
                        if k < mid {
                            lemma_lex_transitive(s[k].key, s[mid as int].key, key@);
                        }
                    }
                    lo = mid + 1;
                },
                Ordering::Greater => {
                    assert forall|k: int| mid <= k < s.len() implies lex_lt(key@, #[trigger] s[k].key) by {
                        if k > mid {
                            lemma_lex_transitive(key@, s[mid as int].key, s[k].key);
                        }
                    }
                    hi = mid;
                },
                Ordering::Equal => {
                    return Ok(mid);
                },
            }
        }
        Err(lo)
    }

    /// Inserts or overwrites the entry of `key` with `value`.
    pub fn set(&mut self, key: &[u8], value: &[u8], timestamp: u128)
        requires
            old(self).wf(),
            old(self).size_after_set(key@, value@) <= usize::MAX,
        ensures
            final(self).wf(),
            final(self)@ == old(self)@.insert(key@, set_record(key@, value@, timestamp)),
            final(self).size_spec() == old(self).size_after_set(key@, value@),
    {
        let entry = MemTableEntry {
            key: slice_to_vec(key),
            value: Some(slice_to_vec(value)),
            timestamp,
            deleted: false,
        };
        let ghost s = self.records();
        let ghost r = entry@;
        assert(r == set_record(key@, value@, timestamp));
        match self.get_index(key) {
            Ok(idx) => {
                let old_len = match &self.entries[idx].value {
                    Some(v) => v.len(),
                    None => 0,
                };
                proof {
                    assert(s[idx as int] == self.entries@[idx as int]@);
                    lemma_contents_index(s, idx as int);
                    lemma_contents_update(s, idx as int, r);
                    lemma_total_size_update(s, idx as int, r);
                }
                self.entries.set(idx, entry);
                assert(self.records() =~= s.update(idx as int, r));
                if value.len() < old_len {
                    self.size = self.size - (old_len - value.len());
                } else {
                    self.size = self.size + (value.len() - old_len);
                }
            },
            Err(idx) => {
                proof {
                    lemma_contents_insert(s, idx as int, r);
                    lemma_total_size_insert(s, idx as int, r);
                }
                self.entries.insert(idx, entry);
                assert(self.records() =~= s.insert(idx as int, r));
                self.size = self.size + key.len() + value.len() + 17;
            },
        }
    }

    /// Inserts or overwrites the entry of `key` with a tombstone.
    pub fn delete(&mut self, key: &[u8], timestamp: u128)
        requires
            old(self).wf(),
            old(self).size_after_delete(key@) <= usize::MAX,
        ensures
            final(self).wf(),
            final(self)@ == old(self)@.insert(key@, delete_record(key@, timestamp)),
            final(self).size_spec() == old(self).size_after_delete(key@),
    {
        let entry = MemTableEntry { key: slice_to_vec(key), value: None, timestamp, deleted: true };
        let ghost s = self.records();
        let ghost r = entry@;
        assert(r == delete_record(key@, timestamp));
        match self.get_index(key) {
            Ok(idx) => {
                let old_len = match &self.entries[idx].value {
                    Some(v) => v.len(),
                    None => 0,
                };
                proof {
                    assert(s[idx as int] == self.entries@[idx as int]@);
                    lemma_contents_index(s, idx as int);
                    lemma_contents_update(s, idx as int, r);
                    lemma_total_size_update(s, idx as int, r);
                }
                self.entries.set(idx, entry);
                assert(self.records() =~= s.update(idx as int, r));
                self.size = self.size - old_len;
            },
            Err(idx) => {
                proof {
                    lemma_contents_insert(s, idx as int, r);
                    lemma_total_size_insert(s, idx as int, r);
                }
                self.entries.insert(idx, entry);
                assert(self.records() =~= s.insert(idx as int, r));
                self.size = self.size + key.len() + 17;
            },
        }
    }

    /// The entry of `key`, which may be a tombstone; `None` when the key was
    /// never set nor deleted.
    pub fn get(&self, key: &[u8]) -> (r: Option<&MemTableEntry>)
        requires
            self.wf(),
        ensures
            match r {
                Some(e) => self@.contains_key(key@) && e@ == self@[key@],
                None => !self@.contains_key(key@),
            },
    {
        match self.get_index(key) {
            Ok(idx) => {
                proof {
                    assert(self.records()[idx as int] == self.entries@[idx as int]@);
                    lemma_contents_index(self.records(), idx as int);
                }
                Some(&self.entries[idx])
            },
            Err(idx) => {
                proof {
                    let s = self.records();
                    if self@.contains_key(key@) {
                        let j = choose|j: int| 0 <= j < s.len() && #[trigger] s[j].key == key@;
                        lemma_lex_irreflexive(key@);
                    }
                }
                None
            },
        }
    }

    /// Number of distinct keys held, tombstones included.
    pub fn len(&self) -> (r: usize)
        requires
            self.wf(),
        ensures
            r == self@.len(),
            r == self.records().len(),
    {
        proof { lemma_contents_len(self.records()); }
        self.entries.len()
    }

    /// The approximate byte size of the entries.
    pub fn size(&self) -> (r: usize)
        requires
            self.wf(),
        ensures
            r == self.size_spec(),
            r == total_size(self.records()),
    {
        self.size
    }

    /// The entries in increasing key order.
    pub fn entries(&self) -> (r: &[MemTableEntry])
        ensures
            r@.len() == self.records().len(),
            forall|i: int| 0 <= i < r@.len() ==> (#[trigger] r@[i])@ == self.records()[i],
    {
        self.entries.as_slice()
    }

    /// Hands over the populated memtable and leaves an empty one in its place.
    pub fn take(&mut self) -> (r: MemTable)
        ensures
            r == *old(self),
            final(self).wf(),
            final(self)@ == Map::<Seq<u8>, Record>::empty(),
            final(self).size_spec() == 0,
    {
        let mut r = MemTable::new();
        std::mem::swap(self, &mut r);
        r
    }
}

} // verus!
