//! Replay of log segments, in order, into a fresh memtable and one
//! consolidated segment.
use vstd::prelude::*;
use crate::codec::{append_delete, append_set, decode_all, decode_one, encodable, encode_all,
    encode_record, lemma_decode_all_encode_all, lemma_decode_truncated, lemma_encode_all_push};
use crate::memtable::MemTable;
use crate::reader::{SegmentReader, lemma_decoded_encodable};
use crate::record::{Record, WalEntry};

verus! {

/// `m` after each record of `rs` in turn overwrote the entry of its key.
pub open spec fn apply_all(m: Map<Seq<u8>, Record>, rs: Seq<Record>) -> Map<Seq<u8>, Record>
    decreases rs.len(),
{
    if rs.len() == 0 {
        m
    } else {
        apply_all(m, rs.drop_last()).insert(rs.last().key, rs.last())
    }
}

/// The entries that replaying `rs` into an empty memtable leaves.
pub open spec fn replayed(rs: Seq<Record>) -> Map<Seq<u8>, Record> {
    apply_all(Map::empty(), rs)
}

/// The records of the segments, segment after segment.
pub open spec fn segments_records(segs: Seq<Seq<u8>>) -> Seq<Record>
    decreases segs.len(),
{
    if segs.len() == 0 {
        Seq::<Record>::empty()
    } else {
        segments_records(segs.drop_last()) + decode_all(segs.last())
    }
}

pub open spec fn segment_views(segs: Seq<Vec<u8>>) -> Seq<Seq<u8>> {
    segs.map_values(|v: Vec<u8>| v@)
}

pub open spec fn all_encodable(rs: Seq<Record>) -> bool {
    forall|i: int| 0 <= i < rs.len() ==> encodable(#[trigger] rs[i])
}

pub proof fn lemma_decode_all_encodable(s: Seq<u8>)
    ensures
        all_encodable(decode_all(s)),
    decreases s.len(),
{
    if decode_one(s) is Some {
        lemma_decoded_encodable(s);
        let n = decode_one(s).unwrap().1;
        lemma_decode_all_encodable(s.subrange(n as int, s.len() as int));
    }
}

pub proof fn lemma_segments_records_encodable(segs: Seq<Seq<u8>>)
    ensures
        all_encodable(segments_records(segs)),
    decreases segs.len(),
{
    if segs.len() > 0 {
        lemma_segments_records_encodable(segs.drop_last());
        lemma_decode_all_encodable(segs.last());
    }
}

/// Replays the segments in the order given: each record, in order, is applied
/// to a fresh memtable and appended to one consolidated segment, whose bytes
/// are returned with the memtable.
pub fn replay_segments(segments: Vec<Vec<u8>>) -> (r: (MemTable, Vec<u8>))
    ensures
        r.0.wf(),
        r.0@ == replayed(segments_records(segment_views(segments@))),
        r.1@ == encode_all(segments_records(segment_views(segments@))),
{
    let ghost segs = segment_views(segments@);
    let mut mem = MemTable::new();
    let mut out: Vec<u8> = Vec::new();
    let mut rest = segments;
    let ghost mut i: int = 0;
    let ghost mut done: Seq<Record> = Seq::empty();
    assert(segs.subrange(0, 0) =~= Seq::<Seq<u8>>::empty());
    assert(segment_views(rest@) =~= segs.subrange(0, segs.len() as int));
    assert(encode_all(done) =~= out@);
    while rest.len() > 0
        invariant
            0 <= i <= segs.len(),
            segment_views(rest@) == segs.subrange(i, segs.len() as int),
            done == segments_records(segs.subrange(0, i)),
            all_encodable(done),
            mem.wf(),
            mem@ == replayed(done),
            out@ == encode_all(done),
            mem.size_spec() <= out@.len(),
        decreases rest.len(),
    {
        let ghost old_rest = rest@;
        assert(segment_views(old_rest).len() == old_rest.len());
        assert(i < segs.len());
        assert(segment_views(old_rest)[0] == old_rest[0]@);
        assert(segs.subrange(i, segs.len() as int)[0] == segs[i]);
        let seg = rest.remove(0);
        let ghost before = done;
        let ghost seg_view = seg@;
        assert(seg_view == segs[i]);
        assert forall|j: int| 0 <= j < rest@.len() implies #[trigger] segment_views(rest@)[j] == segs.subrange(i + 1, segs.len() as int)[j] by {
            assert(rest@[j] == old_rest[j + 1]);
            assert(segment_views(old_rest)[j + 1] == segs.subrange(i, segs.len() as int)[j + 1]);
        }
        assert(segment_views(rest@) =~= segs.subrange(i + 1, segs.len() as int));
        let mut reader = SegmentReader::new(seg);
        assert(decode_all(seg_view) =~= Seq::<Record>::empty() + decode_all(reader.remaining()));
        assert(before + decode_all(seg_view) =~= done + decode_all(reader.remaining()));
        loop
            invariant
                reader.wf(),
                before + decode_all(seg_view) == done + decode_all(reader.remaining()),
                all_encodable(done),
                mem.wf(),
                mem@ == replayed(done),
                out@ == encode_all(done),
                mem.size_spec() <= out@.len(),
            ensures
                done == before + decode_all(seg_view),
            decreases reader.remaining().len(),
        {
            let ghost rem = reader.remaining();
            match reader.next_entry() {
                Some(e) => {
                    proof {
                        lemma_decoded_encodable(rem);
                        lemma_encode_all_push(done, e@);
                    }
                    assert(decode_all(rem) =~= seq![e@] + decode_all(reader.remaining()));
                    apply_entry(&mut mem, &mut out, &e);
                    proof {
                        assert(done.push(e@).drop_last() =~= done);
                        done = done.push(e@);
                        assert(before + decode_all(seg_view) =~= done + decode_all(reader.remaining()));
                    }
                },
                None => {
                    assert(decode_all(rem) =~= Seq::<Record>::empty());
                    assert(done + decode_all(reader.remaining()) =~= done);
                    break;
                },
            }
        }
        proof {
            assert(segs.subrange(0, i + 1).drop_last() =~= segs.subrange(0, i));
            i = i + 1;
        }
    }
    assert(segs.subrange(0, segs.len() as int) =~= segs);
    (mem, out)
}

/// Applies one record to the memtable and appends it to the consolidated
/// segment.
fn apply_entry(mem: &mut MemTable, out: &mut Vec<u8>, e: &WalEntry)
    requires
        encodable(e@),
        old(mem).wf(),
        old(mem).size_spec() <= old(out)@.len(),
    ensures
        final(mem).wf(),
        final(mem)@ == old(mem)@.insert(e@.key, e@),
        final(out)@ == old(out)@ + encode_record(e@),
        final(mem).size_spec() <= final(out)@.len(),
{
    if e.deleted {
        append_delete(out, e.key.as_slice(), e.timestamp);
        let total = out.len();
        assert(old(mem).size_after_delete(e.key@) <= total);
        mem.delete(e.key.as_slice(), e.timestamp);
    } else {
        match &e.value {
            Some(v) => {
                append_set(out, e.key.as_slice(), v.as_slice(), e.timestamp);
                let total = out.len();
                assert(old(mem).size_after_set(e.key@, v@) <= total);
                mem.set(e.key.as_slice(), v.as_slice(), e.timestamp);
            },
            None => {},
        }
    }
}

proof fn lemma_replayed_dom(rs: Seq<Record>, k: Seq<u8>)
    ensures
        replayed(rs).contains_key(k) <==> exists|i: int| 0 <= i < rs.len() && #[trigger] rs[i].key == k,
    decreases rs.len(),
{
    if rs.len() > 0 {
        let p = rs.drop_last();
        lemma_replayed_dom(p, k);
        if exists|i: int| 0 <= i < rs.len() && #[trigger] rs[i].key == k {
            let i = choose|i: int| 0 <= i < rs.len() && #[trigger] rs[i].key == k;
            if i < p.len() {
                assert(p[i].key == k);
            }
        }
        if exists|i: int| 0 <= i < p.len() && #[trigger] p[i].key == k {
            let i = choose|i: int| 0 <= i < p.len() && #[trigger] p[i].key == k;
            assert(rs[i].key == k);
        }
    }
}

proof fn lemma_replayed_last(rs: Seq<Record>, k: Seq<u8>, i: int)
    requires
        0 <= i < rs.len(),
        rs[i].key == k,
        forall|j: int| i < j < rs.len() ==> #[trigger] rs[j].key != k,
    ensures
        replayed(rs).contains_key(k),
        replayed(rs)[k] == rs[i],
    decreases rs.len(),
{
    if i < rs.len() - 1 {
        let p = rs.drop_last();
        assert(rs[rs.len() - 1].key != k);
        assert forall|j: int| i < j < p.len() implies #[trigger] p[j].key != k by {
            assert(rs[j].key != k);
        }
        lemma_replayed_last(p, k, i);
    }
}

/// The entry of a key after a replay is the last record that names the key.
pub proof fn law_latest_record_wins(rs: Seq<Record>, k: Seq<u8>, i: int)
    requires
        0 <= i < rs.len(),
        rs[i].key == k,
        forall|j: int| i < j < rs.len() ==> #[trigger] rs[j].key != k,
    ensures
        replayed(rs).contains_key(k),
        replayed(rs)[k] == rs[i],
{
    lemma_replayed_last(rs, k, i);
}

/// A key has an entry after a replay exactly when some record names it.
pub proof fn law_touched_keys(rs: Seq<Record>, k: Seq<u8>)
    ensures
        replayed(rs).contains_key(k) <==> exists|i: int| 0 <= i < rs.len() && #[trigger] rs[i].key == k,
{
    lemma_replayed_dom(rs, k);
}

/// A replay holds one entry for each distinct key that the records name.
pub proof fn law_count_distinct_keys(rs: Seq<Record>)
    ensures
        replayed(rs).dom() == rs.map_values(|r: Record| r.key).to_set(),
        replayed(rs).len() == rs.map_values(|r: Record| r.key).to_set().len(),
{
    let keys = rs.map_values(|r: Record| r.key);
    assert forall|k: Seq<u8>| replayed(rs).dom().contains(k) <==> keys.to_set().contains(k) by {
        lemma_replayed_dom(rs, k);
        if keys.to_set().contains(k) {
            let j = choose|j: int| 0 <= j < keys.len() && keys[j] == k;
            assert(rs[j].key == k);
        }
        if replayed(rs).dom().contains(k) {
            let j = choose|j: int| 0 <= j < rs.len() && #[trigger] rs[j].key == k;
            assert(keys[j] == k);
        }
    }
    assert(replayed(rs).dom() =~= keys.to_set());
}

/// Records encoded one after the other read back as the same records.
pub proof fn law_round_trip(rs: Seq<Record>)
    requires
        all_encodable(rs),
    ensures
        decode_all(encode_all(rs)) == rs,
{
    assert(decode_one(Seq::<u8>::empty()) is None);
    lemma_decode_all_encode_all(rs, Seq::<u8>::empty());
    assert(encode_all(rs) + Seq::<u8>::empty() =~= encode_all(rs));
}

/// A segment whose last record lost its final `cut` bytes, for any `cut`
/// from one up to the whole record, reads as the records before it.
pub proof fn law_truncation_tolerance(rs: Seq<Record>, last: Record, cut: nat)
    requires
        all_encodable(rs),
        encodable(last),
        1 <= cut <= encode_record(last).len(),
    ensures
        decode_all(encode_all(rs) + encode_record(last).take(encode_record(last).len() - cut)) == rs,
{
    lemma_decode_truncated(last, (encode_record(last).len() - cut) as nat);
    lemma_decode_all_encode_all(rs, encode_record(last).take(encode_record(last).len() - cut));
}

/// Replaying the consolidated segment that a replay writes gives the same
/// records, hence the same entries, as the replay of the segments it was made
/// from.
pub proof fn law_replay_idempotent(segs: Seq<Seq<u8>>)
    ensures
        segments_records(seq![encode_all(segments_records(segs))]) == segments_records(segs),
        replayed(segments_records(seq![encode_all(segments_records(segs))])) == replayed(segments_records(segs)),
{
    let rs = segments_records(segs);
    let one = seq![encode_all(rs)];
    lemma_segments_records_encodable(segs);
    law_round_trip(rs);
    assert(one.drop_last() =~= Seq::<Seq<u8>>::empty());
    assert(segments_records(one.drop_last()) =~= Seq::<Record>::empty());
    assert(one.last() == encode_all(rs));
    assert(segments_records(one) =~= rs);
}

} // verus!
