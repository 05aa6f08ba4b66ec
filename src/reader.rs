//! Sequential decoder over the bytes of one log segment. It stops at the
//! first record that the bytes do not hold whole, as a crash in the middle of
//! an append leaves one, and says whether it stopped there or at the end.
use vstd::prelude::*;
use vstd::slice::{slice_subrange, slice_to_vec};
use crate::codec::{decode_one, decode_all, encodable, read_le, le_value, lemma_le_value_bound, lemma_pow256_facts};
use crate::record::{Record, WalEntry};

verus! {

pub struct SegmentReader {
    data: Vec<u8>,
    pos: usize,
    short_read: bool,
}

/// Every record that a decode gives back can be encoded again.
pub proof fn lemma_decoded_encodable(s: Seq<u8>)
    requires
        decode_one(s) is Some,
    ensures
        encodable(decode_one(s).unwrap().0),
        0 < decode_one(s).unwrap().1 <= s.len(),
{
    lemma_le_value_bound(s.subrange(17, 25));
    let klen = le_value(s.subrange(17, 25)) as int;
    if s[0] == 0 {
        lemma_le_value_bound(s.subrange(25 + klen, 33 + klen));
    }
}

impl SegmentReader {
    /// The bytes not read yet.
    pub closed spec fn remaining(&self) -> Seq<u8> {
        self.data@.subrange(self.pos as int, self.data@.len() as int)
    }

    /// Whether reading stopped at an incomplete record rather than at the end.
    pub closed spec fn stopped_short_spec(&self) -> bool {
        self.short_read
    }

    pub closed spec fn wf(&self) -> bool {
        self.pos <= self.data@.len()
    }

    pub fn new(data: Vec<u8>) -> (r: SegmentReader)
        ensures
            r.wf(),
            r.remaining() == data@,
            !r.stopped_short_spec(),
    {
        let r = SegmentReader { data, pos: 0, short_read: false };
        assert(r.remaining() =~= r.data@);
        r
    }

    fn stop(&mut self) -> (r: Option<WalEntry>)
        requires
            old(self).wf(),
        ensures
            final(self).wf(),
            r is None,
            final(self).remaining() == Seq::<u8>::empty(),
            final(self).stopped_short_spec() == (old(self).stopped_short_spec() || old(self).remaining().len() > 0),
    {
        self.short_read = self.short_read || self.pos < self.data.len();
        self.pos = self.data.len();
        assert(self.remaining() =~= Seq::<u8>::empty());
        None
    }

    /// The next record, or `None` once the bytes hold no whole record more.
    pub fn next_entry(&mut self) -> (r: Option<WalEntry>)
        requires
            old(self).wf(),
        ensures
            final(self).wf(),
            match decode_one(old(self).remaining()) {
                Some((rec, n)) => {
                    &&& r is Some
                    &&& r.unwrap()@ == rec
                    &&& final(self).remaining() == old(self).remaining().subrange(n as int, old(self).remaining().len() as int)
                    &&& final(self).stopped_short_spec() == old(self).stopped_short_spec()
                },
                None => {
                    &&& r is None
                    &&& final(self).remaining() == Seq::<u8>::empty()
                    &&& final(self).stopped_short_spec() == (old(self).stopped_short_spec() || old(self).remaining().len() > 0)
                },
            },
    {
        let ghost rem = self.remaining();
        let len = self.data.len();
        let p = self.pos;
        if len - p < 25 {
            return self.stop();
        }
        let deleted = self.data[p] != 0;
        let ts = read_le(self.data.as_slice(), p + 1, 16);
        let klen = read_le(self.data.as_slice(), p + 17, 8);
        assert(rem.subrange(1, 17) =~= self.data@.subrange(p + 1, p + 17));
        assert(rem.subrange(17, 25) =~= self.data@.subrange(p + 17, p + 25));
        proof {
            lemma_le_value_bound(rem.subrange(1, 17));
            lemma_pow256_facts();
        }
        if klen > (len - p - 25) as u128 {
            return self.stop();
        }
        let klen = klen as usize;
        let kstart = p + 25;
        let key = slice_to_vec(slice_subrange(self.data.as_slice(), kstart, kstart + klen));
        assert(key@ =~= rem.subrange(25, 25 + klen));
        if deleted {
            self.pos = kstart + klen;
            assert(self.remaining() =~= rem.subrange(25 + klen, rem.len() as int));
            return Some(WalEntry { key, value: None, timestamp: ts, deleted: true });
        }
        if len - kstart - klen < 8 {
            return self.stop();
        }
        let vlen = read_le(self.data.as_slice(), kstart + klen, 8);
        assert(rem.subrange(25 + klen, 33 + klen) =~= self.data@.subrange(kstart + klen, kstart + klen + 8));
        let vstart = kstart + klen + 8;
        if vlen > (len - vstart) as u128 {
            return self.stop();
        }
        let vlen = vlen as usize;
        let value = slice_to_vec(slice_subrange(self.data.as_slice(), vstart, vstart + vlen));
        assert(value@ =~= rem.subrange(33 + klen, 33 + klen + vlen));
        self.pos = vstart + vlen;
        assert(self.remaining() =~= rem.subrange(33 + klen + vlen, rem.len() as int));
        Some(WalEntry { key, value: Some(value), timestamp: ts, deleted: false })
    }

    /// Whether the last read stopped at an incomplete record rather than at
    /// the end of the bytes.
    pub fn stopped_short(&self) -> (r: bool)
        ensures
            r == self.stopped_short_spec(),
    {
        self.short_read
    }
}

/// Every record of a segment, up to the first incomplete one.
pub fn read_all(data: Vec<u8>) -> (r: Vec<WalEntry>)
    ensures
        r@.map_values(|e: WalEntry| e@) == decode_all(data@),
{
    let ghost all = data@;
    let mut reader = SegmentReader::new(data);
    let mut out: Vec<WalEntry> = Vec::new();
    loop
        invariant
            reader.wf(),
            out@.map_values(|e: WalEntry| e@) + decode_all(reader.remaining()) == decode_all(all),
        ensures
            out@.map_values(|e: WalEntry| e@) == decode_all(all),
        decreases reader.remaining().len(),
    {
        let ghost rem = reader.remaining();
        match reader.next_entry() {
            Some(e) => {
                proof {
                    lemma_decoded_encodable(rem);
                }
                let ghost seen = out@.map_values(|e: WalEntry| e@);
                out.push(e);
                assert(out@.map_values(|e: WalEntry| e@) =~= seen.push(e@));
                assert(decode_all(rem) =~= seq![e@] + decode_all(reader.remaining()));
                assert(out@.map_values(|e: WalEntry| e@) + decode_all(reader.remaining())
                    =~= seen + decode_all(rem));
            },
            None => {
                assert(decode_all(rem) =~= Seq::<Record>::empty());
                assert(decode_all(reader.remaining()) =~= Seq::<Record>::empty());
                assert(out@.map_values(|e: WalEntry| e@) =~= out@.map_values(|e: WalEntry| e@) + decode_all(reader.remaining()));
                break;
            },
        }
    }
    out
}

} // verus!
