//! Binary layout of one log record, all integers little-endian:
//! tombstone flag (1 byte, nonzero for a deletion), timestamp (16 bytes),
//! key length (8 bytes), key, and for a non-deletion only, value length
//! (8 bytes) and value.
use vstd::prelude::*;
use vstd::arithmetic::div_mod::{lemma_div_denominator, lemma_mod_breakdown, lemma_small_mod};
use crate::record::{Record, record_wf, set_record, delete_record};

verus! {

pub open spec fn pow256(n: nat) -> nat
    decreases n,
{
    if n == 0 {
        1
    } else {
        256 * pow256((n - 1) as nat)
    }
}

/// The `n` low-order bytes of `x`, least significant first.
pub open spec fn le_bytes(x: nat, n: nat) -> Seq<u8> {
    Seq::new(n, |i: int| ((x / pow256(i as nat)) % 256) as u8)
}

/// The number whose little-endian bytes are `s`.
pub open spec fn le_value(s: Seq<u8>) -> nat
    decreases s.len(),
{
    if s.len() == 0 {
        0
    } else {
        (s[0] + 256 * le_value(s.drop_first())) as nat
    }
}

pub open spec fn flag_byte(deleted: bool) -> u8 {
    if deleted {
        1
    } else {
        0
    }
}

/// The bytes of one record.
pub open spec fn encode_record(r: Record) -> Seq<u8> {
    seq![flag_byte(r.deleted)] + le_bytes(r.timestamp as nat, 16) + le_bytes(r.key.len(), 8) + r.key
        + match r.value {
        Some(v) => le_bytes(v.len(), 8) + v,
        None => Seq::<u8>::empty(),
    }
}

/// The bytes of a sequence of records, one after the other.
pub open spec fn encode_all(rs: Seq<Record>) -> Seq<u8>
    decreases rs.len(),
{
    if rs.len() == 0 {
        Seq::<u8>::empty()
    } else {
        encode_record(rs[0]) + encode_all(rs.drop_first())
    }
}

/// A record that the layout can carry: its flag agrees with its value, and
/// the lengths fit in 8 bytes.
pub open spec fn encodable(r: Record) -> bool {
    &&& record_wf(r)
    &&& r.key.len() < pow256(8)
    &&& match r.value {
        Some(v) => v.len() < pow256(8),
        None => true,
    }
}

/// The first record of `s` and the number of bytes it takes, or `None` when
/// `s` ends before a whole record.
pub open spec fn decode_one(s: Seq<u8>) -> Option<(Record, nat)> {
    if s.len() < 25 {
        None
    } else {
        let deleted = s[0] != 0;
        let ts = le_value(s.subrange(1, 17));
        let klen = le_value(s.subrange(17, 25)) as int;
        if s.len() < 25 + klen {
            None
        } else {
            let key = s.subrange(25, 25 + klen);
            if deleted {
                Some((Record { key, value: None, timestamp: ts as u128, deleted: true }, (25 + klen) as nat))
            } else if s.len() < 33 + klen {
                None
            } else {
                let vlen = le_value(s.subrange(25 + klen, 33 + klen)) as int;
                if s.len() < 33 + klen + vlen {
                    None
                } else {
                    let value = s.subrange(33 + klen, 33 + klen + vlen);
                    Some((Record { key, value: Some(value), timestamp: ts as u128, deleted: false },
                        (33 + klen + vlen) as nat))
                }
            }
        }
    }
}

/// The records of a segment, in order, up to the first incomplete one.
pub open spec fn decode_all(s: Seq<u8>) -> Seq<Record>
    decreases s.len(),
{
    match decode_one(s) {
        Some((r, n)) => if 0 < n <= s.len() {
            seq![r] + decode_all(s.subrange(n as int, s.len() as int))
        } else {
            Seq::<Record>::empty()
        },
        None => Seq::<Record>::empty(),
    }
}

pub proof fn lemma_pow256_facts()
    ensures
        pow256(8) == 0x1_0000_0000_0000_0000,
        pow256(16) == 0x1_0000_0000_0000_0000_0000_0000_0000_0000,
{
    reveal_with_fuel(pow256, 17);
}

pub proof fn lemma_pow256_positive(n: nat)
    ensures
        pow256(n) > 0,
    decreases n,
{
    if n > 0 {
        lemma_pow256_positive((n - 1) as nat);
    }
}

pub proof fn lemma_pow256_monotonic(n: nat, m: nat)
    requires
        n <= m,
    ensures
        pow256(n) <= pow256(m),
    decreases m,
{
    if n < m {
        lemma_pow256_monotonic(n, (m - 1) as nat);
        lemma_pow256_positive((m - 1) as nat);
    }
}

pub proof fn lemma_le_value_bound(s: Seq<u8>)
    ensures
        le_value(s) < pow256(s.len()),
    decreases s.len(),
{
    if s.len() > 0 {
        lemma_le_value_bound(s.drop_first());
        let p = pow256((s.len() - 1) as nat);
        let v = le_value(s.drop_first());
        let b = s[0];
        assert(b + 256 * v < 256 * p) by (nonlinear_arith)
            requires
                v < p,
                b < 256,
        ;
    }
}

/// Reading back `n` little-endian bytes gives the number modulo `256^n`.
pub proof fn lemma_le_round_trip(x: nat, n: nat)
    ensures
        le_value(le_bytes(x, n)) == x % pow256(n),
    decreases n,
{
    let s = le_bytes(x, n);
    if n == 0 {
        assert(x % 1 == 0);
    } else {
        let p = pow256((n - 1) as nat);
        lemma_pow256_positive((n - 1) as nat);
        assert forall|i: int| 0 <= i < n - 1 implies #[trigger] s.drop_first()[i] == le_bytes(x / 256, (n - 1) as nat)[i] by {
            lemma_pow256_positive(i as nat);
            lemma_div_denominator(x as int, 256, pow256(i as nat) as int);
        }
        assert(s.drop_first() =~= le_bytes(x / 256, (n - 1) as nat));
        lemma_le_round_trip(x / 256, (n - 1) as nat);
        assert(x / 1 == x);
        lemma_mod_breakdown(x as int, 256, p as int);
    }
}

pub proof fn lemma_le_exact(x: nat, n: nat)
    requires
        x < pow256(n),
    ensures
        le_value(le_bytes(x, n)) == x,
        le_bytes(x, n).len() == n,
{
    lemma_le_round_trip(x, n);
    lemma_small_mod(x, pow256(n));
}

/// Decoding an encoded record, whatever follows it, gives the record back and
/// the length of its encoding.
pub proof fn lemma_decode_encode(r: Record, rest: Seq<u8>)
    requires
        encodable(r),
    ensures
        decode_one(encode_record(r) + rest) == Some((r, encode_record(r).len())),
        encode_record(r).len() >= 25,
{
    lemma_pow256_facts();
    let e = encode_record(r);
    let s = e + rest;
    let klen = r.key.len() as int;
    lemma_le_exact(r.timestamp as nat, 16);
    lemma_le_exact(r.key.len(), 8);
    assert(s.subrange(1, 17) =~= le_bytes(r.timestamp as nat, 16));
    assert(s.subrange(17, 25) =~= le_bytes(r.key.len(), 8));
    assert(s.subrange(25, 25 + klen) =~= r.key);
    match r.value {
        Some(v) => {
            lemma_le_exact(v.len(), 8);
            assert(s.subrange(25 + klen, 33 + klen) =~= le_bytes(v.len(), 8));
            assert(s.subrange(33 + klen, 33 + klen + v.len() as int) =~= v);
        },
        None => {},
    }
}

/// A record cut short anywhere decodes to nothing.
pub proof fn lemma_decode_truncated(r: Record, m: nat)
    requires
        encodable(r),
        m < encode_record(r).len(),
    ensures
        decode_one(encode_record(r).take(m as int)) is None,
{
    lemma_pow256_facts();
    let e = encode_record(r);
    let t = e.take(m as int);
    let klen = r.key.len() as int;
    lemma_le_exact(r.timestamp as nat, 16);
    lemma_le_exact(r.key.len(), 8);
    if m >= 25 {
        assert(t.subrange(17, 25) =~= le_bytes(r.key.len(), 8));
        if m >= 25 + klen {
            match r.value {
                Some(v) => {
                    lemma_le_exact(v.len(), 8);
                    if m >= 33 + klen {
                        assert(t.subrange(25 + klen, 33 + klen) =~= le_bytes(v.len(), 8));
                    }
                },
                None => {},
            }
        }
    }
}

pub proof fn lemma_encode_all_push(rs: Seq<Record>, r: Record)
    ensures
        encode_all(rs.push(r)) == encode_all(rs) + encode_record(r),
    decreases rs.len(),
{
    if rs.len() == 0 {
        assert(rs.push(r).drop_first() =~= Seq::<Record>::empty());
        assert(encode_all(rs.push(r).drop_first()) =~= Seq::<u8>::empty());
        assert(rs.push(r)[0] == r);
        assert(encode_all(rs.push(r)) =~= encode_all(rs) + encode_record(r));
    } else {
        assert(rs.push(r).drop_first() =~= rs.drop_first().push(r));
        lemma_encode_all_push(rs.drop_first(), r);
        assert(encode_all(rs.push(r)) =~= encode_all(rs) + encode_record(r));
    }
}

/// Decoding the encodings of records, followed by any bytes that hold no
/// whole record, gives the records back.
pub proof fn lemma_decode_all_encode_all(rs: Seq<Record>, tail: Seq<u8>)
    requires
        forall|i: int| 0 <= i < rs.len() ==> encodable(#[trigger] rs[i]),
        decode_one(tail) is None,
    ensures
        decode_all(encode_all(rs) + tail) == rs,
    decreases rs.len(),
{
    let s = encode_all(rs) + tail;
    if rs.len() == 0 {
        assert(s =~= tail);
    } else {
        let e = encode_record(rs[0]);
        let rest = encode_all(rs.drop_first()) + tail;
        assert(s =~= e + rest);
        lemma_decode_encode(rs[0], rest);
        assert(s.subrange(e.len() as int, s.len() as int) =~= rest);
        lemma_decode_all_encode_all(rs.drop_first(), tail);
        assert(decode_all(s) =~= rs);
    }
}

/// Appends the `n` low-order bytes of `x`, least significant first.
fn push_le(out: &mut Vec<u8>, x: u128, n: usize)
    requires
        n <= 16,
    ensures
        final(out)@ == old(out)@ + le_bytes(x as nat, n as nat),
{
    let mut v: u128 = x;
    let mut i: usize = 0;
    assert(pow256(0) == 1 && x as nat / 1 == x);
    assert(out@ =~= old(out)@ + le_bytes(x as nat, 0));
    while i < n
        invariant
            i <= n,
            out@ == old(out)@ + le_bytes(x as nat, i as nat),
            v as nat == x as nat / pow256(i as nat),
        decreases n - i,
    {
        proof {
            lemma_pow256_positive(i as nat);
            lemma_div_denominator(x as int, pow256(i as nat) as int, 256);
        }
        out.push((v % 256) as u8);
        assert(out@ =~= old(out)@ + le_bytes(x as nat, (i + 1) as nat));
        v = v / 256;
        i = i + 1;
    }
}

/// Appends the bytes of `b`.
fn push_bytes(out: &mut Vec<u8>, b: &[u8])
    ensures
        final(out)@ == old(out)@ + b@,
{
    let mut i: usize = 0;
    while i < b.len()
        invariant
            i <= b@.len(),
            out@ == old(out)@ + b@.subrange(0, i as int),
        decreases b@.len() - i,
    {
        out.push(b[i]);
        assert(out@ =~= old(out)@ + b@.subrange(0, i + 1));
        i = i + 1;
    }
    assert(b@.subrange(0, b@.len() as int) =~= b@);
}

/// Appends the record that sets `key` to `value`.
pub fn append_set(out: &mut Vec<u8>, key: &[u8], value: &[u8], timestamp: u128)
    ensures
        final(out)@ == old(out)@ + encode_record(set_record(key@, value@, timestamp)),
{
    out.push(0u8);
    push_le(out, timestamp, 16);
    push_le(out, key.len() as u128, 8);
    push_bytes(out, key);
    push_le(out, value.len() as u128, 8);
    push_bytes(out, value);
    assert(out@ =~= old(out)@ + encode_record(set_record(key@, value@, timestamp)));
}

/// Appends the record that deletes `key`.
pub fn append_delete(out: &mut Vec<u8>, key: &[u8], timestamp: u128)
    ensures
        final(out)@ == old(out)@ + encode_record(delete_record(key@, timestamp)),
{
    out.push(1u8);
    push_le(out, timestamp, 16);
    push_le(out, key.len() as u128, 8);
    push_bytes(out, key);
    assert(out@ =~= old(out)@ + encode_record(delete_record(key@, timestamp)));
}

/// The bytes of the record that sets `key` to `value`.
pub fn encode_set(key: &[u8], value: &[u8], timestamp: u128) -> (r: Vec<u8>)
    ensures
        r@ == encode_record(set_record(key@, value@, timestamp)),
{
    let mut out: Vec<u8> = Vec::new();
    append_set(&mut out, key, value, timestamp);
    assert(out@ =~= encode_record(set_record(key@, value@, timestamp)));
    out
}

/// The bytes of the record that deletes `key`.
pub fn encode_delete(key: &[u8], timestamp: u128) -> (r: Vec<u8>)
    ensures
        r@ == encode_record(delete_record(key@, timestamp)),
{
    let mut out: Vec<u8> = Vec::new();
    append_delete(&mut out, key, timestamp);
    assert(out@ =~= encode_record(delete_record(key@, timestamp)));
    out
}

/// Reads the little-endian number held in `n` bytes at `pos`.
pub fn read_le(data: &[u8], pos: usize, n: usize) -> (r: u128)
    requires
        n <= 16,
        pos + n <= data@.len(),
    ensures
        r as nat == le_value(data@.subrange(pos as int, pos + n)),
{
    let len = data.len();
    let mut acc: u128 = 0;
    let mut i: usize = n;
    assert(data@.subrange(pos + n, pos + n) =~= Seq::<u8>::empty());
    while i > 0
        invariant
            i <= n <= 16,
            pos + n <= data@.len(),
            acc as nat == le_value(data@.subrange(pos + i, pos + n)),
            acc < pow256((n - i) as nat),
            data@.len() == len,
        decreases i,
    {
        i = i - 1;
        let ghost sub = data@.subrange(pos + i, pos + n);
        assert(sub.drop_first() =~= data@.subrange(pos + i + 1, pos + n));
        let b = data[pos + i];
        proof {
            lemma_pow256_facts();
            lemma_pow256_monotonic((n - i) as nat, 16);
            let p = pow256((n - i - 1) as nat);
            assert(pow256((n - i) as nat) == 256 * p);
            assert(acc * 256 + b < 256 * p) by (nonlinear_arith)
                requires
                    acc < p,
                    b < 256,
            ;
        }
        acc = acc * 256 + b as u128;
    }
    acc
}

} // verus!
