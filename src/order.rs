//! Byte-lexicographic order on keys and segment names.
use std::cmp::Ordering;
use vstd::prelude::*;

verus! {

/// `a` and `b` agree below `i`, and at `i` either `a` ends while `b` goes on,
/// or `a` holds the smaller byte.
pub open spec fn lex_lt_at(a: Seq<u8>, b: Seq<u8>, i: int) -> bool {
    &&& 0 <= i <= a.len()
    &&& i <= b.len()
    &&& forall|j: int| 0 <= j < i ==> a[j] == b[j]
    &&& ((i == a.len() && i < b.len()) || (i < a.len() && i < b.len() && a[i] < b[i]))
}

/// Strict byte-lexicographic order: a proper prefix sorts first.
pub open spec fn lex_lt(a: Seq<u8>, b: Seq<u8>) -> bool {
    exists|i: int| #[trigger] lex_lt_at(a, b, i)
}

/// Non-strict byte-lexicographic order.
pub open spec fn lex_le(a: Seq<u8>, b: Seq<u8>) -> bool {
    !lex_lt(b, a)
}

pub proof fn lemma_lex_irreflexive(a: Seq<u8>)
    ensures
        !lex_lt(a, a),
{
}

pub proof fn lemma_lex_transitive(a: Seq<u8>, b: Seq<u8>, c: Seq<u8>)
    requires
        lex_lt(a, b),
        lex_lt(b, c),
    ensures
        lex_lt(a, c),
{
    let i = choose|i: int| lex_lt_at(a, b, i);
    let j = choose|j: int| lex_lt_at(b, c, j);
    if i <= j {
        assert(lex_lt_at(a, c, i));
    } else {
        assert(lex_lt_at(a, c, j));
    }
}

pub proof fn lemma_lex_asymmetric(a: Seq<u8>, b: Seq<u8>)
    requires
        lex_lt(a, b),
    ensures
        !lex_lt(b, a),
        a != b,
{
    if lex_lt(b, a) {
        lemma_lex_transitive(a, b, a);
    }
}

/// Compares two byte strings in byte-lexicographic order.
pub fn compare_bytes(a: &[u8], b: &[u8]) -> (r: Ordering)
    ensures
        (r == Ordering::Less) <==> lex_lt(a@, b@),
        (r == Ordering::Equal) <==> a@ == b@,
        (r == Ordering::Greater) <==> lex_lt(b@, a@),
{
    let mut i: usize = 0;
    while i < a.len() && i < b.len()
        invariant
            i <= a@.len(),
            i <= b@.len(),
            forall|j: int| 0 <= j < i ==> a@[j] == b@[j],
        decreases a@.len() - i,
    {
        if a[i] < b[i] {
            assert(lex_lt_at(a@, b@, i as int));
            proof { lemma_lex_asymmetric(a@, b@); }
            return Ordering::Less;
        }
        if a[i] > b[i] {
            assert(lex_lt_at(b@, a@, i as int));
            proof { lemma_lex_asymmetric(b@, a@); }
            return Ordering::Greater;
        }
        i = i + 1;
    }
    if a.len() < b.len() {
        assert(lex_lt_at(a@, b@, i as int));
        proof { lemma_lex_asymmetric(a@, b@); }
        Ordering::Less
    } else if a.len() > b.len() {
        assert(lex_lt_at(b@, a@, i as int));
        proof { lemma_lex_asymmetric(b@, a@); }
        Ordering::Greater
    } else {
        assert(a@ =~= b@);
        proof { lemma_lex_irreflexive(a@); }
        Ordering::Equal
    }
}

/// Names in non-decreasing byte-lexicographic order.
pub open spec fn names_sorted(s: Seq<Vec<u8>>) -> bool {
    forall|i: int, j: int| #![trigger s[i], s[j]] 0 <= i < j < s.len() ==> lex_le(s[i]@, s[j]@)
}

/// Sorts segment file names in byte-lexicographic order, which is the order
/// of creation for names made of equally wide decimal timestamps.
pub fn sort_segment_names(names: Vec<Vec<u8>>) -> (r: Vec<Vec<u8>>)
    ensures
        names_sorted(r@),
        r@.to_multiset() == names@.to_multiset(),
{
    broadcast use vstd::seq_lib::group_to_multiset_ensures;

    let ghost all = names@;
    let mut rest = names;
    let mut out: Vec<Vec<u8>> = Vec::new();
    assert(all =~= rest@);
    while rest.len() > 0
        invariant
            names_sorted(out@),
            out@.to_multiset().add(rest@.to_multiset()) == all.to_multiset(),
        decreases rest.len(),
    {
        let ghost before = rest@;
        let name = rest.pop().unwrap();
        assert(before =~= rest@.push(name));
        let mut p: usize = 0;
        while p < out.len()
            invariant
                p <= out@.len(),
                forall|k: int| 0 <= k < p ==> lex_le(#[trigger] out@[k]@, name@),
            ensures
                p <= out@.len(),
                forall|k: int| 0 <= k < p ==> lex_le(#[trigger] out@[k]@, name@),
                p < out@.len() ==> lex_lt(name@, out@[p as int]@),
            decreases out@.len() - p,
        {
            if matches!(compare_bytes(name.as_slice(), out[p].as_slice()), Ordering::Less) {
                break;
            }
            p = p + 1;
        }
        let ghost o = out@;
        assert forall|k: int| p <= k < o.len() implies lex_le(name@, #[trigger] o[k]@) by {
            if lex_lt(o[k]@, name@) {
                lemma_lex_transitive(o[k]@, name@, o[p as int]@);
            }
            if k > p && lex_lt(o[k]@, o[p as int]@) {
                assert(lex_le(o[p as int]@, o[k]@));
            }
            if lex_lt(o[k]@, name@) {
                assert(lex_lt(o[k]@, o[p as int]@));
            }
        }
        out.insert(p, name);
        assert(names_sorted(out@)) by {
            assert forall|a: int, b: int| #![trigger out@[a], out@[b]] 0 <= a < b < out@.len()
                implies lex_le(out@[a]@, out@[b]@) by {
                if a < p && b > p {
                    assert(o[a] == out@[a] && o[b - 1] == out@[b]);
                } else if a == p {
                    assert(o[b - 1] == out@[b]);
                } else if a > p {
                    assert(o[a - 1] == out@[a] && o[b - 1] == out@[b]);
                }
            }
        }
        proof {
            vstd::seq_lib::to_multiset_insert(o, p as int, name);
            vstd::seq_lib::to_multiset_build(rest@, name);
            assert(out@ == o.insert(p as int, name));
            assert(out@.to_multiset() == o.to_multiset().insert(name));
            assert(before.to_multiset() == rest@.to_multiset().insert(name));
            assert(out@.to_multiset().add(rest@.to_multiset()) =~= o.to_multiset().add(before.to_multiset()));
        }
    }
    out
}

} // verus!
