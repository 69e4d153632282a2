//! Sorting of keyed places: pairs of a key and a place, by the key first
//! and the place second.
use vstd::prelude::*;
use vstd::multiset::Multiset;
use vstd::seq_lib::{lemma_multiset_commutative, to_multiset_build};

verus! {

/// `a` does not come behind `b`: its key is smaller, or the same and its
/// place is not the later one.
pub open spec fn in_order(a: (u64, usize), b: (u64, usize)) -> bool {
    a.0 < b.0 || (a.0 == b.0 && a.1 <= b.1)
}

/// Each pair of the sequence stands before all that may not come before it.
pub open spec fn sorted(s: Seq<(u64, usize)>) -> bool {
    forall|i: int, j: int| 0 <= i < j < s.len() ==> in_order(#[trigger] s[i], #[trigger] s[j])
}

fn not_behind(a: (u64, usize), b: (u64, usize)) -> (r: bool)
    ensures
        r == in_order(a, b),
{
    a.0 < b.0 || (a.0 == b.0 && a.1 <= b.1)
}

/// The pairs of two sorted vectors in one sorted vector.
fn merge(a: &Vec<(u64, usize)>, b: &Vec<(u64, usize)>) -> (out: Vec<(u64, usize)>)
    requires
        sorted(a@),
        sorted(b@),
    ensures
        sorted(out@),
        out@.to_multiset() == a@.to_multiset().add(b@.to_multiset()),
{
    let mut out: Vec<(u64, usize)> = Vec::new();
    let mut i: usize = 0;
    let mut j: usize = 0;
    proof {
        let none = Seq::<(u64, usize)>::empty();
        assert forall|x: (u64, usize)| none.to_multiset().count(x) == 0 by {
            vstd::seq_lib::to_multiset_contains(none, x);
        }
        assert(none.to_multiset() =~= Multiset::empty());
        assert(a@.take(0) =~= none && b@.take(0) =~= none && out@ =~= none);
        assert(out@.to_multiset() =~= a@.take(0).to_multiset().add(b@.take(0).to_multiset()));
    }
    while i < a.len() || j < b.len()
        invariant
            i <= a.len(),
            j <= b.len(),
            sorted(a@),
            sorted(b@),
            sorted(out@),
            out@.to_multiset() == a@.take(i as int).to_multiset().add(
                b@.take(j as int).to_multiset(),
            ),
            forall|k: int| 0 <= k < out@.len() && i < a.len() ==> in_order(#[trigger] out@[k], a@[i as int]),
            forall|k: int| 0 <= k < out@.len() && j < b.len() ==> in_order(#[trigger] out@[k], b@[j as int]),
        decreases a.len() - i + b.len() - j,
    {
        let ghost before = out@;
        if j == b.len() || (i < a.len() && not_behind(a[i], b[j])) {
            let x = a[i];
            out.push(x);
            proof {
                to_multiset_build(before, x);
                to_multiset_build(a@.take(i as int), x);
                assert(a@.take(i + 1) =~= a@.take(i as int).push(x));
                assert(out@.to_multiset() =~= a@.take(i + 1).to_multiset().add(
                    b@.take(j as int).to_multiset(),
                ));
                assert forall|k: int| 0 <= k < out@.len() && i + 1 < a.len() implies in_order(
                    #[trigger] out@[k],
                    a@[i + 1],
                ) by {
                    assert(in_order(a@[i as int], a@[i + 1]));
                }
            }
            i += 1;
        } else {
            let x = b[j];
            out.push(x);
            proof {
                to_multiset_build(before, x);
                to_multiset_build(b@.take(j as int), x);
                assert(b@.take(j + 1) =~= b@.take(j as int).push(x));
                assert(out@.to_multiset() =~= a@.take(i as int).to_multiset().add(
                    b@.take(j + 1).to_multiset(),
                ));
                assert forall|k: int| 0 <= k < out@.len() && j + 1 < b.len() implies in_order(
                    #[trigger] out@[k],
                    b@[j + 1],
                ) by {
                    assert(in_order(b@[j as int], b@[j + 1]));
                }
            }
            j += 1;
        }
    }
    assert(a@.take(a.len() as int) =~= a@ && b@.take(b.len() as int) =~= b@);
    out
}

/// The pairs of `v` from `lo` up to `hi`, sorted.
fn sort_range(v: &Vec<(u64, usize)>, lo: usize, hi: usize) -> (out: Vec<(u64, usize)>)
    requires
        lo <= hi <= v.len(),
    ensures
        sorted(out@),
        out@.to_multiset() == v@.subrange(lo as int, hi as int).to_multiset(),
    decreases hi - lo,
{
    if hi - lo <= 1 {
        let mut out: Vec<(u64, usize)> = Vec::new();
        if hi - lo == 1 {
            out.push(v[lo]);
        }
        assert(out@ =~= v@.subrange(lo as int, hi as int));
        out
    } else {
        let mid = lo + (hi - lo) / 2;
        let a = sort_range(v, lo, mid);
        let b = sort_range(v, mid, hi);
        proof {
            let left = v@.subrange(lo as int, mid as int);
            let right = v@.subrange(mid as int, hi as int);
            assert(left + right =~= v@.subrange(lo as int, hi as int));
            lemma_multiset_commutative(left, right);
        }
        merge(&a, &b)
    }
}

/// The same pairs, sorted by key and, among equal keys, by place.
pub fn sort_pairs(v: &Vec<(u64, usize)>) -> (out: Vec<(u64, usize)>)
    ensures
        sorted(out@),
        out@.to_multiset() == v@.to_multiset(),
        out@.len() == v@.len(),
{
    let out = sort_range(v, 0, v.len());
    proof {
        assert(v@.subrange(0, v.len() as int) =~= v@);
        vstd::seq_lib::to_multiset_len(out@);
        vstd::seq_lib::to_multiset_len(v@);
    }
    out
}

} // verus!
