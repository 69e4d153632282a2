//! The order of the neighbours of a vector: nearest first, and of two that
//! are as near, the one that stands earlier in the vocabulary.
use vstd::prelude::*;
use crate::ieee::{is_nan, nan, rank, rank_of};

verus! {

/// The word at place `i` is a neighbour of the query: it has another label.
pub open spec fn candidate(labels: Seq<Seq<char>>, query: Seq<char>, i: int) -> bool {
    0 <= i < labels.len() && labels[i] != query
}

/// The word at place `a` comes before the word at place `b`: its distance
/// is the smaller number, or the same number and `a` is the earlier place.
pub open spec fn precedes(distances: Seq<u32>, a: int, b: int) -> bool {
    rank(distances[a]) < rank(distances[b]) || (rank(distances[a]) == rank(distances[b]) && a
        < b)
}

/// `order` holds exactly the neighbours among the first `n` places, each
/// before all that it precedes.
pub open spec fn ranks(
    order: Seq<usize>,
    labels: Seq<Seq<char>>,
    query: Seq<char>,
    distances: Seq<u32>,
    n: int,
) -> bool {
    &&& forall|k: int|
        0 <= k < order.len() ==> (#[trigger] order[k]) < n && candidate(
            labels,
            query,
            order[k] as int,
        )
    &&& forall|i: usize| i < n && candidate(labels, query, i as int) ==> #[trigger] order.contains(i)
    &&& forall|a: int, b: int|
        0 <= a < b < order.len() ==> precedes(
            distances,
            (#[trigger] order[a]) as int,
            (#[trigger] order[b]) as int,
        )
}

/// `order` is the order of all neighbours of the query.
pub open spec fn is_ranking(
    order: Seq<usize>,
    labels: Seq<Seq<char>>,
    query: Seq<char>,
    distances: Seq<u32>,
) -> bool {
    ranks(order, labels, query, distances, labels.len() as int)
}

/// The order of all neighbours of the query.
pub open spec fn ranking(labels: Seq<Seq<char>>, query: Seq<char>, distances: Seq<u32>) -> Seq<
    usize,
> {
    choose|order: Seq<usize>| is_ranking(order, labels, query, distances)
}

/// The distance of some neighbour of the query is not a number.
pub open spec fn unordered(labels: Seq<Seq<char>>, query: Seq<char>, distances: Seq<u32>) -> bool {
    exists|i: int| candidate(labels, query, i) && is_nan(#[trigger] distances[i])
}

/// Two orders of the neighbours agree up to any place that both have.
proof fn lemma_ranking_prefix(
    first: Seq<usize>,
    second: Seq<usize>,
    labels: Seq<Seq<char>>,
    query: Seq<char>,
    distances: Seq<u32>,
    k: int,
)
    requires
        is_ranking(first, labels, query, distances),
        is_ranking(second, labels, query, distances),
        0 <= k <= first.len(),
        k <= second.len(),
    ensures
        forall|j: int| 0 <= j < k ==> first[j] == second[j],
    decreases k,
{
    if k > 0 {
        lemma_ranking_prefix(first, second, labels, query, distances, k - 1);
        let x = first[k - 1];
        let y = second[k - 1];
        if x != y {
            assert(second.contains(x));
            let m = choose|m: int| 0 <= m < second.len() && second[m] == x;
            assert(first.contains(y));
            let l = choose|l: int| 0 <= l < first.len() && first[l] == y;
            if m < k - 1 {
                assert(precedes(distances, first[m] as int, first[k - 1] as int));
            }
            if l < k - 1 {
                assert(precedes(distances, second[l] as int, second[k - 1] as int));
            }
            assert(precedes(distances, second[k - 1] as int, second[m] as int));
            assert(precedes(distances, first[k - 1] as int, first[l] as int));
        }
    }
}

/// There is only one order of the neighbours: whatever is one, is `ranking`.
pub proof fn lemma_ranking_unique(
    order: Seq<usize>,
    labels: Seq<Seq<char>>,
    query: Seq<char>,
    distances: Seq<u32>,
)
    requires
        is_ranking(order, labels, query, distances),
    ensures
        order == ranking(labels, query, distances),
{
    let other = ranking(labels, query, distances);
    assert(is_ranking(other, labels, query, distances));
    let k = if order.len() <= other.len() {
        order.len() as int
    } else {
        other.len() as int
    };
    lemma_ranking_prefix(order, other, labels, query, distances, k);
    if order.len() > k {
        let x = order[k];
        assert(other.contains(x));
        let m = choose|m: int| 0 <= m < other.len() && other[m] == x;
        assert(precedes(distances, order[m] as int, order[k] as int));
    }
    if other.len() > k {
        let x = other[k];
        assert(order.contains(x));
        let m = choose|m: int| 0 <= m < order.len() && order[m] == x;
        assert(precedes(distances, other[m] as int, other[k] as int));
    }
    assert(order =~= other);
}

/// The places of the neighbours in their order, given for each place
/// whether it is a neighbour. Fails where the distance of a neighbour is
/// not a number.
pub(crate) fn rank_neighbours(
    is_candidate: &Vec<bool>,
    distances: &Vec<u32>,
    Ghost(labels): Ghost<Seq<Seq<char>>>,
    Ghost(query): Ghost<Seq<char>>,
) -> (r: Option<Vec<usize>>)
    requires
        distances.len() == labels.len(),
        is_candidate.len() == labels.len(),
        forall|i: int|
            0 <= i < labels.len() ==> #[trigger] is_candidate[i] == candidate(labels, query, i),
    ensures
        match r {
            Some(order) => {
                &&& !unordered(labels, query, distances@)
                &&& is_ranking(order@, labels, query, distances@)
                &&& order@ == ranking(labels, query, distances@)
            },
            None => unordered(labels, query, distances@),
        },
{
    let n = distances.len();
    let mut order: Vec<usize> = Vec::new();
    let mut i: usize = 0;
    while i < n
        invariant
            i <= n,
            n == distances.len(),
            n == labels.len(),
            is_candidate.len() == n,
            forall|i: int|
                0 <= i < labels.len() ==> #[trigger] is_candidate[i] == candidate(labels, query, i),
            ranks(order@, labels, query, distances@, i as int),
            forall|j: int| 0 <= j < i && candidate(labels, query, j) ==> !is_nan(#[trigger] distances[j]),
        decreases n - i,
    {
        if is_candidate[i] {
            if nan(distances[i]) {
                return None;
            }
            let key = rank_of(distances[i]);
            let mut p: usize = order.len();
            while p > 0 && rank_of(distances[order[p - 1]]) > key
                invariant
                    p <= order.len(),
                    i < n,
                    n == distances.len(),
                    key == rank(distances@[i as int]),
                    ranks(order@, labels, query, distances@, i as int),
                    forall|k: int| p <= k < order.len() ==> rank(distances@[order@[k] as int]) > key,
                decreases p,
            {
                p -= 1;
            }
            let ghost before = order@;
            order.insert(p, i);
            proof {
                let after = order@;
                assert forall|k: int| 0 <= k < p implies rank(distances@[before[k] as int])
                    <= key by {
                    if k < p - 1 {
                        assert(precedes(distances@, before[k] as int, before[p - 1] as int));
                    }
                }
                assert forall|a: int, b: int| 0 <= a < b < after.len() implies precedes(
                    distances@,
                    (#[trigger] after[a]) as int,
                    (#[trigger] after[b]) as int,
                ) by {
                    if b < p {
                        assert(after[a] == before[a] && after[b] == before[b]);
                    } else if b == p {
                        assert(after[a] == before[a]);
                    } else if a < p {
                        assert(after[a] == before[a] && after[b] == before[b - 1]);
                    } else if a == p {
                        assert(after[b] == before[b - 1]);
                    } else {
                        assert(after[a] == before[a - 1] && after[b] == before[b - 1]);
                    }
                }
                assert forall|j: usize| j < i + 1 && candidate(labels, query, j as int) implies
                    #[trigger] after.contains(j) by {
                    if j == i {
                        assert(after[p as int] == i);
                    } else {
                        assert(before.contains(j));
                        let m = choose|m: int| 0 <= m < before.len() && before[m] == j;
                        if m < p {
                            assert(after[m] == j);
                        } else {
                            assert(after[m + 1] == j);
                        }
                    }
                }
                assert forall|k: int| 0 <= k < after.len() implies (#[trigger] after[k]) < i + 1
                    && candidate(labels, query, after[k] as int) by {
                    if k < p {
                        assert(after[k] == before[k]);
                    } else if k > p {
                        assert(after[k] == before[k - 1]);
                    }
                }
            }
        }
        i += 1;
    }
    proof {
        lemma_ranking_unique(order@, labels, query, distances@);
    }
    Some(order)
}

} // verus!
