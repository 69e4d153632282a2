//! The windowing of a sentence: which pairs of positions count as
//! co-occurrences, and in which order they are reported.
use vstd::prelude::*;

verus! {

/// One co-occurrence: the word in the centre, the word near it, and the
/// number of positions between them. Its weight is one over the distance.
#[derive(Clone, Copy, Debug, PartialEq, Eq, Structural)]
pub struct Cooccurrence {
    pub from: usize,
    pub to: usize,
    pub dist: usize,
}

/// The number of positions between `i` and `j`.
pub open spec fn distance(i: int, j: int) -> int {
    if i <= j {
        j - i
    } else {
        i - j
    }
}

/// The first position of the window around `i`.
pub open spec fn window_start(i: int, radius: int) -> int {
    if i >= radius {
        i - radius
    } else {
        0
    }
}

/// The position behind the last one of the window around `i`.
pub open spec fn window_end(i: int, radius: int, len: int) -> int {
    if i + radius + 1 <= len {
        i + radius + 1
    } else {
        len
    }
}

/// The positions `i` and `j` of the sentence co-occur: they differ, lie
/// within the radius of each other, and both hold a word of the vocabulary.
pub open spec fn cooccur(slots: Seq<Option<usize>>, radius: int, i: int, j: int) -> bool {
    &&& 0 <= i < slots.len()
    &&& 0 <= j < slots.len()
    &&& i != j
    &&& distance(i, j) <= radius
    &&& slots[i] is Some
    &&& slots[j] is Some
}

/// The co-occurrence of the positions `i` and `j`, seen from `i`.
pub open spec fn pair(slots: Seq<Option<usize>>, i: int, j: int) -> Cooccurrence {
    Cooccurrence { from: slots[i]->0, to: slots[j]->0, dist: distance(i, j) as usize }
}

/// The co-occurrences of the centre `i` with the positions from `j` to the
/// end of its window, in the order of the positions.
pub open spec fn neighbours(slots: Seq<Option<usize>>, radius: int, i: int, j: int) -> Seq<
    Cooccurrence,
>
    decreases window_end(i, radius, slots.len() as int) - j,
{
    if j >= window_end(i, radius, slots.len() as int) {
        Seq::empty()
    } else if cooccur(slots, radius, i, j) {
        seq![pair(slots, i, j)] + neighbours(slots, radius, i, j + 1)
    } else {
        neighbours(slots, radius, i, j + 1)
    }
}

/// The co-occurrences of the centres from `i` on, centre by centre.
pub open spec fn centres(slots: Seq<Option<usize>>, radius: int, i: int) -> Seq<Cooccurrence>
    decreases slots.len() - i,
{
    if i >= slots.len() {
        Seq::empty()
    } else {
        neighbours(slots, radius, i, window_start(i, radius)) + centres(slots, radius, i + 1)
    }
}

/// All co-occurrences of a sentence: for each position in turn as the
/// centre, its co-occurrences with the positions of its window, from the
/// first to the last.
pub open spec fn cooccurrences(slots: Seq<Option<usize>>, radius: int) -> Seq<Cooccurrence> {
    centres(slots, radius, 0)
}

/// The co-occurrences of one centre `i`, appended to `out`.
fn scan_window(slots: &Vec<Option<usize>>, radius: usize, i: usize, out: &mut Vec<Cooccurrence>)
    requires
        i < slots.len(),
    ensures
        final(out)@ == old(out)@ + neighbours(
            slots@,
            radius as int,
            i as int,
            window_start(i as int, radius as int),
        ),
{
    let len = slots.len();
    let start: usize = if i >= radius { i - radius } else { 0 };
    let end: usize = if radius < len - i { i + radius + 1 } else { len };
    let ghost all = neighbours(slots@, radius as int, i as int, start as int);
    let mut j: usize = start;
    assert(old(out)@ + all =~= old(out)@ + neighbours(slots@, radius as int, i as int, j as int));
    while j < end
        invariant
            start <= j <= end,
            i < slots.len(),
            len == slots.len(),
            start == window_start(i as int, radius as int),
            end == window_end(i as int, radius as int, len as int),
            out@ + neighbours(slots@, radius as int, i as int, j as int) == old(out)@ + all,
        decreases end - j,
    {
        let ghost before = out@;
        let ghost tail = neighbours(slots@, radius as int, i as int, j + 1);
        if j != i {
            match (slots[i], slots[j]) {
                (Some(from), Some(to)) => {
                    let dist: usize = if i < j { j - i } else { i - j };
                    assert(cooccur(slots@, radius as int, i as int, j as int));
                    out.push(Cooccurrence { from, to, dist });
                    assert(out@ + tail =~= before + (seq![pair(slots@, i as int, j as int)] + tail));
                },
                _ => {},
            }
        }
        j += 1;
    }
    assert(out@ + Seq::<Cooccurrence>::empty() =~= out@);
}

/// The co-occurrences of a sentence whose positions hold the given words
/// (`None` where the token is no word of the vocabulary).
pub fn window_pairs(slots: &Vec<Option<usize>>, radius: usize) -> (out: Vec<Cooccurrence>)
    ensures
        out@ == cooccurrences(slots@, radius as int),
{
    let mut out: Vec<Cooccurrence> = Vec::new();
    let mut i: usize = 0;
    let ghost all = cooccurrences(slots@, radius as int);
    assert(out@ + centres(slots@, radius as int, 0) =~= all);
    while i < slots.len()
        invariant
            i <= slots.len(),
            out@ + centres(slots@, radius as int, i as int) == all,
        decreases slots.len() - i,
    {
        let ghost before = out@;
        let ghost tail = centres(slots@, radius as int, i + 1);
        scan_window(slots, radius, i, &mut out);
        assert(out@ + tail =~= before + (neighbours(
            slots@,
            radius as int,
            i as int,
            window_start(i as int, radius as int),
        ) + tail));
        i += 1;
    }
    assert(out@ + Seq::<Cooccurrence>::empty() =~= out@);
    out
}

/// Every co-occurrence of a sentence joins two words of the vocabulary that
/// stand at least one and at most `radius` positions apart.
pub proof fn lemma_pairs_bounded(slots: Seq<Option<usize>>, radius: int, n: int)
    requires
        slots.len() <= usize::MAX,
        forall|k: int| 0 <= k < slots.len() ==> (#[trigger] slots[k] matches Some(x) ==> x < n),
    ensures
        forall|k: int|
            0 <= k < cooccurrences(slots, radius).len() ==> {
                let e = #[trigger] cooccurrences(slots, radius)[k];
                e.from < n && e.to < n && 1 <= e.dist <= radius
            },
{
    lemma_centres_bounded(slots, radius, n, 0);
}

/// What `lemma_pairs_bounded` says of a co-occurrence.
spec fn bounded(e: Cooccurrence, radius: int, n: int) -> bool {
    e.from < n && e.to < n && 1 <= e.dist <= radius
}

proof fn lemma_neighbours_bounded(slots: Seq<Option<usize>>, radius: int, n: int, i: int, j: int)
    requires
        slots.len() <= usize::MAX,
        forall|k: int| 0 <= k < slots.len() ==> (#[trigger] slots[k] matches Some(x) ==> x < n),
    ensures
        forall|k: int|
            0 <= k < neighbours(slots, radius, i, j).len() ==> bounded(
                #[trigger] neighbours(slots, radius, i, j)[k],
                radius,
                n,
            ),
    decreases window_end(i, radius, slots.len() as int) - j,
{
    if j < window_end(i, radius, slots.len() as int) {
        lemma_neighbours_bounded(slots, radius, n, i, j + 1);
        let rest = neighbours(slots, radius, i, j + 1);
        if cooccur(slots, radius, i, j) {
            let e = pair(slots, i, j);
            assert(bounded(e, radius, n));
            assert forall|k: int| 0 <= k < (seq![e] + rest).len() implies bounded(
                #[trigger] (seq![e] + rest)[k],
                radius,
                n,
            ) by {
                if k > 0 {
                    assert((seq![e] + rest)[k] == rest[k - 1]);
                }
            }
        }
    }
}

proof fn lemma_centres_bounded(slots: Seq<Option<usize>>, radius: int, n: int, i: int)
    requires
        slots.len() <= usize::MAX,
        forall|k: int| 0 <= k < slots.len() ==> (#[trigger] slots[k] matches Some(x) ==> x < n),
    ensures
        forall|k: int|
            0 <= k < centres(slots, radius, i).len() ==> bounded(
                #[trigger] centres(slots, radius, i)[k],
                radius,
                n,
            ),
    decreases slots.len() - i,
{
    if i < slots.len() {
        let head = neighbours(slots, radius, i, window_start(i, radius));
        let tail = centres(slots, radius, i + 1);
        lemma_neighbours_bounded(slots, radius, n, i, window_start(i, radius));
        lemma_centres_bounded(slots, radius, n, i + 1);
        assert forall|k: int| 0 <= k < (head + tail).len() implies bounded(
            #[trigger] (head + tail)[k],
            radius,
            n,
        ) by {
            if k < head.len() {
                assert((head + tail)[k] == head[k]);
            } else {
                assert((head + tail)[k] == tail[k - head.len()]);
            }
        }
    }
}

/// How often the co-occurrence `e` stands in `pairs`.
pub open spec fn times(pairs: Seq<Cooccurrence>, e: Cooccurrence) -> nat
    decreases pairs.len(),
{
    if pairs.len() == 0 {
        0
    } else {
        times(pairs.drop_first(), e) + if pairs[0] == e {
            1nat
        } else {
            0nat
        }
    }
}

/// The same co-occurrence, seen from the other word.
pub open spec fn mirrored(e: Cooccurrence) -> Cooccurrence {
    Cooccurrence { from: e.to, to: e.from, dist: e.dist }
}

/// 1 where the positions `i` and `j` co-occur as `e`, and else 0.
pub open spec fn hit(slots: Seq<Option<usize>>, radius: int, i: int, j: int, e: Cooccurrence) -> nat {
    if cooccur(slots, radius, i, j) && pair(slots, i, j) == e {
        1
    } else {
        0
    }
}

/// The hits of the centre `i` with the positions below `m`.
pub open spec fn row_hits(slots: Seq<Option<usize>>, radius: int, i: int, m: int, e: Cooccurrence) -> nat
    decreases m,
{
    if m <= 0 {
        0
    } else {
        row_hits(slots, radius, i, m - 1, e) + hit(slots, radius, i, m - 1, e)
    }
}

/// The hits of the centres below `n` with the position `j`.
spec fn column_hits(slots: Seq<Option<usize>>, radius: int, j: int, n: int, e: Cooccurrence) -> nat
    decreases n,
{
    if n <= 0 {
        0
    } else {
        column_hits(slots, radius, j, n - 1, e) + hit(slots, radius, n - 1, j, e)
    }
}

/// The hits of the centres below `n` with the positions below `m`, row by row.
pub open spec fn by_rows(slots: Seq<Option<usize>>, radius: int, n: int, m: int, e: Cooccurrence) -> nat
    decreases n,
{
    if n <= 0 {
        0
    } else {
        by_rows(slots, radius, n - 1, m, e) + row_hits(slots, radius, n - 1, m, e)
    }
}

/// The hits of the centres below `n` with the positions below `m`, column
/// by column.
spec fn by_columns(slots: Seq<Option<usize>>, radius: int, n: int, m: int, e: Cooccurrence) -> nat
    decreases m,
{
    if m <= 0 {
        0
    } else {
        by_columns(slots, radius, n, m - 1, e) + column_hits(slots, radius, m - 1, n, e)
    }
}

proof fn lemma_times_concat(a: Seq<Cooccurrence>, b: Seq<Cooccurrence>, e: Cooccurrence)
    ensures
        times(a + b, e) == times(a, e) + times(b, e),
    decreases a.len(),
{
    if a.len() == 0 {
        assert(a + b =~= b);
    } else {
        assert((a + b).drop_first() =~= a.drop_first() + b);
        lemma_times_concat(a.drop_first(), b, e);
    }
}

/// One more row adds its hits to each column.
proof fn lemma_by_columns_step(
    slots: Seq<Option<usize>>,
    radius: int,
    n: int,
    m: int,
    e: Cooccurrence,
)
    requires
        0 <= n,
    ensures
        by_columns(slots, radius, n + 1, m, e) == by_columns(slots, radius, n, m, e) + row_hits(
            slots,
            radius,
            n,
            m,
            e,
        ),
    decreases m,
{
    if m > 0 {
        lemma_by_columns_step(slots, radius, n, m - 1, e);
    }
}

/// The hits counted row by row are the hits counted column by column.
proof fn lemma_rows_are_columns(
    slots: Seq<Option<usize>>,
    radius: int,
    n: int,
    m: int,
    e: Cooccurrence,
)
    ensures
        by_rows(slots, radius, n, m, e) == by_columns(slots, radius, n, m, e),
    decreases n,
{
    if n <= 0 {
        lemma_no_rows(slots, radius, n, m, e);
    } else {
        lemma_rows_are_columns(slots, radius, n - 1, m, e);
        lemma_by_columns_step(slots, radius, n - 1, m, e);
    }
}

proof fn lemma_no_rows(slots: Seq<Option<usize>>, radius: int, n: int, m: int, e: Cooccurrence)
    requires
        n <= 0,
    ensures
        by_columns(slots, radius, n, m, e) == 0,
    decreases m,
{
    if m > 0 {
        lemma_no_rows(slots, radius, n, m - 1, e);
    }
}

/// A hit of `i` with `j` as `e` is a hit of `j` with `i` as `e` mirrored.
proof fn lemma_hit_mirrored(slots: Seq<Option<usize>>, radius: int, i: int, j: int, e: Cooccurrence)
    ensures
        hit(slots, radius, i, j, e) == hit(slots, radius, j, i, mirrored(e)),
{
}

proof fn lemma_row_is_mirrored_column(
    slots: Seq<Option<usize>>,
    radius: int,
    i: int,
    m: int,
    e: Cooccurrence,
)
    ensures
        row_hits(slots, radius, i, m, e) == column_hits(slots, radius, i, m, mirrored(e)),
    decreases m,
{
    if m > 0 {
        lemma_row_is_mirrored_column(slots, radius, i, m - 1, e);
        lemma_hit_mirrored(slots, radius, i, m - 1, e);
    }
}

/// The rows below `n`, each up to `m`, hold as many hits of `e` as the
/// columns below `n`, each up to `m`, hold of `e` mirrored.
proof fn lemma_rows_mirror(slots: Seq<Option<usize>>, radius: int, n: int, m: int, e: Cooccurrence)
    ensures
        by_rows(slots, radius, n, m, e) == by_columns(slots, radius, m, n, mirrored(e)),
    decreases n,
{
    if n > 0 {
        lemma_rows_mirror(slots, radius, n - 1, m, e);
        lemma_row_is_mirrored_column(slots, radius, n - 1, m, e);
    }
}

/// Outside the window of `i` nothing co-occurs with `i`, so the hits of a
/// row do not change there.
proof fn lemma_row_outside_window(
    slots: Seq<Option<usize>>,
    radius: int,
    i: int,
    lo: int,
    hi: int,
    e: Cooccurrence,
)
    requires
        0 <= i < slots.len(),
        lo <= hi,
        hi <= window_start(i, radius) || window_end(i, radius, slots.len() as int) <= lo,
    ensures
        row_hits(slots, radius, i, hi, e) == row_hits(slots, radius, i, lo, e),
    decreases hi - lo,
{
    if lo < hi {
        lemma_row_outside_window(slots, radius, i, lo, hi - 1, e);
        if hi <= 0 {
            lemma_row_below_zero(slots, radius, i, hi, e);
            lemma_row_below_zero(slots, radius, i, hi - 1, e);
        }
    }
}

proof fn lemma_row_below_zero(slots: Seq<Option<usize>>, radius: int, i: int, m: int, e: Cooccurrence)
    requires
        m <= 0,
    ensures
        row_hits(slots, radius, i, m, e) == 0,
{
}

/// The co-occurrences of the centre `i` from `j` on are the hits of its row
/// from `j` on.
proof fn lemma_neighbours_hits(
    slots: Seq<Option<usize>>,
    radius: int,
    i: int,
    j: int,
    e: Cooccurrence,
)
    requires
        0 <= i < slots.len(),
        0 <= j,
    ensures
        times(neighbours(slots, radius, i, j), e) + row_hits(slots, radius, i, j, e) == row_hits(
            slots,
            radius,
            i,
            if j <= window_end(i, radius, slots.len() as int) {
                window_end(i, radius, slots.len() as int)
            } else {
                j
            },
            e,
        ),
    decreases window_end(i, radius, slots.len() as int) - j,
{
    if j < window_end(i, radius, slots.len() as int) {
        lemma_neighbours_hits(slots, radius, i, j + 1, e);
        if cooccur(slots, radius, i, j) {
            let rest = neighbours(slots, radius, i, j + 1);
            let head = seq![pair(slots, i, j)];
            assert((head + rest).drop_first() =~= rest);
        }
    }
}

/// The co-occurrences of the centres from `i` on are the hits of their rows.
proof fn lemma_centres_hits(slots: Seq<Option<usize>>, radius: int, i: int, e: Cooccurrence)
    requires
        0 <= i <= slots.len(),
    ensures
        times(centres(slots, radius, i), e) + by_rows(
            slots,
            radius,
            i,
            slots.len() as int,
            e,
        ) == by_rows(slots, radius, slots.len() as int, slots.len() as int, e),
    decreases slots.len() - i,
{
    if i < slots.len() {
        let len = slots.len() as int;
        let start = window_start(i, radius);
        let end = window_end(i, radius, len);
        lemma_centres_hits(slots, radius, i + 1, e);
        lemma_times_concat(neighbours(slots, radius, i, start), centres(slots, radius, i + 1), e);
        lemma_neighbours_hits(slots, radius, i, start, e);
        lemma_row_outside_window(slots, radius, i, 0, start, e);
        lemma_row_outside_window(slots, radius, i, end, len, e);
        if end < start {
            // a negative radius: the window is empty
            if 0 <= end {
                lemma_row_outside_window(slots, radius, i, end, start, e);
            }
        }
    }
}

/// The number of pairs of positions of the sentence that co-occur as `e`.
pub open spec fn hits(slots: Seq<Option<usize>>, radius: int, e: Cooccurrence) -> nat {
    by_rows(slots, radius, slots.len() as int, slots.len() as int, e)
}

/// A sentence yields each co-occurrence exactly as often as there are
/// pairs of its positions that co-occur so: none is left out, and none is
/// yielded that no pair of positions gives.
pub proof fn lemma_cooccurrences_counted(slots: Seq<Option<usize>>, radius: int, e: Cooccurrence)
    ensures
        times(cooccurrences(slots, radius), e) == hits(slots, radius, e),
{
    lemma_centres_hits(slots, radius, 0, e);
}

/// Co-occurrence is counted symmetrically: a sentence yields the
/// co-occurrence of a word `a` with a word `b` at some distance exactly as
/// often as that of `b` with `a` at that distance.
pub proof fn lemma_cooccurrences_symmetric(slots: Seq<Option<usize>>, radius: int, e: Cooccurrence)
    ensures
        times(cooccurrences(slots, radius), e) == times(cooccurrences(slots, radius), mirrored(e)),
{
    let len = slots.len() as int;
    lemma_centres_hits(slots, radius, 0, e);
    lemma_centres_hits(slots, radius, 0, mirrored(e));
    lemma_rows_mirror(slots, radius, len, len, e);
    lemma_rows_are_columns(slots, radius, len, len, mirrored(e));
}

} // verus!
