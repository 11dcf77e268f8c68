//! What a set of time intervals covers, and the laws that the interval
//! operations keep: intersecting, merging and inverting sets of intervals
//! act on what the intervals cover as intersection, union and complement do.
//!
//! An interval `[start, end)` covers the times `t` with `start <= t < end`.
use vstd::prelude::*;

use crate::filters::filtering::in_some_range;
use crate::utils::{
    filter_times_spec, intersect_from, kept_time_ranges, lemma_merged_len, lemma_merge_from_len, lemma_sort_sorted_contains, merge_from, merged_intervals,
    sort_by_start, sorted_by_start, zip_intervals,
};

verus! {

/// Whether one of the intervals from index `i0` on covers `t`.
pub open spec fn covers_from(starts: Seq<usize>, ends: Seq<usize>, i0: int, t: int) -> bool {
    exists|i: int| #![trigger starts[i]] i0 <= i < starts.len() && i < ends.len() && starts[i] <= t < ends[i]
}

/// The intervals are as many as their ends, each runs forward, and each ends
/// at or before the start of every later one.
pub open spec fn disjoint_sorted(starts: Seq<usize>, ends: Seq<usize>) -> bool {
    &&& starts.len() == ends.len()
    &&& forall|i: int| 0 <= i < starts.len() ==> #[trigger] starts[i] <= ends[i]
    &&& forall|i: int, j: int| 0 <= i < j < starts.len() ==> #[trigger] ends[i] <= #[trigger] starts[j]
}

proof fn lemma_covers_from_zero(starts: Seq<usize>, ends: Seq<usize>, t: int)
    ensures
        covers_from(starts, ends, 0, t) == in_some_range(starts, ends, t),
{
    if covers_from(starts, ends, 0, t) {
        let i = choose|i: int| #![trigger starts[i]] 0 <= i < starts.len() && i < ends.len() && starts[i] <= t < ends[i];
        assert(starts[i] <= t < ends[i]);
    }
    if in_some_range(starts, ends, t) {
        let i = choose|i: int| #![trigger starts[i]] 0 <= i < starts.len() && i < ends.len() && starts[i] <= t < ends[i];
        assert(starts[i] <= t < ends[i]);
    }
}

/// Covering from `i0` is covering by interval `i0` or from `i0 + 1`.
proof fn lemma_covers_from_step(starts: Seq<usize>, ends: Seq<usize>, i0: int, t: int)
    requires
        0 <= i0 < starts.len(),
        i0 < ends.len(),
    ensures
        covers_from(starts, ends, i0, t) == ((starts[i0] <= t < ends[i0]) || covers_from(
            starts,
            ends,
            i0 + 1,
            t,
        )),
{
    if covers_from(starts, ends, i0, t) {
        let i = choose|i: int| #![trigger starts[i]] i0 <= i < starts.len() && i < ends.len() && starts[i] <= t < ends[i];
        if i > i0 {
            assert(starts[i] <= t < ends[i]);
        }
    }
    if covers_from(starts, ends, i0 + 1, t) {
        let i = choose|i: int| #![trigger starts[i]] i0 + 1 <= i < starts.len() && i < ends.len() && starts[i] <= t < ends[i];
        assert(starts[i] <= t < ends[i]);
    }
    if starts[i0] <= t < ends[i0] {
        assert(starts[i0] <= t < ends[i0]);
    }
}

/// Putting one interval in front adds what it covers.
proof fn lemma_covers_prepend(starts: Seq<usize>, ends: Seq<usize>, s: usize, e: usize, t: int)
    requires
        starts.len() == ends.len(),
    ensures
        in_some_range(seq![s] + starts, seq![e] + ends, t) == ((s <= t < e) || in_some_range(
            starts,
            ends,
            t,
        )),
{
    let s2 = seq![s] + starts;
    let e2 = seq![e] + ends;
    lemma_covers_from_zero(s2, e2, t);
    lemma_covers_from_step(s2, e2, 0, t);
    lemma_covers_from_zero(starts, ends, t);
    if covers_from(s2, e2, 1, t) {
        let i = choose|i: int| #![trigger s2[i]] 1 <= i < s2.len() && i < e2.len() && s2[i] <= t < e2[i];
        assert(starts[i - 1] <= t < ends[i - 1]);
    }
    if covers_from(starts, ends, 0, t) {
        let i = choose|i: int| #![trigger starts[i]] 0 <= i < starts.len() && i < ends.len() && starts[i] <= t < ends[i];
        assert(s2[i + 1] <= t < e2[i + 1]);
    }
}

/// What `intersect_from` produces from index `a` and `b` on covers exactly
/// what both sets cover from there on.
proof fn lemma_intersect_from_covers(
    starts_a: Seq<usize>,
    ends_a: Seq<usize>,
    starts_b: Seq<usize>,
    ends_b: Seq<usize>,
    a: int,
    b: int,
    t: int,
)
    requires
        disjoint_sorted(starts_a, ends_a),
        disjoint_sorted(starts_b, ends_b),
        0 <= a <= starts_a.len(),
        0 <= b <= starts_b.len(),
    ensures
        intersect_from(starts_a, ends_a, starts_b, ends_b, a, b).0.len() == intersect_from(
            starts_a,
            ends_a,
            starts_b,
            ends_b,
            a,
            b,
        ).1.len(),
        in_some_range(
            intersect_from(starts_a, ends_a, starts_b, ends_b, a, b).0,
            intersect_from(starts_a, ends_a, starts_b, ends_b, a, b).1,
            t,
        ) == (covers_from(starts_a, ends_a, a, t) && covers_from(starts_b, ends_b, b, t)),
    decreases starts_a.len() - a + starts_b.len() - b,
{
    let out = intersect_from(starts_a, ends_a, starts_b, ends_b, a, b);
    if a < starts_a.len() && b < starts_b.len() {
        let sa = starts_a[a];
        let ea = ends_a[a];
        let sb = starts_b[b];
        let eb = ends_b[b];
        let start = if sa >= sb {
            sa
        } else {
            sb
        };
        let end = if ea <= eb {
            ea
        } else {
            eb
        };
        lemma_covers_from_step(starts_a, ends_a, a, t);
        lemma_covers_from_step(starts_b, ends_b, b, t);
        let rest = if ea < eb {
            lemma_intersect_from_covers(starts_a, ends_a, starts_b, ends_b, a + 1, b, t);
            intersect_from(starts_a, ends_a, starts_b, ends_b, a + 1, b)
        } else {
            lemma_intersect_from_covers(starts_a, ends_a, starts_b, ends_b, a, b + 1, t);
            intersect_from(starts_a, ends_a, starts_b, ends_b, a, b + 1)
        };
        if start < end {
            lemma_covers_prepend(rest.0, rest.1, start, end, t);
        }
        // an interval of one set that ends first meets no later interval of the other
        if ea < eb && covers_from(starts_b, ends_b, b + 1, t) && sa <= t < ea {
            let j = choose|j: int| #![trigger starts_b[j]] b + 1 <= j < starts_b.len() && j < ends_b.len() && starts_b[j] <= t < ends_b[j];
            assert(ends_b[b] <= starts_b[j]);
        }
        if ea >= eb && covers_from(starts_a, ends_a, a + 1, t) && sb <= t < eb {
            let i = choose|i: int| #![trigger starts_a[i]] a + 1 <= i < starts_a.len() && i < ends_a.len() && starts_a[i] <= t < ends_a[i];
            assert(ends_a[a] <= starts_a[i]);
        }
    } else {
        lemma_covers_from_zero(out.0, out.1, t);
        if a >= starts_a.len() {
            assert(!covers_from(starts_a, ends_a, a, t));
        }
        if b >= starts_b.len() {
            assert(!covers_from(starts_b, ends_b, b, t));
        }
    }
}

/// Intersecting two sets of sorted, disjoint intervals covers exactly the
/// times that both sets cover.
pub proof fn law_intersect_covers(
    starts_a: Seq<usize>,
    ends_a: Seq<usize>,
    starts_b: Seq<usize>,
    ends_b: Seq<usize>,
    t: int,
)
    requires
        disjoint_sorted(starts_a, ends_a),
        disjoint_sorted(starts_b, ends_b),
    ensures
        in_some_range(
            intersect_from(starts_a, ends_a, starts_b, ends_b, 0, 0).0,
            intersect_from(starts_a, ends_a, starts_b, ends_b, 0, 0).1,
            t,
        ) == (in_some_range(starts_a, ends_a, t) && in_some_range(starts_b, ends_b, t)),
{
    lemma_intersect_from_covers(starts_a, ends_a, starts_b, ends_b, 0, 0, t);
    lemma_covers_from_zero(starts_a, ends_a, t);
    lemma_covers_from_zero(starts_b, ends_b, t);
}

/// The intervals are as many as their ends, each runs forward, and each ends
/// strictly before the start of every later one.
pub open spec fn separated(starts: Seq<usize>, ends: Seq<usize>) -> bool {
    &&& starts.len() == ends.len()
    &&& forall|i: int| 0 <= i < starts.len() ==> #[trigger] starts[i] <= ends[i]
    &&& forall|i: int, j: int| 0 <= i < j < starts.len() ==> #[trigger] ends[i] < #[trigger] starts[j]
}

/// Whether one of the interval pairs from index `i0` on covers `t`.
pub open spec fn pairs_cover(s: Seq<(usize, usize)>, i0: int, t: int) -> bool {
    exists|k: int| #![trigger s[k]] i0 <= k < s.len() && s[k].0 <= t < s[k].1
}

proof fn lemma_pairs_cover_step(s: Seq<(usize, usize)>, i0: int, t: int)
    requires
        0 <= i0 < s.len(),
    ensures
        pairs_cover(s, i0, t) == ((s[i0].0 <= t < s[i0].1) || pairs_cover(s, i0 + 1, t)),
{
    if pairs_cover(s, i0, t) {
        let k = choose|k: int| #![trigger s[k]] i0 <= k < s.len() && s[k].0 <= t < s[k].1;
        if k > i0 {
            assert(s[k].0 <= t < s[k].1);
        }
    }
    if pairs_cover(s, i0 + 1, t) {
        let k = choose|k: int| #![trigger s[k]] i0 + 1 <= k < s.len() && s[k].0 <= t < s[k].1;
        assert(s[k].0 <= t < s[k].1);
    }
    if s[i0].0 <= t < s[i0].1 {
        assert(s[i0].0 <= t < s[i0].1);
    }
}

/// Merging from index `i` on into `cur` gives separated intervals that start
/// no earlier than `cur`.
proof fn lemma_merge_shape(s: Seq<(usize, usize)>, cur: (usize, usize), i: int)
    requires
        sorted_by_start(s),
        0 <= i,
        cur.0 <= cur.1,
        forall|k: int| i <= k < s.len() ==> cur.0 <= #[trigger] s[k].0 && s[k].0 <= s[k].1,
    ensures
        separated(merge_from(s, cur, i).0, merge_from(s, cur, i).1),
        forall|k: int|
            0 <= k < merge_from(s, cur, i).0.len() ==> cur.0 <= #[trigger] merge_from(s, cur, i).0[k],
    decreases s.len() - i,
{
    lemma_merge_from_len(s, cur, i);
    if i < s.len() {
        if s[i].0 <= cur.1 {
            let next = (
                cur.0,
                if cur.1 >= s[i].1 {
                    cur.1
                } else {
                    s[i].1
                },
            );
            lemma_merge_shape(s, next, i + 1);
        } else {
            assert forall|k: int| i + 1 <= k < s.len() implies s[i].0 <= #[trigger] s[k].0 && s[k].0
                <= s[k].1 by {
                assert(s[i].0 <= s[k].0);
            }
            lemma_merge_shape(s, s[i], i + 1);
            lemma_merge_from_len(s, s[i], i + 1);
            let rest = merge_from(s, s[i], i + 1);
            let out = merge_from(s, cur, i);
            assert(out.0 == seq![cur.0] + rest.0);
            assert(out.1 == seq![cur.1] + rest.1);
            assert forall|k: int| 0 <= k < out.0.len() implies cur.0 <= #[trigger] out.0[k] by {
                if k > 0 {
                    assert(out.0[k] == rest.0[k - 1]);
                }
            }
            assert forall|a: int, b: int| 0 <= a < b < out.0.len() implies #[trigger] out.1[a]
                < #[trigger] out.0[b] by {
                assert(out.0[b] == rest.0[b - 1]);
                if a > 0 {
                    assert(out.1[a] == rest.1[a - 1]);
                }
            }
            assert forall|a: int| 0 <= a < out.0.len() implies #[trigger] out.0[a] <= out.1[a] by {
                if a > 0 {
                    assert(out.0[a] == rest.0[a - 1]);
                    assert(out.1[a] == rest.1[a - 1]);
                }
            }
        }
    } else {
        let out = merge_from(s, cur, i);
        assert(out.0 == seq![cur.0]);
    }
}

/// Merging from index `i` on into `cur` covers what `cur` and the intervals
/// from `i` on cover.
proof fn lemma_merge_covers(s: Seq<(usize, usize)>, cur: (usize, usize), i: int, t: int)
    requires
        sorted_by_start(s),
        0 <= i,
        forall|k: int| i <= k < s.len() ==> cur.0 <= #[trigger] s[k].0,
    ensures
        in_some_range(merge_from(s, cur, i).0, merge_from(s, cur, i).1, t) == ((cur.0 <= t < cur.1)
            || pairs_cover(s, i, t)),
    decreases s.len() - i,
{
    if i < s.len() {
        lemma_pairs_cover_step(s, i, t);
        if s[i].0 <= cur.1 {
            let next = (
                cur.0,
                if cur.1 >= s[i].1 {
                    cur.1
                } else {
                    s[i].1
                },
            );
            lemma_merge_covers(s, next, i + 1, t);
        } else {
            assert forall|k: int| i + 1 <= k < s.len() implies s[i].0 <= #[trigger] s[k].0 by {
                assert(s[i].0 <= s[k].0);
            }
            lemma_merge_covers(s, s[i], i + 1, t);
            lemma_merge_from_len(s, s[i], i + 1);
            let rest = merge_from(s, s[i], i + 1);
            lemma_covers_prepend(rest.0, rest.1, cur.0, cur.1, t);
        }
    } else {
        let empty: Seq<usize> = seq![];
        lemma_covers_prepend(empty, empty, cur.0, cur.1, t);
        assert(seq![cur.0] + empty =~= seq![cur.0]);
        assert(seq![cur.1] + empty =~= seq![cur.1]);
        lemma_covers_from_zero(empty, empty, t);
    }
}

/// Removing overlaps from intervals that run forward gives separated
/// intervals, sorted by start, that cover exactly what the given ones cover.
pub proof fn law_remove_overlaps_covers(starts: Seq<usize>, ends: Seq<usize>, t: int)
    requires
        forall|i: int| 0 <= i < starts.len() && i < ends.len() ==> #[trigger] starts[i] <= ends[i],
    ensures
        separated(merged_intervals(starts, ends).0, merged_intervals(starts, ends).1),
        in_some_range(merged_intervals(starts, ends).0, merged_intervals(starts, ends).1, t)
            == in_some_range(starts, ends, t),
{
    let z = zip_intervals(starts, ends);
    let sorted = sort_by_start(z);
    lemma_sort_sorted_contains(z);
    if z.len() == 0 {
        let m = merged_intervals(starts, ends);
        assert(m.0.len() == 0);
        if in_some_range(starts, ends, t) {
            let j = choose|j: int| #![trigger starts[j]] 0 <= j < starts.len() && j < ends.len() && starts[j] <= t < ends[j];
            assert(z.len() > j);
        }
    } else {
        // every sorted pair is one of the given intervals, so runs forward
        assert forall|k: int| 0 <= k < sorted.len() implies #[trigger] sorted[k].0 <= sorted[k].1 by {
            assert(sorted.contains(sorted[k]));
            assert(z.contains(sorted[k]));
            let m = choose|m: int| 0 <= m < z.len() && z[m] == sorted[k];
            assert(starts[m] <= ends[m]);
        }
        assert forall|k: int| 1 <= k < sorted.len() implies sorted[0].0 <= #[trigger] sorted[k].0
            && sorted[k].0 <= sorted[k].1 by {
            assert(sorted[k].0 <= sorted[k].1);
        }
        lemma_merge_shape(sorted, sorted[0], 1);
        lemma_merge_covers(sorted, sorted[0], 1, t);
        lemma_pairs_cover_step(sorted, 0, t);
        // covering by the sorted pairs is covering by the given intervals
        if pairs_cover(sorted, 0, t) {
            let k = choose|k: int| #![trigger sorted[k]] 0 <= k < sorted.len() && sorted[k].0 <= t < sorted[k].1;
            assert(sorted.contains(sorted[k]));
            let m = choose|m: int| 0 <= m < z.len() && z[m] == sorted[k];
            assert(starts[m] <= t < ends[m]);
        }
        if in_some_range(starts, ends, t) {
            let j = choose|j: int| #![trigger starts[j]] 0 <= j < starts.len() && j < ends.len() && starts[j] <= t < ends[j];
            assert(z[j] == (starts[j], ends[j]));
            assert(z.contains(z[j]));
            assert(sorted.contains(z[j]));
            let k = choose|k: int| 0 <= k < sorted.len() && sorted[k] == z[j];
            assert(sorted[k].0 <= t < sorted[k].1);
        }
    }
}

/// Some interval of `s` starts at `x`.
spec fn has_start(s: Seq<(usize, usize)>, x: usize) -> bool {
    exists|k: int| 0 <= k < s.len() && s[k].0 == x
}

/// Some interval of `s` ends at `x`.
spec fn has_end(s: Seq<(usize, usize)>, x: usize) -> bool {
    exists|k: int| 0 <= k < s.len() && s[k].1 == x
}

/// Merging from index `i` on into `cur`, where `cur` starts and ends where
/// intervals of `s` do, gives starts and ends of intervals of `s`.
proof fn lemma_merge_endpoints(s: Seq<(usize, usize)>, cur: (usize, usize), i: int)
    requires
        0 <= i,
        has_start(s, cur.0),
        has_end(s, cur.1),
    ensures
        forall|j: int|
            0 <= j < merge_from(s, cur, i).0.len() ==> has_start(s, #[trigger] merge_from(s, cur, i).0[j]),
        forall|j: int|
            0 <= j < merge_from(s, cur, i).1.len() ==> has_end(s, #[trigger] merge_from(s, cur, i).1[j]),
    decreases s.len() - i,
{
    lemma_merge_from_len(s, cur, i);
    let out = merge_from(s, cur, i);
    if i < s.len() {
        assert(has_start(s, s[i].0) && has_end(s, s[i].1));
        if s[i].0 <= cur.1 {
            let next = (
                cur.0,
                if cur.1 >= s[i].1 {
                    cur.1
                } else {
                    s[i].1
                },
            );
            assert(has_end(s, next.1));
            lemma_merge_endpoints(s, next, i + 1);
            assert(out == merge_from(s, next, i + 1));
        } else {
            lemma_merge_endpoints(s, s[i], i + 1);
            let rest = merge_from(s, s[i], i + 1);
            assert(out.0 == seq![cur.0] + rest.0);
            assert(out.1 == seq![cur.1] + rest.1);
            assert forall|j: int| 0 <= j < out.0.len() implies has_start(s, #[trigger] out.0[j]) by {
                if j > 0 {
                    assert(out.0[j] == rest.0[j - 1]);
                }
            }
            assert forall|j: int| 0 <= j < out.1.len() implies has_end(s, #[trigger] out.1[j]) by {
                if j > 0 {
                    assert(out.1[j] == rest.1[j - 1]);
                }
            }
        }
    } else {
        assert(out.0 == seq![cur.0]);
        assert(out.1 == seq![cur.1]);
    }
}

/// Removing overlaps from as many starts as ends gives as many starts as
/// ends, none at all exactly when none were given, and every start and end it
/// gives is one of the given starts and ends.
pub proof fn law_remove_overlaps_endpoints(starts: Seq<usize>, ends: Seq<usize>)
    requires
        starts.len() == ends.len(),
    ensures
        merged_intervals(starts, ends).0.len() == merged_intervals(starts, ends).1.len(),
        (merged_intervals(starts, ends).0.len() == 0) == (starts.len() == 0),
        forall|j: int|
            0 <= j < merged_intervals(starts, ends).0.len() ==> starts.contains(
                #[trigger] merged_intervals(starts, ends).0[j],
            ),
        forall|j: int|
            0 <= j < merged_intervals(starts, ends).1.len() ==> ends.contains(
                #[trigger] merged_intervals(starts, ends).1[j],
            ),
{
    let z = zip_intervals(starts, ends);
    let sorted = sort_by_start(z);
    let m = merged_intervals(starts, ends);
    lemma_merged_len(starts, ends);
    lemma_sort_sorted_contains(z);
    if sorted.len() > 0 {
        assert(has_start(sorted, sorted[0].0) && has_end(sorted, sorted[0].1));
        lemma_merge_endpoints(sorted, sorted[0], 1);
        assert forall|j: int| 0 <= j < m.0.len() implies starts.contains(#[trigger] m.0[j]) by {
            assert(has_start(sorted, m.0[j]));
            let k = choose|k: int| 0 <= k < sorted.len() && sorted[k].0 == m.0[j];
            assert(sorted.contains(sorted[k]));
            assert(z.contains(sorted[k]));
            let q = choose|q: int| 0 <= q < z.len() && z[q] == sorted[k];
            assert(starts[q] == m.0[j]);
        }
        assert forall|j: int| 0 <= j < m.1.len() implies ends.contains(#[trigger] m.1[j]) by {
            assert(has_end(sorted, m.1[j]));
            let k = choose|k: int| 0 <= k < sorted.len() && sorted[k].1 == m.1[j];
            assert(sorted.contains(sorted[k]));
            assert(z.contains(sorted[k]));
            let q = choose|q: int| 0 <= q < z.len() && z[q] == sorted[k];
            assert(ends[q] == m.1[j]);
        }
    }
}

/// The intersection from indices `i` and `j` on gives as many starts as ends,
/// each interval nonempty, each ending at or before the start of every later
/// one, and starting no earlier than the current intervals of both sets.
proof fn lemma_intersect_shape(
    starts_a: Seq<usize>,
    ends_a: Seq<usize>,
    starts_b: Seq<usize>,
    ends_b: Seq<usize>,
    i: int,
    j: int,
)
    requires
        disjoint_sorted(starts_a, ends_a),
        disjoint_sorted(starts_b, ends_b),
        0 <= i,
        0 <= j,
    ensures
        ({
            let r = intersect_from(starts_a, ends_a, starts_b, ends_b, i, j);
            &&& r.0.len() == r.1.len()
            &&& forall|k: int| 0 <= k < r.0.len() ==> #[trigger] r.0[k] < r.1[k]
            &&& forall|k: int, l: int| 0 <= k < l < r.0.len() ==> #[trigger] r.1[k] <= #[trigger] r.0[l]
            &&& (i < starts_a.len() && j < starts_b.len()) ==> forall|k: int|
                0 <= k < r.0.len() ==> starts_a[i] <= #[trigger] r.0[k] && starts_b[j] <= r.0[k]
        }),
    decreases starts_a.len() - i + starts_b.len() - j,
{
    if i < starts_a.len() && j < starts_b.len() {
        let start = if starts_a[i] >= starts_b[j] {
            starts_a[i]
        } else {
            starts_b[j]
        };
        let end = if ends_a[i] <= ends_b[j] {
            ends_a[i]
        } else {
            ends_b[j]
        };
        let out = intersect_from(starts_a, ends_a, starts_b, ends_b, i, j);
        let rest = if ends_a[i] < ends_b[j] {
            intersect_from(starts_a, ends_a, starts_b, ends_b, i + 1, j)
        } else {
            intersect_from(starts_a, ends_a, starts_b, ends_b, i, j + 1)
        };
        if ends_a[i] < ends_b[j] {
            lemma_intersect_shape(starts_a, ends_a, starts_b, ends_b, i + 1, j);
            if i + 1 < starts_a.len() {
                assert(ends_a[i] <= starts_a[i + 1]);
                assert(starts_a[i] <= ends_a[i]);
            }
        } else {
            lemma_intersect_shape(starts_a, ends_a, starts_b, ends_b, i, j + 1);
            if j + 1 < starts_b.len() {
                assert(ends_b[j] <= starts_b[j + 1]);
                assert(starts_b[j] <= ends_b[j]);
            }
        }
        // every later interval starts at or after the end of this overlap
        assert forall|k: int| 0 <= k < rest.0.len() implies end <= #[trigger] rest.0[k] && start
            <= rest.0[k] by {
            if ends_a[i] < ends_b[j] {
                assert(i + 1 < starts_a.len());
                assert(ends_a[i] <= starts_a[i + 1]);
            } else {
                assert(j + 1 < starts_b.len());
                assert(ends_b[j] <= starts_b[j + 1]);
            }
        }
        if start < end {
            assert(out.0 == seq![start] + rest.0);
            assert(out.1 == seq![end] + rest.1);
            assert forall|k: int| 0 <= k < out.0.len() implies #[trigger] out.0[k] < out.1[k] by {
                if k > 0 {
                    assert(out.0[k] == rest.0[k - 1]);
                    assert(out.1[k] == rest.1[k - 1]);
                }
            }
            assert forall|k: int, l: int| 0 <= k < l < out.0.len() implies #[trigger] out.1[k]
                <= #[trigger] out.0[l] by {
                assert(out.0[l] == rest.0[l - 1]);
                if k > 0 {
                    assert(out.1[k] == rest.1[k - 1]);
                }
            }
            assert forall|k: int| 0 <= k < out.0.len() implies starts_a[i] <= #[trigger] out.0[k]
                && starts_b[j] <= out.0[k] by {
                if k > 0 {
                    assert(out.0[k] == rest.0[k - 1]);
                }
            }
        } else {
            assert(out == rest);
        }
    }
}

/// Intersecting two sets of sorted, disjoint intervals gives as many starts
/// as ends, each interval nonempty, sorted, each ending at or before the
/// start of every later one.
pub proof fn law_intersect_shape(
    starts_a: Seq<usize>,
    ends_a: Seq<usize>,
    starts_b: Seq<usize>,
    ends_b: Seq<usize>,
)
    requires
        disjoint_sorted(starts_a, ends_a),
        disjoint_sorted(starts_b, ends_b),
    ensures
        disjoint_sorted(
            intersect_from(starts_a, ends_a, starts_b, ends_b, 0, 0).0,
            intersect_from(starts_a, ends_a, starts_b, ends_b, 0, 0).1,
        ),
        forall|k: int|
            0 <= k < intersect_from(starts_a, ends_a, starts_b, ends_b, 0, 0).0.len()
                ==> #[trigger] intersect_from(starts_a, ends_a, starts_b, ends_b, 0, 0).0[k]
                < intersect_from(starts_a, ends_a, starts_b, ends_b, 0, 0).1[k],
{
    lemma_intersect_shape(starts_a, ends_a, starts_b, ends_b, 0, 0);
}

/// The gaps around intervals within `[min, max]`: before the first, between
/// each two, and after the last, as `invert_intervals` gives them.
pub open spec fn gaps(starts: Seq<usize>, ends: Seq<usize>, min: usize, max: usize) -> (Seq<usize>, Seq<usize>) {
    (seq![min] + ends, starts.push(max))
}

/// Every interval lies within `[min, max]`.
pub open spec fn within(starts: Seq<usize>, ends: Seq<usize>, min: usize, max: usize) -> bool {
    forall|i: int| 0 <= i < starts.len() && i < ends.len() ==> min <= #[trigger] starts[i] && ends[i] <= max
}

/// A time at or after the start of gap `k` that no interval covers lies in
/// gap `k` or a later one.
proof fn lemma_find_gap(starts: Seq<usize>, ends: Seq<usize>, min: usize, max: usize, t: int, k: int)
    requires
        disjoint_sorted(starts, ends),
        0 <= k <= starts.len(),
        gaps(starts, ends, min, max).0[k] <= t < max,
        !in_some_range(starts, ends, t),
    ensures
        in_some_range(gaps(starts, ends, min, max).0, gaps(starts, ends, min, max).1, t),
    decreases starts.len() - k,
{
    let g = gaps(starts, ends, min, max);
    if k == starts.len() || t < starts[k] {
        assert(g.0[k] <= t < g.1[k]);
    } else {
        if t < ends[k] {
            assert(starts[k] <= t < ends[k]);
        }
        assert(g.0[k + 1] == ends[k]);
        lemma_find_gap(starts, ends, min, max, t, k + 1);
    }
}

/// Inverting sorted, disjoint intervals that lie within `[min, max]` gives
/// sorted, disjoint intervals covering exactly the times in `[min, max)` that
/// the given ones do not cover.
pub proof fn law_invert_covers(starts: Seq<usize>, ends: Seq<usize>, min: usize, max: usize, t: int)
    requires
        disjoint_sorted(starts, ends),
        within(starts, ends, min, max),
        min <= max,
    ensures
        disjoint_sorted(gaps(starts, ends, min, max).0, gaps(starts, ends, min, max).1),
        in_some_range(gaps(starts, ends, min, max).0, gaps(starts, ends, min, max).1, t) == (min <= t
            < max && !in_some_range(starts, ends, t)),
{
    let g = gaps(starts, ends, min, max);
    let n = starts.len() as int;
    assert forall|k: int| 0 <= k <= n implies min <= #[trigger] g.0[k] && g.1[k] <= max && g.0[k]
        <= g.1[k] by {
        if k > 0 {
            assert(g.0[k] == ends[k - 1]);
            assert(starts[k - 1] <= ends[k - 1]);
        }
        if k < n {
            assert(g.1[k] == starts[k]);
            if k > 0 {
                assert(ends[k - 1] <= starts[k]);
            }
        }
    }
    assert forall|a: int, b: int| 0 <= a < b <= n implies #[trigger] g.1[a] <= #[trigger] g.0[b] by {
        assert(g.1[a] == starts[a]);
        assert(g.0[b] == ends[b - 1]);
        assert(starts[a] <= ends[a]);
        if a < b - 1 {
            assert(ends[a] <= starts[b - 1]);
            assert(starts[b - 1] <= ends[b - 1]);
        }
    }
    if in_some_range(g.0, g.1, t) {
        let k = choose|k: int| #![trigger g.0[k]] 0 <= k < g.0.len() && k < g.1.len() && g.0[k] <= t < g.1[k];
        assert(min <= g.0[k] && g.1[k] <= max);
        if in_some_range(starts, ends, t) {
            let i = choose|i: int| #![trigger starts[i]] 0 <= i < starts.len() && i < ends.len() && starts[i] <= t < ends[i];
            if i < k {
                assert(g.0[k] == ends[k - 1]);
                if i < k - 1 {
                    assert(ends[i] <= starts[k - 1]);
                    assert(starts[k - 1] <= ends[k - 1]);
                }
            } else {
                assert(g.1[k] == starts[k]);
                if i > k {
                    assert(ends[k] <= starts[i]);
                    assert(starts[k] <= ends[k]);
                }
            }
        }
    }
    if min <= t < max && !in_some_range(starts, ends, t) {
        lemma_find_gap(starts, ends, min, max, t, 0);
    }
}

/// Merging into `cur` intervals that end at or before `hi` gives intervals
/// that end at or before `hi`.
proof fn lemma_merge_ends_bound(s: Seq<(usize, usize)>, cur: (usize, usize), i: int, hi: usize)
    requires
        0 <= i,
        cur.1 <= hi,
        forall|k: int| i <= k < s.len() ==> #[trigger] s[k].1 <= hi,
    ensures
        forall|k: int|
            0 <= k < merge_from(s, cur, i).1.len() ==> #[trigger] merge_from(s, cur, i).1[k] <= hi,
    decreases s.len() - i,
{
    if i < s.len() {
        if s[i].0 <= cur.1 {
            let next = (
                cur.0,
                if cur.1 >= s[i].1 {
                    cur.1
                } else {
                    s[i].1
                },
            );
            lemma_merge_ends_bound(s, next, i + 1, hi);
            assert(merge_from(s, cur, i) == merge_from(s, next, i + 1));
        } else {
            lemma_merge_ends_bound(s, s[i], i + 1, hi);
            let rest = merge_from(s, s[i], i + 1);
            let out = merge_from(s, cur, i);
            assert(out.1 == seq![cur.1] + rest.1);
            assert forall|k: int| 0 <= k < out.1.len() implies #[trigger] out.1[k] <= hi by {
                if k > 0 {
                    assert(out.1[k] == rest.1[k - 1]);
                }
            }
        }
    } else {
        assert(merge_from(s, cur, i).1 == seq![cur.1]);
        assert(merge_from(s, cur, i).1[0] == cur.1);
    }
}

/// Removing overlaps from intervals within `[min, max]` gives intervals
/// within `[min, max]`.
proof fn lemma_merged_within(starts: Seq<usize>, ends: Seq<usize>, min: usize, max: usize)
    requires
        forall|i: int| 0 <= i < starts.len() && i < ends.len() ==> #[trigger] starts[i] <= ends[i],
        within(starts, ends, min, max),
    ensures
        within(merged_intervals(starts, ends).0, merged_intervals(starts, ends).1, min, max),
{
    let z = zip_intervals(starts, ends);
    let sorted = sort_by_start(z);
    lemma_sort_sorted_contains(z);
    if z.len() > 0 {
        assert forall|k: int| 0 <= k < sorted.len() implies min <= #[trigger] sorted[k].0
            && sorted[k].1 <= max && sorted[k].0 <= sorted[k].1 by {
            assert(sorted.contains(sorted[k]));
            assert(z.contains(sorted[k]));
            let m = choose|m: int| 0 <= m < z.len() && z[m] == sorted[k];
            assert(min <= starts[m] && ends[m] <= max);
        }
        assert forall|k: int| 1 <= k < sorted.len() implies sorted[0].0 <= #[trigger] sorted[k].0
            && sorted[k].0 <= sorted[k].1 by {
            assert(sorted[k].0 <= sorted[k].1);
        }
        lemma_merge_shape(sorted, sorted[0], 1);
        lemma_merge_ends_bound(sorted, sorted[0], 1, max);
    }
}

/// The times that the time filters keep: those they cover, or with `keep`
/// false those in `[min, max)` that they do not cover.
pub open spec fn time_kept(starts: Seq<usize>, ends: Seq<usize>, keep: bool, min: usize, max: usize, t: int) -> bool {
    if keep {
        in_some_range(starts, ends, t)
    } else {
        min <= t < max && !in_some_range(starts, ends, t)
    }
}

/// The times that the time filters and the log filters together keep: a
/// kind of filter that is not set places no constraint on the other, and
/// with no filters set no time is in the ranges.
pub open spec fn kept_by_filters(
    frame_times: Seq<usize>,
    time_starts: Seq<usize>,
    time_ends: Seq<usize>,
    keep: bool,
    time_set: bool,
    log_starts: Seq<usize>,
    log_ends: Seq<usize>,
    log_set: bool,
    t: int,
) -> bool {
    let time_ok = time_kept(time_starts, time_ends, keep, frame_times[0], frame_times.last(), t);
    let log_ok = in_some_range(log_starts, log_ends, t);
    if !time_set && !log_set {
        false
    } else if !time_set {
        log_ok
    } else if !log_set {
        time_ok
    } else {
        time_ok && log_ok
    }
}

/// The filter time ranges are sorted and disjoint, and cover exactly the
/// times that the time filters and the log filters keep, for filter ranges
/// that run forward, time filters within the frame times, and a set kind of
/// time filter that gives ranges.
pub proof fn law_filter_times_covers(
    frame_times: Seq<usize>,
    time_starts: Seq<usize>,
    time_ends: Seq<usize>,
    keep: bool,
    time_set: bool,
    log_starts: Seq<usize>,
    log_ends: Seq<usize>,
    log_set: bool,
    t: int,
)
    requires
        frame_times.len() > 0,
        forall|i: int|
            0 <= i < time_starts.len() && i < time_ends.len() ==> #[trigger] time_starts[i]
                <= time_ends[i],
        forall|i: int|
            0 <= i < log_starts.len() && i < log_ends.len() ==> #[trigger] log_starts[i] <= log_ends[i],
        within(time_starts, time_ends, frame_times[0], frame_times.last()),
        time_set ==> zip_intervals(time_starts, time_ends).len() > 0,
    ensures
        ({
            let r = filter_times_spec(
                frame_times,
                time_starts,
                time_ends,
                keep,
                time_set,
                log_starts,
                log_ends,
                log_set,
            );
            &&& disjoint_sorted(r.0, r.1)
            &&& in_some_range(r.0, r.1, t) == kept_by_filters(
                frame_times,
                time_starts,
                time_ends,
                keep,
                time_set,
                log_starts,
                log_ends,
                log_set,
                t,
            )
        }),
{
    let min = frame_times[0];
    let max = frame_times.last();
    let m = merged_intervals(time_starts, time_ends);
    let l = merged_intervals(log_starts, log_ends);
    let k = kept_time_ranges(time_starts, time_ends, keep, min, max);
    law_remove_overlaps_covers(time_starts, time_ends, t);
    law_remove_overlaps_covers(log_starts, log_ends, t);
    lemma_merged_len(time_starts, time_ends);
    lemma_merged_len(log_starts, log_ends);
    if !time_set && !log_set {
        assert(!in_some_range(seq![], seq![], t));
    } else if !time_set {
        assert(disjoint_sorted(l.0, l.1));
    } else if time_set {
        // the kept time ranges are sorted and disjoint, and cover what the time filters keep
        assert(time_starts[0] <= time_ends[0]);
        assert(min <= time_starts[0] && time_ends[0] <= max);
        lemma_merged_within(time_starts, time_ends, min, max);
        if !keep {
            law_invert_covers(m.0, m.1, min, max, t);
        }
        assert(disjoint_sorted(k.0, k.1));
        assert(in_some_range(k.0, k.1, t) == time_kept(time_starts, time_ends, keep, min, max, t));
        if log_set {
            law_intersect_covers(k.0, k.1, l.0, l.1, t);
            law_intersect_shape(k.0, k.1, l.0, l.1);
        }
    }
}

} // verus!
