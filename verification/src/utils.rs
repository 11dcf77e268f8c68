//! Searching sorted arrays, and arithmetic on sets of time intervals.
use vstd::prelude::*;
use vstd::slice::slice_to_vec;

verus! {

/// The index that `binary_search` settles on between `start` and `stop`.
pub open spec fn search_spec(a: Seq<usize>, start: int, stop: int, target: usize) -> int
    decreases stop - start,
{
    if stop - start == 1 {
        start
    } else if stop > start {
        let midpoint = start + (stop - start) / 2;
        if a[midpoint] == target {
            midpoint
        } else if a[midpoint] > target {
            search_spec(a, start, midpoint, target)
        } else {
            search_spec(a, midpoint, stop, target)
        }
    } else if target < a[start] {
        start
    } else {
        stop
    }
}

/// The frame holding time `t`, for frames starting at the (sorted) times `a`:
/// the last frame starting at or before `t`, or the first frame if `t` comes
/// before all of them.
pub open spec fn frame_of(a: Seq<usize>, t: usize) -> int {
    search_spec(a, 0, a.len() as int, t)
}

/// `a` is sorted in non-decreasing order.
pub open spec fn sorted(a: Seq<usize>) -> bool {
    forall|i: int, j: int| 0 <= i <= j < a.len() ==> a[i] <= a[j]
}

/// What `binary_search` settles on, for any array: an index in the range
/// whose value is at most the target (unless it is the first of the range),
/// and whose successor's value is above the target (unless it is the last of
/// the range or holds the target itself).
pub proof fn lemma_search_bracket(a: Seq<usize>, start: int, stop: int, target: usize)
    requires
        0 <= start < stop <= a.len(),
    ensures
        start <= search_spec(a, start, stop, target) < stop,
        search_spec(a, start, stop, target) > start ==> a[search_spec(a, start, stop, target)]
            <= target,
        search_spec(a, start, stop, target) + 1 < stop ==> (a[search_spec(a, start, stop, target)
            + 1] > target || a[search_spec(a, start, stop, target)] == target),
    decreases stop - start,
{
    if stop - start != 1 {
        let midpoint = start + (stop - start) / 2;
        if a[midpoint] == target {
        } else if a[midpoint] > target {
            lemma_search_bracket(a, start, midpoint, target);
        } else {
            lemma_search_bracket(a, midpoint, stop, target);
        }
    }
}

/// On a sorted array, a later target never lands more than one frame before
/// an earlier one.
pub proof fn lemma_frame_of_monotone(a: Seq<usize>, s: usize, e: usize)
    requires
        a.len() > 0,
        sorted(a),
        s <= e,
    ensures
        frame_of(a, s) <= frame_of(a, e) + 1,
{
    lemma_search_bracket(a, 0, a.len() as int, s);
    lemma_search_bracket(a, 0, a.len() as int, e);
    let rs = frame_of(a, s);
    let re = frame_of(a, e);
    if rs > re + 1 {
        assert(a[re + 1] <= a[rs]);
        assert(a[re] <= a[rs]);
    }
}

/// Binary search for the left bounding index of `target` between the
/// indices `start` and `stop` of `array`.
pub fn binary_search(array: &[usize], start: usize, stop: usize, target: usize) -> (r: usize)
    requires
        start <= stop <= array@.len(),
        start == stop ==> start < array@.len(),
    ensures
        r == search_spec(array@, start as int, stop as int, target),
        start < stop ==> start <= r < stop,
        start < stop && r > start ==> array@[r as int] <= target,
        start < stop && r + 1 < stop ==> (array@[r + 1] > target || array@[r as int] == target),
    decreases stop - start,
{
    proof {
        if start < stop {
            lemma_search_bracket(array@, start as int, stop as int, target);
        }
    }
    if stop - start == 1 {
        start
    } else if stop > start {
        let midpoint: usize = start + (stop - start) / 2;
        let midpoint_value: usize = array[midpoint];
        if midpoint_value == target {
            midpoint
        } else if midpoint_value > target {
            binary_search(array, start, midpoint, target)
        } else {
            binary_search(array, midpoint, stop, target)
        }
    } else if target < array[start] {
        start
    } else {
        stop
    }
}

/// The intervals that `intersect_intervals` produces from the intervals of
/// the first set from index `a` on and of the second set from index `b` on:
/// walking both sets in step, the overlap of the two current intervals when
/// it is not empty, then past whichever current interval ends first.
pub open spec fn intersect_from(
    starts_a: Seq<usize>,
    ends_a: Seq<usize>,
    starts_b: Seq<usize>,
    ends_b: Seq<usize>,
    a: int,
    b: int,
) -> (Seq<usize>, Seq<usize>)
    decreases starts_a.len() - a + starts_b.len() - b,
{
    if 0 <= a < starts_a.len() && 0 <= b < starts_b.len() {
        let start = if starts_a[a] >= starts_b[b] {
            starts_a[a]
        } else {
            starts_b[b]
        };
        let end = if ends_a[a] <= ends_b[b] {
            ends_a[a]
        } else {
            ends_b[b]
        };
        let rest = if ends_a[a] < ends_b[b] {
            intersect_from(starts_a, ends_a, starts_b, ends_b, a + 1, b)
        } else {
            intersect_from(starts_a, ends_a, starts_b, ends_b, a, b + 1)
        };
        if start < end {
            (seq![start] + rest.0, seq![end] + rest.1)
        } else {
            rest
        }
    } else {
        (seq![], seq![])
    }
}

/// Intersect two sets of sorted, disjoint intervals `[starts[i], ends[i])`.
pub fn intersect_intervals(starts_a: &[usize], ends_a: &[usize], starts_b: &[usize], ends_b: &[usize]) -> (r: (
    Vec<usize>,
    Vec<usize>,
))
    requires
        starts_a@.len() <= ends_a@.len(),
        starts_b@.len() <= ends_b@.len(),
    ensures
        r.0@ == intersect_from(starts_a@, ends_a@, starts_b@, ends_b@, 0, 0).0,
        r.1@ == intersect_from(starts_a@, ends_a@, starts_b@, ends_b@, 0, 0).1,
{
    let ghost all = intersect_from(starts_a@, ends_a@, starts_b@, ends_b@, 0, 0);
    let mut new_starts: Vec<usize> = Vec::new();
    let mut new_ends: Vec<usize> = Vec::new();
    // walk both sets in step, taking the overlap of the two current intervals
    let mut a: usize = 0;
    let mut b: usize = 0;
    while a < starts_a.len() && b < starts_b.len()
        invariant
            a <= starts_a@.len(),
            b <= starts_b@.len(),
            starts_a@.len() <= ends_a@.len(),
            starts_b@.len() <= ends_b@.len(),
            new_starts@ + intersect_from(starts_a@, ends_a@, starts_b@, ends_b@, a as int, b as int).0
                == all.0,
            new_ends@ + intersect_from(starts_a@, ends_a@, starts_b@, ends_b@, a as int, b as int).1
                == all.1,
        decreases starts_a@.len() - a + starts_b@.len() - b,
    {
        let ghost rest = intersect_from(starts_a@, ends_a@, starts_b@, ends_b@, a as int, b as int);
        let start: usize = if starts_a[a] >= starts_b[b] {
            starts_a[a]
        } else {
            starts_b[b]
        };
        let end: usize = if ends_a[a] <= ends_b[b] {
            ends_a[a]
        } else {
            ends_b[b]
        };
        let ghost before_starts = new_starts@;
        let ghost before_ends = new_ends@;
        if start < end {
            new_starts.push(start);
            new_ends.push(end);
        }
        // advance past whichever interval ends first
        if ends_a[a] < ends_b[b] {
            a += 1;
        } else {
            b += 1;
        }
        proof {
            let next = intersect_from(starts_a@, ends_a@, starts_b@, ends_b@, a as int, b as int);
            if start < end {
                assert(rest.0 == seq![start] + next.0);
                assert(rest.1 == seq![end] + next.1);
                assert(new_starts@ + next.0 =~= before_starts + rest.0);
                assert(new_ends@ + next.1 =~= before_ends + rest.1);
            } else {
                assert(rest == next);
            }
        }
    }
    proof {
        assert(new_starts@ + seq![] =~= new_starts@);
        assert(new_ends@ + seq![] =~= new_ends@);
    }
    (new_starts, new_ends)
}

/// Invert an array of disjoint intervals within `[min, max]`: the gaps
/// before, between and after them.
pub fn invert_intervals(starts: &[usize], ends: &[usize], min: usize, max: usize) -> (r: (
    Vec<usize>,
    Vec<usize>,
))
    ensures
        r.0@ == seq![min] + ends@,
        r.1@ == starts@.push(max),
{
    let mut new_ends: Vec<usize> = slice_to_vec(starts);
    new_ends.push(max);
    let mut new_starts: Vec<usize> = vec![min];
    let mut k: usize = 0;
    while k < ends.len()
        invariant
            k <= ends@.len(),
            new_starts@ == seq![min] + ends@.subrange(0, k as int),
        decreases ends@.len() - k,
    {
        new_starts.push(ends[k]);
        k += 1;
        proof {
            assert(new_starts@ =~= seq![min] + ends@.subrange(0, k as int));
        }
    }
    proof {
        assert(ends@.subrange(0, ends@.len() as int) =~= ends@);
    }
    (new_starts, new_ends)
}

/// `s` with `x` placed after every entry whose start is at most `x`'s start
/// that stands at the end of `s`: one step of a stable insertion sort.
pub open spec fn insert_by_start(s: Seq<(usize, usize)>, x: (usize, usize)) -> Seq<(usize, usize)>
    decreases s.len(),
{
    if s.len() == 0 {
        seq![x]
    } else if s.last().0 <= x.0 {
        s.push(x)
    } else {
        insert_by_start(s.drop_last(), x).push(s.last())
    }
}

/// `s` sorted by start, keeping entries with equal starts in their order in `s`.
pub open spec fn sort_by_start(s: Seq<(usize, usize)>) -> Seq<(usize, usize)>
    decreases s.len(),
{
    if s.len() == 0 {
        seq![]
    } else {
        insert_by_start(sort_by_start(s.drop_last()), s.last())
    }
}

/// The intervals of `s` (sorted by start) from index `i` on merged into the
/// current interval `cur` while they start at or before its end.
pub open spec fn merge_from(s: Seq<(usize, usize)>, cur: (usize, usize), i: int) -> (
    Seq<usize>,
    Seq<usize>,
)
    decreases s.len() - i,
{
    if i < 0 || i >= s.len() {
        (seq![cur.0], seq![cur.1])
    } else if s[i].0 <= cur.1 {
        merge_from(
            s,
            (
                cur.0,
                if cur.1 >= s[i].1 {
                    cur.1
                } else {
                    s[i].1
                },
            ),
            i + 1,
        )
    } else {
        let rest = merge_from(s, s[i], i + 1);
        (seq![cur.0] + rest.0, seq![cur.1] + rest.1)
    }
}

/// The intervals `[starts[i], ends[i]]`, paired up as far as both lists reach.
pub open spec fn zip_intervals(starts: Seq<usize>, ends: Seq<usize>) -> Seq<(usize, usize)> {
    Seq::new(
        if starts.len() <= ends.len() {
            starts.len()
        } else {
            ends.len()
        },
        |i: int| (starts[i], ends[i]),
    )
}

/// What `remove_overlaps` returns: the intervals sorted by start, then each
/// run of overlapping or touching intervals merged into one.
pub open spec fn merged_intervals(starts: Seq<usize>, ends: Seq<usize>) -> (Seq<usize>, Seq<usize>) {
    let sorted = sort_by_start(zip_intervals(starts, ends));
    if sorted.len() == 0 {
        (seq![], seq![])
    } else {
        merge_from(sorted, sorted[0], 1)
    }
}

proof fn lemma_insert_len(s: Seq<(usize, usize)>, x: (usize, usize))
    ensures
        insert_by_start(s, x).len() == s.len() + 1,
    decreases s.len(),
{
    if s.len() > 0 && s.last().0 > x.0 {
        lemma_insert_len(s.drop_last(), x);
    }
}

proof fn lemma_sort_len(s: Seq<(usize, usize)>)
    ensures
        sort_by_start(s).len() == s.len(),
    decreases s.len(),
{
    if s.len() > 0 {
        lemma_sort_len(s.drop_last());
        lemma_insert_len(sort_by_start(s.drop_last()), s.last());
    }
}

/// Inserting at the position found by scanning back over larger starts is
/// the insertion step of the sort.
proof fn lemma_insert_at(s: Seq<(usize, usize)>, x: (usize, usize), pos: int)
    requires
        0 <= pos <= s.len(),
        forall|q: int| pos <= q < s.len() ==> #[trigger] s[q].0 > x.0,
        pos == 0 || s[pos - 1].0 <= x.0,
    ensures
        insert_by_start(s, x) == s.insert(pos, x),
    decreases s.len(),
{
    if s.len() == 0 {
        assert(seq![x] =~= s.insert(pos, x));
    } else if pos == s.len() {
        assert(s.push(x) =~= s.insert(pos, x));
    } else {
        let d = s.drop_last();
        assert forall|q: int| pos <= q < d.len() implies #[trigger] d[q].0 > x.0 by {
            assert(d[q] == s[q]);
        }
        lemma_insert_at(d, x, pos);
        assert(d.insert(pos, x).push(s.last()) =~= s.insert(pos, x));
    }
}

/// Get a list of intervals and remove overlaps: the intervals are sorted by
/// start, and each run of overlapping or touching intervals is merged.
pub fn remove_overlaps(starts: &[usize], ends: &[usize]) -> (r: (Vec<usize>, Vec<usize>))
    requires
        starts@.len() > 0 ==> ends@.len() > 0,
    ensures
        r.0@ == merged_intervals(starts@, ends@).0,
        r.1@ == merged_intervals(starts@, ends@).1,
{
    let ghost pairs = zip_intervals(starts@, ends@);
    if starts.len() == 0 {
        return (Vec::new(), Vec::new());
    }
    // pair up starts and ends, then sort by start
    let intervals: Vec<(usize, usize)> = sort_intervals(starts, ends);
    let ghost sorted = intervals@;
    let n: usize = intervals.len();
    proof {
        lemma_sort_len(pairs);
    }
    let mut new_starts: Vec<usize> = Vec::new();
    let mut new_ends: Vec<usize> = Vec::new();
    let mut current: (usize, usize) = intervals[0];
    let mut i: usize = 1;
    while i < n
        invariant
            1 <= i <= n,
            n == sorted.len(),
            intervals@ == sorted,
            new_starts@ + merge_from(sorted, current, i as int).0 == merge_from(sorted, sorted[0], 1).0,
            new_ends@ + merge_from(sorted, current, i as int).1 == merge_from(sorted, sorted[0], 1).1,
        decreases n - i,
    {
        let (start, end) = intervals[i];
        let ghost before_starts = new_starts@;
        let ghost before_ends = new_ends@;
        let ghost cur = current;
        if start <= current.1 {
            // overlapping (or touching) interval
            if end > current.1 {
                current.1 = end;
            }
        } else {
            // no overlap, so save the current interval
            new_starts.push(current.0);
            new_ends.push(current.1);
            current = (start, end);
            proof {
                let rest = merge_from(sorted, current, i + 1);
                assert(merge_from(sorted, cur, i as int).0 == seq![cur.0] + rest.0);
                assert(new_starts@ + rest.0 =~= before_starts + (seq![cur.0] + rest.0));
                assert(new_ends@ + rest.1 =~= before_ends + (seq![cur.1] + rest.1));
            }
        }
        i += 1;
    }
    new_starts.push(current.0);
    new_ends.push(current.1);
    proof {
        assert(new_starts@ =~= merge_from(sorted, sorted[0], 1).0);
        assert(new_ends@ =~= merge_from(sorted, sorted[0], 1).1);
    }
    (new_starts, new_ends)
}

/// `s` is sorted by start.
pub open spec fn sorted_by_start(s: Seq<(usize, usize)>) -> bool {
    forall|i: int, j: int| 0 <= i <= j < s.len() ==> s[i].0 <= s[j].0
}

proof fn lemma_insert_sorted_contains(s: Seq<(usize, usize)>, x: (usize, usize))
    requires
        sorted_by_start(s),
    ensures
        sorted_by_start(insert_by_start(s, x)),
        forall|y: (usize, usize)| #[trigger] insert_by_start(s, x).contains(y) <==> (s.contains(y) || y == x),
    decreases s.len(),
{
    let r = insert_by_start(s, x);
    if s.len() == 0 {
        assert(r =~= seq![x]);
        assert forall|y: (usize, usize)| #[trigger] r.contains(y) <==> (s.contains(y) || y == x) by {
            if r.contains(y) {
                assert(r[0] == y);
            }
            if y == x {
                assert(r[0] == y);
            }
        }
    } else if s.last().0 <= x.0 {
        assert forall|y: (usize, usize)| #[trigger] r.contains(y) <==> (s.contains(y) || y == x) by {
            if r.contains(y) {
                let i = choose|i: int| 0 <= i < r.len() && r[i] == y;
                if i < s.len() {
                    assert(s[i] == y);
                }
            }
            if s.contains(y) {
                let i = choose|i: int| 0 <= i < s.len() && s[i] == y;
                assert(r[i] == y);
            }
            if y == x {
                assert(r[s.len() as int] == y);
            }
        }
    } else {
        let d = s.drop_last();
        assert(sorted_by_start(d));
        lemma_insert_sorted_contains(d, x);
        let rd = insert_by_start(d, x);
        assert(r == rd.push(s.last()));
        assert forall|i: int| 0 <= i < rd.len() implies #[trigger] rd[i].0 <= s.last().0 by {
            assert(rd.contains(rd[i]));
            if d.contains(rd[i]) {
                let k = choose|k: int| 0 <= k < d.len() && d[k] == rd[i];
                assert(s[k] == d[k]);
            }
        }
        assert forall|y: (usize, usize)| #[trigger] r.contains(y) <==> (s.contains(y) || y == x) by {
            if r.contains(y) {
                let i = choose|i: int| 0 <= i < r.len() && r[i] == y;
                if i < rd.len() {
                    assert(rd.contains(y));
                    if d.contains(y) {
                        let k = choose|k: int| 0 <= k < d.len() && d[k] == y;
                        assert(s[k] == y);
                    }
                } else {
                    assert(s[s.len() - 1] == y);
                }
            }
            if s.contains(y) {
                let i = choose|i: int| 0 <= i < s.len() && s[i] == y;
                if i < d.len() {
                    assert(d[i] == y);
                    assert(rd.contains(y));
                    let k = choose|k: int| 0 <= k < rd.len() && rd[k] == y;
                    assert(r[k] == y);
                } else {
                    assert(r[r.len() - 1] == y);
                }
            }
            if y == x {
                assert(rd.contains(y));
                let k = choose|k: int| 0 <= k < rd.len() && rd[k] == y;
                assert(r[k] == y);
            }
        }
    }
}

/// Sorting by start gives a sequence sorted by start holding the same intervals.
pub proof fn lemma_sort_sorted_contains(s: Seq<(usize, usize)>)
    ensures
        sorted_by_start(sort_by_start(s)),
        sort_by_start(s).len() == s.len(),
        forall|y: (usize, usize)| #[trigger] sort_by_start(s).contains(y) <==> s.contains(y),
    decreases s.len(),
{
    lemma_sort_len(s);
    if s.len() > 0 {
        let d = s.drop_last();
        lemma_sort_sorted_contains(d);
        lemma_insert_sorted_contains(sort_by_start(d), s.last());
        assert forall|y: (usize, usize)| #[trigger] sort_by_start(s).contains(y) <==> s.contains(y) by {
            if s.contains(y) {
                let i = choose|i: int| 0 <= i < s.len() && s[i] == y;
                if i < d.len() {
                    assert(d[i] == y);
                }
            }
            if d.contains(y) {
                let i = choose|i: int| 0 <= i < d.len() && d[i] == y;
                assert(s[i] == y);
            }
        }
    }
}

/// Pair up starts and ends, and sort the pairs by start, keeping pairs with
/// equal starts in their given order.
pub fn sort_intervals(starts: &[usize], ends: &[usize]) -> (r: Vec<(usize, usize)>)
    ensures
        r@ == sort_by_start(zip_intervals(starts@, ends@)),
{
    let ghost pairs = zip_intervals(starts@, ends@);
    let m: usize = if starts.len() <= ends.len() {
        starts.len()
    } else {
        ends.len()
    };
    let mut intervals: Vec<(usize, usize)> = Vec::new();
    let mut k: usize = 0;
    while k < m
        invariant
            k <= m,
            m == pairs.len(),
            m <= starts@.len(),
            m <= ends@.len(),
            pairs == zip_intervals(starts@, ends@),
            intervals@ == sort_by_start(pairs.subrange(0, k as int)),
        decreases m - k,
    {
        let x: (usize, usize) = (starts[k], ends[k]);
        let mut pos: usize = intervals.len();
        while pos > 0 && intervals[pos - 1].0 > x.0
            invariant
                pos <= intervals@.len(),
                forall|q: int| pos <= q < intervals@.len() ==> #[trigger] intervals@[q].0 > x.0,
            decreases pos,
        {
            pos -= 1;
        }
        proof {
            lemma_insert_at(intervals@, x, pos as int);
            let prefix = pairs.subrange(0, k + 1);
            assert(prefix.drop_last() =~= pairs.subrange(0, k as int));
            assert(prefix.last() == x);
        }
        intervals.insert(pos, x);
        k += 1;
    }
    proof {
        assert(pairs.subrange(0, m as int) =~= pairs);
    }
    intervals
}

/// Merging gives as many ends as starts, and at least one interval.
pub proof fn lemma_merge_from_len(s: Seq<(usize, usize)>, cur: (usize, usize), i: int)
    ensures
        merge_from(s, cur, i).0.len() == merge_from(s, cur, i).1.len(),
        merge_from(s, cur, i).0.len() > 0,
    decreases s.len() - i,
{
    if 0 <= i < s.len() {
        if s[i].0 <= cur.1 {
            lemma_merge_from_len(
                s,
                (
                    cur.0,
                    if cur.1 >= s[i].1 {
                        cur.1
                    } else {
                        s[i].1
                    },
                ),
                i + 1,
            );
        } else {
            lemma_merge_from_len(s, s[i], i + 1);
        }
    }
}

/// Merging gives as many ends as starts, and some interval for any interval given.
pub proof fn lemma_merged_len(starts: Seq<usize>, ends: Seq<usize>)
    ensures
        merged_intervals(starts, ends).0.len() == merged_intervals(starts, ends).1.len(),
        zip_intervals(starts, ends).len() > 0 ==> merged_intervals(starts, ends).0.len() > 0,
{
    let sorted = sort_by_start(zip_intervals(starts, ends));
    lemma_sort_len(zip_intervals(starts, ends));
    if sorted.len() > 0 {
        lemma_merge_from_len(sorted, sorted[0], 1);
    }
}

/// The time ranges kept by the time filters, within the frame times
/// `[min, max]`: the merged ranges, or with `keep` false the gaps around them.
pub open spec fn kept_time_ranges(
    starts: Seq<usize>,
    ends: Seq<usize>,
    keep: bool,
    min: usize,
    max: usize,
) -> (Seq<usize>, Seq<usize>) {
    let m = merged_intervals(starts, ends);
    if !keep && m.0.len() > 0 {
        (seq![min] + m.1, m.0.push(max))
    } else {
        m
    }
}

/// The time ranges covered by both the time filters and the log filters, as
/// `combine_filter_times` gives them: a kind of filter that is not set places
/// no constraint on the other; a kind that is set and holds nowhere leaves
/// nothing.
pub open spec fn filter_times_spec(
    frame_times: Seq<usize>,
    time_starts: Seq<usize>,
    time_ends: Seq<usize>,
    keep: bool,
    time_set: bool,
    log_starts: Seq<usize>,
    log_ends: Seq<usize>,
    log_set: bool,
) -> (Seq<usize>, Seq<usize>) {
    let t = kept_time_ranges(time_starts, time_ends, keep, frame_times[0], frame_times.last());
    let l = merged_intervals(log_starts, log_ends);
    if !time_set && !log_set {
        (seq![], seq![])
    } else if !time_set {
        l
    } else if !log_set {
        t
    } else {
        intersect_from(t.0, t.1, l.0, l.1, 0, 0)
    }
}

/// Get the time ranges covered by all filters, non-overlapping.
///
/// The time filter ranges (kept, or with `keep` false dropped, over the
/// frame times) and the log filter ranges are intersected with each other.
/// `time_set` and `log_set` tell whether any filter of that kind is set: a
/// kind that is not set places no constraint on the other, while a kind that
/// is set but holds nowhere leaves no time at all. With no filters set there
/// are no ranges.
pub fn combine_filter_times(
    frame_times: &[usize],
    time_starts: &[usize],
    time_ends: &[usize],
    keep: bool,
    time_set: bool,
    log_starts: &[usize],
    log_ends: &[usize],
    log_set: bool,
) -> (r: (Vec<usize>, Vec<usize>))
    requires
        frame_times@.len() > 0,
        time_starts@.len() > 0 ==> time_ends@.len() > 0,
        log_starts@.len() > 0 ==> log_ends@.len() > 0,
    ensures
        r.0@ == filter_times_spec(
            frame_times@,
            time_starts@,
            time_ends@,
            keep,
            time_set,
            log_starts@,
            log_ends@,
            log_set,
        ).0,
        r.1@ == filter_times_spec(
            frame_times@,
            time_starts@,
            time_ends@,
            keep,
            time_set,
            log_starts@,
            log_ends@,
            log_set,
        ).1,
{
    let min_time: usize = frame_times[0];
    // frame times are never empty
    let max_time: usize = frame_times[frame_times.len() - 1];
    let (mut starts, mut ends) = remove_overlaps(time_starts, time_ends);
    proof {
        lemma_merged_len(time_starts@, time_ends@);
        lemma_merged_len(log_starts@, log_ends@);
    }
    if !keep && starts.len() > 0 {
        let (s, e) = invert_intervals(&starts, &ends, min_time, max_time);
        starts = s;
        ends = e;
    }
    let (log_starts, log_ends) = remove_overlaps(log_starts, log_ends);
    if !time_set && !log_set {
        return (Vec::new(), Vec::new());
    }
    // a kind of filter that is not set isn't constraining anything, so
    // intersecting with it would wrongly wipe out the other kind's ranges
    if !time_set {
        return (log_starts, log_ends);
    }
    if !log_set {
        return (starts, ends);
    }
    intersect_intervals(&starts, &ends, &log_starts, &log_ends)
}

} // verus!
