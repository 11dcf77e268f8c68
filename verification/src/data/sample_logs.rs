//! Sample logs: the time ranges in which a log satisfies a filter, the samples
//! that a set of time ranges keeps, and the values a text log takes.
//!
//! Sample times are given here in nanoseconds, already converted from the
//! seconds that the event files hold.
use vstd::prelude::*;

use crate::text::{lowercase, to_lowercase};
use crate::utils::{lemma_sort_sorted_contains, sort_by_start, sort_intervals, sorted, sorted_by_start, zip_intervals};

verus! {

/// The indices below `k` at which a run of `true` entries of `b` starts.
pub open spec fn run_starts(b: Seq<bool>, k: int) -> Seq<int>
    decreases k,
{
    if k <= 0 {
        seq![]
    } else {
        run_starts(b, k - 1) + if b[k - 1] && (k - 1 == 0 || !b[k - 2]) {
            seq![k - 1]
        } else {
            seq![]
        }
    }
}

/// The indices below `k` at which a run of `true` entries of `b` ends (the
/// last index of each run).
pub open spec fn run_lasts(b: Seq<bool>, k: int) -> Seq<int>
    decreases k,
{
    if k <= 0 {
        seq![]
    } else {
        run_lasts(b, k - 1) + if b[k - 1] && (k == b.len() || !b[k]) {
            seq![k - 1]
        } else {
            seq![]
        }
    }
}

/// The time of each index of `idx`.
pub open spec fn times_at(times: Seq<usize>, idx: Seq<int>) -> Seq<usize> {
    Seq::new(idx.len(), |j: int| times[idx[j]])
}

/// The time at which a run ending at index `i` ends: the time of the sample
/// that follows it, or the last sample time for a run that lasts to the end.
pub open spec fn next_time(times: Seq<usize>, n: int, i: int) -> usize {
    if i + 1 == n {
        times.last()
    } else {
        times[i + 1]
    }
}

/// The time of the last sample of a run ending at index `i`; for a run that
/// lasts to the end, the last sample time.
pub open spec fn last_time(times: Seq<usize>, n: int, i: int) -> usize {
    if i + 1 == n {
        times.last()
    } else {
        times[i]
    }
}

proof fn lemma_runs_bound(b: Seq<bool>, k: int)
    requires
        k <= b.len(),
    ensures
        forall|j: int| 0 <= j < run_starts(b, k).len() ==> 0 <= #[trigger] run_starts(b, k)[j] < k,
        forall|j: int| 0 <= j < run_lasts(b, k).len() ==> 0 <= #[trigger] run_lasts(b, k)[j] < k,
    decreases k,
{
    if k > 0 {
        lemma_runs_bound(b, k - 1);
        let s0 = run_starts(b, k - 1);
        let l0 = run_lasts(b, k - 1);
        assert forall|j: int| 0 <= j < run_starts(b, k).len() implies 0 <= #[trigger] run_starts(
            b,
            k,
        )[j] < k by {
            if j < s0.len() {
                assert(run_starts(b, k)[j] == s0[j]);
            }
        }
        assert forall|j: int| 0 <= j < run_lasts(b, k).len() implies 0 <= #[trigger] run_lasts(
            b,
            k,
        )[j] < k by {
            if j < l0.len() {
                assert(run_lasts(b, k)[j] == l0[j]);
            }
        }
    }
}

/// Given whether each sample lies in the filter band, get the start and end
/// times of the runs of samples inside it: a run starts at its first sample
/// and ends at its last sample.
pub fn to_time_ranges(times_ns: &[usize], in_band: &[bool]) -> (r: (Vec<usize>, Vec<usize>))
    requires
        in_band@.len() <= times_ns@.len(),
    ensures
        r.0@ == times_at(times_ns@, run_starts(in_band@, in_band@.len() as int)),
        r.1@ == Seq::new(
            run_lasts(in_band@, in_band@.len() as int).len(),
            |j: int|
                last_time(
                    times_ns@,
                    in_band@.len() as int,
                    run_lasts(in_band@, in_band@.len() as int)[j],
                ),
        ),
{
    let ghost b = in_band@;
    let ghost n = in_band@.len() as int;
    let mut starts: Vec<usize> = Vec::new();
    let mut ends: Vec<usize> = Vec::new();
    // whether we are currently in the band
    let mut in_range: bool = false;
    let mut index: usize = 0;
    while index < in_band.len()
        invariant
            index <= in_band@.len(),
            b == in_band@,
            n == b.len(),
            n <= times_ns@.len(),
            in_range == (index > 0 && b[index - 1]),
            starts@ == times_at(times_ns@, run_starts(b, index as int)),
            ends@ == times_at(times_ns@, run_lasts(b, index - 1)),
        decreases in_band@.len() - index,
    {
        proof {
            lemma_runs_bound(b, index + 1);
            lemma_runs_bound(b, index as int);
        }
        if !in_range {
            if in_band[index] {
                starts.push(times_ns[index]);
                in_range = true;
            }
        } else {
            if !in_band[index] {
                ends.push(times_ns[index - 1]);
                in_range = false;
            }
        }
        proof {
            assert(starts@ =~= times_at(times_ns@, run_starts(b, index + 1)));
            assert(ends@ =~= times_at(times_ns@, run_lasts(b, index as int)));
        }
        index += 1;
    }
    proof {
        lemma_runs_bound(b, n);
        lemma_runs_bound(b, n - 1);
    }
    // a run still going at the end ends at the last sample
    if in_range {
        ends.push(times_ns[times_ns.len() - 1]);
    }
    proof {
        let lasts = run_lasts(b, n);
        if n > 0 {
            assert(lasts == run_lasts(b, n - 1) + if b[n - 1] {
                seq![n - 1]
            } else {
                seq![]
            });
        }
        assert(ends@ =~= Seq::new(lasts.len(), |j: int| last_time(times_ns@, n, lasts[j])));
    }
    (starts, ends)
}

/// Given whether each sample of a text log matches the filter value, get the
/// start and end times of the matching runs: a run starts at its first
/// sample and ends where the next value takes over, or at the last sample
/// time if it lasts to the end.
pub fn to_time_ranges_eq(times_ns: &[usize], matches: &[bool]) -> (r: (Vec<usize>, Vec<usize>))
    requires
        matches@.len() <= times_ns@.len(),
    ensures
        r.0@ == times_at(times_ns@, run_starts(matches@, matches@.len() as int)),
        r.1@ == Seq::new(
            run_lasts(matches@, matches@.len() as int).len(),
            |j: int|
                next_time(
                    times_ns@,
                    matches@.len() as int,
                    run_lasts(matches@, matches@.len() as int)[j],
                ),
        ),
{
    let ghost b = matches@;
    let ghost n = matches@.len() as int;
    let mut starts: Vec<usize> = Vec::new();
    let mut ends: Vec<usize> = Vec::new();
    // whether we are currently in a matching run
    let mut in_range: bool = false;
    let mut index: usize = 0;
    while index < matches.len()
        invariant
            index <= matches@.len(),
            b == matches@,
            n == b.len(),
            n <= times_ns@.len(),
            in_range == (index > 0 && b[index - 1]),
            starts@ == times_at(times_ns@, run_starts(b, index as int)),
            ends@ == Seq::new(
                run_lasts(b, index - 1).len(),
                |j: int| times_ns@[run_lasts(b, index - 1)[j] + 1],
            ),
        decreases matches@.len() - index,
    {
        proof {
            lemma_runs_bound(b, index + 1);
            lemma_runs_bound(b, index as int);
            lemma_runs_bound(b, index - 1);
        }
        if !in_range {
            if matches[index] {
                starts.push(times_ns[index]);
                in_range = true;
            }
        } else if !matches[index] {
            // the run ends where the next value takes over
            ends.push(times_ns[index]);
            in_range = false;
        }
        proof {
            assert(starts@ =~= times_at(times_ns@, run_starts(b, index + 1)));
            assert(ends@ =~= Seq::new(
                run_lasts(b, index as int).len(),
                |j: int| times_ns@[run_lasts(b, index as int)[j] + 1],
            ));
        }
        index += 1;
    }
    proof {
        lemma_runs_bound(b, n);
        lemma_runs_bound(b, n - 1);
    }
    // a run still matching at the end ends at the last sample time
    if in_range {
        ends.push(times_ns[times_ns.len() - 1]);
    }
    proof {
        let lasts = run_lasts(b, n);
        if n > 0 {
            assert(lasts == run_lasts(b, n - 1) + if b[n - 1] {
                seq![n - 1]
            } else {
                seq![]
            });
        }
        assert(ends@ =~= Seq::new(lasts.len(), |j: int| next_time(times_ns@, n, lasts[j])));
    }
    (starts, ends)
}

/// Whether each value of a text log matches `value`, ignoring case.
pub fn matches_ignoring_case(values: &Vec<String>, value: &str) -> (r: Vec<bool>)
    ensures
        r@.len() == values@.len(),
        forall|i: int|
            0 <= i < values@.len() ==> #[trigger] r@[i] == (lowercase(values@[i]@) == lowercase(
                value@,
            )),
{
    // fold the value once, rather than once per sample
    let needle: String = to_lowercase(value);
    let mut r: Vec<bool> = Vec::new();
    let mut i: usize = 0;
    while i < values.len()
        invariant
            i <= values@.len(),
            needle@ == lowercase(value@),
            r@.len() == i,
            forall|j: int|
                0 <= j < i ==> #[trigger] r@[j] == (lowercase(values@[j]@) == lowercase(value@)),
        decreases values@.len() - i,
    {
        let entry: String = to_lowercase(values[i].as_str());
        r.push(entry == needle);
        i += 1;
    }
    r
}

/// The largest of the first `k + 1` times.
pub open spec fn prefix_max(times: Seq<usize>, k: int) -> int
    decreases k,
{
    if k <= 0 {
        times[0] as int
    } else if times[k] as int >= prefix_max(times, k - 1) {
        times[k] as int
    } else {
        prefix_max(times, k - 1)
    }
}

/// Whether sample `k` lies in one of the closed ranges `[starts[j], ends[j]]`
/// that start no later than the latest of the sample times up to `k`; on
/// samples in time order this is whether sample `k` lies in one of the
/// ranges.
pub open spec fn sample_in_ranges(times: Seq<usize>, starts: Seq<usize>, ends: Seq<usize>, k: int) -> bool {
    exists|j: int|
        #![trigger zip_intervals(starts, ends)[j]]
        0 <= j < zip_intervals(starts, ends).len() && zip_intervals(starts, ends)[j].0
            <= prefix_max(times, k) && times[k] <= zip_intervals(starts, ends)[j].1
}

/// Which samples a set of time ranges keeps: when `keep`, the samples inside
/// one of the ranges, otherwise the samples outside all of them. The ranges
/// are closed at both ends and need not be sorted or disjoint.
pub fn filter_samples(times_ns: &[usize], start_times: &[usize], end_times: &[usize], keep: bool) -> (r: Vec<bool>)
    ensures
        r@.len() == times_ns@.len(),
        forall|k: int|
            0 <= k < times_ns@.len() ==> #[trigger] r@[k] == (sample_in_ranges(
                times_ns@,
                start_times@,
                end_times@,
                k,
            ) == keep),
{
    // sort the ranges to make overlaps easier to handle
    let ranges: Vec<(usize, usize)> = sort_intervals(start_times, end_times);
    let ghost zipped = zip_intervals(start_times@, end_times@);
    proof {
        lemma_sort_sorted_contains(zipped);
    }
    let m: usize = ranges.len();
    let mut kept: Vec<bool> = Vec::new();
    let mut next_range: usize = 0;
    let mut reach: Option<usize> = None;
    let mut k: usize = 0;
    while k < times_ns.len()
        invariant
            k <= times_ns@.len(),
            m == ranges@.len(),
            ranges@ == sort_by_start(zipped),
            zipped == zip_intervals(start_times@, end_times@),
            sorted_by_start(ranges@),
            forall|y: (usize, usize)| #[trigger] ranges@.contains(y) <==> zipped.contains(y),
            next_range <= m,
            k > 0 ==> forall|q: int| 0 <= q < next_range ==> ranges@[q].0 <= prefix_max(times_ns@, k - 1),
            k > 0 && next_range < m ==> ranges@[next_range as int].0 > prefix_max(times_ns@, k - 1),
            k == 0 ==> next_range == 0,
            reach is None <==> next_range == 0,
            reach matches Some(e) ==> (forall|q: int| 0 <= q < next_range ==> ranges@[q].1 <= e)
                && exists|q: int| 0 <= q < next_range && ranges@[q].1 == e,
            kept@.len() == k,
            forall|j: int|
                0 <= j < k ==> #[trigger] kept@[j] == (sample_in_ranges(
                    times_ns@,
                    start_times@,
                    end_times@,
                    j,
                ) == keep),
        decreases times_ns@.len() - k,
    {
        let time_ns: usize = times_ns[k];
        let ghost next_before = next_range;
        proof {
            if k > 0 {
                assert(prefix_max(times_ns@, k as int) >= prefix_max(times_ns@, k - 1));
            }
        }
        while next_range < m && ranges[next_range].0 <= time_ns
            invariant
                next_range <= m,
                m == ranges@.len(),
                sorted_by_start(ranges@),
                forall|q: int| 0 <= q < next_range ==> ranges@[q].0 <= prefix_max(times_ns@, k as int),
                reach is None <==> next_range == 0,
                reach matches Some(e) ==> (forall|q: int| 0 <= q < next_range ==> ranges@[q].1 <= e)
                    && exists|q: int| 0 <= q < next_range && ranges@[q].1 == e,
                k < times_ns@.len(),
                time_ns == times_ns@[k as int],
                prefix_max(times_ns@, k as int) >= time_ns,
                next_before <= next_range,
                k > 0 && next_before < m ==> ranges@[next_before as int].0 > prefix_max(times_ns@, k - 1),
            decreases m - next_range,
        {
            let end: usize = ranges[next_range].1;
            reach = match reach {
                None => Some(end),
                Some(r) => if end > r {
                    Some(end)
                } else {
                    Some(r)
                },
            };
            next_range += 1;
        }
        proof {
            // every range not yet consumed starts after the latest time so far
            if next_range < m {
                assert(ranges@[next_range as int].0 > time_ns);
                if k > 0 {
                    if next_before < m {
                        assert(ranges@[next_before as int].0 <= ranges@[next_range as int].0);
                    }
                }
                assert(ranges@[next_range as int].0 > prefix_max(times_ns@, k as int));
            }
        }
        // ranges are closed at both ends
        let in_range: bool = match reach {
            Some(end) => time_ns <= end,
            None => false,
        };
        proof {
            let pm = prefix_max(times_ns@, k as int);
            assert forall|q: int| 0 <= q < m implies (ranges@[q].0 <= pm <==> q < next_range) by {
                if q >= next_range && next_range < m {
                    assert(ranges@[next_range as int].0 <= ranges@[q].0);
                }
            }
            if in_range {
                let e = reach->Some_0;
                let q = choose|q: int| 0 <= q < next_range && ranges@[q].1 == e;
                assert(ranges@.contains(ranges@[q]));
                let y = ranges@[q];
                assert(zipped.contains(y));
                let j = choose|j: int| 0 <= j < zipped.len() && zipped[j] == y;
                assert(zipped[j].0 <= pm && time_ns <= zipped[j].1);
                assert(sample_in_ranges(times_ns@, start_times@, end_times@, k as int));
            }
            if sample_in_ranges(times_ns@, start_times@, end_times@, k as int) {
                let j = choose|j: int|
                    #![trigger zipped[j]]
                    0 <= j < zipped.len() && zipped[j].0 <= pm && time_ns <= zipped[j].1;
                assert(zipped.contains(zipped[j]));
                assert(ranges@.contains(zipped[j]));
                let q = choose|q: int| 0 <= q < ranges@.len() && ranges@[q] == zipped[j];
                assert(q < next_range);
            }
        }
        kept.push(in_range == keep);
        k += 1;
    }
    kept
}

/// The values `s` takes, each once, in order of first appearance.
pub open spec fn distinct(s: Seq<Seq<char>>) -> Seq<Seq<char>>
    decreases s.len(),
{
    if s.len() == 0 {
        seq![]
    } else if distinct(s.drop_last()).contains(s.last()) {
        distinct(s.drop_last())
    } else {
        distinct(s.drop_last()).push(s.last())
    }
}

/// The text of each string.
pub open spec fn texts(v: Seq<String>) -> Seq<Seq<char>> {
    Seq::new(v.len(), |i: int| v[i]@)
}

/// The distinct values a text log takes, in order of first appearance.
pub fn distinct_values(values: &Vec<String>) -> (r: Vec<String>)
    ensures
        texts(r@) == distinct(texts(values@)),
{
    let mut seen: Vec<String> = Vec::new();
    let mut i: usize = 0;
    while i < values.len()
        invariant
            i <= values@.len(),
            texts(seen@) == distinct(texts(values@).subrange(0, i as int)),
        decreases values@.len() - i,
    {
        let value: String = values[i].clone();
        let mut found: bool = false;
        let mut j: usize = 0;
        while j < seen.len()
            invariant
                j <= seen@.len(),
                found == exists|q: int| 0 <= q < j && seen@[q]@ == value@,
            decreases seen@.len() - j,
        {
            if seen[j] == value {
                found = true;
            }
            j += 1;
        }
        proof {
            let pre = texts(values@).subrange(0, i + 1);
            assert(pre.drop_last() =~= texts(values@).subrange(0, i as int));
            assert(pre.last() == value@);
            assert(found == texts(seen@).contains(value@)) by {
                if found {
                    let q = choose|q: int| 0 <= q < seen@.len() && seen@[q]@ == value@;
                    assert(texts(seen@)[q] == value@);
                }
                if texts(seen@).contains(value@) {
                    let q = choose|q: int| 0 <= q < texts(seen@).len() && texts(seen@)[q] == value@;
                    assert(seen@[q]@ == value@);
                }
            }
        }
        if !found {
            seen.push(value);
            proof {
                assert(texts(seen@) =~= distinct(texts(values@).subrange(0, i + 1)));
            }
        }
        i += 1;
    }
    proof {
        assert(texts(values@).subrange(0, values@.len() as int) =~= texts(values@));
    }
    seen
}

proof fn lemma_prefix_max_sorted(times: Seq<usize>, k: int)
    requires
        sorted(times),
        0 <= k < times.len(),
    ensures
        prefix_max(times, k) == times[k],
    decreases k,
{
    if k > 0 {
        lemma_prefix_max_sorted(times, k - 1);
    }
}

/// On samples in time order, a sample is in the ranges exactly when one of
/// the closed ranges holds its time.
pub proof fn law_sorted_samples_in_ranges(times: Seq<usize>, starts: Seq<usize>, ends: Seq<usize>, k: int)
    requires
        sorted(times),
        0 <= k < times.len(),
    ensures
        sample_in_ranges(times, starts, ends, k) == exists|j: int|
            #![trigger starts[j]]
            0 <= j < starts.len() && j < ends.len() && starts[j] <= times[k] <= ends[j],
{
    lemma_prefix_max_sorted(times, k);
    let z = zip_intervals(starts, ends);
    if sample_in_ranges(times, starts, ends, k) {
        let j = choose|j: int|
            #![trigger z[j]]
            0 <= j < z.len() && z[j].0 <= prefix_max(times, k) && times[k] <= z[j].1;
        assert(starts[j] <= times[k] <= ends[j]);
    }
    if exists|j: int| #![trigger starts[j]] 0 <= j < starts.len() && j < ends.len() && starts[j] <= times[k] <= ends[j] {
        let j = choose|j: int| #![trigger starts[j]] 0 <= j < starts.len() && j < ends.len() && starts[j] <= times[k] <= ends[j];
        assert(z[j] == (starts[j], ends[j]));
    }
}

/// Which samples a set of ranges keeps does not depend on the order in which
/// the ranges are given: two lists holding the same ranges keep the same
/// samples.
pub proof fn law_sample_ranges_order(
    times: Seq<usize>,
    starts_a: Seq<usize>,
    ends_a: Seq<usize>,
    starts_b: Seq<usize>,
    ends_b: Seq<usize>,
    k: int,
)
    requires
        forall|x: (usize, usize)| #[trigger] zip_intervals(starts_a, ends_a).contains(x) <==> zip_intervals(
            starts_b,
            ends_b,
        ).contains(x),
    ensures
        sample_in_ranges(times, starts_a, ends_a, k) == sample_in_ranges(times, starts_b, ends_b, k),
{
    let za = zip_intervals(starts_a, ends_a);
    let zb = zip_intervals(starts_b, ends_b);
    if sample_in_ranges(times, starts_a, ends_a, k) {
        let j = choose|j: int|
            #![trigger za[j]]
            0 <= j < za.len() && za[j].0 <= prefix_max(times, k) && times[k] <= za[j].1;
        assert(za.contains(za[j]));
        assert(zb.contains(za[j]));
        let m = choose|m: int| 0 <= m < zb.len() && zb[m] == za[j];
        assert(zb[m].0 <= prefix_max(times, k) && times[k] <= zb[m].1);
    }
    if sample_in_ranges(times, starts_b, ends_b, k) {
        let j = choose|j: int|
            #![trigger zb[j]]
            0 <= j < zb.len() && zb[j].0 <= prefix_max(times, k) && times[k] <= zb[j].1;
        assert(zb.contains(zb[j]));
        assert(za.contains(zb[j]));
        let m = choose|m: int| 0 <= m < za.len() && za[m] == zb[j];
        assert(za[m].0 <= prefix_max(times, k) && times[k] <= za[m].1);
    }
}

} // verus!
