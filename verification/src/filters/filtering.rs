//! Turning filter time ranges into frame weights.
use vstd::prelude::*;

use crate::filters::weights::{blocks_for, Weights};
use crate::utils::{binary_search, frame_of, lemma_frame_of_monotone, lemma_search_bracket, sorted};

verus! {

/// Whether some range `j` (paired up as far as both lists reach) covers
/// position `p`, i.e. `starts[j] <= p < ends[j]`.
pub open spec fn in_some_range(starts: Seq<usize>, ends: Seq<usize>, p: int) -> bool {
    exists|j: int| #![trigger starts[j]] 0 <= j < starts.len() && j < ends.len() && starts[j] <= p < ends[j]
}

/// Whether the filter ranges `[starts[j], ends[j]]` select frame `p`, for
/// frames starting at the times `times`: `p` lies between the frame holding
/// the start and the frame holding the end, both counted in.
pub open spec fn selects_frame(times: Seq<usize>, starts: Seq<usize>, ends: Seq<usize>, p: int) -> bool {
    exists|j: int|
        #![trigger starts[j]]
        0 <= j < starts.len() && j < ends.len() && frame_of(times, starts[j]) <= p < frame_of(
            times,
            ends[j],
        ) + 1
}

/// Whether `set_range(start, end, ..)` can be applied to `n_blocks` blocks.
pub open spec fn range_fits(start: int, end: int, n_blocks: int) -> bool {
    &&& start / 64 == end / 64 ==> start / 64 < n_blocks
    &&& start / 64 != end / 64 ==> start <= end && end <= 64 * n_blocks
}

/// Whether every filter range maps to a frame range that `set_range` accepts.
pub open spec fn filters_fit(times: Seq<usize>, starts: Seq<usize>, ends: Seq<usize>) -> bool {
    &&& starts.len() <= ends.len()
    &&& starts.len() > 0 ==> times.len() > 0
    &&& forall|j: int|
        0 <= j < starts.len() ==> #[trigger] range_fits(
            frame_of(times, starts[j]),
            frame_of(times, ends[j]) + 1,
            blocks_for(times.len()) as int,
        )
}

/// Filter ranges that run forward in time always fit, on sorted frame times.
pub proof fn lemma_forward_filters_fit(times: Seq<usize>, starts: Seq<usize>, ends: Seq<usize>)
    requires
        starts.len() <= ends.len(),
        times.len() > 0,
        sorted(times),
        forall|j: int| 0 <= j < starts.len() ==> starts[j] <= ends[j],
    ensures
        filters_fit(times, starts, ends),
{
    assert forall|j: int| 0 <= j < starts.len() implies #[trigger] range_fits(
        frame_of(times, starts[j]),
        frame_of(times, ends[j]) + 1,
        blocks_for(times.len()) as int,
    ) by {
        lemma_frame_of_monotone(times, starts[j], ends[j]);
        lemma_search_bracket(times, 0, times.len() as int, starts[j]);
        lemma_search_bracket(times, 0, times.len() as int, ends[j]);
    }
}

/// Whether frame `p` is kept by the filter ranges: a selected frame when the
/// ranges are to be kept (`keep`), an unselected one when they are to be
/// dropped.
pub open spec fn filter_keeps(times: Seq<usize>, starts: Seq<usize>, ends: Seq<usize>, keep: bool, p: int) -> bool {
    selects_frame(times, starts, ends, p) == keep
}

/// Whether the filter ranges of every log select frame `p`.
pub open spec fn logs_select(times: Seq<usize>, logs: Seq<(Vec<usize>, Vec<usize>)>, p: int) -> bool {
    forall|k: int| 0 <= k < logs.len() ==> selects_frame(times, (#[trigger] logs[k]).0@, logs[k].1@, p)
}

/// Given the start and end times of the filters, get the frame weights.
pub fn get_weights(
    filter_starts: Vec<usize>,
    filter_ends: Vec<usize>,
    frame_start_times: &[usize],
    keep: bool,
) -> (w: Weights)
    requires
        filters_fit(frame_start_times@, filter_starts@, filter_ends@),
    ensures
        w.size() == frame_start_times@.len(),
        w.blocks().len() == blocks_for(frame_start_times@.len() as nat),
        forall|p: int|
            0 <= p < w@.len() ==> #[trigger] w@[p] == filter_keeps(
                frame_start_times@,
                filter_starts@,
                filter_ends@,
                keep,
                p,
            ),
{
    let n_frames: usize = frame_start_times.len();
    let (start_frames, end_frames) = get_indices(frame_start_times, filter_starts, filter_ends);
    let w = get_good_values(start_frames, end_frames, n_frames, keep);
    proof {
        assert forall|p: int| 0 <= p < w@.len() implies in_some_range(
            start_frames@,
            end_frames@,
            p,
        ) == selects_frame(frame_start_times@, filter_starts@, filter_ends@, p) by {
            if in_some_range(start_frames@, end_frames@, p) {
                let j = choose|j: int|
                    #![trigger start_frames@[j]]
                    0 <= j < start_frames@.len() && j < end_frames@.len() && start_frames@[j] <= p
                        < end_frames@[j];
                assert(frame_of(frame_start_times@, filter_starts@[j]) <= p < frame_of(
                    frame_start_times@,
                    filter_ends@[j],
                ) + 1);
            }
            if selects_frame(frame_start_times@, filter_starts@, filter_ends@, p) {
                let j = choose|j: int|
                    #![trigger filter_starts@[j]]
                    0 <= j < filter_starts@.len() && j < filter_ends@.len() && frame_of(
                        frame_start_times@,
                        filter_starts@[j],
                    ) <= p < frame_of(frame_start_times@, filter_ends@[j]) + 1;
                assert(start_frames@[j] == frame_of(frame_start_times@, filter_starts@[j]));
                assert(end_frames@[j] == frame_of(frame_start_times@, filter_ends@[j]) + 1);
                assert(start_frames@[j] <= p < end_frames@[j]);
            }
        }
    }
    w
}

/// Given the filter ranges of several sample logs, get the weights of the
/// frames that every log's filters select.
///
/// Each entry holds the start and end times of one log's filter ranges.
pub fn get_log_weights(filter_times: Vec<(Vec<usize>, Vec<usize>)>, frame_start_times: &[usize]) -> (w: Weights)
    requires
        forall|k: int|
            0 <= k < filter_times@.len() ==> filters_fit(
                frame_start_times@,
                (#[trigger] filter_times@[k]).0@,
                filter_times@[k].1@,
            ),
    ensures
        w.size() == frame_start_times@.len(),
        w.blocks().len() == blocks_for(frame_start_times@.len() as nat),
        forall|p: int|
            0 <= p < w@.len() ==> #[trigger] w@[p] == logs_select(frame_start_times@, filter_times@, p),
{
    let n_frames: usize = frame_start_times.len();
    let ghost all = filter_times@;
    let mut weights = Weights::ones(n_frames);
    let mut rest = filter_times;
    let mut done: usize = 0;
    let total: usize = rest.len();
    while rest.len() > 0
        invariant
            total == all.len(),
            done + rest@.len() == total,
            rest@ == all.subrange(done as int, total as int),
            forall|k: int|
                0 <= k < all.len() ==> filters_fit(
                    frame_start_times@,
                    (#[trigger] all[k]).0@,
                    all[k].1@,
                ),
            weights.size() == n_frames,
            n_frames == frame_start_times@.len(),
            weights.blocks().len() == blocks_for(n_frames as nat),
            forall|p: int|
                0 <= p < weights@.len() ==> #[trigger] weights@[p] == forall|k: int|
                    0 <= k < done ==> selects_frame(
                        frame_start_times@,
                        (#[trigger] all[k]).0@,
                        all[k].1@,
                        p,
                    ),
        decreases rest@.len(),
    {
        let (starts, ends) = rest.remove(0);
        proof {
            assert(all[done as int] == (starts, ends));
        }
        let log_weights = get_weights(starts, ends, frame_start_times, true);
        let ghost prev = weights;
        weights = weights & log_weights;
        proof {
            assert forall|p: int| 0 <= p < weights@.len() implies #[trigger] weights@[p]
                == forall|k: int|
                0 <= k < done + 1 ==> selects_frame(
                    frame_start_times@,
                    (#[trigger] all[k]).0@,
                    all[k].1@,
                    p,
                ) by {
                assert(prev@[p] == forall|k: int|
                    0 <= k < done ==> selects_frame(
                        frame_start_times@,
                        (#[trigger] all[k]).0@,
                        all[k].1@,
                        p,
                    ));
            }
        }
        done = done + 1;
    }
    weights
}

/// The frame index range that each filter covers, assuming the frame start
/// times are sorted: the frame holding the start, and one past the frame
/// holding the end.
pub fn get_indices(
    start_times: &[usize],
    filter_starts: Vec<usize>,
    filter_ends: Vec<usize>,
) -> (r: (Vec<usize>, Vec<usize>))
    requires
        filter_starts@.len() <= filter_ends@.len(),
        filter_starts@.len() > 0 ==> start_times@.len() > 0,
    ensures
        r.0@.len() == filter_starts@.len(),
        r.1@.len() == filter_starts@.len(),
        forall|j: int|
            0 <= j < filter_starts@.len() ==> #[trigger] r.0@[j] == frame_of(
                start_times@,
                filter_starts@[j],
            ) && r.1@[j] == frame_of(start_times@, filter_ends@[j]) + 1,
{
    let n_filters: usize = filter_starts.len();
    let n_frames: usize = start_times.len();
    let mut starts: Vec<usize> = Vec::new();
    let mut ends: Vec<usize> = Vec::new();
    let mut j: usize = 0;
    while j < n_filters
        invariant
            j <= n_filters,
            n_filters == filter_starts@.len(),
            n_filters <= filter_ends@.len(),
            n_frames == start_times@.len(),
            n_filters > 0 ==> n_frames > 0,
            starts@.len() == j,
            ends@.len() == j,
            forall|i: int|
                0 <= i < j ==> #[trigger] starts@[i] == frame_of(start_times@, filter_starts@[i])
                    && ends@[i] == frame_of(start_times@, filter_ends@[i]) + 1,
        decreases n_filters - j,
    {
        let start: usize = binary_search(start_times, 0, n_frames, filter_starts[j]);
        let end: usize = binary_search(start_times, 0, n_frames, filter_ends[j]) + 1;
        let ghost before_starts = starts@;
        let ghost before_ends = ends@;
        starts.push(start);
        ends.push(end);
        proof {
            assert forall|i: int| 0 <= i < j + 1 implies #[trigger] starts@[i] == frame_of(
                start_times@,
                filter_starts@[i],
            ) && ends@[i] == frame_of(start_times@, filter_ends@[i]) + 1 by {
                if i < j {
                    assert(starts@[i] == before_starts[i]);
                    assert(ends@[i] == before_ends[i]);
                }
            }
        }
        j += 1;
    }
    (starts, ends)
}

/// Get the weights of the frames selected by frame index ranges.
///
/// `f_start` and `f_end` are the lower (counted in) and upper (exclusive)
/// frame index of each range, `n_frames` the number of frames, and `keep`
/// whether the ranges are to be kept (true) or dropped (false).
pub fn get_good_values(f_start: Vec<usize>, f_end: Vec<usize>, n_frames: usize, keep: bool) -> (w: Weights)
    requires
        forall|j: int|
            0 <= j < f_start@.len() && j < f_end@.len() ==> #[trigger] range_fits(
                f_start@[j] as int,
                f_end@[j] as int,
                blocks_for(n_frames as nat) as int,
            ),
    ensures
        w.size() == n_frames,
        w.blocks().len() == blocks_for(n_frames as nat),
        forall|p: int|
            0 <= p < w@.len() ==> #[trigger] w@[p] == if in_some_range(f_start@, f_end@, p) {
                keep
            } else {
                !keep
            },
{
    // with `keep`, start from all zeros and set ranges of ones;
    // otherwise start from all ones and set ranges of zeros
    let mut result = if keep {
        Weights::zeros(n_frames)
    } else {
        Weights::ones(n_frames)
    };
    let m: usize = if f_start.len() <= f_end.len() {
        f_start.len()
    } else {
        f_end.len()
    };
    let mut j: usize = 0;
    while j < m
        invariant
            j <= m,
            m <= f_start@.len(),
            m <= f_end@.len(),
            m == f_start@.len() || m == f_end@.len(),
            forall|i: int|
                0 <= i < f_start@.len() && i < f_end@.len() ==> #[trigger] range_fits(
                    f_start@[i] as int,
                    f_end@[i] as int,
                    blocks_for(n_frames as nat) as int,
                ),
            result.size() == n_frames,
            result.blocks().len() == blocks_for(n_frames as nat),
            forall|p: int|
                0 <= p < result@.len() ==> #[trigger] result@[p] == if in_some_range(
                    f_start@.subrange(0, j as int),
                    f_end@.subrange(0, j as int),
                    p,
                ) {
                    keep
                } else {
                    !keep
                },
        decreases m - j,
    {
        let start: usize = f_start[j];
        let end: usize = f_end[j];
        assert(range_fits(start as int, end as int, blocks_for(n_frames as nat) as int));
        let ghost prev = result@;
        if end == n_frames {
            result.set_range(start, n_frames, keep);
        } else {
            result.set_range(start, end, keep);
        }
        proof {
            assert forall|p: int| 0 <= p < result@.len() implies #[trigger] result@[p] == if in_some_range(
                f_start@.subrange(0, j + 1),
                f_end@.subrange(0, j + 1),
                p,
            ) {
                keep
            } else {
                !keep
            } by {
                let s0 = f_start@.subrange(0, j as int);
                let e0 = f_end@.subrange(0, j as int);
                let s1 = f_start@.subrange(0, j + 1);
                let e1 = f_end@.subrange(0, j + 1);
                assert(s1[j as int] == start && e1[j as int] == end);
                assert(prev[p] == if in_some_range(s0, e0, p) {
                    keep
                } else {
                    !keep
                });
                if start <= p < end {
                    assert(s1[j as int] <= p < e1[j as int]);
                }
                if in_some_range(s0, e0, p) {
                    let i = choose|i: int| #![trigger s0[i]] 0 <= i < s0.len() && i < e0.len() && s0[i] <= p < e0[i];
                    assert(s1[i] <= p < e1[i]);
                }
                if in_some_range(s1, e1, p) {
                    let i = choose|i: int| #![trigger s1[i]] 0 <= i < s1.len() && i < e1.len() && s1[i] <= p < e1[i];
                    if i < j {
                        assert(s0[i] <= p < e0[i]);
                    }
                }
            }
        }
        j += 1;
    }
    proof {
        assert(f_start@.subrange(0, m as int).len() == m);
        assert forall|p: int| 0 <= p < result@.len() implies in_some_range(
            f_start@.subrange(0, m as int),
            f_end@.subrange(0, m as int),
            p,
        ) == in_some_range(f_start@, f_end@, p) by {
            let s0 = f_start@.subrange(0, m as int);
            let e0 = f_end@.subrange(0, m as int);
            if in_some_range(f_start@, f_end@, p) {
                let i = choose|i: int|
                    #![trigger f_start@[i]]
                    0 <= i < f_start@.len() && i < f_end@.len() && f_start@[i] <= p < f_end@[i];
                assert(s0[i] <= p < e0[i]);
            }
            if in_some_range(s0, e0, p) {
                let i = choose|i: int| #![trigger s0[i]] 0 <= i < s0.len() && i < e0.len() && s0[i] <= p < e0[i];
                assert(f_start@[i] <= p < f_end@[i]);
            }
        }
    }
    result
}

/// Filters whose ranges are dropped keep exactly the frames that the same
/// filters keep when their ranges are kept, negated.
pub proof fn law_drop_negates_keep(times: Seq<usize>, starts: Seq<usize>, ends: Seq<usize>, p: int)
    ensures
        filter_keeps(times, starts, ends, false, p) == !filter_keeps(times, starts, ends, true, p),
{
}

/// The frames that the log filters keep do not depend on the order in which
/// the logs are given: two lists holding the same logs keep the same frames.
pub proof fn law_log_order(
    times: Seq<usize>,
    logs_a: Seq<(Vec<usize>, Vec<usize>)>,
    logs_b: Seq<(Vec<usize>, Vec<usize>)>,
    p: int,
)
    requires
        forall|x: (Vec<usize>, Vec<usize>)| #[trigger] logs_a.contains(x) <==> logs_b.contains(x),
    ensures
        logs_select(times, logs_a, p) == logs_select(times, logs_b, p),
{
    if logs_select(times, logs_a, p) {
        assert forall|k: int| 0 <= k < logs_b.len() implies selects_frame(
            times,
            (#[trigger] logs_b[k]).0@,
            logs_b[k].1@,
            p,
        ) by {
            assert(logs_b.contains(logs_b[k]));
            assert(logs_a.contains(logs_b[k]));
            let m = choose|m: int| 0 <= m < logs_a.len() && logs_a[m] == logs_b[k];
            assert(selects_frame(times, logs_a[m].0@, logs_a[m].1@, p));
        }
    }
    if logs_select(times, logs_b, p) {
        assert forall|k: int| 0 <= k < logs_a.len() implies selects_frame(
            times,
            (#[trigger] logs_a[k]).0@,
            logs_a[k].1@,
            p,
        ) by {
            assert(logs_a.contains(logs_a[k]));
            assert(logs_b.contains(logs_a[k]));
            let m = choose|m: int| 0 <= m < logs_b.len() && logs_b[m] == logs_a[k];
            assert(selects_frame(times, logs_b[m].0@, logs_b[m].1@, p));
        }
    }
}

/// The ranges `starts`, `ends` taken in the order `perm`.
pub open spec fn permuted(s: Seq<usize>, perm: Seq<int>) -> Seq<usize> {
    Seq::new(perm.len(), |k: int| s[perm[k]])
}

/// `perm` is a permutation of the positions below `n`.
pub open spec fn is_permutation(perm: Seq<int>, n: int) -> bool {
    &&& perm.len() == n
    &&& forall|k: int| 0 <= k < n ==> 0 <= #[trigger] perm[k] < n
    &&& forall|i: int| 0 <= i < n ==> #[trigger] perm.contains(i)
}

/// The order of the filter ranges does not matter: taken in any order, they
/// cover the same positions (so `get_good_values` gives the same weights)
/// and select the same frames (so `get_weights` does).
pub proof fn law_filter_order(
    times: Seq<usize>,
    starts: Seq<usize>,
    ends: Seq<usize>,
    perm: Seq<int>,
    p: int,
)
    requires
        starts.len() == ends.len(),
        is_permutation(perm, starts.len() as int),
    ensures
        in_some_range(permuted(starts, perm), permuted(ends, perm), p) == in_some_range(starts, ends, p),
        selects_frame(times, permuted(starts, perm), permuted(ends, perm), p) == selects_frame(
            times,
            starts,
            ends,
            p,
        ),
{
    let ps = permuted(starts, perm);
    let pe = permuted(ends, perm);
    if in_some_range(ps, pe, p) {
        let k = choose|k: int| #![trigger ps[k]] 0 <= k < ps.len() && k < pe.len() && ps[k] <= p < pe[k];
        assert(starts[perm[k]] <= p < ends[perm[k]]);
    }
    if in_some_range(starts, ends, p) {
        let j = choose|j: int| #![trigger starts[j]] 0 <= j < starts.len() && j < ends.len() && starts[j] <= p < ends[j];
        assert(perm.contains(j));
        let k = choose|k: int| 0 <= k < perm.len() && #[trigger] perm[k] == j;
        assert(ps[k] <= p < pe[k]);
    }
    if selects_frame(times, ps, pe, p) {
        let k = choose|k: int|
            #![trigger ps[k]]
            0 <= k < ps.len() && k < pe.len() && frame_of(times, ps[k]) <= p < frame_of(times, pe[k]) + 1;
        assert(starts[perm[k]] == ps[k]);
    }
    if selects_frame(times, starts, ends, p) {
        let j = choose|j: int|
            #![trigger starts[j]]
            0 <= j < starts.len() && j < ends.len() && frame_of(times, starts[j]) <= p < frame_of(
                times,
                ends[j],
            ) + 1;
        assert(perm.contains(j));
        let k = choose|k: int| 0 <= k < perm.len() && #[trigger] perm[k] == j;
        assert(ps[k] == starts[j]);
    }
}

} // verus!
