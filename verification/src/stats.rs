//! Frame bookkeeping for histograms: which frames and events are kept, how
//! many frames each period keeps, and when the kept part of a run starts and
//! ends.
use vstd::prelude::*;

use crate::bits::count_true;
use crate::data::FrameData;
use crate::filters::filtering::{filters_fit, get_weights, selects_frame};
use crate::filters::weights::{blocks_for, Weights};

verus! {

/// The number of kept frames among the first `k` frames that belong to `period`.
pub open spec fn kept_in_period(periods: Seq<u32>, kept: Seq<bool>, period: int, k: int) -> nat
    decreases k,
{
    if k <= 0 {
        0
    } else {
        kept_in_period(periods, kept, period, k - 1) + if kept[k - 1] && periods[k - 1] == period {
            1nat
        } else {
            0nat
        }
    }
}

proof fn lemma_kept_in_period_bound(periods: Seq<u32>, kept: Seq<bool>, period: int, k: int)
    requires
        k >= 0,
    ensures
        kept_in_period(periods, kept, period, k) <= k,
    decreases k,
{
    if k > 0 {
        lemma_kept_in_period_bound(periods, kept, period, k - 1);
    }
}

/// Calculate the number of kept frames for each period.
pub fn get_period_frames(periods: &[u32], n_periods: usize, weights: &Weights) -> (r: Vec<u32>)
    requires
        periods@.len() <= weights@.len(),
        periods@.len() <= u32::MAX,
        forall|k: int| 0 <= k < periods@.len() ==> #[trigger] periods@[k] < n_periods,
    ensures
        r@.len() == n_periods,
        forall|q: int|
            0 <= q < n_periods ==> #[trigger] r@[q] == kept_in_period(
                periods@,
                weights@,
                q,
                periods@.len() as int,
            ),
{
    let mut output: Vec<u32> = vec![0u32; n_periods];
    proof {
        assert forall|q: int| 0 <= q < n_periods implies #[trigger] output@[q] == kept_in_period(
            periods@,
            weights@,
            q,
            0,
        ) by {
            assert(cloned(0u32, output@[q]));
        }
    }
    let mut k: usize = 0;
    while k < periods.len()
        invariant
            k <= periods@.len(),
            periods@.len() <= weights@.len(),
            periods@.len() <= u32::MAX,
            forall|j: int| 0 <= j < periods@.len() ==> #[trigger] periods@[j] < n_periods,
            output@.len() == n_periods,
            forall|q: int|
                0 <= q < n_periods ==> #[trigger] output@[q] == kept_in_period(
                    periods@,
                    weights@,
                    q,
                    k as int,
                ),
        decreases periods@.len() - k,
    {
        if weights.get(k) {
            let period: usize = periods[k] as usize;
            proof {
                lemma_kept_in_period_bound(periods@, weights@, period as int, k as int);
            }
            let c: u32 = output[period];
            output.set(period, c + 1);
        }
        k += 1;
    }
    output
}

/// The first kept frame among the first `n` frames.
#[verifier::opaque]
pub open spec fn first_kept(kept: Seq<bool>, n: int) -> int {
    choose|p: int| 0 <= p < n && kept[p] && forall|q: int| 0 <= q < p ==> !kept[q]
}

/// The last kept frame among the first `n` frames.
#[verifier::opaque]
pub open spec fn last_kept(kept: Seq<bool>, n: int) -> int {
    choose|p: int| 0 <= p < n && kept[p] && forall|q: int| p < q < n ==> !kept[q]
}

proof fn lemma_first_kept_is(kept: Seq<bool>, n: int, f: int)
    requires
        0 <= f < n,
        kept[f],
        forall|q: int| 0 <= q < f ==> !kept[q],
    ensures
        first_kept(kept, n) == f,
{
    reveal(first_kept);
    let g = first_kept(kept, n);
    if g < f {
        assert(!kept[g]);
    }
    if g > f {
        assert(!kept[f]);
    }
}

proof fn lemma_last_kept_is(kept: Seq<bool>, n: int, l: int)
    requires
        0 <= l < n,
        kept[l],
        forall|q: int| l < q < n ==> !kept[q],
    ensures
        last_kept(kept, n) == l,
{
    reveal(last_kept);
    let g = last_kept(kept, n);
    if g < l {
        assert(!kept[l]);
    }
    if g > l {
        assert(!kept[g]);
    }
}

/// Get the start times of the first and the last kept frame: the frames of
/// the first and the last weights set below the nominal length.
pub fn get_experiment_times(weights: Weights, frame_start_times: Vec<usize>) -> (r: (usize, usize))
    requires
        exists|p: int| 0 <= p < weights.counted_len() && #[trigger] weights@[p],
        last_kept(weights@, weights.counted_len()) < frame_start_times@.len(),
    ensures
        ({
            let n = weights.counted_len();
            &&& 0 <= first_kept(weights@, n) <= last_kept(weights@, n) < n
            &&& weights@[first_kept(weights@, n)]
            &&& forall|q: int| 0 <= q < first_kept(weights@, n) ==> !weights@[q]
            &&& weights@[last_kept(weights@, n)]
            &&& forall|q: int| last_kept(weights@, n) < q < n ==> !weights@[q]
            &&& r.0 == frame_start_times@[first_kept(weights@, n)]
            &&& r.1 == frame_start_times@[last_kept(weights@, n)]
        }),
{
    let ghost n = weights.counted_len();
    let first: usize = match weights.get_first_one() {
        Some(f) => f,
        None => {
            proof {
                let p = choose|p: int| 0 <= p < n && #[trigger] weights@[p];
            }
            0
        },
    };
    let last: usize = match weights.get_last_one() {
        Some(l) => l,
        None => {
            proof {
                let p = choose|p: int| 0 <= p < n && #[trigger] weights@[p];
            }
            0
        },
    };
    proof {
        let p = choose|p: int| 0 <= p < n && #[trigger] weights@[p];
        assert(first <= p && p <= last);
        lemma_first_kept_is(weights@, n, first as int);
        lemma_last_kept_is(weights@, n, last as int);
    }
    (frame_start_times[first], frame_start_times[last])
}

/// The number of periods: one more than the largest period number.
pub fn count_periods(periods: &[u32]) -> (r: usize)
    requires
        periods@.len() > 0,
        forall|k: int| 0 <= k < periods@.len() ==> #[trigger] periods@[k] < u32::MAX,
    ensures
        exists|k: int| 0 <= k < periods@.len() && r == periods@[k] + 1,
        forall|k: int| 0 <= k < periods@.len() ==> #[trigger] periods@[k] < r,
{
    let mut max: u32 = periods[0];
    let mut k: usize = 1;
    while k < periods.len()
        invariant
            1 <= k <= periods@.len(),
            exists|j: int| 0 <= j < periods@.len() && max == periods@[j],
            forall|j: int| 0 <= j < k ==> #[trigger] periods@[j] <= max,
            forall|j: int| 0 <= j < periods@.len() ==> #[trigger] periods@[j] < u32::MAX,
        decreases periods@.len() - k,
    {
        if periods[k] > max {
            max = periods[k];
        }
        k += 1;
    }
    (max + 1) as usize
}

/// The value each event gets: the period of its frame when that frame is
/// kept, and `u32::MAX` when it is not.
pub open spec fn frame_value(frame_data: &FrameData, weights: &Weights, periods: Seq<u32>, i: int) -> u32 {
    let frame = frame_data.frame_number@[i] as int;
    if weights@[frame] {
        periods[frame]
    } else {
        u32::MAX
    }
}

/// The period of every event of a run of frames, or `u32::MAX` for the
/// events of frames that are not kept.
pub fn event_periods(frame_data: &FrameData, weights: &Weights, periods: &[u32]) -> (r: Vec<u32>)
    requires
        frame_data.wf(),
        forall|i: int|
            0 <= i < frame_data.frame_number@.len() ==> #[trigger] frame_data.frame_number@[i]
                < weights@.len() && frame_data.frame_number@[i] < periods@.len(),
    ensures
        r@.len() == frame_data.array_len,
        forall|i: int, k: int|
            0 <= i < frame_data.start_index@.len() && frame_data.start_index@[i] <= k
                < frame_data.frame_end(i) ==> #[trigger] r@[k] == #[trigger] frame_value(
                frame_data,
                weights,
                periods@,
                i,
            ),
        forall|k: int|
            0 <= k < frame_data.array_len && (frame_data.start_index@.len() == 0 || k
                < frame_data.start_index@[0]) ==> #[trigger] r@[k] == u32::MAX,
        // each event of slot `i` goes by the frame that the slot holds
        forall|i: int, k: int|
            #![trigger r@[k], frame_data.frame_number@[i]]
            0 <= i < frame_data.start_index@.len() && frame_data.start_index@[i] <= k
                < frame_data.frame_end(i) ==> r@[k] == if weights@[frame_data.frame_number@[i] as int] {
                periods@[frame_data.frame_number@[i] as int]
            } else {
                u32::MAX
            },
{
    let len: usize = frame_data.array_len;
    let n: usize = frame_data.frame_number.len();
    let mut out: Vec<u32> = vec![u32::MAX; len];
    proof {
        assert forall|k: int| 0 <= k < len implies #[trigger] out@[k] == u32::MAX by {
            assert(cloned(u32::MAX, out@[k]));
        }
    }
    let mut i: usize = 0;
    while i < n
        invariant
            i <= n,
            n == frame_data.frame_number@.len(),
            len == frame_data.array_len,
            frame_data.wf(),
            forall|j: int|
                0 <= j < frame_data.frame_number@.len() ==> #[trigger] frame_data.frame_number@[j]
                    < weights@.len() && frame_data.frame_number@[j] < periods@.len(),
            out@.len() == len,
            forall|j: int, k: int|
                0 <= j < i && frame_data.start_index@[j] <= k < frame_data.frame_end(j)
                    ==> #[trigger] out@[k] == #[trigger] frame_value(frame_data, weights, periods@, j),
            forall|k: int|
                i < n && frame_data.start_index@[i as int] <= k < len ==> #[trigger] out@[k]
                    == u32::MAX,
            forall|k: int| 0 <= k < len && (n == 0 || k < frame_data.start_index@[0]) ==> #[trigger] out@[k] == u32::MAX,
        decreases n - i,
    {
        let frame: usize = frame_data.frame_number[i];
        let frame_start: usize = frame_data.start_index[i];
        let frame_end: usize = if i + 1 == n {
            len
        } else {
            frame_data.start_index[i + 1]
        };
        proof {
            if i + 1 < n {
                assert(frame_data.start_index@[i as int] <= frame_data.start_index@[i + 1]);
            }
        }
        let ghost before = out@;
        if weights.get(frame) {
            let p: u32 = periods[frame];
            let mut k: usize = frame_start;
            while k < frame_end
                invariant
                    frame_start <= k <= frame_end,
                    frame_end <= len,
                    out@.len() == len,
                    forall|m: int| 0 <= m < len && !(frame_start <= m < k) ==> #[trigger] out@[m] == before[m],
                    forall|m: int| frame_start <= m < k ==> #[trigger] out@[m] == p,
                decreases frame_end - k,
            {
                out.set(k, p);
                k += 1;
            }
        }
        proof {
            assert forall|j: int, k: int|
                0 <= j < i + 1 && frame_data.start_index@[j] <= k < frame_data.frame_end(j)
                    implies #[trigger] out@[k] == #[trigger] frame_value(frame_data, weights, periods@, j) by {
                if j < i {
                    if j + 1 < n {
                        assert(frame_data.start_index@[j + 1] <= frame_data.start_index@[i as int]);
                    }
                }
            }
        }
        i += 1;
    }
    proof {
        assert forall|i: int, k: int|
            #![trigger out@[k], frame_data.frame_number@[i]]
            0 <= i < frame_data.start_index@.len() && frame_data.start_index@[i] <= k
                < frame_data.frame_end(i) implies out@[k] == if weights@[frame_data.frame_number@[i] as int] {
                periods@[frame_data.frame_number@[i] as int]
            } else {
                u32::MAX
            } by {
            assert(out@[k] == frame_value(frame_data, weights, periods@, i));
        }
    }
    out
}

/// Each event of a run of frames gets the period of the frame it belongs to
/// when that frame is kept, and `u32::MAX` when it is dropped: the weight and
/// the period are those of the frame number held in the event's slot, not of
/// the slot's position.
pub proof fn law_event_periods_by_frame(
    frame_data: &FrameData,
    weights: &Weights,
    periods: Seq<u32>,
    r: Seq<u32>,
    i: int,
    k: int,
)
    requires
        frame_data.wf(),
        forall|j: int, m: int|
            0 <= j < frame_data.start_index@.len() && frame_data.start_index@[j] <= m
                < frame_data.frame_end(j) ==> #[trigger] r[m] == #[trigger] frame_value(
                frame_data,
                weights,
                periods,
                j,
            ),
        0 <= i < frame_data.start_index@.len(),
        frame_data.start_index@[i] <= k < frame_data.frame_end(i),
    ensures
        weights@[frame_data.frame_number@[i] as int] ==> r[k] == periods[frame_data.frame_number@[i] as int],
        !weights@[frame_data.frame_number@[i] as int] ==> r[k] == u32::MAX,
{
    assert(r[k] == frame_value(frame_data, weights, periods, i));
}

/// The frames kept by the time filters (ranges to keep when `keep`, to drop
/// otherwise) and by the sample-log filters (always ranges to keep), for
/// frames starting at `frame_start_times`. A kind of filter with no ranges
/// keeps every frame.
pub fn frame_weights(
    time_starts: Vec<usize>,
    time_ends: Vec<usize>,
    log_starts: Vec<usize>,
    log_ends: Vec<usize>,
    frame_start_times: &[usize],
    keep: bool,
) -> (w: Weights)
    requires
        filters_fit(frame_start_times@, time_starts@, time_ends@),
        filters_fit(frame_start_times@, log_starts@, log_ends@),
    ensures
        w.size() == frame_start_times@.len(),
        w.blocks().len() == blocks_for(frame_start_times@.len() as nat),
        forall|p: int|
            0 <= p < w@.len() ==> #[trigger] w@[p] == ((time_starts@.len() == 0 || selects_frame(
                frame_start_times@,
                time_starts@,
                time_ends@,
                p,
            ) == keep) && (log_starts@.len() == 0 || selects_frame(
                frame_start_times@,
                log_starts@,
                log_ends@,
                p,
            ))),
{
    let n_frames: usize = frame_start_times.len();
    let filters_exist: bool = time_starts.len() > 0 || log_starts.len() > 0;
    if filters_exist {
        let time_empty: bool = time_starts.len() == 0;
        let log_empty: bool = log_starts.len() == 0;
        let time_weights = if time_empty {
            Weights::ones(n_frames)
        } else {
            get_weights(time_starts, time_ends, frame_start_times, keep)
        };
        // sample-log filters always give ranges to keep
        let log_weights = if log_empty {
            Weights::ones(n_frames)
        } else {
            get_weights(log_starts, log_ends, frame_start_times, true)
        };
        time_weights & log_weights
    } else {
        Weights::ones(n_frames)
    }
}

/// The number of kept frames of each period: one count over all frames when
/// there is a single period, otherwise a count per period.
pub fn frames_per_period(periods: &[u32], n_periods: usize, weights: &Weights) -> (r: Vec<u32>)
    requires
        periods@.len() <= weights@.len(),
        periods@.len() <= u32::MAX,
        forall|k: int| 0 <= k < periods@.len() ==> #[trigger] periods@[k] < n_periods,
        n_periods == 1 ==> count_true(weights@, weights.counted_len()) <= u32::MAX,
    ensures
        n_periods == 1 ==> r@ == seq![count_true(weights@, weights.counted_len()) as u32],
        n_periods != 1 ==> r@.len() == n_periods && forall|q: int|
            0 <= q < n_periods ==> #[trigger] r@[q] == kept_in_period(
                periods@,
                weights@,
                q,
                periods@.len() as int,
            ),
{
    if n_periods == 1 {
        let c: u32 = weights.count();
        let v: Vec<u32> = vec![c];
        v
    } else {
        get_period_frames(periods, n_periods, weights)
    }
}

/// The kept frames among the first `k` frames that belong to one of the
/// periods below `n_periods`, counted period by period.
pub open spec fn kept_in_periods(periods: Seq<u32>, kept: Seq<bool>, n_periods: int, k: int) -> nat
    decreases n_periods,
{
    if n_periods <= 0 {
        0
    } else {
        kept_in_periods(periods, kept, n_periods - 1, k) + kept_in_period(
            periods,
            kept,
            n_periods - 1,
            k,
        )
    }
}

/// Adding frame `k - 1` adds one to the period totals exactly when it is
/// kept and its period is below `n_periods`.
proof fn lemma_kept_in_periods_step(periods: Seq<u32>, kept: Seq<bool>, n_periods: int, k: int)
    requires
        k > 0,
    ensures
        kept_in_periods(periods, kept, n_periods, k) == kept_in_periods(periods, kept, n_periods, k - 1)
            + if kept[k - 1] && periods[k - 1] < n_periods {
            1nat
        } else {
            0nat
        },
    decreases n_periods,
{
    if n_periods > 0 {
        lemma_kept_in_periods_step(periods, kept, n_periods - 1, k);
    }
}

/// Counted period by period, the kept frames add up to all the kept frames,
/// when every frame's period is below the number of periods.
pub proof fn law_period_frames_sum(periods: Seq<u32>, kept: Seq<bool>, n_periods: int, k: int)
    requires
        0 <= k <= periods.len(),
        forall|j: int| 0 <= j < periods.len() ==> #[trigger] periods[j] < n_periods,
    ensures
        kept_in_periods(periods, kept, n_periods, k) == count_true(kept, k),
    decreases k,
{
    if k > 0 {
        law_period_frames_sum(periods, kept, n_periods, k - 1);
        lemma_kept_in_periods_step(periods, kept, n_periods, k);
        assert(periods[k - 1] < n_periods);
    } else {
        lemma_kept_in_periods_zero(periods, kept, n_periods);
    }
}

proof fn lemma_kept_in_periods_zero(periods: Seq<u32>, kept: Seq<bool>, n_periods: int)
    ensures
        kept_in_periods(periods, kept, n_periods, 0) == 0,
    decreases n_periods,
{
    if n_periods > 0 {
        lemma_kept_in_periods_zero(periods, kept, n_periods - 1);
    }
}

} // verus!
