//! Counting events into a histogram indexed by period, detector and time bin.
//!
//! The histogram is flat: the count for period `p`, detector `s` and bin `b`
//! is at `(p * n_spec + s) * n_bins + b`.
use vstd::prelude::*;

verus! {

/// The events of a chunk, as the counting reads them: for each event its
/// time, its detector, the period of its frame (`u32::MAX` where the frame
/// is not kept), whether its amplitude is above its detector's threshold,
/// and the time bin its time falls in.
pub struct Events {
    pub times: Vec<u32>,
    pub specs: Vec<u32>,
    pub periods: Vec<u32>,
    pub amp_passes: Vec<bool>,
    pub bins: Vec<usize>,
}

/// The time window and the shape of a histogram.
#[derive(Clone, Copy)]
pub struct Window {
    pub min_time: u32,
    pub max_time: u32,
    pub n_periods: usize,
    pub n_spec: usize,
    pub n_bins: usize,
}

impl Window {
    /// The number of counts a histogram of this shape holds.
    pub open spec fn n_cells(&self) -> int {
        self.n_periods * self.n_spec * self.n_bins
    }
}

impl Events {
    /// The number of events.
    pub open spec fn n_events(&self) -> int {
        self.times@.len() as int
    }

    /// Every event has each of its values.
    pub open spec fn wf(&self) -> bool {
        &&& self.specs@.len() == self.n_events()
        &&& self.periods@.len() == self.n_events()
        &&& self.amp_passes@.len() == self.n_events()
        &&& self.bins@.len() == self.n_events()
    }

    /// Whether event `k` is counted: its frame is kept, its time lies in the
    /// window, and its amplitude passed.
    pub open spec fn counted(&self, w: Window, k: int) -> bool {
        &&& self.periods@[k] != u32::MAX
        &&& w.min_time <= self.times@[k] < w.max_time
        &&& self.amp_passes@[k]
    }

    /// The position of event `k`'s count in the flat histogram.
    pub open spec fn cell(&self, w: Window, k: int) -> int {
        (self.periods@[k] * w.n_spec + self.specs@[k]) * w.n_bins + self.bins@[k]
    }

    /// Every counted event has a period, a detector and a bin within the
    /// histogram's shape.
    pub open spec fn fits(&self, w: Window) -> bool {
        forall|k: int|
            0 <= k < self.n_events() && #[trigger] self.counted(w, k) ==> {
                &&& self.periods@[k] < w.n_periods
                &&& self.specs@[k] < w.n_spec
                &&& self.bins@[k] < w.n_bins
            }
    }

    /// The number of counted events among the first `k` whose count goes to
    /// position `c`.
    pub open spec fn hits(&self, w: Window, c: int, k: int) -> nat
        decreases k,
    {
        if k <= 0 {
            0
        } else {
            self.hits(w, c, k - 1) + if self.counted(w, k - 1) && self.cell(w, k - 1) == c {
                1nat
            } else {
                0nat
            }
        }
    }

    /// The number of counted events among the first `k`.
    pub open spec fn n_counted(&self, w: Window, k: int) -> nat
        decreases k,
    {
        if k <= 0 {
            0
        } else {
            self.n_counted(w, k - 1) + if self.counted(w, k - 1) {
                1nat
            } else {
                0nat
            }
        }
    }

    /// The hits of the positions below `m`, added up.
    pub open spec fn hits_below(&self, w: Window, m: int, k: int) -> int
        decreases m,
    {
        if m <= 0 {
            0
        } else {
            self.hits_below(w, m - 1, k) + self.hits(w, m - 1, k)
        }
    }
}

/// The counts of the positions below `m`, added up.
pub open spec fn total(h: Seq<i32>, m: int) -> int
    decreases m,
{
    if m <= 0 {
        0
    } else {
        total(h, m - 1) + h[m - 1]
    }
}

/// A position `a * big_b + b` lies below `big_a * big_b`.
proof fn lemma_index_bound(a: int, b: int, big_a: int, big_b: int)
    by (nonlinear_arith)
    requires
        0 <= a < big_a,
        0 <= b < big_b,
    ensures
        0 <= a * big_b,
        a * big_b + b < big_a * big_b,
        big_a <= big_a * big_b,
{
}

/// A counted event's position lies within the histogram.
proof fn lemma_cell_in_range(events: &Events, w: Window, k: int)
    requires
        events.wf(),
        events.fits(w),
        0 <= k < events.n_events(),
        events.counted(w, k),
    ensures
        0 <= events.periods@[k] * w.n_spec,
        events.periods@[k] * w.n_spec + events.specs@[k] < w.n_periods * w.n_spec,
        w.n_periods * w.n_spec <= w.n_cells(),
        0 <= (events.periods@[k] * w.n_spec + events.specs@[k]) * w.n_bins,
        0 <= events.cell(w, k) < w.n_cells(),
{
    let p = events.periods@[k] as int;
    let s = events.specs@[k] as int;
    let b = events.bins@[k] as int;
    lemma_index_bound(p, s, w.n_periods as int, w.n_spec as int);
    lemma_index_bound(p * w.n_spec + s, b, w.n_periods * w.n_spec, w.n_bins as int);
}

proof fn lemma_hits_monotone(events: &Events, w: Window, c: int, j: int, k: int)
    requires
        0 <= j <= k,
    ensures
        events.hits(w, c, j) <= events.hits(w, c, k),
    decreases k - j,
{
    if j < k {
        lemma_hits_monotone(events, w, c, j, k - 1);
    }
}

proof fn lemma_n_counted_monotone(events: &Events, w: Window, j: int, k: int)
    requires
        0 <= j <= k,
    ensures
        events.n_counted(w, j) <= events.n_counted(w, k),
    decreases k - j,
{
    if j < k {
        lemma_n_counted_monotone(events, w, j, k - 1);
    }
}

/// Why counting the events was stopped.
#[derive(Debug)]
pub enum BinError {
    /// The count at this position would pass `i32::MAX`.
    CountOverflow { cell: usize },
    /// The number of events counted would pass `usize::MAX`.
    TotalOverflow,
}

/// Every count ends within `i32::MAX`, and the number of events counted
/// within `usize::MAX`.
pub open spec fn counts_fit(old_h: Seq<i32>, old_n: usize, events: &Events, w: Window) -> bool {
    &&& forall|c: int|
        0 <= c < old_h.len() ==> #[trigger] old_h[c] + events.hits(w, c, events.n_events())
            <= i32::MAX
    &&& old_n + events.n_counted(w, events.n_events()) <= usize::MAX
}

/// Add the counted events to `hist`, each at its position, and their number
/// to `n`. Counting stops with an error where a count would overflow; the
/// counts are then left part-way.
pub fn bin_events(hist: &mut Vec<i32>, n: &mut usize, events: &Events, w: Window) -> (r: Result<(), BinError>)
    requires
        events.wf(),
        events.fits(w),
        old(hist)@.len() == w.n_cells(),
    ensures
        final(hist)@.len() == old(hist)@.len(),
        r is Ok <==> counts_fit(old(hist)@, *old(n), events, w),
        r is Ok ==> {
            &&& forall|c: int|
                0 <= c < final(hist)@.len() ==> #[trigger] final(hist)@[c] == old(hist)@[c]
                    + events.hits(w, c, events.n_events())
            &&& *final(n) == *old(n) + events.n_counted(w, events.n_events())
        },
        r matches Err(BinError::CountOverflow { cell }) ==> cell < old(hist)@.len() && old(hist)@[cell as int]
            + events.hits(w, cell as int, events.n_events()) > i32::MAX,
{
    let len: usize = events.times.len();
    let ghost h0 = hist@;
    let ghost n0 = *n;
    let mut k: usize = 0;
    while k < len
        invariant
            k <= len,
            len == events.n_events(),
            events.wf(),
            events.fits(w),
            h0.len() == w.n_cells(),
            h0 == old(hist)@,
            n0 == *old(n),
            hist@.len() == h0.len(),
            forall|c: int| 0 <= c < h0.len() ==> #[trigger] hist@[c] == h0[c] + events.hits(w, c, k as int),
            *n == n0 + events.n_counted(w, k as int),
        decreases len - k,
    {
        let p: u32 = events.periods[k];
        let t: u32 = events.times[k];
        let ghost before = hist@;
        if p != u32::MAX && t >= w.min_time && t < w.max_time && events.amp_passes[k] {
            let s: u32 = events.specs[k];
            let b: usize = events.bins[k];
            let hist_len: usize = hist.len();
            proof {
                assert(events.counted(w, k as int));
                lemma_cell_in_range(events, w, k as int);
                assert(p * w.n_spec + s < hist_len);
                assert((p * w.n_spec + s) * w.n_bins + b < hist_len);
            }
            let cell: usize = (p as usize * w.n_spec + s as usize) * w.n_bins + b;
            let old_count: i32 = hist[cell];
            if old_count == i32::MAX {
                proof {
                    assert(events.cell(w, k as int) == cell);
                    assert(hist@[cell as int] == h0[cell as int] + events.hits(w, cell as int, k as int));
                    assert(events.hits(w, cell as int, k + 1) == events.hits(w, cell as int, k as int) + 1);
                    lemma_hits_monotone(events, w, cell as int, k + 1, len as int);
                }
                return Err(BinError::CountOverflow { cell });
            }
            if *n == usize::MAX {
                proof {
                    assert(events.n_counted(w, k + 1) == events.n_counted(w, k as int) + 1);
                    lemma_n_counted_monotone(events, w, k + 1, len as int);
                }
                return Err(BinError::TotalOverflow);
            }
            hist.set(cell, old_count + 1);
            *n = *n + 1;
            proof {
                assert forall|c: int| 0 <= c < h0.len() implies #[trigger] hist@[c] == h0[c]
                    + events.hits(w, c, k + 1) by {
                    if c != cell {
                        assert(hist@[c] == before[c]);
                    }
                }
            }
        } else {
            proof {
                assert(!events.counted(w, k as int));
                assert forall|c: int| 0 <= c < h0.len() implies #[trigger] hist@[c] == h0[c]
                    + events.hits(w, c, k + 1) by {
                    assert(hist@[c] == before[c]);
                }
            }
        }
        k += 1;
    }
    proof {
        assert forall|c: int| 0 <= c < h0.len() implies #[trigger] h0[c] + events.hits(
            w,
            c,
            events.n_events(),
        ) <= i32::MAX by {
            assert(hist@[c] == h0[c] + events.hits(w, c, len as int));
        }
    }
    Ok(())
}

/// Every count of two histograms of the same shape adds up within `i32`,
/// and their numbers of events within `usize`.
pub open spec fn sums_fit(a: Seq<i32>, a_n: usize, b: Seq<i32>, b_n: usize) -> bool {
    &&& forall|c: int| 0 <= c < a.len() ==> i32::MIN <= #[trigger] a[c] + b[c] <= i32::MAX
    &&& a_n + b_n <= usize::MAX
}

/// Add the counts of `other` into `hist`, position by position, and its
/// number of events into `n`. Where a sum would overflow, nothing is added
/// and the error names the first such position.
pub fn merge_counts(hist: &mut Vec<i32>, n: &mut usize, other: &[i32], other_n: usize) -> (r: Result<
    (),
    BinError,
>)
    requires
        old(hist)@.len() == other@.len(),
    ensures
        r is Ok <==> sums_fit(old(hist)@, *old(n), other@, other_n),
        r is Ok ==> {
            &&& final(hist)@.len() == old(hist)@.len()
            &&& forall|c: int|
                0 <= c < final(hist)@.len() ==> #[trigger] final(hist)@[c] == old(hist)@[c] + other@[c]
            &&& *final(n) == *old(n) + other_n
        },
        r is Err ==> final(hist)@ == old(hist)@ && *final(n) == *old(n),
        r matches Err(BinError::CountOverflow { cell }) ==> cell < old(hist)@.len() && !(i32::MIN
            <= old(hist)@[cell as int] + other@[cell as int] <= i32::MAX),
{
    let len: usize = hist.len();
    let mut k: usize = 0;
    while k < len
        invariant
            k <= len,
            len == hist@.len(),
            hist@.len() == other@.len(),
            hist@ == old(hist)@,
            forall|c: int| 0 <= c < k ==> i32::MIN <= #[trigger] hist@[c] + other@[c] <= i32::MAX,
        decreases len - k,
    {
        let sum: i64 = hist[k] as i64 + other[k] as i64;
        if sum < i32::MIN as i64 || sum > i32::MAX as i64 {
            return Err(BinError::CountOverflow { cell: k });
        }
        k += 1;
    }
    if other_n > usize::MAX - *n {
        return Err(BinError::TotalOverflow);
    }
    let mut k: usize = 0;
    while k < len
        invariant
            k <= len,
            len == hist@.len(),
            hist@.len() == other@.len(),
            old(hist)@.len() == len,
            forall|c: int| 0 <= c < len ==> i32::MIN <= #[trigger] old(hist)@[c] + other@[c] <= i32::MAX,
            forall|c: int| 0 <= c < len ==> #[trigger] hist@[c] == if c < k {
                old(hist)@[c] + other@[c]
            } else {
                old(hist)@[c] as int
            },
        decreases len - k,
    {
        let v: i32 = hist[k] + other[k];
        hist.set(k, v);
        k += 1;
    }
    *n = *n + other_n;
    Ok(())
}

/// One more event, as the positions below `m` see it: it adds one exactly
/// when it is counted at a position below `m`.
proof fn lemma_hits_below_step(events: &Events, w: Window, m: int, k: int)
    requires
        0 <= m,
        0 < k,
    ensures
        events.hits_below(w, m, k) == events.hits_below(w, m, k - 1) + if events.counted(w, k - 1)
            && 0 <= events.cell(w, k - 1) < m {
            1int
        } else {
            0int
        },
    decreases m,
{
    if m > 0 {
        lemma_hits_below_step(events, w, m - 1, k);
    }
}

/// The hits over every position of the histogram add up to the events counted.
proof fn lemma_hits_below_all(events: &Events, w: Window, k: int)
    requires
        events.wf(),
        events.fits(w),
        0 <= k <= events.n_events(),
    ensures
        events.hits_below(w, w.n_cells(), k) == events.n_counted(w, k),
    decreases k,
{
    if k == 0 {
        lemma_hits_below_zero(events, w, w.n_cells());
    } else {
        lemma_hits_below_all(events, w, k - 1);
        lemma_hits_below_step(events, w, w.n_cells(), k);
        if events.counted(w, k - 1) {
            lemma_cell_in_range(events, w, k - 1);
        }
    }
}

proof fn lemma_hits_below_zero(events: &Events, w: Window, m: int)
    ensures
        events.hits_below(w, m, 0) == 0,
    decreases m,
{
    if m > 0 {
        lemma_hits_below_zero(events, w, m - 1);
    }
}

proof fn lemma_total_shift(old_h: Seq<i32>, new_h: Seq<i32>, events: &Events, w: Window, m: int)
    requires
        0 <= m <= old_h.len(),
        old_h.len() == new_h.len(),
        forall|c: int|
            0 <= c < new_h.len() ==> #[trigger] new_h[c] == old_h[c] + events.hits(
                w,
                c,
                events.n_events(),
            ),
    ensures
        total(new_h, m) == total(old_h, m) + events.hits_below(w, m, events.n_events()),
    decreases m,
{
    if m > 0 {
        lemma_total_shift(old_h, new_h, events, w, m - 1);
        assert(new_h[m - 1] == old_h[m - 1] + events.hits(w, m - 1, events.n_events()));
    }
}

/// Each counted event lands in exactly one position of the histogram: when
/// each count has grown by its hits (as `bin_events` ensures), the counts
/// together have grown by the number of events counted, which is what `n`
/// grows by.
pub proof fn law_total_grows_by_counted(old_h: Seq<i32>, new_h: Seq<i32>, events: &Events, w: Window)
    requires
        events.wf(),
        events.fits(w),
        old_h.len() == w.n_cells(),
        new_h.len() == old_h.len(),
        forall|c: int|
            0 <= c < new_h.len() ==> #[trigger] new_h[c] == old_h[c] + events.hits(
                w,
                c,
                events.n_events(),
            ),
    ensures
        total(new_h, w.n_cells()) == total(old_h, w.n_cells()) + events.n_counted(
            w,
            events.n_events(),
        ),
{
    lemma_total_shift(old_h, new_h, events, w, w.n_cells());
    lemma_hits_below_all(events, w, events.n_events());
}

} // verus!
