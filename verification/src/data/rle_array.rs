//! Run-length encoded arrays, as the per-frame values of the event files are stored.
use vstd::prelude::*;

use crate::utils::{binary_search, frame_of, lemma_search_bracket};

verus! {

/// A run-length encoded array, which stores repeated values more efficiently.
/// e.g. the array [1, 1, 1, 2, 2, 3, 3, 3, 3, 6, 6, 6, 6] would be encoded as
/// values = [1, 2, 3, 6], start_index = [0, 3, 5, 9].
pub struct RLEArray {
    pub values: Vec<usize>,
    pub start_index: Vec<usize>,
}

/// A slice of an RLEArray, read one uncompressed value at a time.
pub struct RLEArraySlice {
    pub values: Vec<usize>,
    pub start_index: Vec<usize>,
    /// The total size of the uncompressed slice.
    pub array_len: usize,
    /// The value currently being returned.
    pub current_value: usize,
    /// The run currently being read.
    pub current_index: usize,
    /// How many more times the current value is returned.
    pub remaining_vals: usize,
}

/// `n` copies of `v`.
pub open spec fn repeat(v: usize, n: int) -> Seq<usize> {
    Seq::new(if n > 0 {
        n as nat
    } else {
        0
    }, |k: int| v)
}

/// The length of run `i` of runs starting at `starts`: up to the start of
/// the next run, or for the last of `n_runs` runs up to `len`.
pub open spec fn run_len(starts: Seq<usize>, n_runs: int, len: int, i: int) -> int {
    if i + 1 == n_runs {
        len - starts[i]
    } else {
        starts[i + 1] - starts[i]
    }
}

/// The uncompressed values of runs `i` onwards.
pub open spec fn runs_from(values: Seq<usize>, starts: Seq<usize>, len: int, i: int) -> Seq<usize>
    decreases values.len() - i,
{
    if i < 0 || i >= values.len() {
        seq![]
    } else {
        repeat(values[i], run_len(starts, values.len() as int, len, i)) + runs_from(
            values,
            starts,
            len,
            i + 1,
        )
    }
}

impl RLEArraySlice {
    /// The length of run `i` of this slice.
    pub open spec fn run_len(&self, i: int) -> int {
        run_len(self.start_index@, self.values@.len() as int, self.array_len as int, i)
    }

    /// The uncompressed values of runs `i` onwards.
    pub open spec fn tail(&self, i: int) -> Seq<usize> {
        runs_from(self.values@, self.start_index@, self.array_len as int, i)
    }

    /// The values still to be returned.
    pub open spec fn remaining(&self) -> Seq<usize> {
        if self.current_index >= self.values@.len() {
            seq![]
        } else {
            repeat(self.current_value, self.remaining_vals as int) + self.tail(
                self.current_index + 1,
            )
        }
    }

    /// Every run after the current one holds at least one value, and each
    /// run has a start index.
    pub open spec fn wf(&self) -> bool {
        &&& self.current_index <= self.values@.len()
        &&& self.values@.len() <= self.start_index@.len()
        &&& forall|i: int|
            self.current_index < i < self.values@.len() ==> #[trigger] run_len(
                self.start_index@,
                self.values@.len() as int,
                self.array_len as int,
                i,
            ) >= 1
    }

    /// Return the next uncompressed value, if any.
    pub fn next(&mut self) -> (r: Option<usize>)
        requires
            old(self).wf(),
        ensures
            final(self).wf(),
            old(self).remaining().len() == 0 ==> r is None && final(self).remaining().len() == 0,
            old(self).remaining().len() > 0 ==> r == Some(old(self).remaining()[0])
                && final(self).remaining() == old(self).remaining().drop_first(),
            final(self).values@ == old(self).values@,
            final(self).start_index@ == old(self).start_index@,
            final(self).array_len == old(self).array_len,
    {
        let ghost before = self.remaining();
        if self.current_index == self.values.len() {
            return None;
        }
        if self.remaining_vals == 0 {
            proof {
                let next_run = self.current_index + 1;
                if next_run < self.values@.len() {
                    assert(self.run_len(next_run) >= 1);
                }
            }
            self.current_index += 1;
            if self.current_index == self.values.len() {
                proof {
                    assert(before =~= seq![]);
                }
                return None;
            } else if self.current_index == self.values.len() - 1 {
                self.remaining_vals = self.array_len - self.start_index[self.current_index];
            } else {
                self.remaining_vals = self.start_index[self.current_index + 1]
                    - self.start_index[self.current_index];
            }
            self.current_value = self.values[self.current_index];
            proof {
                assert(before =~= self.remaining());
            }
        }
        let ghost mid = self.remaining();
        self.remaining_vals -= 1;
        proof {
            assert(self.remaining() =~= mid.drop_first());
        }
        Some(self.current_value)
    }

    /// All the values still to be returned.
    pub fn collect_values(&mut self) -> (r: Vec<usize>)
        requires
            old(self).wf(),
        ensures
            r@ == old(self).remaining(),
    {
        let ghost all = self.remaining();
        let mut out: Vec<usize> = Vec::new();
        loop
            invariant
                self.wf(),
                all == old(self).remaining(),
                out@ + self.remaining() == all,
            decreases self.remaining().len(),
        {
            match self.next() {
                Some(v) => {
                    out.push(v);
                },
                None => {
                    proof {
                        assert(out@ =~= all);
                    }
                    return out;
                },
            }
        }
    }
}

/// Where run `i` of `n_runs` runs ends: at the start of the next run, or for
/// the last run at `len`.
pub open spec fn run_end(starts: Seq<usize>, n_runs: int, len: int, i: int) -> int {
    if i + 1 == n_runs {
        len
    } else {
        starts[i + 1] as int
    }
}

/// The runs describe an array of `len` values: there is at least one run,
/// the first starts at 0, each starts after the one before, and the last
/// starts at or before `len`.
pub open spec fn runs_wf(values: Seq<usize>, starts: Seq<usize>, len: int) -> bool {
    &&& values.len() >= 1
    &&& starts.len() == values.len()
    &&& starts[0] == 0
    &&& forall|i: int, j: int| 0 <= i < j < starts.len() ==> #[trigger] starts[i] < #[trigger] starts[j]
    &&& starts[starts.len() - 1] <= len
}

/// The uncompressed array of `len` values that the runs describe.
pub open spec fn decompressed(values: Seq<usize>, starts: Seq<usize>, len: int) -> Seq<usize> {
    runs_from(values, starts, len, 0)
}

/// The runs from index `i` on uncompress to `len - starts[i]` values, and
/// position `p` of run `j` holds the value of run `j`.
proof fn lemma_runs_from_at(values: Seq<usize>, starts: Seq<usize>, len: int, i: int)
    requires
        0 <= i <= values.len(),
        values.len() <= starts.len(),
        forall|a: int, b: int| i <= a < b < values.len() ==> #[trigger] starts[a] <= #[trigger] starts[b],
        i < values.len() ==> starts[values.len() - 1] <= len,
    ensures
        i < values.len() ==> runs_from(values, starts, len, i).len() == len - starts[i],
        i == values.len() ==> runs_from(values, starts, len, i).len() == 0,
        forall|j: int, p: int|
            i <= j < values.len() && starts[j] <= p < run_end(starts, values.len() as int, len, j)
                ==> #[trigger] runs_from(values, starts, len, i)[p - starts[i]] == #[trigger] values[j],
    decreases values.len() - i,
{
    let n = values.len() as int;
    if i < n {
        lemma_runs_from_at(values, starts, len, i + 1);
        let head = repeat(values[i], run_len(starts, n, len, i));
        let rest = runs_from(values, starts, len, i + 1);
        let all = runs_from(values, starts, len, i);
        assert(all == head + rest);
        if i + 1 < n {
            assert(starts[i] <= starts[i + 1]);
            assert(starts[i + 1] <= starts[n - 1]);
        }
        assert(head.len() == run_len(starts, n, len, i));
        assert forall|j: int, p: int|
            i <= j < n && starts[j] <= p < run_end(starts, n, len, j) implies #[trigger] all[p
            - starts[i]] == #[trigger] values[j] by {
            if j == i {
                assert(all[p - starts[i]] == head[p - starts[i]]);
            } else {
                assert(starts[i + 1] <= starts[j]);
                assert(all[p - starts[i]] == rest[p - starts[i + 1]]);
            }
        }
    }
}

/// The run holding position `t` of an array of `len` values: it starts at or
/// before `t` and ends after it.
proof fn lemma_frame_of_run(values: Seq<usize>, starts: Seq<usize>, len: int, t: usize)
    requires
        runs_wf(values, starts, len),
        t < len,
    ensures
        0 <= frame_of(starts, t) < values.len(),
        starts[frame_of(starts, t)] <= t < run_end(starts, values.len() as int, len, frame_of(starts, t)),
{
    let n = starts.len() as int;
    lemma_search_bracket(starts, 0, n, t);
    let r = frame_of(starts, t);
    if r + 1 < n && starts[r] == t {
        assert(starts[r] < starts[r + 1]);
    }
}

/// The run holding position `t`, for positions up to and including `len`:
/// it starts at or before `t`, and the run after it starts after `t`.
proof fn lemma_frame_of_bound(values: Seq<usize>, starts: Seq<usize>, len: int, t: usize)
    requires
        runs_wf(values, starts, len),
        t <= len,
    ensures
        0 <= frame_of(starts, t) < values.len(),
        starts[frame_of(starts, t)] <= t,
        frame_of(starts, t) + 1 < values.len() ==> t < starts[frame_of(starts, t) + 1],
{
    let n = starts.len() as int;
    lemma_search_bracket(starts, 0, n, t);
    let r = frame_of(starts, t);
    if r + 1 < n && starts[r] == t {
        assert(starts[r] < starts[r + 1]);
    }
}

/// A slice of the runs of an array read out in full gives the part of the
/// uncompressed array between `lower` and `upper`, when `upper` is not where
/// a run starts (then the slice's last run would be empty, which reading
/// does not handle), unless the slice is empty.
pub proof fn law_slice_decompresses(
    values: Seq<usize>,
    starts: Seq<usize>,
    len: int,
    lower: usize,
    upper: usize,
    s: RLEArraySlice,
)
    requires
        runs_wf(values, starts, len),
        lower <= upper <= len,
        forall|j: int| 0 <= j < starts.len() && #[trigger] starts[j] == upper ==> upper == lower,
        is_slice_of(values, starts, lower, upper, s),
    ensures
        s.wf(),
        s.remaining() == decompressed(values, starts, len).subrange(lower as int, upper as int),
{
    let n = values.len() as int;
    let lo = frame_of(starts, lower);
    let hi = frame_of(starts, upper);
    lemma_frame_of_bound(values, starts, len, lower);
    lemma_frame_of_bound(values, starts, len, upper);
    if lo > hi {
        assert(starts[hi + 1] <= starts[lo]);
    }
    let v2 = s.values@;
    let s2 = s.start_index@;
    let len2 = (upper - lower) as int;
    let m = hi - lo + 1;
    assert forall|k: int| 1 <= k < m implies #[trigger] s2[k] == starts[lo + k] - lower by {
        assert(starts[lo + 1] <= starts[lo + k]);
    }
    assert forall|a: int, b: int| 0 <= a < b < m implies #[trigger] s2[a] <= #[trigger] s2[b] by {
        if a > 0 {
            assert(starts[lo + a] < starts[lo + b]);
        }
    }
    if m > 1 {
        assert(s2[m - 1] == starts[hi] - lower);
    }
    lemma_runs_from_at(v2, s2, len2, 0);
    // the slice is positioned at the start of its first run
    assert(s.remaining() == runs_from(v2, s2, len2, 0));
    assert forall|i: int| s.current_index < i < v2.len() implies #[trigger] run_len(s2, v2.len() as int, len2, i) >= 1 by {
        if i + 1 < m {
            assert(starts[lo + i] < starts[lo + i + 1]);
        } else {
            assert(s2[i] == starts[hi] - lower);
            assert(starts[hi] != upper);
        }
    }
    let d = decompressed(values, starts, len);
    lemma_runs_from_at(values, starts, len, 0);
    assert forall|p: int| 0 <= p < len2 implies #[trigger] s.remaining()[p] == d[lower + p] by {
        let t = (lower + p) as usize;
        lemma_frame_of_run(values, starts, len, t);
        let j = frame_of(starts, t);
        assert(d[t - starts[0]] == values[j]);
        if j < lo {
            assert(starts[j + 1] <= starts[lo]);
        }
        if j > hi {
            assert(starts[hi + 1] <= starts[j]);
        }
        let j2 = j - lo;
        assert(v2[j2] == values[j]);
        assert(s2[j2] <= p < run_end(s2, m, len2, j2));
        assert(runs_from(v2, s2, len2, 0)[p - s2[0]] == v2[j2]);
    }
    assert(s.remaining() =~= d.subrange(lower as int, upper as int));
}

/// `s` is the slice of the runs `values`, `starts` between the
/// uncompressed positions `lower` and `upper`: the runs from the one holding
/// `lower` to the one holding `upper`, their starts shifted down by `lower`
/// (the first run starting at 0), positioned at the start of its first run.
pub open spec fn is_slice_of(values: Seq<usize>, starts: Seq<usize>, lower: usize, upper: usize, s: RLEArraySlice) -> bool {
    let lo = frame_of(starts, lower);
    let hi = frame_of(starts, upper);
    &&& s.values@ == values.subrange(lo, hi + 1)
    &&& s.start_index@ == Seq::new(
        (hi - lo + 1) as nat,
        |k: int|
            if k == 0 {
                0usize
            } else {
                (starts[lo + k] - lower) as usize
            },
    )
    &&& s.array_len == upper - lower
    &&& s.current_value == values[lo]
    &&& s.current_index == 0
    &&& s.remaining_vals == if hi == lo {
        upper - lower
    } else {
        starts[lo + 1] - lower
    }
}

impl RLEArray {
    /// Construct a new RLEArray from the values for each run and the start
    /// index of each run.
    pub fn new(values: Vec<usize>, start_index: Vec<usize>) -> (a: RLEArray)
        ensures
            a.values@ == values@,
            a.start_index@ == start_index@,
    {
        RLEArray { values, start_index }
    }

    /// An array of all-zero values in a single run.
    pub fn zeros() -> (a: RLEArray)
        ensures
            a.values@ == seq![0usize],
            a.start_index@ == seq![0usize],
    {
        RLEArray { values: vec![0], start_index: vec![0] }
    }

    /// Get a smaller array from a contiguous slice of this one; `lower` and
    /// `upper` are indices into the uncompressed array.
    pub fn slice(&self, lower: usize, upper: usize) -> (s: RLEArraySlice)
        requires
            lower <= upper,
            self.start_index@.len() > 0,
            frame_of(self.start_index@, lower) <= frame_of(self.start_index@, upper),
            frame_of(self.start_index@, upper) < self.values@.len(),
            forall|i: int|
                frame_of(self.start_index@, lower) < i <= frame_of(self.start_index@, upper)
                    ==> #[trigger] self.start_index@[i] >= lower,
        ensures
            is_slice_of(self.values@, self.start_index@, lower, upper, s),
    {
        // find the runs which bound the range
        let n_runs: usize = self.start_index.len();
        let lower_index: usize = binary_search(&self.start_index, 0, n_runs, lower);
        let upper_index: usize = binary_search(&self.start_index, 0, n_runs, upper);
        // shift the start indices to match the slice
        let mut new_starts: Vec<usize> = Vec::new();
        let mut values: Vec<usize> = Vec::new();
        let mut i: usize = lower_index;
        while i <= upper_index
            invariant
                lower_index <= i <= upper_index + 1,
                upper_index < self.values@.len(),
                upper_index < n_runs,
                n_runs == self.start_index@.len(),
                lower_index == frame_of(self.start_index@, lower),
                upper_index == frame_of(self.start_index@, upper),
                forall|j: int|
                    frame_of(self.start_index@, lower) < j <= frame_of(self.start_index@, upper)
                        ==> #[trigger] self.start_index@[j] >= lower,
                values@ == self.values@.subrange(lower_index as int, i as int),
                new_starts@ == Seq::new(
                    (i - lower_index) as nat,
                    |k: int|
                        if k == 0 {
                            0usize
                        } else {
                            (self.start_index@[lower_index + k] - lower) as usize
                        },
                ),
            decreases upper_index + 1 - i,
        {
            let start: usize = if i == lower_index {
                0
            } else {
                self.start_index[i] - lower
            };
            new_starts.push(start);
            values.push(self.values[i]);
            i += 1;
            proof {
                assert(values@ =~= self.values@.subrange(lower_index as int, i as int));
                assert(new_starts@ =~= Seq::new(
                    (i - lower_index) as nat,
                    |k: int|
                        if k == 0 {
                            0usize
                        } else {
                            (self.start_index@[lower_index + k] - lower) as usize
                        },
                ));
            }
        }
        let array_len: usize = upper - lower;
        let remaining_vals: usize = if new_starts.len() == 1 {
            array_len
        } else {
            new_starts[1]
        };
        RLEArraySlice {
            values,
            start_index: new_starts,
            array_len,
            current_value: self.values[lower_index],
            current_index: 0,
            remaining_vals,
        }
    }
}

} // verus!
