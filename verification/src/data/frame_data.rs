//! Which events belong to which frame.
use vstd::prelude::*;

use crate::utils::{binary_search, frame_of, lemma_search_bracket, sorted};

verus! {

/// The frames of a run of events: the number of each frame, the index of its
/// first event, and the total number of events.
pub struct FrameData {
    pub frame_number: Vec<usize>,
    pub start_index: Vec<usize>,
    pub array_len: usize,
}

impl FrameData {
    /// Frame numbers rise one by one slot, frames start in order, no frame
    /// starts past the end of the events, and there is a frame number for
    /// every start index.
    pub open spec fn wf(&self) -> bool {
        &&& self.frame_number@.len() == self.start_index@.len()
        &&& forall|i: int, j: int|
            0 <= i < j < self.frame_number@.len() ==> self.frame_number@[i] < self.frame_number@[j]
        &&& sorted(self.start_index@)
        &&& forall|i: int| 0 <= i < self.start_index@.len() ==> self.start_index@[i] <= self.array_len
    }

    /// The index one past the last event of the frame in slot `i`.
    pub open spec fn frame_end(&self, i: int) -> int {
        if i + 1 == self.start_index@.len() {
            self.array_len as int
        } else {
            self.start_index@[i + 1] as int
        }
    }

    /// Create frame data for a full set of frame start indices.
    pub fn new(start_index: Vec<usize>, array_len: usize) -> (f: FrameData)
        ensures
            f.frame_number@ == Seq::new(start_index@.len(), |i: int| i as usize),
            f.start_index@ == start_index@,
            f.array_len == array_len,
    {
        let n_frames: usize = start_index.len();
        let mut frame_number: Vec<usize> = Vec::new();
        let mut k: usize = 0;
        while k < n_frames
            invariant
                k <= n_frames,
                frame_number@ == Seq::new(k as nat, |i: int| i as usize),
            decreases n_frames - k,
        {
            frame_number.push(k);
            k += 1;
            proof {
                assert(frame_number@ =~= Seq::new(k as nat, |i: int| i as usize));
            }
        }
        FrameData { frame_number, start_index, array_len }
    }

    /// Take the frames of the events from `lower` (counted in) to `upper`
    /// (not counted in): the frames holding them, with start indices shifted
    /// so that the slice starts at zero.
    pub fn slice(&self, lower: usize, upper: usize) -> (f: FrameData)
        requires
            lower <= upper,
            self.start_index@.len() > 0,
            forall|i: int|
                frame_of(self.start_index@, lower) < i <= frame_of(self.start_index@, upper)
                    ==> #[trigger] self.start_index@[i] >= lower,
        ensures
            ({
                let lo = frame_of(self.start_index@, lower);
                let hi = frame_of(self.start_index@, upper);
                let n = if hi >= lo {
                    hi - lo + 1
                } else {
                    0
                };
                &&& f.frame_number@ == Seq::new(n as nat, |k: int| (lo + k) as usize)
                &&& f.start_index@ == Seq::new(
                    n as nat,
                    |k: int|
                        if k == 0 {
                            0usize
                        } else {
                            (self.start_index@[lo + k] - lower) as usize
                        },
                )
                &&& f.array_len == upper - lower
            }),
    {
        let n_frames: usize = self.start_index.len();
        let lower_index: usize = binary_search(&self.start_index, 0, n_frames, lower);
        let upper_index: usize = binary_search(&self.start_index, 0, n_frames, upper);
        let ghost n: int = if upper_index >= lower_index {
            upper_index - lower_index + 1
        } else {
            0
        };
        // shift the start indices to match the slice
        let mut new_starts: Vec<usize> = Vec::new();
        let mut frame_number: Vec<usize> = Vec::new();
        let mut i: usize = lower_index;
        while i <= upper_index
            invariant
                lower_index <= i,
                i == lower_index || i <= upper_index + 1,
                upper_index < n_frames,
                n_frames == self.start_index@.len(),
                lower_index == frame_of(self.start_index@, lower),
                upper_index == frame_of(self.start_index@, upper),
                forall|j: int|
                    frame_of(self.start_index@, lower) < j <= frame_of(self.start_index@, upper)
                        ==> #[trigger] self.start_index@[j] >= lower,
                frame_number@ == Seq::new((i - lower_index) as nat, |k: int| (lower_index + k) as usize),
                new_starts@ == Seq::new(
                    (i - lower_index) as nat,
                    |k: int|
                        if k == 0 {
                            0usize
                        } else {
                            (self.start_index@[lower_index + k] - lower) as usize
                        },
                ),
            decreases upper_index + 1 - i,
        {
            let start: usize = if i == lower_index {
                0
            } else {
                self.start_index[i] - lower
            };
            new_starts.push(start);
            frame_number.push(i);
            i += 1;
            proof {
                assert(frame_number@ =~= Seq::new(
                    (i - lower_index) as nat,
                    |k: int| (lower_index + k) as usize,
                ));
                assert(new_starts@ =~= Seq::new(
                    (i - lower_index) as nat,
                    |k: int|
                        if k == 0 {
                            0usize
                        } else {
                            (self.start_index@[lower_index + k] - lower) as usize
                        },
                ));
            }
        }
        FrameData { frame_number, start_index: new_starts, array_len: upper - lower }
    }

    /// A single frame holding `length` events.
    pub fn one_frame(length: usize) -> (f: FrameData)
        ensures
            f.frame_number@ == seq![0usize],
            f.start_index@ == seq![0usize],
            f.array_len == length,
            f.wf(),
    {
        FrameData { frame_number: vec![0], start_index: vec![0], array_len: length }
    }

    /// `length` frames holding one event each.
    pub fn one_event_per_frame(length: usize) -> (f: FrameData)
        ensures
            f.frame_number@ == Seq::new(length as nat, |i: int| i as usize),
            f.start_index@ == Seq::new(length as nat, |i: int| i as usize),
            f.array_len == length,
            f.wf(),
    {
        let mut frame_number: Vec<usize> = Vec::new();
        let mut start_index: Vec<usize> = Vec::new();
        let mut k: usize = 0;
        while k < length
            invariant
                k <= length,
                frame_number@ == Seq::new(k as nat, |i: int| i as usize),
                start_index@ == Seq::new(k as nat, |i: int| i as usize),
            decreases length - k,
        {
            frame_number.push(k);
            start_index.push(k);
            k += 1;
            proof {
                assert(frame_number@ =~= Seq::new(k as nat, |i: int| i as usize));
                assert(start_index@ =~= Seq::new(k as nat, |i: int| i as usize));
            }
        }
        FrameData { frame_number, start_index, array_len: length }
    }
}

/// On sorted frame starts, every frame after the one holding `lower` starts
/// at or after `lower`, so `slice` can always shift them.
pub proof fn lemma_slice_shift_ok(starts: Seq<usize>, lower: usize, upper: usize)
    requires
        starts.len() > 0,
        sorted(starts),
    ensures
        forall|i: int|
            frame_of(starts, lower) < i <= frame_of(starts, upper) ==> #[trigger] starts[i]
                >= lower,
{
    lemma_search_bracket(starts, 0, starts.len() as int, lower);
    lemma_search_bracket(starts, 0, starts.len() as int, upper);
    let r = frame_of(starts, lower);
    assert forall|i: int| frame_of(starts, lower) < i <= frame_of(starts, upper) implies #[trigger] starts[i]
        >= lower by {
        assert(starts[r + 1] <= starts[i]);
        assert(starts[r] <= starts[r + 1]);
    }
}

} // verus!
