//! Planning a histogram calculation: which device runs it, how the events
//! are cut into chunks and shared between the CPU and the GPU, and what is
//! handed to and read back from the GPU.
use vstd::prelude::*;

use crate::gpu::DevicePreference;

verus! {

/// The device a calculation runs on: `Auto` picks the GPU when one is
/// available and the CPU otherwise, and the GPU and hybrid modes fall back to
/// the CPU when no GPU is available.
pub fn resolve_device(preference: DevicePreference, gpu_available: bool) -> (r: DevicePreference)
    ensures
        r == match preference {
            DevicePreference::Auto => if gpu_available {
                DevicePreference::Gpu
            } else {
                DevicePreference::Cpu
            },
            DevicePreference::Cpu => DevicePreference::Cpu,
            DevicePreference::Gpu => if gpu_available {
                DevicePreference::Gpu
            } else {
                DevicePreference::Cpu
            },
            DevicePreference::Hybrid => if gpu_available {
                DevicePreference::Hybrid
            } else {
                DevicePreference::Cpu
            },
        },
{
    match preference {
        DevicePreference::Cpu => DevicePreference::Cpu,
        DevicePreference::Auto => if gpu_available {
            DevicePreference::Gpu
        } else {
            DevicePreference::Cpu
        },
        other => if gpu_available {
            other
        } else {
            DevicePreference::Cpu
        },
    }
}

/// The chunks of `n_events` events read `chunk_size` at a time: the chunk
/// starting at event `k * chunk_size` and ending at the next start or at the
/// last event.
pub open spec fn chunk_at(n_events: int, chunk_size: int, k: int) -> (int, int) {
    let start = k * chunk_size;
    (start, if start + chunk_size <= n_events {
        start + chunk_size
    } else {
        n_events
    })
}

/// Cut `n_events` events into chunks of `chunk_size`, in order; the last
/// chunk holds what is left.
pub fn chunk_ranges(n_events: usize, chunk_size: usize) -> (r: Vec<(usize, usize)>)
    requires
        chunk_size > 0,
        n_events + chunk_size <= usize::MAX,
    ensures
        r@.len() == (n_events + chunk_size - 1) / chunk_size as int,
        forall|k: int|
            0 <= k < r@.len() ==> (#[trigger] r@[k]).0 == chunk_at(n_events as int, chunk_size as int, k).0
                && r@[k].1 == chunk_at(n_events as int, chunk_size as int, k).1,
        forall|k: int| 0 <= k < r@.len() ==> (#[trigger] r@[k]).0 < r@[k].1,
{
    let mut r: Vec<(usize, usize)> = Vec::new();
    let mut start: usize = 0;
    let mut k: usize = 0;
    while start < n_events
        invariant
            chunk_size > 0,
            n_events + chunk_size <= usize::MAX,
            start == k * chunk_size,
            k <= start || k == 0,
            start <= n_events + chunk_size,
            k > 0 ==> start - chunk_size < n_events,
            r@.len() == k,
            forall|j: int|
                0 <= j < k ==> (#[trigger] r@[j]).0 == chunk_at(n_events as int, chunk_size as int, j).0
                    && r@[j].1 == chunk_at(n_events as int, chunk_size as int, j).1,
            forall|j: int| 0 <= j < k ==> (#[trigger] r@[j]).0 < r@[j].1,
        decreases n_events + chunk_size - start,
    {
        let end: usize = if n_events - start >= chunk_size {
            start + chunk_size
        } else {
            n_events
        };
        r.push((start, end));
        proof {
            assert((k + 1) * chunk_size == k * chunk_size + chunk_size) by (nonlinear_arith);
        }
        start = start + chunk_size;
        k = k + 1;
    }
    proof {
        // `k` chunks cover the events, and `k - 1` do not: `k` is the
        // rounded-up quotient
        if k > 0 {
            assert((k - 1) * chunk_size == k * chunk_size - chunk_size) by (nonlinear_arith);
        }
        vstd::arithmetic::div_mod::lemma_fundamental_div_mod_converse(
            (n_events + chunk_size - 1) as int,
            chunk_size as int,
            k as int,
            (n_events + chunk_size - 1) - k * chunk_size,
        );
    }
    r
}

/// The chunks that `chunk_ranges` gives tile the events, so that each event
/// is read once: the first chunk starts at event 0, each chunk ends where the
/// next one starts, and the last one ends at the last event.
pub proof fn law_chunks_tile(n_events: int, chunk_size: int)
    requires
        chunk_size > 0,
        n_events > 0,
    ensures
        chunk_at(n_events, chunk_size, 0).0 == 0,
        forall|k: int|
            0 <= k < (n_events + chunk_size - 1) / chunk_size - 1 ==> #[trigger] chunk_at(
                n_events,
                chunk_size,
                k,
            ).1 == chunk_at(n_events, chunk_size, k + 1).0,
        chunk_at(n_events, chunk_size, (n_events + chunk_size - 1) / chunk_size - 1).1 == n_events,
{
    let count = (n_events + chunk_size - 1) / chunk_size;
    vstd::arithmetic::div_mod::lemma_fundamental_div_mod(n_events + chunk_size - 1, chunk_size);
    let r = (n_events + chunk_size - 1) % chunk_size;
    assert(chunk_size * count + r == n_events + chunk_size - 1);
    assert(0 * chunk_size == 0);
    assert((count - 1) * chunk_size == chunk_size * count - chunk_size) by (nonlinear_arith);
    assert forall|k: int| 0 <= k < count - 1 implies #[trigger] chunk_at(n_events, chunk_size, k).1
        == chunk_at(n_events, chunk_size, k + 1).0 by {
        assert((k + 1) * chunk_size == k * chunk_size + chunk_size) by (nonlinear_arith);
        assert((k + 1) * chunk_size <= (count - 1) * chunk_size) by (nonlinear_arith)
            requires
                k + 1 <= count - 1,
                chunk_size > 0,
        ;
    }
}

/// How the hybrid mode shares the chunk `[start, end)`: the CPU takes the
/// first half, rounded down, and the GPU the rest; the result is where the
/// GPU's part starts.
pub fn hybrid_split(start: usize, end: usize) -> (r: usize)
    requires
        start <= end,
    ensures
        r == start + (end - start) / 2,
        start <= r <= end,
{
    start + (end - start) / 2
}

/// The shape of the histogram buffers held for the GPU, and how many events
/// a chunk may hold.
pub struct BufferShape {
    pub n_periods: usize,
    pub n_spec: usize,
    pub n_bins: usize,
    pub chunk_capacity: usize,
}

impl BufferShape {
    /// The buffers for a histogram of the given shape; a chunk holds at least
    /// one event.
    pub fn new(n_periods: usize, n_spec: usize, n_bins: usize, max_chunk_size: usize) -> (s: BufferShape)
        ensures
            s.n_periods == n_periods,
            s.n_spec == n_spec,
            s.n_bins == n_bins,
            s.chunk_capacity == if max_chunk_size >= 1 {
                max_chunk_size
            } else {
                1
            },
    {
        let chunk_capacity: usize = if max_chunk_size >= 1 {
            max_chunk_size
        } else {
            1
        };
        BufferShape { n_periods, n_spec, n_bins, chunk_capacity }
    }

    /// Whether buffers of this shape can be used again for a histogram of
    /// the given shape and chunks of the given size.
    pub fn matches(&self, n_periods: usize, n_spec: usize, n_bins: usize, max_chunk_size: usize) -> (r: bool)
        ensures
            r == (self.n_periods == n_periods && self.n_spec == n_spec && self.n_bins == n_bins
                && self.chunk_capacity >= max_chunk_size),
    {
        self.n_periods == n_periods && self.n_spec == n_spec && self.n_bins == n_bins
            && self.chunk_capacity >= max_chunk_size
    }

    /// The number of counters of the histogram.
    pub fn hist_len(&self) -> (r: usize)
        requires
            self.n_periods * self.n_spec * self.n_bins <= usize::MAX,
        ensures
            r == self.n_periods * self.n_spec * self.n_bins,
    {
        if self.n_bins == 0 {
            proof {
                assert(self.n_periods * self.n_spec * 0 == 0) by (nonlinear_arith);
            }
            0
        } else {
            proof {
                let a = self.n_periods * self.n_spec;
                assert(a <= a * self.n_bins) by (nonlinear_arith)
                    requires
                        self.n_bins >= 1,
                        a >= 0,
                ;
            }
            self.n_periods * self.n_spec * self.n_bins
        }
    }
}

/// Why a chunk was not handed to the GPU.
pub enum DispatchError {
    /// The chunk holds more events than the buffers were made for.
    ChunkTooLarge { n_events: usize, capacity: usize },
}

/// What a chunk is dispatched with: the flags telling the shader which
/// inputs are uniform, the number of events, and the number of workgroups
/// of 256 threads.
pub struct DispatchPlan {
    pub flags: u32,
    pub n_events: u32,
    pub workgroups: u32,
}

/// Plan the dispatch of a chunk of `n_events` events: nothing for an empty
/// chunk, an error for a chunk larger than `capacity`; bit 0 of the flags
/// marks one threshold for every detector, bit 1 one period for every event.
pub fn plan_dispatch(n_events: usize, capacity: usize, uniform_min_amp: bool, uniform_period: bool) -> (r: Result<
    Option<DispatchPlan>,
    DispatchError,
>)
    ensures
        n_events == 0 ==> r matches Ok(None),
        n_events > 0 && n_events > capacity ==> (r matches Err(DispatchError::ChunkTooLarge { n_events: n, capacity: c })
            && n == n_events && c == capacity),
        n_events > 0 && n_events <= capacity ==> (r matches Ok(Some(p)) && p.flags == (if uniform_min_amp {
            1u32
        } else {
            0u32
        }) + (if uniform_period {
            2u32
        } else {
            0u32
        }) && p.n_events == n_events as u32 && p.workgroups == (p.n_events + 255) / 256),
{
    if n_events == 0 {
        return Ok(None);
    }
    if n_events > capacity {
        return Err(DispatchError::ChunkTooLarge { n_events, capacity });
    }
    let mut flags: u32 = 0;
    if uniform_min_amp {
        flags = flags + 1;
    }
    if uniform_period {
        flags = flags + 2;
    }
    let count: u32 = n_events as u32;
    let workgroups: u32 = ((count as u64 + 255) / 256) as u32;
    Ok(Some(DispatchPlan { flags, n_events: count, workgroups }))
}

/// The sum of the first `k` counts.
pub open spec fn total_count(counts: Seq<u32>, k: int) -> int
    decreases k,
{
    if k <= 0 {
        0
    } else {
        total_count(counts, k - 1) + counts[k - 1]
    }
}

proof fn lemma_total_count_monotone(counts: Seq<u32>, j: int, k: int)
    requires
        0 <= j <= k <= counts.len(),
    ensures
        0 <= total_count(counts, j) <= total_count(counts, k),
    decreases k,
{
    if j < k {
        lemma_total_count_monotone(counts, j, k - 1);
    } else if j > 0 {
        lemma_total_count_monotone(counts, j - 1, j - 1);
    }
}

/// The histogram counters read back from the GPU as the signed counts the
/// histogram holds, and the number of events they count in all.
pub fn readback_counts(counts: &[u32]) -> (r: (Vec<i32>, usize))
    requires
        total_count(counts@, counts@.len() as int) <= usize::MAX,
    ensures
        r.0@.len() == counts@.len(),
        forall|k: int| 0 <= k < counts@.len() ==> #[trigger] r.0@[k] == counts@[k] as i32,
        r.1 == total_count(counts@, counts@.len() as int),
{
    let mut total: usize = 0;
    let mut out: Vec<i32> = Vec::new();
    let mut k: usize = 0;
    while k < counts.len()
        invariant
            k <= counts@.len(),
            total_count(counts@, counts@.len() as int) <= usize::MAX,
            total == total_count(counts@, k as int),
            out@.len() == k,
            forall|j: int| 0 <= j < k ==> #[trigger] out@[j] == counts@[j] as i32,
        decreases counts@.len() - k,
    {
        proof {
            lemma_total_count_monotone(counts@, k + 1, counts@.len() as int);
        }
        let v: u32 = counts[k];
        total = total + v as usize;
        out.push(v as i32);
        k += 1;
    }
    (out, total)
}

/// The adapter to prefer among those found: the first discrete GPU, if any.
pub fn preferred_adapter(is_discrete: &[bool]) -> (r: Option<usize>)
    ensures
        r matches Some(i) ==> (i < is_discrete@.len() && is_discrete@[i as int] && forall|j: int|
            0 <= j < i ==> !is_discrete@[j]),
        r is None ==> forall|j: int| 0 <= j < is_discrete@.len() ==> !is_discrete@[j],
{
    let mut i: usize = 0;
    while i < is_discrete.len()
        invariant
            i <= is_discrete@.len(),
            forall|j: int| 0 <= j < i ==> !is_discrete@[j],
        decreases is_discrete@.len() - i,
    {
        if is_discrete[i] {
            return Some(i);
        }
        i += 1;
    }
    None
}

} // verus!
