//! The frame counts and times that a histogram file records about a run.
use vstd::prelude::*;
use chrono::{DateTime, TimeDelta};

verus! {

/// The sum of the first `k` counts.
pub open spec fn sum_counts(counts: Seq<u32>, k: int) -> int
    decreases k,
{
    if k <= 0 {
        0
    } else {
        sum_counts(counts, k - 1) + counts[k - 1]
    }
}

proof fn lemma_sum_counts_monotone(counts: Seq<u32>, j: int, k: int)
    requires
        0 <= j <= k <= counts.len(),
    ensures
        0 <= sum_counts(counts, j) <= sum_counts(counts, k),
    decreases k,
{
    if j < k {
        lemma_sum_counts_monotone(counts, j, k - 1);
    } else if j > 0 {
        lemma_sum_counts_monotone(counts, j - 1, j - 1);
    }
}

/// The sum of the counts.
pub fn total_frames(counts: &[u32]) -> (r: u32)
    requires
        sum_counts(counts@, counts@.len() as int) <= u32::MAX,
    ensures
        r == sum_counts(counts@, counts@.len() as int),
{
    let mut total: u32 = 0;
    let mut k: usize = 0;
    while k < counts.len()
        invariant
            k <= counts@.len(),
            sum_counts(counts@, counts@.len() as int) <= u32::MAX,
            total == sum_counts(counts@, k as int),
        decreases counts@.len() - k,
    {
        proof {
            lemma_sum_counts_monotone(counts@, k + 1, counts@.len() as int);
        }
        total = total + counts[k];
        k += 1;
    }
    total
}

/// The frame tallies of a run: the frames not filtered out (summed over the
/// periods), the frames neither filtered out nor vetoed, and how many of all
/// `unfiltered` frames each of these leaves out.
pub struct FrameTallies {
    pub raw_frames: u32,
    pub good_frames: u32,
    pub discarded_good_frames: u32,
    pub discarded_raw_frames: u32,
}

/// Tally the frames of a run of `unfiltered` frames, from the frames kept in
/// each period and the good frames in each period.
pub fn frame_tallies(unfiltered: u32, n_frames: &[u32], n_good_frames: &[u32]) -> (r: FrameTallies)
    requires
        sum_counts(n_frames@, n_frames@.len() as int) <= unfiltered,
        sum_counts(n_good_frames@, n_good_frames@.len() as int) <= unfiltered,
    ensures
        r.raw_frames == sum_counts(n_frames@, n_frames@.len() as int),
        r.good_frames == sum_counts(n_good_frames@, n_good_frames@.len() as int),
        r.discarded_good_frames == unfiltered - r.raw_frames,
        r.discarded_raw_frames == unfiltered - r.good_frames,
{
    let raw_frames: u32 = total_frames(n_frames);
    let good_frames: u32 = total_frames(n_good_frames);
    FrameTallies {
        raw_frames,
        good_frames,
        discarded_good_frames: unfiltered - raw_frames,
        discarded_raw_frames: unfiltered - good_frames,
    }
}

/// A time in nanoseconds as whole seconds and the nanoseconds left over.
pub fn split_ns(t: usize) -> (r: (u64, u32))
    requires
        t <= u64::MAX,
    ensures
        r.0 == t / 1_000_000_000,
        r.1 == t % 1_000_000_000,
        r.0 * 1_000_000_000 + r.1 == t,
{
    let secs: usize = t / 1_000_000_000;
    let nanos: usize = t % 1_000_000_000;
    (secs as u64, nanos as u32)
}

/// The text of the time `secs` seconds and `nanos` nanoseconds after the time
/// that `start` gives, as `shift_time` writes it; `None` where there is no
/// such text.
pub uninterp spec fn shifted_time(start: Seq<char>, secs: i64, nanos: u32) -> Option<Seq<char>>;

/// chrono's `DateTime::parse_from_str` with the format `%Y-%m-%dT%H:%M:%S%z`,
/// `TimeDelta::new`, `DateTime::checked_add_signed` and `DateTime::format`
/// with the format `%Y-%m-%dT%H:%M:%S`, in turn: the start read as a time
/// with its offset, moved on by the delta, and written as local date and time
/// without the offset. It gives `None` where the start does not read in that
/// format, where the delta is out of chrono's range (or `nanos` is a whole
/// second or more), or where the moved time falls outside chrono's calendar.
/// What the text is takes chrono's calendar to state, so it is named
/// `shifted_time`, a function of the three arguments alone (no time zone
/// database or locale is read).
#[verifier::external_body]
fn shift_time(start: &str, secs: i64, nanos: u32) -> (r: Option<String>)
    ensures
        match r {
            Some(t) => shifted_time(start@, secs, nanos) == Some(t@),
            None => shifted_time(start@, secs, nanos) is None,
        },
{
    let base = DateTime::parse_from_str(start, "%Y-%m-%dT%H:%M:%S%z").ok()?;
    let delta = TimeDelta::new(secs, nanos)?;
    let moved = base.checked_add_signed(delta)?;
    Some(moved.format("%Y-%m-%dT%H:%M:%S").to_string())
}

/// Why the times of a run could not be written.
#[derive(Debug)]
pub enum TimeError {
    /// The start of the run does not read as a time, or the time `ns`
    /// nanoseconds after it falls outside the calendar.
    NoTime { ns: usize },
}

/// The text of the time `ns` nanoseconds after the time that `start` gives.
pub open spec fn time_after(start: Seq<char>, ns: usize) -> Option<Seq<char>> {
    shifted_time(start, (ns / 1_000_000_000) as i64, (ns % 1_000_000_000) as u32)
}

/// The time after `start` at `ns` nanoseconds, chrono taking the delta as
/// whole seconds and the nanoseconds left over.
fn time_after_start(start: &str, ns: usize) -> (r: Option<String>)
    ensures
        match r {
            Some(t) => time_after(start@, ns) == Some(t@),
            None => time_after(start@, ns) is None,
        },
{
    let (secs, nanos) = split_ns(ns);
    proof {
        assert(secs <= i64::MAX);
    }
    shift_time(start, secs as i64, nanos)
}

/// The first and last kept times of a run, written as times after the start
/// of the run that `start` gives: `start_ns` and `end_ns` nanoseconds after
/// it.
pub fn run_times(start: &str, start_ns: usize, end_ns: usize) -> (r: Result<(String, String), TimeError>)
    ensures
        r is Ok <==> (time_after(start@, start_ns) is Some && time_after(start@, end_ns) is Some),
        r matches Ok((first, last)) ==> time_after(start@, start_ns) == Some(first@) && time_after(
            start@,
            end_ns,
        ) == Some(last@),
        r matches Err(TimeError::NoTime { ns }) ==> (ns == start_ns && time_after(start@, start_ns) is None)
            || (ns == end_ns && time_after(start@, end_ns) is None),
{
    let first: String = match time_after_start(start, start_ns) {
        Some(t) => t,
        None => {
            return Err(TimeError::NoTime { ns: start_ns });
        },
    };
    let last: String = match time_after_start(start, end_ns) {
        Some(t) => t,
        None => {
            return Err(TimeError::NoTime { ns: end_ns });
        },
    };
    Ok((first, last))
}

} // verus!
