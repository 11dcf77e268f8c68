use mneueventlib::data::rle_array::{RLEArray, RLEArraySlice};
use mneueventlib::data::sample_logs::{
    distinct_values, filter_samples, matches_ignoring_case, to_time_ranges, to_time_ranges_eq,
};
use mneueventlib::data::FrameData;

const S_TO_NS: f64 = 1e9;

/// Test a new frame data object is successfully created.
#[test]
fn frame_data_test_new() {
    let starts = vec![0, 5, 11, 16];
    let data = FrameData::new(starts.clone(), 20);

    assert_eq!(data.frame_number, vec![0, 1, 2, 3]);
    assert_eq!(data.start_index, starts);
}

/// Test a frame data object is successfully sliced.
#[test]
fn frame_data_test_slice() {
    let starts = vec![0, 5, 11, 16];
    let data = FrameData::new(starts.clone(), 20);

    let slice = data.slice(7, 15);

    assert_eq!(slice.frame_number, vec![1, 2]);
    assert_eq!(slice.start_index, vec![0, 4]);
    assert_eq!(slice.array_len, 8);
}

/// A slice starting at a frame boundary keeps that frame first.
#[test]
fn frame_data_slice_on_boundary() {
    let data = FrameData::new(vec![0, 5, 11, 16], 20);
    let slice = data.slice(5, 20);
    assert_eq!(slice.frame_number, vec![1, 2, 3]);
    assert_eq!(slice.start_index, vec![0, 6, 11]);
    assert_eq!(slice.array_len, 15);
}

/// The single-frame and one-event-per-frame layouts.
#[test]
fn frame_data_simple_layouts() {
    let one = FrameData::one_frame(7);
    assert_eq!(one.frame_number, vec![0]);
    assert_eq!(one.start_index, vec![0]);
    assert_eq!(one.array_len, 7);
    let each = FrameData::one_event_per_frame(3);
    assert_eq!(each.frame_number, vec![0, 1, 2]);
    assert_eq!(each.start_index, vec![0, 1, 2]);
    assert_eq!(each.array_len, 3);
}

/// Test a new RLE array is successfully instantiated.
#[test]
fn test_new_rle_array() {
    let values = vec![1, 2, 3, 4];
    let start_index = vec![0, 4, 9, 16];

    let arr = RLEArray::new(values.clone(), start_index.clone());
    assert_eq!(arr.values, values);
    assert_eq!(arr.start_index, start_index);
}

/// Test iterating over an RLE array correctly decompresses the values.
#[test]
fn test_iter() {
    let values = vec![1, 2, 3, 4];
    let start_index = vec![0, 2, 8, 9];

    let mut arr = RLEArraySlice {
        values,
        start_index,
        array_len: 12,
        current_value: 1,
        current_index: 0,
        remaining_vals: 2,
    };

    let full_vec: Vec<usize> = arr.collect_values();

    assert_eq!(full_vec, vec![1, 1, 2, 2, 2, 2, 2, 2, 3, 4, 4, 4])
}

/// Test we can correctly get slices.
#[test]
fn rle_array_test_slice() {
    // decompressed array is
    //
    // [1, 1, 1, 1, 2, 2, 2, 3, 3, 4, 4, 4, 4]
    //                 [--------------)  slice
    //                 5             10  index
    //
    let values = vec![1, 2, 3, 4];
    let start_index = vec![0, 4, 7, 9];
    let array = RLEArray { values, start_index };
    let slice = array.slice(5, 10);

    let expected_values = vec![2, 3, 4];
    let expected_idx = vec![0, 2, 4];
    assert_eq!(slice.values, expected_values);
    assert_eq!(slice.start_index, expected_idx);
    assert_eq!(slice.array_len, 5);
}

/// A slice read out in full is that part of the uncompressed array.
#[test]
fn rle_slice_reads_out_its_part() {
    let array = RLEArray::new(vec![1, 2, 3, 4], vec![0, 4, 7, 9]);
    let mut slice = array.slice(5, 10);
    assert_eq!(slice.collect_values(), vec![2, 2, 3, 3, 4]);
    let mut inside = array.slice(1, 3);
    assert_eq!(inside.collect_values(), vec![1, 1]);
    let mut next = array.slice(5, 6);
    assert_eq!(next.next(), Some(2));
    assert_eq!(next.next(), None);
}

/// An all-zero array is a single run of zeros.
#[test]
fn rle_zeros() {
    let array = RLEArray::zeros();
    assert_eq!(array.values, vec![0]);
    assert_eq!(array.start_index, vec![0]);
    let mut slice = array.slice(2, 5);
    assert_eq!(slice.collect_values(), vec![0, 0, 0]);
}

fn ns(seconds: f64) -> usize {
    (seconds * S_TO_NS) as usize
}

/// The times and matches of a text log against `value`.
fn str_ranges(entries: &[(f64, &str)], value: &str) -> (Vec<usize>, Vec<usize>) {
    let times: Vec<usize> = entries.iter().map(|(t, _)| ns(*t)).collect();
    let values: Vec<String> = entries.iter().map(|(_, v)| v.to_string()).collect();
    let matches = matches_ignoring_case(&values, value);
    to_time_ranges_eq(&times, &matches)
}

#[test]
fn test_str_time_ranges() {
    let (starts, ends) = str_ranges(&[(0., "IDLE"), (3., "RUNNING"), (10., "PAUSED")], "RUNNING");

    assert_eq!(starts, vec![ns(3.)]);
    assert_eq!(ends, vec![ns(10.)]);
}

/// A run still matching at the end of the log ends at the last logged time.
#[test]
fn test_str_time_ranges_at_end() {
    let (starts, ends) = str_ranges(&[(0., "IDLE"), (3., "RUNNING"), (10., "RUNNING")], "RUNNING");

    assert_eq!(starts, vec![ns(3.)]);
    assert_eq!(ends, vec![ns(10.)]);
}

/// A log whose first value already matches starts at its first timestamp.
#[test]
fn test_str_time_ranges_at_start() {
    let (starts, ends) = str_ranges(&[(2., "RUNNING"), (5., "PAUSED")], "RUNNING");

    assert_eq!(starts, vec![ns(2.)]);
    assert_eq!(ends, vec![ns(5.)]);
}

/// Alternating values produce one range per matching run.
#[test]
fn test_str_time_ranges_multiple_runs() {
    let (starts, ends) = str_ranges(
        &[
            (0., "RUNNING"),
            (1., "PAUSED"),
            (2., "RUNNING"),
            (3., "RUNNING"),
            (4., "IDLE"),
        ],
        "RUNNING",
    );

    assert_eq!(starts, vec![ns(0.), ns(2.)]);
    assert_eq!(ends, vec![ns(1.), ns(4.)]);
}

/// A value that never appears produces no ranges.
#[test]
fn test_str_time_ranges_no_match() {
    let (starts, ends) = str_ranges(&[(0., "IDLE"), (3., "PAUSED")], "RUNNING");

    assert!(starts.is_empty());
    assert!(ends.is_empty());
}

/// Matching ignores case, in both the log value and the requested value.
#[test]
fn test_time_ranges_eq_is_case_insensitive() {
    let (starts, ends) = str_ranges(&[(0., "idle"), (3., "Running"), (10., "PAUSED")], "rUnNiNg");

    assert_eq!(starts, vec![ns(3.)]);
    assert_eq!(ends, vec![ns(10.)]);
}

/// distinct_values lists a string log's values in order of first appearance.
#[test]
fn test_distinct_values() {
    let values: Vec<String> = ["IDLE", "RUNNING", "RUNNING", "IDLE", "PAUSED"]
        .iter()
        .map(|v| v.to_string())
        .collect();

    assert_eq!(
        distinct_values(&values),
        vec!["IDLE".to_string(), "RUNNING".to_string(), "PAUSED".to_string()]
    );
}

/// Test apply_filters works on a string log.
#[test]
fn test_apply_filters_string_log() {
    let times: Vec<usize> = [0., 1., 2., 3.].iter().map(|t| ns(*t)).collect();
    let values = ["IDLE", "RUNNING", "PAUSED", "IDLE"];

    let kept = filter_samples(&times, &[ns(1.)], &[ns(2.)], true);
    let values: Vec<String> = values
        .iter()
        .zip(kept)
        .filter(|(_, k)| *k)
        .map(|(v, _)| v.to_string())
        .collect();
    assert_eq!(values, vec!["RUNNING".to_string(), "PAUSED".to_string()]);
}

/// The ranges of a numeric log in which it lies within `[lower, upper]`.
fn value_ranges(times: &[f64], values: &[f64], lower: f64, upper: f64) -> (Vec<usize>, Vec<usize>) {
    let times_ns: Vec<usize> = times.iter().map(|t| (t * S_TO_NS) as usize).collect();
    let in_band: Vec<bool> = values.iter().map(|v| *v <= upper && *v >= lower).collect();
    to_time_ranges(&times_ns, &in_band)
}

/// Evenly spaced values from `start` to `end`, computed as ndarray's
/// `Array1::linspace` computes them.
fn linspace(start: f64, end: f64, n: usize) -> Vec<f64> {
    let step = (end - start) / ((n - 1) as f64);
    (0..n).map(|k| start + step * (k as f64)).collect()
}

/// Test log_filter_times correctly gets the times from the log filters for a simple case.
#[test]
fn test_time_ranges_simple() {
    // add a sample log: f(t) = t from 0 to 4
    let times = linspace(0., 4., 4001);

    let (starts, ends) = value_ranges(&times, &times, 1., 2.);
    let expected_starts = vec![(1. * S_TO_NS) as usize];
    let expected_ends = vec![(2. * S_TO_NS) as usize];

    assert_eq!(starts, expected_starts);
    assert_eq!(ends, expected_ends)
}

/// Test log_filter_times correctly gets the times from the log filters when the start is
/// included.
#[test]
fn test_time_ranges_with_start() {
    let times = linspace(0., 4., 4001);

    let (starts, ends) = value_ranges(&times, &times, 0., 2.);
    let expected_starts = vec![0];
    let expected_ends = vec![(2. * S_TO_NS) as usize];

    assert_eq!(starts, expected_starts);
    assert_eq!(ends, expected_ends)
}

/// Test log_filter_times correctly gets the times from the log filters when the end is
/// included.
#[test]
fn test_time_ranges_with_end() {
    let times = linspace(0., 4., 4001);

    let (starts, ends) = value_ranges(&times, &times, 1., 4.);
    let expected_starts = vec![(1. * S_TO_NS) as usize];
    let expected_ends = vec![(4. * S_TO_NS) as usize];

    assert_eq!(starts, expected_starts);
    assert_eq!(ends, expected_ends)
}

/// Test log_filter_times correctly gets the times from the log filters for a case with
/// multiple ranges.
#[test]
fn test_time_ranges_complex() {
    // add a sample log: f(t) = 2(t-3)^2 from 0 to 6
    let times = linspace(0., 6., 6001);
    let values: Vec<f64> = times.iter().map(|t| 2. * (t - 3.).powi(2)).collect();

    // f(t) is between 2 and 8 for t = 1-2 and 4-5
    let (starts, ends) = value_ranges(&times, &values, 2., 8.);
    let expected_starts = vec![(1. * S_TO_NS) as usize, (4. * S_TO_NS) as usize];
    let expected_ends = vec![(2. * S_TO_NS) as usize, (5. * S_TO_NS) as usize];

    assert_eq!(starts, expected_starts);
    assert_eq!(ends, expected_ends)
}

/// The values of the sample log kept by the filter ranges.
fn apply_filters(filter_starts: &[usize], filter_ends: &[usize], keep: bool) -> Vec<f64> {
    let time = [0., 0.1, 0.2, 0.3, 0.4, 0.5, 0.6, 0.7, 0.8, 0.9];
    let value = [0., 1., 2., 3., 4., 5., 6., 7., 8., 9.];
    let times_ns: Vec<usize> = time.iter().map(|t| (t * S_TO_NS) as usize).collect();
    let kept = filter_samples(&times_ns, filter_starts, filter_ends, keep);
    value
        .iter()
        .zip(kept)
        .filter(|(_, k)| *k)
        .map(|(v, _)| *v)
        .collect()
}

/// Test an include filter keeps exactly the values inside its ranges.
#[test]
fn test_apply_filters_include() {
    let filter_starts = vec![(0.15 * S_TO_NS) as usize, (0.55 * S_TO_NS) as usize];
    let filter_ends = vec![(0.22 * S_TO_NS) as usize, (0.83 * S_TO_NS) as usize];

    assert_eq!(apply_filters(&filter_starts, &filter_ends, true), vec![2., 6., 7., 8.])
}

/// Test applying filters successfully 'flattens' filtered-out values.
#[test]
fn test_apply_filters() {
    let filter_starts = vec![(0.15 * S_TO_NS) as usize, (0.55 * S_TO_NS) as usize];
    let filter_ends = vec![(0.22 * S_TO_NS) as usize, (0.83 * S_TO_NS) as usize];

    assert_eq!(
        apply_filters(&filter_starts, &filter_ends, false),
        vec![0., 1., 3., 4., 5., 9.]
    )
}

/// Test applying filters works when the filters have an overlap.
#[test]
fn test_apply_filters_overlap() {
    let filter_starts = vec![
        (0.06 * S_TO_NS) as usize,
        (0.22 * S_TO_NS) as usize,
        (0.71 * S_TO_NS) as usize,
    ];
    let filter_ends = vec![
        (0.35 * S_TO_NS) as usize,
        (0.56 * S_TO_NS) as usize,
        (0.89 * S_TO_NS) as usize,
    ];

    assert_eq!(apply_filters(&filter_starts, &filter_ends, false), vec![0., 6., 7., 9.])
}

/// An include filter over overlapping ranges keeps the union of them.
#[test]
fn test_apply_filters_overlap_include() {
    let filter_starts = vec![
        (0.06 * S_TO_NS) as usize,
        (0.22 * S_TO_NS) as usize,
        (0.71 * S_TO_NS) as usize,
    ];
    let filter_ends = vec![
        (0.35 * S_TO_NS) as usize,
        (0.56 * S_TO_NS) as usize,
        (0.89 * S_TO_NS) as usize,
    ];

    assert_eq!(
        apply_filters(&filter_starts, &filter_ends, true),
        vec![1., 2., 3., 4., 5., 8.]
    )
}

/// Ranges arrive concatenated per filter, so they are not sorted; the result must
/// not depend on the order they are given in.
#[test]
fn test_apply_filters_unsorted_ranges() {
    let filter_starts = vec![(0.55 * S_TO_NS) as usize, (0.15 * S_TO_NS) as usize];
    let filter_ends = vec![(0.83 * S_TO_NS) as usize, (0.22 * S_TO_NS) as usize];

    assert_eq!(apply_filters(&filter_starts, &filter_ends, true), vec![2., 6., 7., 8.])
}

/// Test applying filters works when the first value is included in a filter.
#[test]
fn test_apply_filters_including_start() {
    let filter_starts = vec![0];
    let filter_ends = vec![(0.61 * S_TO_NS) as usize];

    assert_eq!(apply_filters(&filter_starts, &filter_ends, false), vec![7., 8., 9.])
}

#[test]
fn test_apply_filters_including_end() {
    let filter_starts = vec![(0.45 * S_TO_NS) as usize];
    let filter_ends = vec![usize::MAX];

    assert_eq!(apply_filters(&filter_starts, &filter_ends, false), vec![0., 1., 2., 3., 4.])
}

/// Matching ignores case on both sides.
#[test]
fn matching_ignores_case() {
    let values: Vec<String> = ["Idle", "RUNNING", "running"].iter().map(|v| v.to_string()).collect();
    assert_eq!(matches_ignoring_case(&values, "Running"), vec![false, true, true]);
}
