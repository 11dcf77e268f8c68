use mneueventlib::data::sample_logs::to_time_ranges;
use mneueventlib::utils::{binary_search, combine_filter_times, intersect_intervals, invert_intervals, remove_overlaps};

/// Test the binary search function.
#[test]
fn test_binary_search() {
    let array = vec![0, 10, 20, 30, 40, 50, 60];
    let result = binary_search(&array, 0, array.len(), 25);

    assert_eq!(result, 2)
}

/// Test the binary search function for a value above the range.
#[test]
fn test_binary_search_above_range() {
    let array = vec![0, 10, 20, 30, 40, 50, 60];
    let result = binary_search(&array, 0, array.len(), 80);

    assert_eq!(result, 6)
}

/// Test the binary search function for a value below the range.
#[test]
fn test_binary_search_below_range() {
    let array = vec![10, 20, 30, 40, 50, 60];
    let result = binary_search(&array, 0, array.len(), 5);

    assert_eq!(result, 0)
}

/// Test that disjoint intervals are left alone by remove_overlaps.
#[test]
fn test_remove_overlaps_disjoint() {
    let (starts, ends) = remove_overlaps(&[0, 10, 30], &[5, 15, 35]);

    assert_eq!(starts, vec![0, 10, 30]);
    assert_eq!(ends, vec![5, 15, 35]);
}

/// Test that overlapping intervals are merged into one.
#[test]
fn test_remove_overlaps_overlapping() {
    let (starts, ends) = remove_overlaps(&[0, 3], &[5, 8]);

    assert_eq!(starts, vec![0]);
    assert_eq!(ends, vec![8]);
}

/// Test that intervals which touch at a point are merged into one.
#[test]
fn test_remove_overlaps_touching() {
    let (starts, ends) = remove_overlaps(&[0, 5], &[5, 10]);

    assert_eq!(starts, vec![0]);
    assert_eq!(ends, vec![10]);
}

/// Test that an interval fully inside another is absorbed by it.
#[test]
fn test_remove_overlaps_nested() {
    let (starts, ends) = remove_overlaps(&[0, 2], &[10, 4]);

    assert_eq!(starts, vec![0]);
    assert_eq!(ends, vec![10]);
}

/// Test that several overlapping runs of intervals are each merged.
#[test]
fn test_remove_overlaps_multiple_merges() {
    let (starts, ends) = remove_overlaps(&[0, 3, 6, 20, 21], &[4, 5, 7, 22, 25]);

    assert_eq!(starts, vec![0, 6, 20]);
    assert_eq!(ends, vec![5, 7, 25]);
}

/// Test inverting intervals gives the gaps between them.
#[test]
fn test_invert_intervals() {
    let (starts, ends) = invert_intervals(&[2, 10], &[5, 15], 0, 20);

    assert_eq!(starts, vec![0, 5, 15]);
    assert_eq!(ends, vec![2, 10, 20]);
}

/// Test inverting no intervals gives the whole range.
#[test]
fn test_invert_intervals_empty() {
    let (starts, ends) = invert_intervals(&[], &[], 3, 9);

    assert_eq!(starts, vec![3]);
    assert_eq!(ends, vec![9]);
}

/// Test inverting a single interval gives the range either side of it.
#[test]
fn test_invert_intervals_single() {
    let (starts, ends) = invert_intervals(&[4], &[6], 0, 10);

    assert_eq!(starts, vec![0, 6]);
    assert_eq!(ends, vec![4, 10]);
}

/// Test intersecting two sets of intervals which partially overlap.
#[test]
fn test_intersect_intervals() {
    let (starts, ends) = intersect_intervals(&[0, 10], &[5, 20], &[3, 12], &[8, 30]);

    assert_eq!(starts, vec![3, 12]);
    assert_eq!(ends, vec![5, 20]);
}

/// Test that one interval can intersect several from the other set.
#[test]
fn test_intersect_intervals_one_to_many() {
    let (starts, ends) = intersect_intervals(&[0], &[100], &[10, 30, 50], &[20, 40, 60]);

    assert_eq!(starts, vec![10, 30, 50]);
    assert_eq!(ends, vec![20, 40, 60]);
}

/// Test that intervals which only touch at a point don't intersect.
#[test]
fn test_intersect_intervals_touching() {
    let (starts, ends) = intersect_intervals(&[0], &[5], &[5], &[10]);

    assert!(starts.is_empty());
    assert!(ends.is_empty());
}

/// Test that intersecting with no intervals gives no intervals.
#[test]
fn test_intersect_intervals_empty() {
    let (starts, ends) = intersect_intervals(&[0, 10], &[5, 20], &[], &[]);

    assert!(starts.is_empty());
    assert!(ends.is_empty());
}

const FRAME_TIMES: [usize; 3] = [0, 5_000_000_000, 10_000_000_000];

/// The ranges of the sample log `temp` (logged each second) in which it lies
/// within `[lower, upper]`.
fn temp_log_ranges(lower: f64, upper: f64) -> (Vec<usize>, Vec<usize>) {
    let times = [0., 1., 2., 3., 4.];
    let values = [0., 5., 5., 0., 0.];
    let times_ns: Vec<usize> = times.iter().map(|t| (t * 1e9) as usize).collect();
    let in_band: Vec<bool> = values.iter().map(|v| *v >= lower && *v <= upper).collect();
    to_time_ranges(&times_ns, &in_band)
}

/// Test that a filter set with no filters covers no time at all.
#[test]
fn test_get_filter_times_no_filters() {
    let (starts, ends) = combine_filter_times(&FRAME_TIMES, &[], &[], true, false, &[], &[], false);

    assert!(starts.is_empty());
    assert!(ends.is_empty());
}

/// Test that overlapping time filters are merged.
#[test]
fn test_get_filter_times_merges_overlaps() {
    let (starts, ends) = combine_filter_times(
        &FRAME_TIMES,
        &[1_000_000_000, 2_000_000_000],
        &[3_000_000_000, 4_000_000_000],
        true,
        true,
        &[],
        &[],
        false,
    );

    assert_eq!(starts, vec![1_000_000_000]);
    assert_eq!(ends, vec![4_000_000_000]);
}

/// Test that exclude time filters are inverted over the frame time range.
#[test]
fn test_get_filter_times_exclude() {
    let (starts, ends) =
        combine_filter_times(
        &FRAME_TIMES,
        &[1_000_000_000],
        &[2_000_000_000],
        false,
        true,
        &[],
        &[],
        false,
    );

    assert_eq!(starts, vec![0, 2_000_000_000]);
    assert_eq!(ends, vec![1_000_000_000, 10_000_000_000]);
}

/// Test that the times a log filter is satisfied are included.
#[test]
fn test_get_filter_times_log_filter() {
    let (log_starts, log_ends) = temp_log_ranges(4., 6.);
    let (starts, ends) = combine_filter_times(&FRAME_TIMES, &[], &[], true, false, &log_starts, &log_ends, true);

    assert_eq!(starts, vec![1_000_000_000]);
    assert_eq!(ends, vec![2_000_000_000]);
}

/// Test that only the overlap of the time and log filter times is returned.
#[test]
fn test_get_filter_times_time_and_log_filters() {
    let (log_starts, log_ends) = temp_log_ranges(4., 6.);
    let (starts, ends) = combine_filter_times(
        &FRAME_TIMES,
        &[1_500_000_000],
        &[7_000_000_000],
        true,
        true,
        &log_starts,
        &log_ends,
        true,
    );

    assert_eq!(starts, vec![1_500_000_000]);
    assert_eq!(ends, vec![2_000_000_000]);
}

/// Test that time and log filters which never overlap cover no time at all.
#[test]
fn test_get_filter_times_disjoint_time_and_log_filters() {
    let (log_starts, log_ends) = temp_log_ranges(4., 6.);
    let (starts, ends) = combine_filter_times(
        &FRAME_TIMES,
        &[6_000_000_000],
        &[7_000_000_000],
        true,
        true,
        &log_starts,
        &log_ends,
        true,
    );

    assert!(starts.is_empty());
    assert!(ends.is_empty());
}

/// Test that an exclude time filter is intersected with the log filters.
#[test]
fn test_get_filter_times_exclude_and_log_filters() {
    let (log_starts, log_ends) = temp_log_ranges(4., 6.);
    let (starts, ends) = combine_filter_times(
        &FRAME_TIMES,
        &[1_500_000_000],
        &[7_000_000_000],
        false,
        true,
        &log_starts,
        &log_ends,
        true,
    );

    assert_eq!(starts, vec![1_000_000_000]);
    assert_eq!(ends, vec![1_500_000_000]);
}

/// A log filter that is set but never holds leaves no time, whatever the
/// time filters keep.
#[test]
fn log_filter_that_never_holds_leaves_nothing() {
    let (log_starts, log_ends) = temp_log_ranges(10., 20.);
    assert!(log_starts.is_empty());
    let (starts, ends) = combine_filter_times(
        &FRAME_TIMES,
        &[1_000_000_000],
        &[2_000_000_000],
        true,
        true,
        &log_starts,
        &log_ends,
        true,
    );
    assert!(starts.is_empty());
    assert!(ends.is_empty());

    let (starts, _) =
        combine_filter_times(&FRAME_TIMES, &[], &[], true, false, &log_starts, &log_ends, true);
    assert!(starts.is_empty());
}

/// What the intersection covers is what both sets cover.
#[test]
fn intersection_covers_what_both_cover() {
    let a = (vec![0, 10, 40], vec![5, 25, 50]);
    let b = (vec![3, 20, 45], vec![12, 41, 60]);
    let (starts, ends) = intersect_intervals(&a.0, &a.1, &b.0, &b.1);
    let covers = |s: &[usize], e: &[usize], t: usize| s.iter().zip(e).any(|(s, e)| *s <= t && t < *e);
    for t in 0..70 {
        assert_eq!(covers(&starts, &ends, t), covers(&a.0, &a.1, t) && covers(&b.0, &b.1, t));
    }
}

/// Removing overlaps keeps what is covered and separates the intervals.
#[test]
fn merged_intervals_cover_the_same_and_are_separated() {
    let given = (vec![20, 0, 3, 6, 21, 8], vec![22, 4, 5, 7, 25, 8]);
    let (starts, ends) = remove_overlaps(&given.0, &given.1);
    let covers = |s: &[usize], e: &[usize], t: usize| s.iter().zip(e).any(|(s, e)| *s <= t && t < *e);
    for t in 0..30 {
        assert_eq!(covers(&starts, &ends, t), covers(&given.0, &given.1, t));
    }
    for k in 1..starts.len() {
        assert!(ends[k - 1] < starts[k]);
    }
}

/// Every merged interval starts at a given start and ends at a given end.
#[test]
fn merged_endpoints_are_given_endpoints() {
    let given = (vec![20, 0, 3, 6, 21, 8], vec![22, 4, 5, 7, 25, 8]);
    let (starts, ends) = remove_overlaps(&given.0, &given.1);
    assert_eq!(starts, vec![0, 6, 8, 20]);
    assert_eq!(ends, vec![5, 7, 8, 25]);
    assert!(starts.iter().all(|s| given.0.contains(s)));
    assert!(ends.iter().all(|e| given.1.contains(e)));
    let (none, _) = remove_overlaps(&[], &[]);
    assert!(none.is_empty());
}

/// The intersection's intervals are nonempty, in order and apart.
#[test]
fn intersection_is_sorted_and_apart() {
    let a = (vec![0, 10, 40], vec![5, 25, 50]);
    let b = (vec![3, 20, 45], vec![12, 41, 60]);
    let (starts, ends) = intersect_intervals(&a.0, &a.1, &b.0, &b.1);
    assert_eq!(starts, vec![3, 10, 20, 40, 45]);
    assert_eq!(ends, vec![5, 12, 25, 41, 50]);
    for k in 0..starts.len() {
        assert!(starts[k] < ends[k]);
        if k + 1 < starts.len() {
            assert!(ends[k] <= starts[k + 1]);
        }
    }
}
