use mneueventlib::gpu::DevicePreference;
use mneueventlib::run_info::{frame_tallies, run_times, split_ns, TimeError};
use mneueventlib::histogram::{
    chunk_ranges, hybrid_split, plan_dispatch, preferred_adapter, readback_counts, resolve_device,
    BufferShape, DispatchError,
};

/// Auto picks the GPU when there is one; without a GPU everything runs on the CPU.
#[test]
fn devices_resolve() {
    assert_eq!(resolve_device(DevicePreference::Auto, true), DevicePreference::Gpu);
    assert_eq!(resolve_device(DevicePreference::Auto, false), DevicePreference::Cpu);
    assert_eq!(resolve_device(DevicePreference::Hybrid, true), DevicePreference::Hybrid);
    assert_eq!(resolve_device(DevicePreference::Hybrid, false), DevicePreference::Cpu);
    assert_eq!(resolve_device(DevicePreference::Gpu, false), DevicePreference::Cpu);
    assert_eq!(resolve_device(DevicePreference::Cpu, true), DevicePreference::Cpu);
}

/// Chunks cover the events in order, the last holding what is left.
#[test]
fn chunks_cover_the_events() {
    assert_eq!(chunk_ranges(10, 4), vec![(0, 4), (4, 8), (8, 10)]);
    assert_eq!(chunk_ranges(8, 4), vec![(0, 4), (4, 8)]);
    assert!(chunk_ranges(0, 4).is_empty());
}

/// The hybrid mode gives the CPU the first half of each chunk.
#[test]
fn hybrid_halves() {
    assert_eq!(hybrid_split(8, 13), 10);
    assert_eq!(hybrid_split(4, 5), 4);
}

/// Buffers are reused for the same shape and chunks no larger than before.
#[test]
fn buffer_reuse() {
    let shape = BufferShape::new(2, 64, 2048, 0);
    assert_eq!(shape.chunk_capacity, 1);
    let shape = BufferShape::new(2, 64, 2048, 1024);
    assert!(shape.matches(2, 64, 2048, 512));
    assert!(!shape.matches(2, 64, 2048, 2048));
    assert!(!shape.matches(1, 64, 2048, 512));
    assert_eq!(shape.hist_len(), 2 * 64 * 2048);
}

/// Empty chunks are skipped, oversized ones refused, and the rest dispatched
/// in workgroups of 256.
#[test]
fn dispatch_plans() {
    assert!(matches!(plan_dispatch(0, 10, true, true), Ok(None)));
    assert!(matches!(
        plan_dispatch(11, 10, false, false),
        Err(DispatchError::ChunkTooLarge { n_events: 11, capacity: 10 })
    ));
    match plan_dispatch(257, 1000, true, false) {
        Ok(Some(plan)) => {
            assert_eq!(plan.flags, 1);
            assert_eq!(plan.n_events, 257);
            assert_eq!(plan.workgroups, 2);
        }
        _ => panic!("a chunk within capacity is dispatched"),
    }
    match plan_dispatch(256, 1000, false, true) {
        Ok(Some(plan)) => {
            assert_eq!(plan.flags, 2);
            assert_eq!(plan.workgroups, 1);
        }
        _ => panic!("a chunk within capacity is dispatched"),
    }
}

/// Counters read back keep their values and add up to the events counted.
#[test]
fn readback() {
    let (hist, n) = readback_counts(&[3, 0, 7, 1]);
    assert_eq!(hist, vec![3, 0, 7, 1]);
    assert_eq!(n, 11);
}

/// The first discrete GPU is preferred.
#[test]
fn adapter_preference() {
    assert_eq!(preferred_adapter(&[false, true, true]), Some(1));
    assert_eq!(preferred_adapter(&[false, false]), None);
}

/// The frame tallies of a run: frames kept, frames good, and what each leaves out.
#[test]
fn frame_tallies_of_a_run() {
    let tallies = frame_tallies(100, &[30, 40], &[25, 40]);
    assert_eq!(tallies.raw_frames, 70);
    assert_eq!(tallies.good_frames, 65);
    assert_eq!(tallies.discarded_good_frames, 30);
    assert_eq!(tallies.discarded_raw_frames, 35);
}

/// A time in nanoseconds as seconds and nanoseconds.
#[test]
fn nanoseconds_split() {
    assert_eq!(split_ns(3_250_000_001), (3, 250_000_001));
    assert_eq!(split_ns(999), (0, 999));
}

/// The first and last kept times are written as the times that long after
/// the start of the run, in the start's own offset.
#[test]
fn run_times_after_start() {
    let (first, last) = run_times("2023-05-01T10:00:00+0100", 1_500_000_000, 3_725_000_000_000).unwrap();
    assert_eq!(first, "2023-05-01T10:00:01");
    assert_eq!(last, "2023-05-01T11:02:05");

    let (first, last) = run_times("2023-12-31T23:59:59+0000", 0, 2_000_000_000).unwrap();
    assert_eq!(first, "2023-12-31T23:59:59");
    assert_eq!(last, "2024-01-01T00:00:01");
}

/// A start that does not read as a time gives no times.
#[test]
fn run_times_unreadable_start() {
    let result = run_times("yesterday", 0, 10);
    assert!(matches!(result, Err(TimeError::NoTime { ns: 0 })));
}
