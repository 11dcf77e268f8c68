use mneueventlib::filters::api::{check_new_name, find_name, Amplitudes, FilterError, FilterType};
use mneueventlib::gpu::DevicePreference;

#[test]
fn test_device_preference_roundtrip() {
    assert_eq!(DevicePreference::from_str("auto").ok().unwrap(), DevicePreference::Auto);
    assert_eq!(DevicePreference::from_str("CPU").ok().unwrap(), DevicePreference::Cpu);
    assert_eq!(DevicePreference::from_str("  gpu  ").ok().unwrap(), DevicePreference::Gpu);
    assert_eq!(DevicePreference::from_str("Hybrid").ok().unwrap(), DevicePreference::Hybrid);

    assert_eq!(DevicePreference::Auto.as_str(), "auto");
    assert_eq!(DevicePreference::Cpu.as_str(), "cpu");
    assert_eq!(DevicePreference::Gpu.as_str(), "gpu");
    assert_eq!(DevicePreference::Hybrid.as_str(), "hybrid");
}

#[test]
fn test_device_preference_parse() {
    assert_eq!(DevicePreference::from_str("auto").unwrap(), DevicePreference::Auto);
    assert_eq!(DevicePreference::from_str("CPU").unwrap(), DevicePreference::Cpu);
    assert_eq!(DevicePreference::from_str("gpu").unwrap(), DevicePreference::Gpu);
    assert_eq!(DevicePreference::from_str("Hybrid ").unwrap(), DevicePreference::Hybrid);
    assert!(DevicePreference::from_str("invalid").is_err());
}

#[test]
fn test_device_preference_invalid() {
    let err = DevicePreference::from_str("cuda").err().unwrap();
    assert!(err.message().contains("Unknown device 'cuda'"));

    let err2 = DevicePreference::from_str("").err().unwrap();
    assert!(err2.message().contains("Unknown device ''"));
}

/// Every device reads back from its own name.
#[test]
fn device_names_round_trip() {
    for device in [
        DevicePreference::Auto,
        DevicePreference::Cpu,
        DevicePreference::Gpu,
        DevicePreference::Hybrid,
    ] {
        assert_eq!(DevicePreference::from_str(device.as_str()).ok().unwrap(), device);
    }
}

/// A data object cannot be set to the hybrid mode, and is not told that it
/// could be.
#[test]
fn hybrid_is_not_selectable() {
    let err = DevicePreference::from_str_selectable("Hybrid").err().unwrap();
    assert_eq!(err.message(), "Unknown device 'hybrid'. Expected 'auto', 'cpu', or 'gpu'.");
    let err = DevicePreference::from_str(" CUDA ").err().unwrap();
    assert_eq!(err.message(), "Unknown device 'cuda'. Expected 'auto', 'cpu', 'gpu', or 'hybrid'.");
    assert_eq!(DevicePreference::from_str_selectable("GPU").ok().unwrap(), DevicePreference::Gpu);
    assert!(DevicePreference::from_str_selectable("hybrid").is_err());
    assert!(DevicePreference::from_str_selectable("invalid").is_err());
}

/// Test time filter type can correctly be set.
#[test]
fn test_set_time_type() {
    assert!(FilterType::from_text("include").ok().unwrap().is_include());
    assert!(!FilterType::from_text("exclude").ok().unwrap().is_include());
}

/// Test time filter type can correctly be set regardless of case.
#[test]
fn test_set_time_type_mixed_case() {
    assert!(FilterType::from_text("INCLudE").ok().unwrap().is_include());
    assert!(!FilterType::from_text("ExClUDe").ok().unwrap().is_include());
}

/// Test set_time_type gives an error when the type is not valid.
#[test]
fn test_set_time_type_invalid_type() {
    assert!(FilterType::from_text("invalid").is_err());
    assert!(FilterType::from_text("").is_err());
}

/// Names must be new to be added, and known to be removed.
#[test]
fn filter_names() {
    let names = vec!["a".to_string(), "b".to_string()];
    assert!(matches!(check_new_name(&names, "a"), Err(FilterError::DuplicateName)));
    assert!(check_new_name(&names, "c").is_ok());
    assert_eq!(find_name(&names, "b").ok(), Some(1));
    assert!(matches!(find_name(&names, "c"), Err(FilterError::NoSuchName)));
}

/// Test amplitudes are correctly converted to an array.
#[test]
fn test_get_amps() {
    let mut amps = Amplitudes::<f64>::new();
    amps.set_amp(2, 4.4);
    amps.set_amp(5, 9.);

    let expected = vec![0., 0., 4.4, 0., 0., 9.];
    let actual = amps.get_amps(0., 6).ok().unwrap();

    assert_eq!(actual, expected)
}

/// Test amplitudes are correctly converted to an array with baseline.
#[test]
fn test_get_amps_baseline() {
    let mut amps = Amplitudes::<f64>::new();
    amps.set_amp(2, 4.4);
    amps.set_amp(5, 9.);
    amps.set_amps_baseline(1.5);

    let expected = vec![1.5, 1.5, 4.4, 1.5, 1.5, 9.];
    let actual = amps.get_amps(0., 6).ok().unwrap();

    assert_eq!(actual, expected)
}

/// Test an error is produced if a bad amplitude is given.
#[test]
fn test_get_amps_bad_amp() {
    let mut amps = Amplitudes::<f64>::new();
    amps.set_amp(2, 4.4);
    amps.set_amp(20, 9.);

    let result = amps.get_amps(0., 6);
    assert!(matches!(
        result,
        Err(FilterError::DetectorOutOfRange { detector: 20, n_spec: 6 })
    ));
}

/// Setting a detector's threshold again replaces it.
#[test]
fn set_amp_replaces() {
    let mut amps = Amplitudes::<f64>::new();
    amps.set_amp(1, 2.0);
    amps.set_amp(1, 3.0);
    assert_eq!(amps.entries_vec(), vec![(1, 3.0)]);
    assert_eq!(amps.get_amps(0., 2).ok().unwrap(), vec![0., 3.0]);
}

/// Test setting an amplitude for one detector works.
#[test]
fn test_set_amp() {
    let mut amps = Amplitudes::<f64>::new();
    amps.set_amp(5, 3.);

    let expected: Vec<(usize, f64)> = vec![(5, 3.)];
    assert_eq!(amps.entries_vec(), expected)
}

/// Test setting an amplitude for all detectors works.
#[test]
fn test_set_amps_baseline() {
    let mut amps = Amplitudes::<f64>::new();
    amps.set_amps_baseline(3.);

    let expected: Vec<(usize, f64)> = vec![(usize::MAX, 3.)];
    assert_eq!(amps.entries_vec(), expected)
}

/// Names are trimmed of Unicode white space, and other characters are kept.
#[test]
fn device_names_trim_white_space() {
    assert_eq!(DevicePreference::from_str("\t gpu\u{3000}").unwrap(), DevicePreference::Gpu);
    assert!(DevicePreference::from_str("\u{200b}gpu").is_err());
}
