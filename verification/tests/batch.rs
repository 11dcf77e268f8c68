use mneueventlib::batch::interface::{
    check_array_len, combine_data, concatenate_labels, resolve_indices, set_label, BatchError,
    DatasetSource, FilterIndex,
};
use mneueventlib::batch_interface;

/// The labels of a batch of `n` unlabelled filter sets.
fn make_batch(n: usize) -> Vec<Option<String>> {
    vec![None; n]
}

/// resolve_indices(All) should return every index in range.
#[test]
fn test_resolve_indices_all() {
    let batch = make_batch(3);
    let indices = resolve_indices(&batch, &FilterIndex::All).ok().unwrap();
    assert_eq!(indices, vec![0, 1, 2]);
}

/// resolve_indices(Index) should return a single valid index.
#[test]
fn test_resolve_indices_single_valid() {
    let batch = make_batch(3);
    let indices = resolve_indices(&batch, &FilterIndex::Index(1)).ok().unwrap();
    assert_eq!(indices, vec![1]);
}

/// resolve_indices(Index) should error for an out-of-range index.
#[test]
fn test_resolve_indices_out_of_range() {
    let batch = make_batch(3);
    let result = resolve_indices(&batch, &FilterIndex::Index(3));
    assert!(result.is_err());
}

/// resolve_indices(Label) should return the index of the labelled set.
#[test]
fn test_resolve_indices_by_label() {
    let mut batch = make_batch(3);
    assert!(set_label(&mut batch, 1, Some("my_favourite".to_string())).is_ok());

    let indices = resolve_indices(&batch, &FilterIndex::Label("my_favourite".to_string()))
        .ok()
        .unwrap();
    assert_eq!(indices, vec![1]);
}

/// A label already used by another filter set should be rejected.
#[test]
fn test_duplicate_label_rejected() {
    let mut batch = make_batch(3);
    assert!(set_label(&mut batch, 0, Some("my_favourite".to_string())).is_ok());

    assert!(set_label(&mut batch, 1, Some("my_favourite".to_string())).is_err());
    // the failed call should not have changed anything
    assert_eq!(batch, vec![Some("my_favourite".to_string()), None, None]);
}

/// 'all' is reserved for selecting every filter set, in any case.
#[test]
fn test_all_rejected_as_label() {
    let mut batch = make_batch(2);
    assert!(set_label(&mut batch, 0, Some("all".to_string())).is_err());
    assert!(set_label(&mut batch, 0, Some("ALL".to_string())).is_err());
}

/// An empty label cannot be used, as it names nothing.
#[test]
fn test_empty_label_rejected() {
    let mut batch = make_batch(2);
    assert!(set_label(&mut batch, 0, Some(String::new())).is_err());
}

/// Labelling an out-of-range filter set should error.
#[test]
fn test_set_label_out_of_range() {
    let mut batch = make_batch(2);
    assert!(set_label(&mut batch, 5, Some("my_favourite".to_string())).is_err());
}

/// Relabelling a filter set should drop its previous label, rather than
/// leaving the set addressable by both.
#[test]
fn test_relabelling_drops_old_label() {
    let mut batch = make_batch(2);
    assert!(set_label(&mut batch, 0, Some("old".to_string())).is_ok());
    assert!(set_label(&mut batch, 0, Some("new".to_string())).is_ok());

    assert_eq!(batch, vec![Some("new".to_string()), None]);
    assert!(resolve_indices(&batch, &FilterIndex::Label("old".to_string())).is_err());
}

/// Concatenation preserves labels, shifting them with their filter sets.
#[test]
fn test_concatenate_preserves_and_shifts_labels() {
    let mut left = make_batch(2);
    assert!(set_label(&mut left, 1, Some("left".to_string())).is_ok());
    let mut right = make_batch(2);
    assert!(set_label(&mut right, 0, Some("right".to_string())).is_ok());

    let combined = concatenate_labels(&left, &right).ok().unwrap();

    assert_eq!(
        combined,
        vec![None, Some("left".to_string()), Some("right".to_string()), None]
    );
    // 'right' was index 0 of its own object, and is index 2 of the result
    assert_eq!(
        resolve_indices(&combined, &FilterIndex::Label("right".to_string()))
            .ok()
            .unwrap(),
        vec![2]
    );
}

/// Concatenating two objects that use the same label should error, as
/// labels must stay unique.
#[test]
fn test_concatenate_duplicate_label_errors() {
    let mut left = make_batch(2);
    assert!(set_label(&mut left, 0, Some("sweep".to_string())).is_ok());
    let mut right = make_batch(2);
    assert!(set_label(&mut right, 1, Some("sweep".to_string())).is_ok());

    assert!(concatenate_labels(&left, &right).is_err());
}

/// Combining objects with the same dataset should keep that dataset.
#[test]
fn test_combine_data_same_dataset() {
    let file = Some("HIFI00195790.nxs".to_string());
    assert!(matches!(combine_data(&file, &file.clone()), Ok(DatasetSource::Own)));
}

/// Combining an object holding data with one holding none should keep
/// the data, whichever side it is on.
#[test]
fn test_combine_data_one_none() {
    let file = Some("HIFI00195790.nxs".to_string());
    assert!(matches!(combine_data(&file, &None), Ok(DatasetSource::Own)));
    assert!(matches!(combine_data(&None, &file), Ok(DatasetSource::Other)));
}

/// Combining two objects with no data should give no data.
#[test]
fn test_combine_data_both_none() {
    assert!(matches!(combine_data(&None, &None), Ok(DatasetSource::Other)));
}

/// Combining objects with different datasets should error.
#[test]
fn test_combine_data_different_datasets() {
    let file = Some("HIFI00195790.nxs".to_string());
    let other = Some("somewhere_else.nxs".to_string());
    assert!(matches!(combine_data(&file, &other), Err(BatchError::DifferentData)));
}

/// A label that is set can be found again at its index.
#[test]
fn set_label_then_resolve() {
    let mut batch = make_batch(4);
    assert!(set_label(&mut batch, 3, Some("late".to_string())).is_ok());
    // relabelling with its own label changes nothing
    assert!(set_label(&mut batch, 3, Some("late".to_string())).is_ok());
    assert_eq!(
        resolve_indices(&batch, &FilterIndex::Label("late".to_string())).ok().unwrap(),
        vec![3]
    );
    // removing the label makes it unknown again
    assert!(set_label(&mut batch, 3, None).is_ok());
    assert!(matches!(
        resolve_indices(&batch, &FilterIndex::Label("late".to_string())),
        Err(BatchError::NoSuchLabel { .. })
    ));
}

/// An unknown label reports the labels in use.
#[test]
fn unknown_label_lists_labels() {
    let mut batch = make_batch(3);
    assert!(set_label(&mut batch, 0, Some("a".to_string())).is_ok());
    assert!(set_label(&mut batch, 2, Some("b".to_string())).is_ok());
    match resolve_indices(&batch, &FilterIndex::Label("c".to_string())) {
        Err(BatchError::NoSuchLabel { label, available }) => {
            assert_eq!(label, "c");
            assert_eq!(available, vec!["a".to_string(), "b".to_string()]);
        }
        _ => panic!("an unknown label should be refused"),
    }
}

/// Text naming every filter set, in any case, and labels otherwise.
#[test]
fn filter_index_from_text() {
    assert!(matches!(FilterIndex::from_text("ALL".to_string()), FilterIndex::All));
    match FilterIndex::from_text("sweep".to_string()) {
        FilterIndex::Label(l) => assert_eq!(l, "sweep"),
        _ => panic!("text other than 'all' is a label"),
    }
    assert!(matches!(
        batch_interface::FilterIndex::from_text("All"),
        Ok(batch_interface::FilterIndex::All)
    ));
    assert!(batch_interface::FilterIndex::from_text("first").is_err());
}

/// Enough values bound every filter set: one more than there are sets.
#[test]
fn array_length_check() {
    assert!(check_array_len(3, 4).is_ok());
    assert!(matches!(
        check_array_len(3, 3),
        Err(BatchError::NotEnoughValues { given: 3, n_sets: 3 })
    ));
    assert!(batch_interface::resolve_indices(2, &batch_interface::FilterIndex::Index(2)).is_err());
    assert_eq!(
        batch_interface::resolve_indices(2, &batch_interface::FilterIndex::All).ok().unwrap(),
        vec![0, 1]
    );
}
