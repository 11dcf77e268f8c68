//! Addressing the filter sets of a batch: by position, by label, or all at
//! once, and keeping the labels unique.
use vstd::prelude::*;

use crate::text::{lowercase, same_text, to_lowercase};

verus! {

/// The reserved word selecting every filter set.
pub open spec fn all_keyword() -> Seq<char> {
    seq!['a', 'l', 'l']
}

/// The index of a filter set (and its corresponding result) within a batch,
/// or a request to apply an operation to every filter set.
pub enum FilterIndex {
    /// Apply the operation to every filter set.
    All,
    /// Apply the operation to a single filter set at this index.
    Index(usize),
    /// Apply the operation to the single filter set carrying this label.
    Label(String),
}

/// Why an operation on the filter sets of a batch was refused.
pub enum BatchError {
    /// The index is not that of a filter set.
    IndexOutOfRange { index: usize, n_sets: usize },
    /// No filter set carries the label; `available` lists the labels in use.
    NoSuchLabel { label: String, available: Vec<String> },
    /// A label cannot be empty.
    EmptyLabel,
    /// The reserved word cannot be a label.
    ReservedLabel { label: String },
    /// Another filter set already carries the label.
    DuplicateLabel { label: String, existing: usize },
    /// Both batches being joined label a filter set with this label.
    LabelClash { label: String },
    /// The batches being joined hold different datasets.
    DifferentData,
    /// Too few values to bound every filter set.
    NotEnoughValues { given: usize, n_sets: usize },
    /// The two batches hold different numbers of filter sets.
    LengthMismatch,
}

/// Which dataset a batch joined from two batches holds.
pub enum DatasetSource {
    /// The dataset of the first batch (which may be none).
    Own,
    /// The dataset of the second batch (which may be none).
    Other,
}

/// The text of a label.
pub open spec fn label_text(l: Option<String>) -> Option<Seq<char>> {
    match l {
        Some(s) => Some(s@),
        None => None,
    }
}

/// Whether filter set `i` carries the label `label`.
pub open spec fn has_label(labels: Seq<Option<String>>, i: int, label: Seq<char>) -> bool {
    label_text(labels[i]) == Some(label)
}

/// No two filter sets carry the same label.
pub open spec fn labels_unique(labels: Seq<Option<String>>) -> bool {
    forall|i: int, j: int|
        0 <= i < labels.len() && 0 <= j < labels.len() && i != j && labels[i] is Some ==> label_text(
            labels[i],
        ) != label_text(labels[j])
}

/// The labels in use, in index order.
pub open spec fn used_labels(labels: Seq<Option<String>>) -> Seq<Seq<char>>
    decreases labels.len(),
{
    if labels.len() == 0 {
        seq![]
    } else {
        used_labels(labels.drop_last()) + match labels.last() {
            Some(s) => seq![s@],
            None => seq![],
        }
    }
}

/// The first filter set carrying `label`, if any.
pub open spec fn first_with_label(labels: Seq<Option<String>>, label: Seq<char>) -> Option<int> {
    if exists|i: int| 0 <= i < labels.len() && has_label(labels, i, label) {
        Some(
            choose|i: int|
                0 <= i < labels.len() && has_label(labels, i, label) && forall|j: int|
                    0 <= j < i ==> !has_label(labels, j, label),
        )
    } else {
        None
    }
}

proof fn lemma_first_with_label(labels: Seq<Option<String>>, label: Seq<char>, i: int)
    requires
        0 <= i < labels.len(),
        has_label(labels, i, label),
        forall|j: int| 0 <= j < i ==> !has_label(labels, j, label),
    ensures
        first_with_label(labels, label) == Some(i),
{
    let f = choose|k: int|
        0 <= k < labels.len() && has_label(labels, k, label) && forall|j: int|
            0 <= j < k ==> !has_label(labels, j, label);
    assert(0 <= i < labels.len() && has_label(labels, i, label) && forall|j: int|
        0 <= j < i ==> !has_label(labels, j, label));
    if f < i {
        assert(!has_label(labels, f, label));
    }
    if f > i {
        assert(!has_label(labels, i, label));
    }
}

impl FilterIndex {
    /// The index a piece of text names: the reserved word (in any case)
    /// selects every filter set, anything else is a label.
    pub fn from_text(text: String) -> (r: FilterIndex)
        ensures
            lowercase(text@) == all_keyword() ==> r is All,
            lowercase(text@) != all_keyword() ==> (r matches FilterIndex::Label(l) && l@ == text@),
    {
        let lower: String = to_lowercase(text.as_str());
        if same_text(lower.as_str(), "all") {
            proof {
                reveal_strlit("all");
                assert("all"@ =~= all_keyword());
            }
            FilterIndex::All
        } else {
            proof {
                reveal_strlit("all");
                assert("all"@ =~= all_keyword());
            }
            FilterIndex::Label(text)
        }
    }
}

/// Check that `index` is that of one of `n_sets` filter sets.
pub fn check_index(n_sets: usize, index: usize) -> (r: Result<(), BatchError>)
    ensures
        r is Ok <==> index < n_sets,
        r matches Err(e) ==> e matches BatchError::IndexOutOfRange { index: i, n_sets: n } && i
            == index && n == n_sets,
{
    if index >= n_sets {
        return Err(BatchError::IndexOutOfRange { index, n_sets });
    }
    Ok(())
}

/// Get the index of the first filter set carrying `label`.
pub fn find_label(labels: &Vec<Option<String>>, label: &str) -> (r: Option<usize>)
    ensures
        r matches Some(i) ==> first_with_label(labels@, label@) == Some(i as int),
        r is None ==> first_with_label(labels@, label@) is None,
{
    let mut i: usize = 0;
    while i < labels.len()
        invariant
            i <= labels@.len(),
            forall|j: int| 0 <= j < i ==> !has_label(labels@, j, label@),
        decreases labels@.len() - i,
    {
        let matched: bool = match &labels[i] {
            Some(l) => same_text(l.as_str(), label),
            None => false,
        };
        if matched {
            proof {
                lemma_first_with_label(labels@, label@, i as int);
            }
            return Some(i);
        }
        i += 1;
    }
    None
}

/// The labels in use, in index order.
pub fn available_labels(labels: &Vec<Option<String>>) -> (r: Vec<String>)
    ensures
        Seq::new(r@.len(), |k: int| r@[k]@) == used_labels(labels@),
{
    let mut r: Vec<String> = Vec::new();
    let mut i: usize = 0;
    while i < labels.len()
        invariant
            i <= labels@.len(),
            Seq::new(r@.len(), |k: int| r@[k]@) == used_labels(labels@.subrange(0, i as int)),
        decreases labels@.len() - i,
    {
        proof {
            let pre = labels@.subrange(0, i + 1);
            assert(pre.drop_last() =~= labels@.subrange(0, i as int));
        }
        match &labels[i] {
            Some(l) => {
                r.push(l.clone());
            },
            None => {},
        }
        proof {
            assert(Seq::new(r@.len(), |k: int| r@[k]@) =~= used_labels(labels@.subrange(0, i + 1)));
        }
        i += 1;
    }
    proof {
        assert(labels@.subrange(0, labels@.len() as int) =~= labels@);
    }
    r
}

/// Find the filter set carrying `label`, or say which labels are in use.
pub fn label_to_index(labels: &Vec<Option<String>>, label: &str) -> (r: Result<usize, BatchError>)
    ensures
        r matches Ok(i) ==> first_with_label(labels@, label@) == Some(i as int),
        r is Err ==> first_with_label(labels@, label@) is None,
        r matches Err(e) ==> e matches BatchError::NoSuchLabel { label: l, available: a } && l@
            == label@ && Seq::new(a@.len(), |k: int| a@[k]@) == used_labels(labels@),
{
    match find_label(labels, label) {
        Some(i) => Ok(i),
        None => {
            let available: Vec<String> = available_labels(labels);
            Err(BatchError::NoSuchLabel { label: label.to_string(), available })
        },
    }
}

/// The filter sets that `index` selects, among the filter sets labelled by `labels`.
pub fn resolve_indices(labels: &Vec<Option<String>>, index: &FilterIndex) -> (r: Result<
    Vec<usize>,
    BatchError,
>)
    ensures
        index is All ==> (r matches Ok(v) && v@ == Seq::new(labels@.len(), |k: int| k as usize)),
        index matches FilterIndex::Index(i) ==> (i < labels@.len() ==> (r matches Ok(v) && v@
            == seq![*i])) && (i >= labels@.len() ==> r matches Err(
            BatchError::IndexOutOfRange { .. },
        )),
        index matches FilterIndex::Label(l) ==> match first_with_label(labels@, l@) {
            Some(i) => (r matches Ok(v) && v@ == seq![i as usize]),
            None => r matches Err(BatchError::NoSuchLabel { .. }),
        },
{
    match index {
        FilterIndex::All => {
            let mut v: Vec<usize> = Vec::new();
            let mut k: usize = 0;
            while k < labels.len()
                invariant
                    k <= labels@.len(),
                    v@ == Seq::new(k as nat, |j: int| j as usize),
                decreases labels@.len() - k,
            {
                v.push(k);
                k += 1;
                proof {
                    assert(v@ =~= Seq::new(k as nat, |j: int| j as usize));
                }
            }
            Ok(v)
        },
        FilterIndex::Index(i) => {
            match check_index(labels.len(), *i) {
                Ok(()) => Ok(vec![*i]),
                Err(e) => Err(e),
            }
        },
        FilterIndex::Label(l) => {
            match label_to_index(labels, l.as_str()) {
                Ok(i) => Ok(vec![i]),
                Err(e) => Err(e),
            }
        },
    }
}

/// Label filter set `index` (or remove its label, with `None`).
///
/// A label must not be empty, must not be the reserved word in any case, and
/// must not be in use by another filter set; relabelling a set with its own
/// label changes nothing.
pub fn set_label(labels: &mut Vec<Option<String>>, index: usize, label: Option<String>) -> (r: Result<(), BatchError>)
    ensures
        index >= old(labels)@.len() ==> r matches Err(BatchError::IndexOutOfRange { .. }),
        r is Err ==> final(labels)@ == old(labels)@,
        index < old(labels)@.len() ==> match label {
            None => r is Ok && final(labels)@ == old(labels)@.update(index as int, None),
            Some(l) => if l@.len() == 0 {
                r matches Err(BatchError::EmptyLabel)
            } else if lowercase(l@) == all_keyword() {
                r matches Err(BatchError::ReservedLabel { .. })
            } else if first_with_label(old(labels)@, l@) is Some && first_with_label(
                old(labels)@,
                l@,
            )->Some_0 != index {
                (r matches Err(BatchError::DuplicateLabel { existing, .. }) && existing
                    == first_with_label(old(labels)@, l@)->Some_0)
            } else {
                r is Ok && final(labels)@ == old(labels)@.update(index as int, Some(l))
            },
        },
        labels_unique(old(labels)@) ==> labels_unique(final(labels)@),
{
    match check_index(labels.len(), index) {
        Ok(()) => {},
        Err(e) => return Err(e),
    }
    match label {
        None => {
            labels.set(index, None);
            proof {
                assert forall|i: int, j: int|
                    0 <= i < labels@.len() && 0 <= j < labels@.len() && i != j && labels@[i] is Some
                        && labels_unique(old(labels)@) implies label_text(labels@[i]) != label_text(
                    labels@[j],
                ) by {
                    assert(labels@[i] == old(labels)@[i]);
                    if j != index {
                        assert(labels@[j] == old(labels)@[j]);
                    }
                }
            }
            Ok(())
        },
        Some(label) => {
            if label.as_str().is_empty() {
                return Err(BatchError::EmptyLabel);
            }
            let lower: String = to_lowercase(label.as_str());
            proof {
                reveal_strlit("all");
                assert("all"@ =~= all_keyword());
            }
            if same_text(lower.as_str(), "all") {
                return Err(BatchError::ReservedLabel { label });
            }
            // relabelling a set with its own label is a no-op, not a clash
            match find_label(labels, label.as_str()) {
                Some(existing) => {
                    if existing != index {
                        return Err(BatchError::DuplicateLabel { label, existing });
                    }
                },
                None => {},
            }
            let ghost new_label = Some(label);
            labels.set(index, Some(label));
            proof {
                assert forall|i: int, j: int|
                    0 <= i < labels@.len() && 0 <= j < labels@.len() && i != j && labels@[i] is Some
                        && labels_unique(old(labels)@) implies label_text(labels@[i]) != label_text(
                    labels@[j],
                ) by {
                    let t = label_text(new_label);
                    if i == index {
                        if label_text(labels@[j]) == t {
                            assert(has_label(old(labels)@, j, label@));
                        }
                    } else if j == index {
                        if label_text(labels@[i]) == t {
                            assert(has_label(old(labels)@, i, label@));
                        }
                    } else {
                        assert(labels@[i] == old(labels)@[i]);
                        assert(labels@[j] == old(labels)@[j]);
                    }
                }
            }
            Ok(())
        },
    }
}

/// The labels of two batches joined end to end; an error if both label a
/// filter set alike.
pub fn concatenate_labels(own: &Vec<Option<String>>, other: &Vec<Option<String>>) -> (r: Result<
    Vec<Option<String>>,
    BatchError,
>)
    ensures
        r matches Ok(v) ==> (v@ == own@ + other@ && forall|j: int|
            0 <= j < other@.len() && other@[j] is Some ==> first_with_label(
                own@,
                other@[j]->Some_0@,
            ) is None),
        r is Err ==> exists|j: int|
            0 <= j < other@.len() && other@[j] is Some && first_with_label(
                own@,
                other@[j]->Some_0@,
            ) is Some,
{
    let mut j: usize = 0;
    while j < other.len()
        invariant
            j <= other@.len(),
            forall|k: int|
                0 <= k < j && other@[k] is Some ==> first_with_label(own@, other@[k]->Some_0@) is None,
        decreases other@.len() - j,
    {
        match &other[j] {
            Some(label) => {
                if find_label(own, label.as_str()).is_some() {
                    return Err(BatchError::LabelClash { label: label.clone() });
                }
            },
            None => {},
        }
        j += 1;
    }
    let mut labels: Vec<Option<String>> = Vec::new();
    let mut k: usize = 0;
    while k < own.len()
        invariant
            k <= own@.len(),
            labels@ == own@.subrange(0, k as int),
        decreases own@.len() - k,
    {
        labels.push(own[k].clone());
        k += 1;
        proof {
            assert(labels@ =~= own@.subrange(0, k as int));
        }
    }
    let mut k: usize = 0;
    while k < other.len()
        invariant
            k <= other@.len(),
            labels@ == own@ + other@.subrange(0, k as int),
        decreases other@.len() - k,
    {
        labels.push(other[k].clone());
        k += 1;
        proof {
            assert(labels@ =~= own@ + other@.subrange(0, k as int));
        }
    }
    proof {
        assert(other@.subrange(0, other@.len() as int) =~= other@);
    }
    Ok(labels)
}

/// Which dataset a batch joined from two batches holds, from the names of
/// their data files: they must be the same file, or at least one of them
/// must hold no data.
pub fn combine_data(own: &Option<String>, other: &Option<String>) -> (r: Result<DatasetSource, BatchError>)
    ensures
        own is None ==> r matches Ok(DatasetSource::Other),
        own is Some && other is None ==> r matches Ok(DatasetSource::Own),
        own is Some && other is Some && own->Some_0@ == other->Some_0@ ==> r matches Ok(
            DatasetSource::Own,
        ),
        own is Some && other is Some && own->Some_0@ != other->Some_0@ ==> r matches Err(
            BatchError::DifferentData,
        ),
{
    match own {
        Some(a) => match other {
            None => Ok(DatasetSource::Own),
            Some(b) => {
                if same_text(a.as_str(), b.as_str()) {
                    Ok(DatasetSource::Own)
                } else {
                    Err(BatchError::DifferentData)
                }
            },
        },
        None => Ok(DatasetSource::Other),
    }
}

/// Check that `given` values are enough to bound each of `n_sets` filter sets.
pub fn check_array_len(n_sets: usize, given: usize) -> (r: Result<(), BatchError>)
    ensures
        r is Ok <==> given >= n_sets + 1,
        r matches Err(e) ==> e matches BatchError::NotEnoughValues { given: g, n_sets: n } && g
            == given && n == n_sets,
{
    if given < n_sets || given - n_sets < 1 {
        return Err(BatchError::NotEnoughValues { given, n_sets });
    }
    Ok(())
}

/// Some filter set carrying a label means a first one carrying it.
proof fn lemma_first_exists(labels: Seq<Option<String>>, label: Seq<char>, i: int)
    requires
        0 <= i < labels.len(),
        has_label(labels, i, label),
    ensures
        exists|f: int|
            0 <= f < labels.len() && has_label(labels, f, label) && forall|j: int|
                0 <= j < f ==> !has_label(labels, j, label),
    decreases i,
{
    if exists|j: int| 0 <= j < i && has_label(labels, j, label) {
        let j = choose|j: int| 0 <= j < i && has_label(labels, j, label);
        lemma_first_exists(labels, label, j);
    } else {
        assert(0 <= i < labels.len() && has_label(labels, i, label) && forall|j: int|
            0 <= j < i ==> !has_label(labels, j, label));
    }
}

/// What `first_with_label` gives: the first filter set carrying the label,
/// or none when no filter set carries it.
proof fn lemma_first_with_label_props(labels: Seq<Option<String>>, label: Seq<char>)
    ensures
        first_with_label(labels, label) matches Some(f) ==> 0 <= f < labels.len() && has_label(
            labels,
            f,
            label,
        ) && forall|j: int| 0 <= j < f ==> !has_label(labels, j, label),
        first_with_label(labels, label) is None ==> forall|j: int|
            0 <= j < labels.len() ==> !has_label(labels, j, label),
{
    if exists|i: int| 0 <= i < labels.len() && has_label(labels, i, label) {
        let i = choose|i: int| 0 <= i < labels.len() && has_label(labels, i, label);
        lemma_first_exists(labels, label, i);
    }
}

/// A label that `set_label` accepts for filter set `index` is found again at
/// `index`.
pub proof fn law_set_label_then_find(labels: Seq<Option<String>>, index: int, label: String)
    requires
        0 <= index < labels.len(),
        first_with_label(labels, label@) is None || first_with_label(labels, label@) == Some(index),
    ensures
        first_with_label(labels.update(index, Some(label)), label@) == Some(index),
{
    let new = labels.update(index, Some(label));
    let l = label@;
    lemma_first_with_label_props(labels, l);
    assert forall|j: int| 0 <= j < index implies !#[trigger] has_label(labels, j, l) by {
        if first_with_label(labels, l) is None {
            assert(!has_label(labels, j, l));
        } else {
            assert(first_with_label(labels, l) == Some(index));
        }
    }
    assert forall|j: int| 0 <= j < index implies !has_label(new, j, l) by {
        assert(new[j] == labels[j]);
        assert(!has_label(labels, j, l));
    }
    assert(has_label(new, index, l));
    lemma_first_with_label(new, l, index);
}

/// Relabelling a filter set of a batch with unique labels drops its old
/// label: no filter set carries it afterwards.
pub proof fn law_relabel_drops_old(labels: Seq<Option<String>>, index: int, label: Option<String>)
    requires
        0 <= index < labels.len(),
        labels_unique(labels),
        labels[index] is Some,
        label_text(label) != label_text(labels[index]),
    ensures
        first_with_label(labels.update(index, label), labels[index]->Some_0@) is None,
{
    let new = labels.update(index, label);
    let o = labels[index]->Some_0@;
    if exists|i: int| 0 <= i < new.len() && has_label(new, i, o) {
        let i = choose|i: int| 0 <= i < new.len() && has_label(new, i, o);
        assert(i != index);
        assert(new[i] == labels[i]);
        assert(label_text(labels[index]) != label_text(labels[i]));
    }
}

/// Joining two batches with unique labels, when no label of the second is
/// in use in the first, gives unique labels.
pub proof fn law_concatenate_keeps_unique(own: Seq<Option<String>>, other: Seq<Option<String>>)
    requires
        labels_unique(own),
        labels_unique(other),
        forall|j: int|
            0 <= j < other.len() && other[j] is Some ==> first_with_label(own, other[j]->Some_0@)
                is None,
    ensures
        labels_unique(own + other),
{
    let all = own + other;
    let n = own.len() as int;
    assert forall|i: int, j: int|
        0 <= i < all.len() && 0 <= j < all.len() && i != j && all[i] is Some implies label_text(
        all[i],
    ) != label_text(all[j]) by {
        if i < n && j < n {
            assert(all[i] == own[i] && all[j] == own[j]);
        } else if i >= n && j >= n {
            assert(all[i] == other[i - n] && all[j] == other[j - n]);
        } else if i < n {
            // a label of the first batch that the second also uses
            assert(all[j] == other[j - n]);
            if label_text(all[i]) == label_text(all[j]) {
                assert(has_label(own, i, other[j - n]->Some_0@));
            }
        } else {
            assert(all[i] == other[i - n]);
            assert(all[j] == own[j]);
            if label_text(all[i]) == label_text(all[j]) {
                assert(has_label(own, j, other[i - n]->Some_0@));
            }
        }
    }
}

} // verus!
