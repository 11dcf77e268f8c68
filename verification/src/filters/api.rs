//! The bookkeeping of a filter set that does not depend on the filter
//! values themselves: the time filter type, filter names, and the table of
//! amplitude thresholds per detector.
use vstd::prelude::*;
use vstd::std_specs::iter::IteratorSpec;
use std::collections::HashMap;

use crate::text::{is_lower_ascii, lowercase, same_text, to_lowercase};

verus! {

broadcast use vstd::std_specs::hash::group_hash_axioms;

/// Whether the time filters give ranges to keep or ranges to drop.
#[derive(Debug, Clone, Copy, PartialEq, Eq, Structural)]
pub enum FilterType {
    Include,
    Exclude,
}

/// Why a change to a filter set was refused.
#[derive(Debug)]
pub enum FilterError {
    /// The time filter type must be 'include' or 'exclude'.
    BadTimeType,
    /// Another filter of the same kind already has this name.
    DuplicateName,
    /// No filter of this kind has this name.
    NoSuchName,
    /// An amplitude threshold was set for a detector the instrument lacks.
    DetectorOutOfRange { detector: usize, n_spec: usize },
}

impl FilterType {
    /// Parse a time filter type: 'include' or 'exclude', in any case.
    pub fn from_text(filter_type: &str) -> (r: Result<FilterType, FilterError>)
        ensures
            lowercase(filter_type@) == "include"@ ==> r matches Ok(FilterType::Include),
            lowercase(filter_type@) == "exclude"@ ==> r matches Ok(FilterType::Exclude),
            lowercase(filter_type@) != "include"@ && lowercase(filter_type@) != "exclude"@ ==> r matches Err(
                FilterError::BadTimeType,
            ),
            filter_type@ == "include"@ ==> r matches Ok(FilterType::Include),
            filter_type@ == "exclude"@ ==> r matches Ok(FilterType::Exclude),
    {
        proof {
            reveal_strlit("include");
            reveal_strlit("exclude");
            assert("include"@[0] != "exclude"@[0]);
            assert(is_lower_ascii("include"@));
            assert(is_lower_ascii("exclude"@));
        }
        let lower: String = to_lowercase(filter_type);
        if same_text(lower.as_str(), "include") {
            Ok(FilterType::Include)
        } else if same_text(lower.as_str(), "exclude") {
            Ok(FilterType::Exclude)
        } else {
            Err(FilterError::BadTimeType)
        }
    }

    /// Whether the time filters give ranges to keep.
    pub fn is_include(&self) -> (r: bool)
        ensures
            r == (*self == FilterType::Include),
    {
        match self {
            FilterType::Include => true,
            FilterType::Exclude => false,
        }
    }

    /// The name of the type, as `from_text` reads it.
    pub fn as_str(&self) -> (r: &'static str)
        ensures
            *self == FilterType::Include ==> r@ == "include"@,
            *self == FilterType::Exclude ==> r@ == "exclude"@,
    {
        match self {
            FilterType::Include => "include",
            FilterType::Exclude => "exclude",
        }
    }
}

/// The position of the first of `names` equal to `name`, if any.
pub fn name_position(names: &Vec<String>, name: &str) -> (r: Option<usize>)
    ensures
        r matches Some(i) ==> (i < names@.len() && names@[i as int]@ == name@ && forall|j: int|
            0 <= j < i ==> names@[j]@ != name@),
        r is None ==> forall|j: int| 0 <= j < names@.len() ==> names@[j]@ != name@,
{
    let mut i: usize = 0;
    while i < names.len()
        invariant
            i <= names@.len(),
            forall|j: int| 0 <= j < i ==> names@[j]@ != name@,
        decreases names@.len() - i,
    {
        if same_text(names[i].as_str(), name) {
            return Some(i);
        }
        i += 1;
    }
    None
}

/// Check that `name` is not yet the name of one of `names`.
pub fn check_new_name(names: &Vec<String>, name: &str) -> (r: Result<(), FilterError>)
    ensures
        r is Ok <==> forall|j: int| 0 <= j < names@.len() ==> names@[j]@ != name@,
        r is Err ==> (r matches Err(FilterError::DuplicateName)),
{
    match name_position(names, name) {
        Some(_) => Err(FilterError::DuplicateName),
        None => Ok(()),
    }
}

/// Find the position of the filter named `name`, to remove it.
pub fn find_name(names: &Vec<String>, name: &str) -> (r: Result<usize, FilterError>)
    ensures
        r matches Ok(i) ==> (i < names@.len() && names@[i as int]@ == name@ && forall|j: int|
            0 <= j < i ==> names@[j]@ != name@),
        r is Err ==> (r matches Err(FilterError::NoSuchName)),
        r is Err <==> forall|j: int| 0 <= j < names@.len() ==> names@[j]@ != name@,
{
    match name_position(names, name) {
        Some(i) => Ok(i),
        None => Err(FilterError::NoSuchName),
    }
}

/// The detector number that stands for every detector without a threshold
/// of its own.
pub open spec fn baseline_key() -> usize {
    usize::MAX
}

/// The amplitude thresholds of a filter set: for each detector named, the
/// threshold at or below which its events are dropped, and under the
/// detector number `usize::MAX` the threshold of every other detector.
#[derive(Clone, Debug)]
pub struct Amplitudes<T> {
    map: HashMap<usize, T>,
}

/// The threshold that detector `d` gets: its own, else the threshold of every
/// other detector, else `zero`.
pub open spec fn threshold_of<T>(m: Map<usize, T>, zero: T, d: usize) -> T {
    if m.contains_key(d) {
        m[d]
    } else if m.contains_key(baseline_key()) {
        m[baseline_key()]
    } else {
        zero
    }
}

/// Some detector other than the baseline has a number of at least `n_spec`.
pub open spec fn has_bad_detector<T>(m: Map<usize, T>, n_spec: usize) -> bool {
    exists|d: usize| #[trigger] m.contains_key(d) && d != baseline_key() && d >= n_spec
}

impl<T: Copy> View for Amplitudes<T> {
    type V = Map<usize, T>;

    /// The threshold set for each detector number.
    closed spec fn view(&self) -> Map<usize, T> {
        self.map@
    }
}

impl<T: Copy> Amplitudes<T> {
    /// No thresholds.
    pub fn new() -> (a: Amplitudes<T>)
        ensures
            a@ == Map::<usize, T>::empty(),
    {
        Amplitudes { map: HashMap::new() }
    }

    /// Set the threshold of `detector` to `amp`, replacing any it had.
    pub fn set_amp(&mut self, detector: usize, amp: T)
        ensures
            final(self)@ == old(self)@.insert(detector, amp),
    {
        self.map.insert(detector, amp);
    }

    /// Set the threshold of every detector without one of its own.
    pub fn set_amps_baseline(&mut self, amp: T)
        ensures
            final(self)@ == old(self)@.insert(baseline_key(), amp),
    {
        self.map.insert(usize::MAX, amp);
    }

    /// The entries, one per detector, in the order the map is walked.
    pub fn entries_vec(&self) -> (r: Vec<(usize, T)>)
        ensures
            r@.len() == self@.dom().len(),
            forall|i: int|
                0 <= i < r@.len() ==> #[trigger] self@.contains_key(r@[i].0) && self@[r@[i].0] == r@[i].1,
            forall|d: usize|
                #[trigger] self@.contains_key(d) ==> exists|i: int| 0 <= i < r@.len() && r@[i] == (d, self@[d]),
    {
        let mut r: Vec<(usize, T)> = Vec::new();
        let iter = self.map.iter();
        let ghost all = vstd::std_specs::hash::spec_hash_map_iter(&self.map).remaining();
        proof {
            assert(iter == vstd::std_specs::hash::spec_hash_map_iter(&self.map));
        }
        for (key, value) in it: iter
            invariant
                it.seq() == all,
                all.len() == self.map@.dom().len(),
                forall|j: int|
                    0 <= j < all.len() ==> #[trigger] self.map@.contains_key(*all[j].0) && self.map@[*all[j].0]
                        == *all[j].1,
                forall|d: usize| #[trigger] self.map@.contains_key(d) ==> all.contains((&d, &self.map@[d])),
                r@.len() == it.index(),
                forall|j: int| 0 <= j < it.index() ==> #[trigger] r@[j] == (*all[j].0, *all[j].1),
        {
            let ghost idx = it.index();
            proof {
                assert(all[idx as int] == (key, value));
            }
            r.push((*key, *value));
        }
        proof {
            assert forall|i: int| 0 <= i < r@.len() implies #[trigger] self@.contains_key(r@[i].0)
                && self@[r@[i].0] == r@[i].1 by {
                assert(self.map@.contains_key(*all[i].0));
            }
            assert forall|d: usize| #[trigger] self@.contains_key(d) implies exists|i: int|
                0 <= i < r@.len() && r@[i] == (d, self@[d]) by {
                assert(all.contains((&d, &self.map@[d])));
                let j = choose|j: int| 0 <= j < all.len() && all[j] == (&d, &self.map@[d]);
                assert(r@[j] == (d, self@[d]));
            }
        }
        r
    }

    /// The threshold of each of `n_spec` detectors, `zero` where none is set;
    /// an error for a threshold set on a detector the instrument lacks. Which
    /// such detector the error names depends on the order the map is walked.
    pub fn get_amps(&self, zero: T, n_spec: usize) -> (r: Result<Vec<T>, FilterError>)
        ensures
            r is Err <==> has_bad_detector(self@, n_spec),
            r matches Err(e) ==> (e matches FilterError::DetectorOutOfRange { detector, n_spec: n } && n
                == n_spec && detector != baseline_key() && detector >= n_spec && self@.contains_key(
                detector,
            )),
            r matches Ok(v) ==> (v@.len() == n_spec && forall|d: int|
                0 <= d < n_spec ==> #[trigger] v@[d] == threshold_of(self@, zero, d as usize)),
    {
        // the threshold of every detector without one of its own
        let base: T = match self.map.get(&usize::MAX) {
            Some(b) => *b,
            None => zero,
        };
        let mut out: Vec<T> = Vec::new();
        let mut k: usize = 0;
        while k < n_spec
            invariant
                k <= n_spec,
                out@.len() == k,
                forall|d: int| 0 <= d < k ==> #[trigger] out@[d] == base,
            decreases n_spec - k,
        {
            out.push(base);
            k += 1;
        }
        let iter = self.map.iter();
        let ghost all = vstd::std_specs::hash::spec_hash_map_iter(&self.map).remaining();
        proof {
            assert(iter == vstd::std_specs::hash::spec_hash_map_iter(&self.map));
        }
        for (key, value) in it: iter
            invariant
                it.seq() == all,
                forall|j: int|
                    0 <= j < all.len() ==> #[trigger] self.map@.contains_key(*all[j].0) && self.map@[*all[j].0]
                        == *all[j].1,
                forall|d: usize| #[trigger] self.map@.contains_key(d) ==> all.contains((&d, &self.map@[d])),
                out@.len() == n_spec,
                base == if self.map@.contains_key(usize::MAX) {
                    self.map@[usize::MAX]
                } else {
                    zero
                },
                forall|j: int| 0 <= j < it.index() ==> *all[j].0 == usize::MAX || *all[j].0 < n_spec,
                forall|d: int|
                    0 <= d < n_spec ==> #[trigger] out@[d] == if exists|j: int|
                        0 <= j < it.index() && *all[j].0 == d {
                        self.map@[d as usize]
                    } else {
                        base
                    },
        {
            let ghost idx = it.index();
            proof {
                assert(all[idx as int] == (key, value));
                assert(self.map@.contains_key(*all[idx as int].0));
            }
            if *key != usize::MAX {
                if *key >= n_spec {
                    proof {
                        assert(self@.contains_key(*key));
                    }
                    return Err(FilterError::DetectorOutOfRange { detector: *key, n_spec });
                }
                let ghost prev = out@;
                out.set(*key, *value);
                proof {
                    assert forall|d: int| 0 <= d < n_spec implies #[trigger] out@[d] == if exists|j: int|
                        0 <= j < idx + 1 && *all[j].0 == d {
                        self.map@[d as usize]
                    } else {
                        base
                    } by {
                        if d != *key {
                            assert(out@[d] == prev[d]);
                            if exists|j: int| 0 <= j < idx + 1 && *all[j].0 == d {
                                let j = choose|j: int| 0 <= j < idx + 1 && *all[j].0 == d;
                                assert(j < idx);
                            }
                        } else {
                            assert(*all[idx as int].0 == d);
                        }
                    }
                }
            } else {
                proof {
                    assert forall|d: int| 0 <= d < n_spec implies #[trigger] out@[d] == if exists|j: int|
                        0 <= j < idx + 1 && *all[j].0 == d {
                        self.map@[d as usize]
                    } else {
                        base
                    } by {
                        if exists|j: int| 0 <= j < idx + 1 && *all[j].0 == d {
                            let j = choose|j: int| 0 <= j < idx + 1 && *all[j].0 == d;
                            assert(j < idx);
                        }
                    }
                }
            }
        }
        proof {
            if has_bad_detector(self@, n_spec) {
                let d = choose|d: usize| #[trigger] self@.contains_key(d) && d != baseline_key() && d >= n_spec;
                assert(all.contains((&d, &self.map@[d])));
                let j = choose|j: int| 0 <= j < all.len() && all[j] == (&d, &self.map@[d]);
                assert(*all[j].0 == usize::MAX || *all[j].0 < n_spec);
            }
            assert forall|d: int| 0 <= d < n_spec implies #[trigger] out@[d] == threshold_of(
                self@,
                zero,
                d as usize,
            ) by {
                let du = d as usize;
                if self.map@.contains_key(du) {
                    assert(all.contains((&du, &self.map@[du])));
                    let j = choose|j: int| 0 <= j < all.len() && all[j] == (&du, &self.map@[du]);
                    assert(*all[j].0 == d);
                } else {
                    if exists|j: int| 0 <= j < all.len() && *all[j].0 == d {
                        let j = choose|j: int| 0 <= j < all.len() && *all[j].0 == d;
                        assert(self.map@.contains_key(*all[j].0));
                    }
                }
            }
        }
        Ok(out)
    }
}

} // verus!
