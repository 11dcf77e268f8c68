//! Addressing the filter sets of a batch by position, or all at once.
use vstd::prelude::*;

use crate::batch::interface::all_keyword;
use crate::text::{lowercase, same_text, to_lowercase};

verus! {

/// The index of a filter set (and its corresponding result) within a batch,
/// or a request to apply an operation to every filter set.
pub enum FilterIndex {
    /// Apply the operation to every filter set.
    All,
    /// Apply the operation to a single filter set at this index.
    Index(usize),
}

/// Why an index was refused.
pub enum IndexError {
    /// Only an index or the reserved word can name filter sets.
    NotAnIndex,
    /// The index is not that of a filter set.
    OutOfRange { index: usize, n_sets: usize },
}

impl FilterIndex {
    /// The index a piece of text names: only the reserved word (in any case),
    /// which selects every filter set.
    pub fn from_text(text: &str) -> (r: Result<FilterIndex, IndexError>)
        ensures
            lowercase(text@) == all_keyword() ==> r matches Ok(FilterIndex::All),
            lowercase(text@) != all_keyword() ==> r matches Err(IndexError::NotAnIndex),
    {
        let lower: String = to_lowercase(text);
        proof {
            reveal_strlit("all");
            assert("all"@ =~= all_keyword());
        }
        if same_text(lower.as_str(), "all") {
            Ok(FilterIndex::All)
        } else {
            Err(IndexError::NotAnIndex)
        }
    }
}

/// Check that `index` is that of one of `n_sets` filter sets.
pub fn check_index(n_sets: usize, index: usize) -> (r: Result<(), IndexError>)
    ensures
        r is Ok <==> index < n_sets,
        r matches Err(e) ==> e matches IndexError::OutOfRange { index: i, n_sets: n } && i == index
            && n == n_sets,
{
    if index >= n_sets {
        return Err(IndexError::OutOfRange { index, n_sets });
    }
    Ok(())
}

/// The filter sets, among `n_sets`, that `index` selects.
pub fn resolve_indices(n_sets: usize, index: &FilterIndex) -> (r: Result<Vec<usize>, IndexError>)
    ensures
        index is All ==> (r matches Ok(v) && v@ == Seq::new(n_sets as nat, |k: int| k as usize)),
        index matches FilterIndex::Index(i) ==> (i < n_sets ==> (r matches Ok(v) && v@ == seq![*i]))
            && (i >= n_sets ==> r matches Err(IndexError::OutOfRange { .. })),
{
    match index {
        FilterIndex::All => {
            let mut v: Vec<usize> = Vec::new();
            let mut k: usize = 0;
            while k < n_sets
                invariant
                    k <= n_sets,
                    v@ == Seq::new(k as nat, |j: int| j as usize),
                decreases n_sets - k,
            {
                v.push(k);
                k += 1;
                proof {
                    assert(v@ =~= Seq::new(k as nat, |j: int| j as usize));
                }
            }
            Ok(v)
        },
        FilterIndex::Index(i) => {
            match check_index(n_sets, *i) {
                Ok(()) => Ok(vec![*i]),
                Err(e) => Err(e),
            }
        },
    }
}

} // verus!
