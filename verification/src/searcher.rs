//! The capability that both searchers offer.
use crate::fc_ind::FractionalCascadingMultiListSearcher;
use crate::naive::NaiveMultiListSearcher;
use crate::order::answers;
use vstd::prelude::*;

verus! {

/// Given `k` sorted lists and a query, produce the `k` upper bounds.
pub trait MultiListSearcher {
    /// The lists that are searched.
    spec fn lists(&self) -> Seq<Seq<i64>>;

    /// Writes to `out[i]` the upper bound of `x` in list `i`.
    fn search(&self, x: i64, out: &mut [usize])
        requires
            old(out)@.len() == self.lists().len(),
        ensures
            answers(self.lists(), x, final(out)@),
    ;
}

impl MultiListSearcher for NaiveMultiListSearcher {
    open spec fn lists(&self) -> Seq<Seq<i64>> {
        self@
    }

    fn search(&self, x: i64, out: &mut [usize]) {
        NaiveMultiListSearcher::search(self, x, out)
    }
}

impl MultiListSearcher for FractionalCascadingMultiListSearcher {
    open spec fn lists(&self) -> Seq<Seq<i64>> {
        self@
    }

    fn search(&self, x: i64, out: &mut [usize]) {
        FractionalCascadingMultiListSearcher::search(self, x, out)
    }
}

} // verus!
