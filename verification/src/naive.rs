//! The baseline searcher: one independent binary search per list.
use crate::order::{
    all_sorted, answers, lemma_split_is_upper_bound, lists_of, slice_upper_bound, sorted,
};
use vstd::prelude::*;

verus! {

/// Holds the lists as they were given and searches each on its own.
#[derive(Debug)]
pub struct NaiveMultiListSearcher {
    data: Vec<Vec<i64>>,
}

/// A copy of `list`.
fn copy_list(list: &Vec<i64>) -> (r: Vec<i64>)
    ensures
        r@ == list@,
{
    let mut r: Vec<i64> = Vec::new();
    let mut i: usize = 0;
    while i < list.len()
        invariant
            i <= list.len(),
            r@ == list@.subrange(0, i as int),
        decreases list.len() - i,
    {
        r.push(list[i]);
        i += 1;
        assert(r@ =~= list@.subrange(0, i as int));
    }
    assert(list@.subrange(0, i as int) =~= list@);
    r
}

impl NaiveMultiListSearcher {
    #[verifier::type_invariant]
    spec fn wf(self) -> bool {
        all_sorted(lists_of(self.data@))
    }

    /// The lists that are searched.
    pub closed spec fn view(&self) -> Seq<Seq<i64>> {
        lists_of(self.data@)
    }

    /// Takes a copy of the lists, each of which must be sorted ascending.
    pub fn new(data: &Vec<Vec<i64>>) -> (r: NaiveMultiListSearcher)
        requires
            all_sorted(lists_of(data@)),
        ensures
            r@ == lists_of(data@),
    {
        let mut copy: Vec<Vec<i64>> = Vec::new();
        let mut i: usize = 0;
        while i < data.len()
            invariant
                i <= data.len(),
                copy@.len() == i,
                forall|j: int| 0 <= j < i ==> (#[trigger] copy@[j])@ == data@[j]@,
            decreases data.len() - i,
        {
            let list = copy_list(&data[i]);
            copy.push(list);
            i += 1;
        }
        assert(lists_of(copy@) =~= lists_of(data@));
        NaiveMultiListSearcher { data: copy }
    }

    /// Writes to `out[i]` the upper bound of `x` in list `i`.
    pub fn search(&self, x: i64, out: &mut [usize])
        requires
            old(out)@.len() == self@.len(),
        ensures
            answers(self@, x, final(out)@),
    {
        proof {
            use_type_invariant(self);
        }
        let mut i: usize = 0;
        while i < self.data.len()
            invariant
                i <= self.data.len(),
                out@.len() == self.data@.len(),
                all_sorted(lists_of(self.data@)),
                forall|j: int|
                    0 <= j < i ==> out@[j] as nat == crate::order::upper_bound(
                        #[trigger] lists_of(self.data@)[j],
                        x,
                    ),
            decreases self.data.len() - i,
        {
            assert(sorted(lists_of(self.data@)[i as int]));
            let r = slice_upper_bound(self.data[i].as_slice(), x);
            proof {
                lemma_split_is_upper_bound(self.data[i as int]@, x, r as int);
            }
            out[i] = r;
            i += 1;
        }
    }
}

} // verus!
