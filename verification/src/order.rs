//! The order-theoretic vocabulary shared by the searchers: sortedness, the
//! upper bound of a query in a list, and what it means for an output buffer to
//! answer a query.
use superslice::Ext;
use vstd::prelude::*;

verus! {

/// `s` is non-decreasing.
pub open spec fn sorted(s: Seq<i64>) -> bool {
    forall|i: int, j: int| 0 <= i <= j < s.len() ==> s[i] <= s[j]
}

/// Every list of `lists` is non-decreasing.
pub open spec fn all_sorted(lists: Seq<Seq<i64>>) -> bool {
    forall|i: int| 0 <= i < lists.len() ==> sorted(#[trigger] lists[i])
}

/// The lists of `data` as sequences of keys.
pub open spec fn lists_of(data: Seq<Vec<i64>>) -> Seq<Seq<i64>> {
    Seq::new(data.len(), |i: int| data[i]@)
}

/// The number of elements of `s` that are at most `x`.
pub open spec fn upper_bound(s: Seq<i64>, x: i64) -> nat
    decreases s.len(),
{
    if s.len() == 0 {
        0
    } else {
        upper_bound(s.drop_last(), x) + if s.last() <= x {
            1nat
        } else {
            0nat
        }
    }
}

/// `r` splits `s` into a prefix of elements at most `x` and a suffix of
/// elements greater than `x`.
pub open spec fn splits_at(s: Seq<i64>, x: i64, r: int) -> bool {
    &&& 0 <= r <= s.len()
    &&& forall|j: int| 0 <= j < r ==> s[j] <= x
    &&& forall|j: int| r <= j < s.len() ==> s[j] > x
}

/// `out` holds, for each list, the upper bound of `x` in it.
pub open spec fn answers(lists: Seq<Seq<i64>>, x: i64, out: Seq<usize>) -> bool {
    &&& out.len() == lists.len()
    &&& forall|i: int| 0 <= i < lists.len() ==> out[i] as nat == upper_bound(#[trigger] lists[i], x)
}

/// An index that splits a list around `x` is the upper bound of `x`.
pub proof fn lemma_split_is_upper_bound(s: Seq<i64>, x: i64, r: int)
    requires
        splits_at(s, x, r),
    ensures
        upper_bound(s, x) == r,
    decreases s.len(),
{
    if s.len() > 0 {
        let t = s.drop_last();
        if r == s.len() {
            lemma_split_is_upper_bound(t, x, r - 1);
        } else {
            lemma_split_is_upper_bound(t, x, r);
        }
    }
}

/// In a sorted list the upper bound `r` of `x` is the index with
/// `s[r - 1] <= x < s[r]`, as far as those elements exist: everything before
/// it is at most `x`, everything from it on is greater.
pub proof fn lemma_upper_bound_splits(s: Seq<i64>, x: i64)
    requires
        sorted(s),
    ensures
        splits_at(s, x, upper_bound(s, x) as int),
    decreases s.len(),
{
    if s.len() > 0 {
        let t = s.drop_last();
        assert(sorted(t)) by {
            assert forall|i: int, j: int| 0 <= i <= j < t.len() implies t[i] <= t[j] by {
                assert(t[i] == s[i] && t[j] == s[j]);
            }
        }
        lemma_upper_bound_splits(t, x);
        let rt = upper_bound(t, x) as int;
        let r = upper_bound(s, x) as int;
        if s.last() <= x {
            assert forall|j: int| 0 <= j < r implies s[j] <= x by {
                assert(s[j] <= s[s.len() - 1]);
            }
            assert(rt == t.len()) by {
                if rt < t.len() {
                    assert(t[rt] > x);
                    assert(s[rt] <= s[s.len() - 1]);
                }
            }
        } else {
            assert forall|j: int| 0 <= j < r implies s[j] <= x by {
                assert(t[j] == s[j]);
            }
            assert forall|j: int| r <= j < s.len() implies s[j] > x by {
                if j < t.len() {
                    assert(t[j] == s[j]);
                }
            }
        }
    }
}

/// At most one index splits a list around a query.
pub proof fn lemma_split_unique(s: Seq<i64>, x: i64, a: int, b: int)
    requires
        splits_at(s, x, a),
        splits_at(s, x, b),
    ensures
        a == b,
{
    lemma_split_is_upper_bound(s, x, a);
    lemma_split_is_upper_bound(s, x, b);
}

/// A larger query never has a smaller upper bound.
pub proof fn lemma_upper_bound_monotone(s: Seq<i64>, x1: i64, x2: i64)
    requires
        x1 <= x2,
    ensures
        upper_bound(s, x1) <= upper_bound(s, x2),
    decreases s.len(),
{
    if s.len() > 0 {
        lemma_upper_bound_monotone(s.drop_last(), x1, x2);
    }
}

/// Answers to a smaller and a larger query on the same lists are ordered
/// position by position.
pub proof fn lemma_answers_monotone(
    lists: Seq<Seq<i64>>,
    x1: i64,
    x2: i64,
    out1: Seq<usize>,
    out2: Seq<usize>,
)
    requires
        x1 < x2,
        answers(lists, x1, out1),
        answers(lists, x2, out2),
    ensures
        forall|i: int| 0 <= i < lists.len() ==> out1[i] <= out2[i],
{
    assert forall|i: int| 0 <= i < lists.len() implies out1[i] <= out2[i] by {
        lemma_upper_bound_monotone(lists[i], x1, x2);
    }
}

/// Two answers to the same query on the same lists are the same sequence,
/// whichever searcher produced them and however often it was asked.
pub proof fn lemma_answers_unique(lists: Seq<Seq<i64>>, x: i64, a: Seq<usize>, b: Seq<usize>)
    requires
        answers(lists, x, a),
        answers(lists, x, b),
    ensures
        a == b,
{
    assert forall|i: int| 0 <= i < a.len() implies a[i] == b[i] by {
        assert(a[i] as nat == upper_bound(lists[i], x));
        assert(b[i] as nat == upper_bound(lists[i], x));
    }
    assert(a =~= b);
}

/// An empty list is answered with 0, whatever the query.
pub proof fn lemma_empty_list_yields_zero(lists: Seq<Seq<i64>>, x: i64, out: Seq<usize>, i: int)
    requires
        answers(lists, x, out),
        0 <= i < lists.len(),
        lists[i].len() == 0,
    ensures
        out[i] == 0,
{
}

/// In every answer on sorted lists, `out[i]` is the index of list `i` with
/// `list[out[i] - 1] <= x < list[out[i]]`, as far as those elements exist.
pub proof fn lemma_answers_split(lists: Seq<Seq<i64>>, x: i64, out: Seq<usize>)
    requires
        all_sorted(lists),
        answers(lists, x, out),
    ensures
        forall|i: int| 0 <= i < lists.len() ==> splits_at(#[trigger] lists[i], x, out[i] as int),
{
    assert forall|i: int| 0 <= i < lists.len() implies splits_at(
        #[trigger] lists[i],
        x,
        out[i] as int,
    ) by {
        lemma_upper_bound_splits(lists[i], x);
    }
}

/// Whether `list` is sorted ascending.
pub fn is_sorted(list: &[i64]) -> (r: bool)
    ensures
        r == sorted(list@),
{
    let mut i: usize = 1;
    while i < list.len()
        invariant
            1 <= i,
            forall|a: int, b: int| 0 <= a <= b < i && b < list@.len() ==> list@[a] <= list@[b],
        decreases list.len() - i,
    {
        if list[i - 1] > list[i] {
            return false;
        }
        proof {
            assert forall|a: int, b: int| 0 <= a <= b < i + 1 && b < list@.len() implies list@[a]
                <= list@[b] by {
                if b == i && a < i {
                    assert(list@[a] <= list@[i - 1]);
                }
            }
        }
        i += 1;
    }
    true
}

/// Calls `superslice::Ext::upper_bound` on a slice of keys. On a sorted slice
/// that binary search returns the index of the first element greater than
/// `x`, or the length where there is none; the contract says so as a split.
#[verifier::external_body]
pub(crate) fn slice_upper_bound(s: &[i64], x: i64) -> (r: usize)
    requires
        sorted(s@),
    ensures
        splits_at(s@, x, r as int),
{
    s.upper_bound(&x)
}

} // verus!
