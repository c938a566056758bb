//! The fractional-cascading index and the search that walks it.
//!
//! The index is one flat array of nodes. Each list owns a contiguous range of
//! it: the list's own elements merged with every second node of the range of
//! the list after it. A node remembers how many elements of its own list have
//! been merged up to it, and how far the merge had advanced in the range of
//! the next list. A query is located once, by binary search in the range of
//! the first list; from there each further list costs a constant number of
//! steps.
use crate::naive::NaiveMultiListSearcher;
use crate::order::{
    all_sorted, answers, lemma_answers_unique, lemma_split_is_upper_bound, lists_of, sorted,
    splits_at,
};
use superslice::Ext;
use vstd::prelude::*;
use vstd::slice::slice_subrange;

verus! {

/// One entry of the flat array.
#[derive(Debug, Clone, Copy)]
struct FCNode {
    /// The key.
    value: i64,
    /// How many elements of the node's own list were merged up to and
    /// including this node.
    orig_list_upper_bound: usize,
    /// How far the merge had advanced in the range of the next list: the
    /// start of that range while nothing was taken from it, else one past the
    /// node taken last.
    prev_list_upper_bound: usize,
}

/// The index over `k` sorted lists.
pub struct FractionalCascadingMultiListSearcher {
    nodes: Vec<FCNode>,
    list_ranges: Vec<(usize, usize)>,
    lists: Ghost<Seq<Seq<i64>>>,
}

/// What one node of a range says, as plain values.
pub struct Entry {
    /// The key.
    pub value: i64,
    /// How many elements of the range's own list stand at or before it.
    pub own: nat,
    /// How many nodes carried over from the next range stand at or before it.
    pub sampled: nat,
}

/// The merge of a sorted list with sorted samples, each entry with the counts
/// of what stands at or before it. Where a list element and a sample are
/// equal, the list element comes first.
pub open spec fn merged(list: Seq<i64>, samples: Seq<i64>) -> Seq<Entry>
    decreases list.len() + samples.len(),
{
    if samples.len() > 0 && (list.len() == 0 || list.last() <= samples.last()) {
        merged(list, samples.drop_last()).push(
            Entry { value: samples.last(), own: list.len(), sampled: samples.len() },
        )
    } else if list.len() > 0 {
        merged(list.drop_last(), samples).push(
            Entry { value: list.last(), own: list.len(), sampled: samples.len() },
        )
    } else {
        Seq::empty()
    }
}

/// The values of every second entry, starting with the first.
pub open spec fn every_second(entries: Seq<Entry>) -> Seq<i64> {
    Seq::new(((entries.len() + 1) / 2) as nat, |t: int| entries[2 * t].value)
}

/// The entries of the range of list `i`: the list merged with every second
/// entry of the range of list `i + 1`. There is nothing after the last list.
pub open spec fn cascade(lists: Seq<Seq<i64>>, i: int) -> Seq<Entry>
    decreases lists.len() - i,
{
    if 0 <= i < lists.len() {
        merged(lists[i], every_second(cascade(lists, i + 1)))
    } else {
        Seq::empty()
    }
}

/// How far into the next range a node refers that has `sampled` carried-over
/// nodes at or before it: to the start while there is none, else one past the
/// last of them, which is every second node of that range.
pub open spec fn taken_offset(sampled: nat) -> nat {
    if sampled == 0 {
        0
    } else {
        (2 * sampled - 1) as nat
    }
}

/// The number of nodes in the range of list `i`: the list's own elements and
/// every second node, starting with the first, of the range of list `i + 1`.
pub open spec fn cascade_len(lists: Seq<Seq<i64>>, i: int) -> nat
    decreases lists.len() - i,
{
    if 0 <= i < lists.len() {
        lists[i].len() + (cascade_len(lists, i + 1) + 1) / 2
    } else {
        0
    }
}

/// The number of nodes in the ranges of the lists from `i` on.
pub open spec fn cascade_total(lists: Seq<Seq<i64>>, i: int) -> nat
    decreases lists.len() - i,
{
    if 0 <= i < lists.len() {
        cascade_len(lists, i) + cascade_total(lists, i + 1)
    } else {
        0
    }
}

/// The number of elements in the lists from `i` on.
pub open spec fn total_len(lists: Seq<Seq<i64>>, i: int) -> nat
    decreases lists.len() - i,
{
    if 0 <= i < lists.len() {
        lists[i].len() + total_len(lists, i + 1)
    } else {
        0
    }
}

/// The node values in `[b, e)` are non-decreasing.
spec fn values_sorted(nodes: Seq<FCNode>, b: int, e: int) -> bool {
    forall|p: int, q: int| b <= p <= q < e ==> nodes[p].value <= nodes[q].value
}

/// `r` splits the node values of `s` around `x`.
spec fn nodes_split_at(s: Seq<FCNode>, x: i64, r: int) -> bool {
    &&& 0 <= r <= s.len()
    &&& forall|j: int| 0 <= j < r ==> s[j].value <= x
    &&& forall|j: int| r <= j < s.len() ==> s[j].value > x
}

/// The first node of the next list's range that the merge has not passed
/// when its recorded progress is `r`: the range's start `pb` while nothing was
/// taken, else the node after the one that was skipped.
spec fn next_sample(r: int, pb: int) -> int {
    if r == pb {
        pb
    } else {
        r + 1
    }
}

/// What node `p` says about what lies at or before it: the elements of its
/// list counted by it, and the node of the next list's range taken last, are
/// at most its value.
spec fn back_ok(nodes: Seq<FCNode>, p: int, list: Seq<i64>, pb: int, pe: int) -> bool {
    let o = nodes[p].orig_list_upper_bound as int;
    let r = nodes[p].prev_list_upper_bound as int;
    &&& o <= list.len()
    &&& (o > 0 ==> list[o - 1] <= nodes[p].value)
    &&& pb <= r <= pe
    &&& (r > pb ==> nodes[r - 1].value <= nodes[p].value)
}

/// What node `p` says about what lies after it: the next element of its list
/// and the next sampled node of the next list's range, where there is one,
/// are merged later, so they are at least the value of node `p + 1`.
spec fn fwd_ok(nodes: Seq<FCNode>, p: int, e: int, list: Seq<i64>, pb: int, pe: int) -> bool {
    let o = nodes[p].orig_list_upper_bound as int;
    let n = next_sample(nodes[p].prev_list_upper_bound as int, pb);
    &&& (o < list.len() ==> p + 1 < e && nodes[p + 1].value <= list[o])
    &&& (n < pe ==> p + 1 < e && nodes[p + 1].value <= nodes[n].value)
}

/// The first node of a range is at most the first element of its list and
/// the first node of the next list's range.
spec fn head_ok(nodes: Seq<FCNode>, b: int, e: int, list: Seq<i64>, pb: int, pe: int) -> bool {
    &&& (list.len() > 0 ==> b < e && nodes[b].value <= list[0])
    &&& (pb < pe ==> b < e && nodes[b].value <= nodes[pb].value)
}

/// The nodes in `[b, e)` are a merge of `list` with samples of `[pb, pe)`.
spec fn range_ok(nodes: Seq<FCNode>, b: int, e: int, list: Seq<i64>, pb: int, pe: int) -> bool {
    &&& 0 <= pb <= pe <= b <= e <= nodes.len()
    &&& values_sorted(nodes, b, e)
    &&& head_ok(nodes, b, e, list, pb, pe)
    &&& forall|p: int|
        b <= p < e ==> #[trigger] back_ok(nodes, p, list, pb, pe) && fwd_ok(
            nodes,
            p,
            e,
            list,
            pb,
            pe,
        )
}

/// `node` holds what `entry` says, with the next range starting at `pb`.
spec fn node_is(node: FCNode, entry: Entry, pb: int) -> bool {
    &&& node.value == entry.value
    &&& node.orig_list_upper_bound == entry.own
    &&& node.prev_list_upper_bound == pb + taken_offset(entry.sampled)
}

/// The nodes from `b` on hold `entries`, one after the other.
spec fn entries_match(nodes: Seq<FCNode>, b: int, entries: Seq<Entry>, pb: int) -> bool {
    &&& 0 <= b
    &&& b + entries.len() <= nodes.len()
    &&& forall|j: int| 0 <= j < entries.len() ==> node_is(nodes[b + j], #[trigger] entries[j], pb)
}

/// Where the range of list `i + 1` begins; 0 after the last list.
spec fn next_begin(ranges: Seq<(usize, usize)>, i: int) -> int {
    if 0 <= i + 1 < ranges.len() {
        ranges[i + 1].0 as int
    } else {
        0
    }
}

/// Where the range of list `i + 1` ends; 0 after the last list.
spec fn next_end(ranges: Seq<(usize, usize)>, i: int) -> int {
    if 0 <= i + 1 < ranges.len() {
        ranges[i + 1].1 as int
    } else {
        0
    }
}

/// The range of list `i` starts where that of list `i + 1` ends, is a merge
/// of list `i` with samples of it, and has the size that this gives it.
spec fn list_ok(
    nodes: Seq<FCNode>,
    ranges: Seq<(usize, usize)>,
    lists: Seq<Seq<i64>>,
    i: int,
) -> bool {
    &&& ranges[i].0 == next_end(ranges, i)
    &&& ranges[i].0 == cascade_total(lists, i + 1)
    &&& ranges[i].1 == cascade_total(lists, i)
    &&& next_end(ranges, i) - next_begin(ranges, i) == cascade_len(lists, i + 1)
    &&& ranges[i].1 - ranges[i].0 == cascade(lists, i).len()
    &&& entries_match(nodes, ranges[i].0 as int, cascade(lists, i), next_begin(ranges, i))
    &&& range_ok(
        nodes,
        ranges[i].0 as int,
        ranges[i].1 as int,
        lists[i],
        next_begin(ranges, i),
        next_end(ranges, i),
    )
}

/// The index is a cascade over `lists`.
spec fn index_ok(nodes: Seq<FCNode>, ranges: Seq<(usize, usize)>, lists: Seq<Seq<i64>>) -> bool {
    &&& ranges.len() == lists.len()
    &&& all_sorted(lists)
    &&& (ranges.len() > 0 ==> ranges[0].1 == nodes.len())
    &&& (ranges.len() == 0 ==> nodes.len() == 0)
    &&& forall|i: int| 0 <= i < ranges.len() ==> #[trigger] list_ok(nodes, ranges, lists, i)
}

/// A range stays a merge when nodes are appended to the array.
proof fn lemma_range_ok_extends(
    old_nodes: Seq<FCNode>,
    nodes: Seq<FCNode>,
    b: int,
    e: int,
    list: Seq<i64>,
    pb: int,
    pe: int,
)
    requires
        range_ok(old_nodes, b, e, list, pb, pe),
        old_nodes.len() <= nodes.len(),
        forall|j: int| 0 <= j < old_nodes.len() ==> nodes[j] == old_nodes[j],
    ensures
        range_ok(nodes, b, e, list, pb, pe),
{
    assert forall|p: int| b <= p < e implies #[trigger] back_ok(nodes, p, list, pb, pe) && fwd_ok(
        nodes,
        p,
        e,
        list,
        pb,
        pe,
    ) by {
        assert(back_ok(old_nodes, p, list, pb, pe));
    }
}

/// Merging one more list element appends one entry, where the samples merged
/// so far are all less than it.
proof fn lemma_merged_push_own(list: Seq<i64>, samples: Seq<i64>, c: int, t: int)
    requires
        0 <= c < list.len(),
        0 <= t <= samples.len(),
        t > 0 ==> samples[t - 1] < list[c],
    ensures
        merged(list.take(c + 1), samples.take(t)) == merged(list.take(c), samples.take(t)).push(
            Entry { value: list[c], own: (c + 1) as nat, sampled: t as nat },
        ),
{
    let longer = list.take(c + 1);
    assert(longer.drop_last() =~= list.take(c));
    assert(longer.last() == list[c]);
    if t > 0 {
        assert(samples.take(t).last() == samples[t - 1]);
    }
}

/// Merging one more sample appends one entry, where the list elements merged
/// so far are all at most the sample.
proof fn lemma_merged_push_sample(list: Seq<i64>, samples: Seq<i64>, c: int, t: int)
    requires
        0 <= c <= list.len(),
        0 <= t < samples.len(),
        c > 0 ==> list[c - 1] <= samples[t],
    ensures
        merged(list.take(c), samples.take(t + 1)) == merged(list.take(c), samples.take(t)).push(
            Entry { value: samples[t], own: c as nat, sampled: (t + 1) as nat },
        ),
{
    let longer = samples.take(t + 1);
    assert(longer.drop_last() =~= samples.take(t));
    assert(longer.last() == samples[t]);
    if c > 0 {
        assert(list.take(c).last() == list[c - 1]);
    }
}

/// A node appended to the array that holds an entry appended to the entries
/// keeps the nodes and the entries matched.
proof fn lemma_entries_match_push(
    before: Seq<FCNode>,
    node: FCNode,
    b: int,
    built: Seq<Entry>,
    entry: Entry,
    pb: int,
)
    requires
        entries_match(before, b, built, pb),
        b + built.len() == before.len(),
        node_is(node, entry, pb),
    ensures
        entries_match(before.push(node), b, built.push(entry), pb),
{
    let nodes = before.push(node);
    let longer = built.push(entry);
    assert forall|j: int| 0 <= j < longer.len() implies node_is(
        nodes[b + j],
        #[trigger] longer[j],
        pb,
    ) by {
        if j < built.len() {
            assert(longer[j] == built[j]);
            assert(nodes[b + j] == before[b + j]);
        }
    }
}

/// Nodes keep holding their entries when nodes are appended to the array.
proof fn lemma_entries_match_extends(
    old_nodes: Seq<FCNode>,
    nodes: Seq<FCNode>,
    b: int,
    entries: Seq<Entry>,
    pb: int,
)
    requires
        entries_match(old_nodes, b, entries, pb),
        old_nodes.len() <= nodes.len(),
        forall|j: int| 0 <= j < old_nodes.len() ==> nodes[j] == old_nodes[j],
    ensures
        entries_match(nodes, b, entries, pb),
{
    assert forall|j: int| 0 <= j < entries.len() implies node_is(
        nodes[b + j],
        #[trigger] entries[j],
        pb,
    ) by {
        assert(nodes[b + j] == old_nodes[b + j]);
    }
}

/// Calls `superslice::Ext::upper_bound_by_key` on a slice of nodes, with the
/// node's value as the key. On a slice whose values are sorted that binary
/// search returns the index of the first node whose value is greater than
/// `x`, or the length where there is none; the contract says so as a split.
#[verifier::external_body]
fn nodes_upper_bound(s: &[FCNode], x: i64) -> (r: usize)
    requires
        values_sorted(s@, 0, s@.len() as int),
    ensures
        nodes_split_at(s@, x, r as int),
{
    s.upper_bound_by_key(&x, |node| node.value)
}

impl FractionalCascadingMultiListSearcher {
    #[verifier::type_invariant]
    spec fn wf(self) -> bool {
        index_ok(self.nodes@, self.list_ranges@, self.lists@)
    }

    /// The lists that the index was built from.
    pub closed spec fn view(&self) -> Seq<Seq<i64>> {
        self.lists@
    }

    /// Builds the index over `data`, each list of which must be sorted
    /// ascending.
    ///
    /// The lists are taken from the last to the first. Each is merged with
    /// every second node of the range built just before it; where the two
    /// streams offer equal values, the list's own element goes first.
    #[verifier::rlimit(50)]
    pub fn new(data: &Vec<Vec<i64>>) -> (r: FractionalCascadingMultiListSearcher)
        requires
            all_sorted(lists_of(data@)),
        ensures
            r@ == lists_of(data@),
            r.node_count() == cascade_total(lists_of(data@), 0),
            r.laid_out(),
    {
        let k: usize = data.len();
        let ghost lists = lists_of(data@);
        let mut nodes: Vec<FCNode> = Vec::new();
        let mut list_ranges: Vec<(usize, usize)> = Vec::new();
        while list_ranges.len() < k
            invariant
                list_ranges.len() <= k,
            decreases k - list_ranges.len(),
        {
            list_ranges.push((0, 0));
        }

        let mut prev_start: usize = 0;
        let mut prev_end: usize = 0;

        let mut i: usize = k;
        while i > 0
            invariant
                i <= k,
                k == data.len(),
                list_ranges.len() == k,
                lists == lists_of(data@),
                all_sorted(lists),
                prev_start <= prev_end,
                prev_end == nodes.len(),
                prev_end == cascade_total(lists, i as int),
                prev_end - prev_start == cascade_len(lists, i as int),
                prev_start == next_begin(list_ranges@, i - 1),
                prev_end == next_end(list_ranges@, i - 1),
                values_sorted(nodes@, prev_start as int, prev_end as int),
                forall|j: int| i <= j < k ==> #[trigger] list_ok(nodes@, list_ranges@, lists, j),
            decreases i,
        {
            i -= 1;
            let curr_list = &data[i];
            let ghost list = lists[i as int];
            let ghost done_nodes = nodes@;
            let ghost done_ranges = list_ranges@;
            assert(sorted(list));
            assert(list == curr_list@);
            let ghost samples = every_second(cascade(lists, i + 1));
            let ghost mut taken: int = 0;
            let ghost mut built: Seq<Entry> = Seq::empty();
            proof {
                if i + 1 < k {
                    assert(list_ok(nodes@, list_ranges@, lists, i + 1));
                }
                assert forall|t: int| 0 <= t < samples.len() implies #[trigger] samples[t]
                    == nodes@[prev_start + 2 * t].value by {
                    let entries = cascade(lists, i + 1);
                    assert(node_is(
                        nodes@[prev_start + 2 * t],
                        entries[2 * t],
                        next_begin(list_ranges@, i + 1),
                    ));
                }
                assert(list.take(0) =~= Seq::<i64>::empty());
                assert(samples.take(0) =~= Seq::<i64>::empty());
            }
            let mut curr_orig_list_upper_bound: usize = 0;
            let mut curr_prev_list_upper_bound: usize = prev_start;

            let mut curr_i: usize = 0;
            let mut prev_i: usize = prev_start;
            while prev_i < prev_end || curr_i < curr_list.len()
                invariant
                    list == curr_list@,
                    sorted(list),
                    prev_start <= prev_end <= nodes.len(),
                    curr_i <= list.len(),
                    prev_start <= prev_i <= prev_end + 1,
                    prev_start <= curr_prev_list_upper_bound <= prev_end,
                    next_sample(curr_prev_list_upper_bound as int, prev_start as int) == prev_i,
                    (prev_i - prev_start) % 2 == 0,
                    nodes.len() - prev_end == curr_i + (prev_i - prev_start) / 2,
                    curr_orig_list_upper_bound == curr_i,
                    values_sorted(nodes@, prev_start as int, prev_end as int),
                    values_sorted(nodes@, prev_end as int, nodes.len() as int),
                    nodes.len() == prev_end ==> curr_i == 0 && prev_i == prev_start,
                    nodes.len() > prev_end ==> {
                        let last = nodes@[nodes.len() - 1];
                        &&& head_ok(
                            nodes@,
                            prev_end as int,
                            nodes.len() as int,
                            list,
                            prev_start as int,
                            prev_end as int,
                        )
                        &&& last.orig_list_upper_bound == curr_i
                        &&& last.prev_list_upper_bound == curr_prev_list_upper_bound
                        &&& (curr_i < list.len() ==> last.value <= list[curr_i as int])
                        &&& (prev_i < prev_end ==> last.value <= nodes@[prev_i as int].value)
                    },
                    forall|p: int|
                        prev_end <= p < nodes.len() ==> #[trigger] back_ok(
                            nodes@,
                            p,
                            list,
                            prev_start as int,
                            prev_end as int,
                        ),
                    forall|p: int|
                        prev_end <= p < nodes.len() - 1 ==> #[trigger] fwd_ok(
                            nodes@,
                            p,
                            nodes.len() as int,
                            list,
                            prev_start as int,
                            prev_end as int,
                        ),
                    done_nodes.len() == prev_end,
                    forall|j: int| 0 <= j < prev_end ==> nodes@[j] == done_nodes[j],
                    samples.len() == (prev_end - prev_start + 1) / 2,
                    forall|t: int|
                        0 <= t < samples.len() ==> #[trigger] samples[t] == nodes@[prev_start + 2
                            * t].value,
                    2 * taken == prev_i - prev_start,
                    0 <= taken <= samples.len(),
                    taken > 0 && curr_i < list.len() ==> samples[taken - 1] < list[curr_i as int],
                    curr_i > 0 && taken < samples.len() ==> list[curr_i - 1] <= samples[taken],
                    built == merged(list.take(curr_i as int), samples.take(taken)),
                    built.len() == nodes.len() - prev_end,
                    entries_match(nodes@, prev_end as int, built, prev_start as int),
                decreases list.len() - curr_i + prev_end + 2 - prev_i,
            {
                let ghost before = nodes@;
                let ghost n = nodes.len() as int;
                let ghost pb = prev_start as int;
                let ghost pe = prev_end as int;
                proof {
                    if n > pe {
                        assert(back_ok(before, n - 1, list, pb, pe));
                    }
                }
                if prev_i >= prev_end || (curr_i < curr_list.len() && curr_list[curr_i]
                    <= nodes[prev_i].value) {
                    curr_orig_list_upper_bound = curr_i + 1;
                    nodes.push(
                        FCNode {
                            value: curr_list[curr_i],
                            orig_list_upper_bound: curr_orig_list_upper_bound,
                            prev_list_upper_bound: curr_prev_list_upper_bound,
                        },
                    );
                    proof {
                        if curr_i + 1 < list.len() {
                            assert(list[curr_i as int] <= list[curr_i + 1]);
                        }
                        let entry = Entry {
                            value: list[curr_i as int],
                            own: (curr_i + 1) as nat,
                            sampled: taken as nat,
                        };
                        lemma_merged_push_own(list, samples, curr_i as int, taken);
                        lemma_entries_match_push(before, nodes@[n], pe, built, entry, pb);
                        built = built.push(entry);
                    }
                    curr_i += 1;
                } else {
                    curr_prev_list_upper_bound = prev_i + 1;
                    let value: i64 = nodes[prev_i].value;
                    nodes.push(
                        FCNode {
                            value,
                            orig_list_upper_bound: curr_orig_list_upper_bound,
                            prev_list_upper_bound: curr_prev_list_upper_bound,
                        },
                    );
                    proof {
                        if prev_i + 2 < pe {
                            assert(before[prev_i as int].value <= before[prev_i + 2].value);
                        }
                        assert(samples[taken] == before[pb + 2 * taken].value);
                        if taken + 1 < samples.len() {
                            assert(samples[taken + 1] == before[pb + 2 * (taken + 1)].value);
                        }
                        let entry = Entry {
                            value: samples[taken],
                            own: curr_i as nat,
                            sampled: (taken + 1) as nat,
                        };
                        lemma_merged_push_sample(list, samples, curr_i as int, taken);
                        lemma_entries_match_push(before, nodes@[n], pe, built, entry, pb);
                        built = built.push(entry);
                        taken = taken + 1;
                    }
                    assert(prev_i + 2 <= nodes.len());
                    // Every second node of the range before is carried over.
                    prev_i += 2;
                }
                proof {
                    assert(forall|j: int| 0 <= j < n ==> nodes@[j] == before[j]);
                    assert forall|p: int, q: int| pe <= p <= q < n + 1 implies nodes@[p].value
                        <= nodes@[q].value by {
                        if q == n && p < n {
                            assert(before[p].value <= before[n - 1].value);
                        }
                    }
                    assert forall|p: int| pe <= p < n + 1 implies #[trigger] back_ok(
                        nodes@,
                        p,
                        list,
                        pb,
                        pe,
                    ) by {
                        if p < n {
                            assert(back_ok(before, p, list, pb, pe));
                        }
                    }
                    assert forall|p: int| pe <= p < n implies #[trigger] fwd_ok(
                        nodes@,
                        p,
                        n + 1,
                        list,
                        pb,
                        pe,
                    ) by {
                        if p < n - 1 {
                            assert(fwd_ok(before, p, n, list, pb, pe));
                        }
                    }
                }
            }

            proof {
                assert(list.take(curr_i as int) =~= list);
                assert(samples.take(taken) =~= samples);
                assert(built == cascade(lists, i as int));
            }
            prev_start = prev_end;
            prev_end = nodes.len();
            list_ranges[i] = (prev_start, prev_end);
            proof {
                assert forall|j: int| i < j < k implies #[trigger] list_ok(
                    nodes@,
                    list_ranges@,
                    lists,
                    j,
                ) by {
                    assert(list_ok(done_nodes, done_ranges, lists, j));
                    lemma_range_ok_extends(
                        done_nodes,
                        nodes@,
                        done_ranges[j].0 as int,
                        done_ranges[j].1 as int,
                        lists[j],
                        next_begin(done_ranges, j),
                        next_end(done_ranges, j),
                    );
                    lemma_entries_match_extends(
                        done_nodes,
                        nodes@,
                        done_ranges[j].0 as int,
                        cascade(lists, j),
                        next_begin(done_ranges, j),
                    );
                }
                assert(list_ok(nodes@, list_ranges@, lists, i as int));
            }
        }
        let index = FractionalCascadingMultiListSearcher { nodes, list_ranges, lists: Ghost(lists) };
        proof {
            index.lemma_ranges_tile();
            index.lemma_holds_cascade();
            index.lemma_ranges_sorted();
            index.lemma_bounds();
        }
        index
    }

    /// The number of nodes in the flat array.
    pub closed spec fn node_count(&self) -> nat {
        self.nodes@.len()
    }

    /// The value of node `p`.
    pub closed spec fn node_value(&self, p: int) -> i64 {
        self.nodes@[p].value
    }

    /// How many elements of its own list node `p` counts up to itself.
    pub closed spec fn node_orig_bound(&self, p: int) -> nat {
        self.nodes@[p].orig_list_upper_bound as nat
    }

    /// The offset into the range of the next list that node `p` refers to.
    pub closed spec fn node_prev_bound(&self, p: int) -> nat {
        self.nodes@[p].prev_list_upper_bound as nat
    }

    /// Where the range of list `i` begins; 0 where there is no such list.
    pub closed spec fn range_begin(&self, i: int) -> nat {
        if 0 <= i < self.list_ranges@.len() {
            self.list_ranges@[i].0 as nat
        } else {
            0
        }
    }

    /// Where the range of list `i` ends; 0 where there is no such list.
    pub closed spec fn range_end(&self, i: int) -> nat {
        if 0 <= i < self.list_ranges@.len() {
            self.list_ranges@[i].1 as nat
        } else {
            0
        }
    }

    /// The ranges tile the node array, that of the last list first and that of
    /// the first list last, each as long as its cascade.
    pub open spec fn ranges_tile(&self) -> bool {
        &&& self@.len() > 0 ==> self.range_end(0) == self.node_count()
        &&& forall|i: int|
            0 <= i < self@.len() ==> {
                &&& self.range_begin(i) == #[trigger] self.range_end(i + 1)
                &&& self.range_end(i) == self.range_begin(i) + cascade(self@, i).len()
                &&& self.range_end(i) <= self.node_count()
            }
    }

    /// The nodes of each range hold the entries of its cascade, one after the
    /// other.
    pub open spec fn holds_cascade(&self) -> bool {
        forall|i: int, j: int|
            0 <= i < self@.len() && 0 <= j < cascade(self@, i).len() ==> {
                let entry = #[trigger] cascade(self@, i)[j];
                let p = self.range_begin(i) + j;
                &&& self.node_value(p) == entry.value
                &&& self.node_orig_bound(p) == entry.own
                &&& self.node_prev_bound(p) == self.range_begin(i + 1) + taken_offset(
                    entry.sampled,
                )
            }
    }

    /// Within a range the values are non-decreasing.
    pub open spec fn ranges_sorted(&self) -> bool {
        forall|i: int, p: int, q: int|
            #![trigger self.range_begin(i), self.node_value(p), self.node_value(q)]
            0 <= i < self@.len() && self.range_begin(i) <= p <= q < self.range_end(i)
                ==> self.node_value(p) <= self.node_value(q)
    }

    /// Each node counts no more elements than its list has.
    pub open spec fn counts_in_bounds(&self) -> bool {
        forall|i: int, p: int|
            #![trigger self.range_begin(i), self.node_orig_bound(p)]
            0 <= i < self@.len() && self.range_begin(i) <= p < self.range_end(i)
                ==> self.node_orig_bound(p) <= self@[i].len()
    }

    /// Each node refers into the range of the next list, its end included.
    pub open spec fn references_in_bounds(&self) -> bool {
        forall|i: int, p: int|
            #![trigger self.range_begin(i), self.node_prev_bound(p)]
            0 <= i < self@.len() && self.range_begin(i) <= p < self.range_end(i)
                ==> self.range_begin(i + 1) <= self.node_prev_bound(p) <= self.range_end(i + 1)
    }

    /// The shape of an index.
    pub open spec fn laid_out(&self) -> bool {
        &&& self.ranges_tile()
        &&& self.holds_cascade()
        &&& self.ranges_sorted()
        &&& self.counts_in_bounds()
        &&& self.references_in_bounds()
    }

    proof fn lemma_ranges_tile(&self)
        requires
            self.wf(),
        ensures
            self.ranges_tile(),
    {
        if self.lists@.len() > 0 {
            assert(list_ok(self.nodes@, self.list_ranges@, self.lists@, 0));
        }
        assert forall|i: int| 0 <= i < self@.len() implies {
            &&& self.range_begin(i) == #[trigger] self.range_end(i + 1)
            &&& self.range_end(i) == self.range_begin(i) + cascade(self@, i).len()
            &&& self.range_end(i) <= self.node_count()
        } by {
            assert(list_ok(self.nodes@, self.list_ranges@, self.lists@, i));
        }
    }

    proof fn lemma_holds_cascade(&self)
        requires
            self.wf(),
        ensures
            self.holds_cascade(),
    {
        let nodes = self.nodes@;
        let ranges = self.list_ranges@;
        let lists = self.lists@;
        assert forall|i: int, j: int|
            0 <= i < self@.len() && 0 <= j < cascade(self@, i).len() implies {
            let entry = #[trigger] cascade(self@, i)[j];
            let p = self.range_begin(i) + j;
            &&& self.node_value(p) == entry.value
            &&& self.node_orig_bound(p) == entry.own
            &&& self.node_prev_bound(p) == self.range_begin(i + 1) + taken_offset(entry.sampled)
        } by {
            assert(list_ok(nodes, ranges, lists, i));
            assert(node_is(nodes[ranges[i].0 + j], cascade(lists, i)[j], next_begin(ranges, i)));
        }
    }

    proof fn lemma_ranges_sorted(&self)
        requires
            self.wf(),
        ensures
            self.ranges_sorted(),
    {
        assert forall|i: int, p: int, q: int|
            #![trigger self.range_begin(i), self.node_value(p), self.node_value(q)]
            0 <= i < self@.len() && self.range_begin(i) <= p <= q < self.range_end(
                i,
            ) implies self.node_value(p) <= self.node_value(q) by {
            assert(list_ok(self.nodes@, self.list_ranges@, self.lists@, i));
        }
    }

    proof fn lemma_bounds(&self)
        requires
            self.wf(),
        ensures
            self.counts_in_bounds(),
            self.references_in_bounds(),
    {
        let nodes = self.nodes@;
        let ranges = self.list_ranges@;
        let lists = self.lists@;
        assert forall|i: int, p: int|
            #![trigger self.range_begin(i), self.node_orig_bound(p)]
            0 <= i < self@.len() && self.range_begin(i) <= p < self.range_end(
                i,
            ) implies self.node_orig_bound(p) <= self@[i].len() by {
            assert(list_ok(nodes, ranges, lists, i));
            assert(back_ok(nodes, p, lists[i], next_begin(ranges, i), next_end(ranges, i)));
        }
        assert forall|i: int, p: int|
            #![trigger self.range_begin(i), self.node_prev_bound(p)]
            0 <= i < self@.len() && self.range_begin(i) <= p < self.range_end(
                i,
            ) implies self.range_begin(i + 1) <= self.node_prev_bound(p) <= self.range_end(
            i + 1,
        ) by {
            assert(list_ok(nodes, ranges, lists, i));
            assert(back_ok(nodes, p, lists[i], next_begin(ranges, i), next_end(ranges, i)));
        }
    }

    /// The number of nodes that the index holds.
    pub fn num_nodes(&self) -> (n: usize)
        ensures
            n == self.node_count(),
            n == cascade_total(self@, 0),
    {
        proof {
            use_type_invariant(self);
            if self.list_ranges@.len() > 0 {
                assert(list_ok(self.nodes@, self.list_ranges@, self.lists@, 0));
            }
        }
        self.nodes.len()
    }

    fn num_lists(&self) -> (k: usize)
        ensures
            k == self@.len(),
    {
        proof {
            use_type_invariant(self);
        }
        self.list_ranges.len()
    }

    /// Writes to `out[i]` the upper bound of `x` in list `i`. `out` must have
    /// one place per list.
    ///
    /// One binary search finds the upper bound of `x` in the range of the
    /// first list. From the node before it, the count of own elements is the
    /// answer for that list, and the recorded progress in the next range is
    /// the upper bound there or one short of it, which one comparison
    /// settles.
    pub fn search(&self, x: i64, out: &mut [usize])
        requires
            old(out)@.len() == self@.len(),
        ensures
            answers(self@, x, final(out)@),
    {
        proof {
            use_type_invariant(self);
        }
        let k: usize = self.num_lists();
        if k == 0 {
            return ;
        }
        let ghost nodes = self.nodes@;
        let ghost ranges = self.list_ranges@;
        let ghost lists = self.lists@;
        let begin: usize = self.list_ranges[0].0;
        assert(list_ok(nodes, ranges, lists, 0));
        let tail = slice_subrange(self.nodes.as_slice(), begin, self.nodes.len());
        let first_list_upper_bound: usize = nodes_upper_bound(tail, x);
        let mut pos: usize = begin + first_list_upper_bound;
        proof {
            if pos > begin {
                assert(tail@[pos - begin - 1].value <= x);
            }
            if pos + 1 < ranges[0].1 {
                assert(tail@[pos - begin + 1].value > x);
            }
        }
        let mut i: usize = 0;
        while i < k
            invariant
                i <= k,
                k == ranges.len(),
                nodes == self.nodes@,
                ranges == self.list_ranges@,
                lists == self@,
                index_ok(nodes, ranges, lists),
                out@.len() == k,
                i < k ==> ranges[i as int].0 <= pos <= ranges[i as int].1,
                i < k && pos > ranges[i as int].0 ==> nodes[pos - 1].value <= x,
                i < k && pos + 1 < ranges[i as int].1 ==> nodes[pos + 1].value > x,
                forall|j: int|
                    0 <= j < i ==> out@[j] as nat == crate::order::upper_bound(
                        #[trigger] lists[j],
                        x,
                    ),
            decreases k - i,
        {
            let (curr_list_begin, curr_list_end) = self.list_ranges[i];
            let ghost list = lists[i as int];
            let ghost pb = next_begin(ranges, i as int);
            let ghost pe = next_end(ranges, i as int);
            assert(list_ok(nodes, ranges, lists, i as int));
            assert(sorted(list));
            if pos < curr_list_end && self.nodes[pos].value <= x {
                pos += 1;
            }
            // Now `pos` is the upper bound of `x` in the range of list `i`.
            if pos == curr_list_begin {
                // Nothing in the range is at most `x`: neither an element of
                // the list nor the first node of the next range.
                proof {
                    assert(splits_at(list, x, 0)) by {
                        assert forall|j: int| 0 <= j < list.len() implies list[j] > x by {
                            assert(list[0] <= list[j]);
                        }
                    }
                    lemma_split_is_upper_bound(list, x, 0);
                }
                out[i] = 0;
                pos = if i + 1 < k {
                    self.list_ranges[i + 1].0
                } else {
                    0
                };
                proof {
                    if i + 1 < k {
                        assert(list_ok(nodes, ranges, lists, i + 1));
                        if pos + 1 < pe {
                            assert(nodes[pb].value <= nodes[pos + 1].value);
                        }
                    }
                }
            } else {
                // The node before `pos` is the last one at most `x`. What it
                // counts is at most `x`; what it does not count was merged
                // after it, so it is greater.
                let node = self.nodes[pos - 1];
                proof {
                    let o = node.orig_list_upper_bound as int;
                    let r = node.prev_list_upper_bound as int;
                    assert(back_ok(nodes, pos - 1, list, pb, pe));
                    assert(fwd_ok(nodes, pos - 1, curr_list_end as int, list, pb, pe));
                    assert(splits_at(list, x, o)) by {
                        assert forall|j: int| 0 <= j < o implies list[j] <= x by {
                            assert(list[j] <= list[o - 1]);
                        }
                        assert forall|j: int| o <= j < list.len() implies list[j] > x by {
                            assert(list[o] <= list[j]);
                        }
                    }
                    lemma_split_is_upper_bound(list, x, o);
                    if i + 1 < k {
                        assert(list_ok(nodes, ranges, lists, i + 1));
                        if r + 1 < pe {
                            assert(nodes[next_sample(r, pb)].value <= nodes[r + 1].value);
                        }
                    }
                }
                out[i] = node.orig_list_upper_bound;
                pos = node.prev_list_upper_bound;
            }
            i += 1;
        }
    }
}

/// A merge holds every list element and every sample once.
pub proof fn lemma_merged_len(list: Seq<i64>, samples: Seq<i64>)
    ensures
        merged(list, samples).len() == list.len() + samples.len(),
    decreases list.len() + samples.len(),
{
    if samples.len() > 0 && (list.len() == 0 || list.last() <= samples.last()) {
        lemma_merged_len(list, samples.drop_last());
    } else if list.len() > 0 {
        lemma_merged_len(list.drop_last(), samples);
    }
}

/// The cascade of list `i` has as many entries as the range has nodes.
pub proof fn lemma_cascade_len(lists: Seq<Seq<i64>>, i: int)
    ensures
        cascade(lists, i).len() == cascade_len(lists, i),
    decreases lists.len() - i,
{
    if 0 <= i < lists.len() {
        lemma_cascade_len(lists, i + 1);
        lemma_merged_len(lists[i], every_second(cascade(lists, i + 1)));
    }
}

/// From any list on, the nodes of the ranges, with the first of them counted
/// twice, are at most twice the elements plus one per list.
pub proof fn lemma_cascade_total_from(lists: Seq<Seq<i64>>, i: int)
    requires
        0 <= i <= lists.len(),
    ensures
        cascade_total(lists, i) + cascade_len(lists, i) <= 2 * total_len(lists, i) + (lists.len()
            - i),
    decreases lists.len() - i,
{
    if i < lists.len() {
        lemma_cascade_total_from(lists, i + 1);
    }
}

/// The index is linear in its input: it holds at most two nodes per element
/// and one more per list.
pub proof fn lemma_node_count_linear(lists: Seq<Seq<i64>>)
    ensures
        cascade_total(lists, 0) <= 2 * total_len(lists, 0) + lists.len(),
{
    lemma_cascade_total_from(lists, 0);
}

/// On the same lists and the same query the cascading search and the
/// baseline search give the same output.
pub proof fn lemma_searchers_agree(
    cascading: &FractionalCascadingMultiListSearcher,
    naive: &NaiveMultiListSearcher,
    x: i64,
    out_cascading: Seq<usize>,
    out_naive: Seq<usize>,
)
    requires
        cascading@ == naive@,
        answers(cascading@, x, out_cascading),
        answers(naive@, x, out_naive),
    ensures
        out_cascading == out_naive,
{
    lemma_answers_unique(cascading@, x, out_cascading, out_naive);
}

} // verus!
