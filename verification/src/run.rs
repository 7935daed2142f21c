//! Runs: what it means for nodes of a store to be linked in a row.
//!
//! A store is a sequence of nodes; a node is named by its position. A run is
//! a sequence of positions in which every node names the next one as its
//! successor and the one before as its predecessor. Lists, splices and
//! iterators are all described by the run they stand for.
use crate::link::NULL;
use crate::node::IntrusiveListNode;
use vstd::prelude::*;

verus! {

/// The node that `p` names.
pub open spec fn node_at<N>(nodes: Seq<N>, p: usize) -> N {
    nodes[p as int]
}

/// The value of the `next` word of node `p`.
pub open spec fn next_of<N: IntrusiveListNode>(nodes: Seq<N>, p: usize) -> usize {
    nodes[p as int].next_link()
}

/// The value of the `prev` word of node `p`.
pub open spec fn prev_of<N: IntrusiveListNode>(nodes: Seq<N>, p: usize) -> usize {
    nodes[p as int].prev_link()
}

/// `a` and `b` are neighbours: `a` names `b` as its successor and `b` names
/// `a` as its predecessor.
pub open spec fn linked<N: IntrusiveListNode>(nodes: Seq<N>, a: usize, b: usize) -> bool {
    next_of(nodes, a) == b && prev_of(nodes, b) == a
}

/// The node at position `k` of `run` and the one before it are neighbours.
pub open spec fn linked_at<N: IntrusiveListNode>(nodes: Seq<N>, run: Seq<usize>, k: int) -> bool {
    linked(nodes, run[k - 1], run[k])
}

/// `p` names a node of the store.
pub open spec fn in_store<N>(nodes: Seq<N>, p: usize) -> bool {
    p < nodes.len() && p != NULL
}

/// `run` is a row of distinct nodes of the store, each linked to the next.
/// Nothing is said of the `prev` word of its first node or of the `next` word
/// of its last.
pub open spec fn is_run<N: IntrusiveListNode>(nodes: Seq<N>, run: Seq<usize>) -> bool {
    &&& run.no_duplicates()
    &&& forall|k: int| 0 <= k < run.len() ==> in_store(nodes, #[trigger] run[k])
    &&& forall|k: int| 0 < k < run.len() ==> #[trigger] linked_at(nodes, run, k)
}

/// `first` and `last` name the two ends of `run`: both are [`NULL`] when the
/// run is empty, and neither is when it is not.
pub open spec fn spans(run: Seq<usize>, first: usize, last: usize) -> bool {
    if run.len() == 0 {
        first == NULL && last == NULL
    } else {
        first == run[0] && last == run.last() && first != NULL && last != NULL
    }
}

/// The run ends on both sides: its first node has no predecessor and its last
/// node no successor.
pub open spec fn ends_closed<N: IntrusiveListNode>(nodes: Seq<N>, run: Seq<usize>) -> bool {
    run.len() > 0 ==> prev_of(nodes, run[0]) == NULL && next_of(nodes, run.last()) == NULL
}

/// The first node of `run`, as a set: empty for an empty run.
pub open spec fn front(run: Seq<usize>) -> Set<usize> {
    if run.len() > 0 {
        set![run[0]]
    } else {
        Set::empty()
    }
}

/// The last node of `run`, as a set: empty for an empty run.
pub open spec fn back(run: Seq<usize>) -> Set<usize> {
    if run.len() > 0 {
        set![run.last()]
    } else {
        Set::empty()
    }
}

/// The two runs share no node.
pub open spec fn disjoint(a: Seq<usize>, b: Seq<usize>) -> bool {
    forall|i: int, j: int| 0 <= i < a.len() && 0 <= j < b.len() ==> a[i] != b[j]
}

/// `run` without its positions `from` to `to`, both included.
pub open spec fn cut(run: Seq<usize>, from: int, to: int) -> Seq<usize> {
    run.subrange(0, from) + run.subrange(to + 1, run.len() as int)
}

/// The successor of `p` names `p` as its predecessor.
pub open spec fn successor_points_back<N: IntrusiveListNode>(nodes: Seq<N>, p: usize) -> bool {
    let after = next_of(nodes, p);
    after != NULL && after < nodes.len() && prev_of(nodes, after) == p
}

/// The predecessor of `p` names `p` as its successor.
pub open spec fn predecessor_points_back<N: IntrusiveListNode>(nodes: Seq<N>, p: usize) -> bool {
    let before = prev_of(nodes, p);
    before != NULL && before < nodes.len() && next_of(nodes, before) == p
}

/// The two stores hold the same nodes with the same payloads and the same
/// values in all link words.
pub open spec fn same_links<N: IntrusiveListNode>(before: Seq<N>, after: Seq<N>) -> bool {
    &&& after.len() == before.len()
    &&& forall|p: usize|
        in_store(before, p) ==> {
            &&& (#[trigger] after[p as int]).elem() == before[p as int].elem()
            &&& after[p as int].next_link() == before[p as int].next_link()
            &&& after[p as int].prev_link() == before[p as int].prev_link()
        }
}

/// How a store changed: it has the same nodes with the same payloads, and a
/// link word differs from before only if it is the `next` word of a node in
/// `next_written` or the `prev` word of a node in `prev_written`. A node in
/// neither set is the very node it was. [`NULL`] names no node, and it says
/// nothing that a set holds it.
pub open spec fn relinked<N: IntrusiveListNode>(
    before: Seq<N>,
    after: Seq<N>,
    next_written: Set<usize>,
    prev_written: Set<usize>,
) -> bool {
    &&& after.len() == before.len()
    &&& forall|p: usize|
        in_store(before, p) ==> {
            &&& (#[trigger] after[p as int]).elem() == before[p as int].elem()
            &&& !next_written.contains(p) ==> after[p as int].next_link() == before[p as int].next_link()
            &&& !prev_written.contains(p) ==> after[p as int].prev_link() == before[p as int].prev_link()
            &&& !next_written.contains(p) && !prev_written.contains(p) ==> after[p as int]
                == before[p as int]
        }
}

/// A change followed by a change is a change of the words that either wrote.
pub proof fn lemma_relinked_twice<N: IntrusiveListNode>(
    before: Seq<N>,
    between: Seq<N>,
    after: Seq<N>,
    next_first: Set<usize>,
    prev_first: Set<usize>,
    next_second: Set<usize>,
    prev_second: Set<usize>,
    next_written: Set<usize>,
    prev_written: Set<usize>,
)
    requires
        relinked(before, between, next_first, prev_first),
        relinked(between, after, next_second, prev_second),
        forall|p: usize|
            in_store(before, p) && (next_first.contains(p) || next_second.contains(p))
                ==> next_written.contains(p),
        forall|p: usize|
            in_store(before, p) && (prev_first.contains(p) || prev_second.contains(p))
                ==> prev_written.contains(p),
    ensures
        relinked(before, after, next_written, prev_written),
{
    assert forall|p: usize| in_store(before, p) implies {
        &&& (#[trigger] after[p as int]).elem() == before[p as int].elem()
        &&& !next_written.contains(p) ==> after[p as int].next_link() == before[p as int].next_link()
        &&& !prev_written.contains(p) ==> after[p as int].prev_link() == before[p as int].prev_link()
        &&& !next_written.contains(p) && !prev_written.contains(p) ==> after[p as int]
            == before[p as int]
    } by {
        let middle = between[p as int];
    }
}

/// Where every written word holds what it held before, all links are the
/// same.
pub proof fn lemma_relinked_same<N: IntrusiveListNode>(
    before: Seq<N>,
    after: Seq<N>,
    next_written: Set<usize>,
    prev_written: Set<usize>,
)
    requires
        relinked(before, after, next_written, prev_written),
        forall|p: usize|
            in_store(before, p) && next_written.contains(p) ==> next_of(after, p) == next_of(before, p),
        forall|p: usize|
            in_store(before, p) && prev_written.contains(p) ==> prev_of(after, p) == prev_of(before, p),
    ensures
        same_links(before, after),
{
    assert forall|p: usize| in_store(before, p) implies {
        &&& (#[trigger] after[p as int]).elem() == before[p as int].elem()
        &&& after[p as int].next_link() == before[p as int].next_link()
        &&& after[p as int].prev_link() == before[p as int].prev_link()
    } by {
        assert(next_of(after, p) == after[p as int].next_link());
        assert(prev_of(after, p) == after[p as int].prev_link());
    }
}

/// Runs and their closed ends depend on the links alone.
pub proof fn lemma_same_links_run<N: IntrusiveListNode>(before: Seq<N>, after: Seq<N>, run: Seq<usize>)
    requires
        same_links(before, after),
        is_run(before, run),
    ensures
        is_run(after, run),
        ends_closed(before, run) ==> ends_closed(after, run),
{
    assert forall|k: int| 0 < k < run.len() implies #[trigger] linked_at(after, run, k) by {
        assert(linked_at(before, run, k));
        assert(in_store(before, run[k - 1]));
        assert(after[run[k - 1] as int].next_link() == before[run[k - 1] as int].next_link());
        assert(after[run[k] as int].prev_link() == before[run[k] as int].prev_link());
    }
    if run.len() > 0 {
        assert(in_store(before, run[0]));
        assert(in_store(before, run[run.len() - 1]));
        assert(after[run[0] as int].prev_link() == before[run[0] as int].prev_link());
        assert(after[run.last() as int].next_link() == before[run.last() as int].next_link());
    }
}

/// A run stays a run when none of the words that link it was written.
pub proof fn lemma_run_kept<N: IntrusiveListNode>(
    before: Seq<N>,
    after: Seq<N>,
    next_written: Set<usize>,
    prev_written: Set<usize>,
    run: Seq<usize>,
)
    requires
        is_run(before, run),
        relinked(before, after, next_written, prev_written),
        forall|k: int| 0 <= k < run.len() - 1 ==> !next_written.contains(#[trigger] run[k]),
        forall|k: int| 0 < k < run.len() ==> !prev_written.contains(#[trigger] run[k]),
    ensures
        is_run(after, run),
{
    assert forall|k: int| 0 < k < run.len() implies #[trigger] linked_at(after, run, k) by {
        assert(linked_at(before, run, k));
        assert(in_store(before, run[k - 1]));
        assert(after[run[k - 1] as int].next_link() == before[run[k - 1] as int].next_link());
        assert(after[run[k] as int].prev_link() == before[run[k] as int].prev_link());
    }
}

/// A part of a run is a run.
pub proof fn lemma_run_part<N: IntrusiveListNode>(nodes: Seq<N>, run: Seq<usize>, from: int, to: int)
    requires
        is_run(nodes, run),
        0 <= from <= to <= run.len(),
    ensures
        is_run(nodes, run.subrange(from, to)),
{
    let part = run.subrange(from, to);
    assert forall|k: int| 0 < k < part.len() implies #[trigger] linked_at(nodes, part, k) by {
        assert(linked_at(nodes, run, from + k));
    }
    assert forall|k: int| 0 <= k < part.len() implies in_store(nodes, #[trigger] part[k]) by {
        assert(part[k] == run[from + k]);
    }
    assert forall|i: int, j: int| 0 <= i < part.len() && 0 <= j < part.len() && i != j implies part[i]
        != part[j] by {
        assert(part[i] == run[from + i]);
        assert(part[j] == run[from + j]);
    }
}

/// Two runs that share no node and whose ends are linked make one run.
pub proof fn lemma_run_joined<N: IntrusiveListNode>(nodes: Seq<N>, left: Seq<usize>, right: Seq<usize>)
    requires
        is_run(nodes, left),
        is_run(nodes, right),
        disjoint(left, right),
        left.len() > 0 && right.len() > 0 ==> linked(nodes, left.last(), right[0]),
    ensures
        is_run(nodes, left + right),
{
    let whole = left + right;
    assert forall|k: int| 0 <= k < whole.len() implies in_store(nodes, #[trigger] whole[k]) by {
        if k < left.len() {
            assert(whole[k] == left[k]);
        } else {
            assert(whole[k] == right[k - left.len()]);
        }
    }
    assert forall|k: int| 0 < k < whole.len() implies #[trigger] linked_at(nodes, whole, k) by {
        if k < left.len() {
            assert(linked_at(nodes, left, k));
        } else if k == left.len() {
            assert(whole[k] == right[0]);
            assert(whole[k - 1] == left.last());
        } else {
            assert(linked_at(nodes, right, k - left.len()));
        }
    }
    assert forall|i: int, j: int| 0 <= i < whole.len() && 0 <= j < whole.len() && i != j implies whole[i]
        != whole[j] by {
        if i < left.len() {
            assert(whole[i] == left[i]);
        } else {
            assert(whole[i] == right[i - left.len()]);
        }
        if j < left.len() {
            assert(whole[j] == left[j]);
        } else {
            assert(whole[j] == right[j - left.len()]);
        }
    }
}

/// A store has at most one run between two given ends.
pub proof fn lemma_run_unique<N: IntrusiveListNode>(nodes: Seq<N>, a: Seq<usize>, b: Seq<usize>)
    requires
        is_run(nodes, a),
        is_run(nodes, b),
        a.len() > 0,
        b.len() > 0,
        a[0] == b[0],
        a.last() == b.last(),
    ensures
        a == b,
{
    lemma_run_common_prefix(nodes, a, b, if a.len() <= b.len() { a.len() - 1 } else { b.len() - 1 });
    if a.len() < b.len() {
        assert(b[a.len() - 1] == a.last());
        assert(b[a.len() - 1] == b[b.len() - 1]);
    } else if b.len() < a.len() {
        assert(a[b.len() - 1] == b.last());
        assert(a[b.len() - 1] == a[a.len() - 1]);
    }
    assert(a =~= b);
}

/// Two runs that start at the same node agree as far as both reach.
proof fn lemma_run_common_prefix<N: IntrusiveListNode>(nodes: Seq<N>, a: Seq<usize>, b: Seq<usize>, k: int)
    requires
        is_run(nodes, a),
        is_run(nodes, b),
        0 <= k < a.len(),
        k < b.len(),
        a[0] == b[0],
    ensures
        forall|i: int| 0 <= i <= k ==> a[i] == b[i],
    decreases k,
{
    if k > 0 {
        lemma_run_common_prefix(nodes, a, b, k - 1);
        assert(a[k - 1] == b[k - 1]);
        assert(linked_at(nodes, a, k));
        assert(linked_at(nodes, b, k));
    }
}

/// A run is no longer than the store, and its length is a `usize`.
pub proof fn lemma_run_len<N: IntrusiveListNode>(nodes: Seq<N>, run: Seq<usize>)
    requires
        is_run(nodes, run),
    ensures
        run.len() <= nodes.len(),
        run.len() <= usize::MAX,
{
    let bound = if nodes.len() <= usize::MAX {
        nodes.len()
    } else {
        usize::MAX as nat
    };
    let positions = Set::new(|p: usize| p < bound);
    lemma_positions_len(bound);
    run.unique_seq_to_set();
    assert(run.to_set().subset_of(positions)) by {
        assert forall|p: usize| run.to_set().contains(p) implies positions.contains(p) by {
            let k = choose|k: int| 0 <= k < run.len() && run[k] == p;
            assert(in_store(nodes, run[k]));
        }
    }
    vstd::set_lib::lemma_len_subset(run.to_set(), positions);
}

/// There are `bound` positions below `bound`.
proof fn lemma_positions_len(bound: nat)
    requires
        bound <= usize::MAX,
    ensures
        Set::new(|p: usize| p < bound).finite(),
        Set::new(|p: usize| p < bound).len() == bound,
    decreases bound,
{
    let below = Set::new(|p: usize| p < bound);
    if bound == 0 {
        assert(below =~= Set::<usize>::empty());
    } else {
        let fewer = Set::new(|p: usize| p < bound - 1);
        lemma_positions_len((bound - 1) as nat);
        assert(below =~= fewer.insert((bound - 1) as usize));
    }
}

/// In a run, a node stands at one position only.
pub proof fn lemma_index_of(run: Seq<usize>, k: int)
    requires
        run.no_duplicates(),
        0 <= k < run.len(),
    ensures
        run.contains(run[k]),
        run.index_of(run[k]) == k,
{
}

/// The nodes of `run` that are not in `gone`, in their order.
pub open spec fn kept(run: Seq<usize>, gone: Set<usize>) -> Seq<usize> {
    run.filter(|p: usize| !gone.contains(p))
}

/// What [`kept`] makes of a run that grew by one node.
pub proof fn lemma_kept_push(run: Seq<usize>, gone: Set<usize>, p: usize)
    ensures
        kept(run.push(p), gone) == if gone.contains(p) {
            kept(run, gone)
        } else {
            kept(run, gone).push(p)
        },
{
    reveal(Seq::filter);
    assert(run.push(p).drop_last() =~= run);
}

/// A node that is not in the run may join `gone` without effect.
pub proof fn lemma_kept_gone_more(run: Seq<usize>, gone: Set<usize>, p: usize)
    requires
        !run.contains(p),
    ensures
        kept(run, gone.insert(p)) == kept(run, gone),
    decreases run.len(),
{
    reveal(Seq::filter);
    if run.len() > 0 {
        let rest = run.drop_last();
        assert(run =~= rest.push(run.last()));
        assert(run[run.len() - 1] == run.last());
        assert forall|q: usize| rest.contains(q) implies run.contains(q) by {
            let k = choose|k: int| 0 <= k < rest.len() && rest[k] == q;
            assert(run[k] == q);
        }
        lemma_kept_gone_more(rest, gone, p);
    }
}

/// [`kept`] holds exactly the nodes of the run that are not in `gone`, and
/// nothing is kept of a run that is all in `gone`.
pub proof fn lemma_kept_holds(run: Seq<usize>, gone: Set<usize>)
    ensures
        forall|p: usize| #[trigger] kept(run, gone).contains(p) <==> run.contains(p) && !gone.contains(p),
        kept(run, gone).len() <= run.len(),
        (forall|k: int| 0 <= k < run.len() ==> gone.contains(#[trigger] run[k])) ==> kept(run, gone)
            == Seq::<usize>::empty(),
    decreases run.len(),
{
    reveal(Seq::filter);
    if run.len() > 0 {
        let rest = run.drop_last();
        let last = run.last();
        lemma_kept_holds(rest, gone);
        assert(run =~= rest.push(last));
        lemma_kept_push(rest, gone, last);
        assert forall|p: usize| #[trigger] kept(run, gone).contains(p) <==> run.contains(p)
            && !gone.contains(p) by {
            if kept(run, gone).contains(p) {
                let k = choose|k: int| 0 <= k < kept(run, gone).len() && kept(run, gone)[k] == p;
                if k < kept(rest, gone).len() {
                    assert(kept(rest, gone)[k] == p);
                    assert(kept(rest, gone).contains(p));
                    let m = choose|m: int| 0 <= m < rest.len() && rest[m] == p;
                    assert(run[m] == p);
                } else {
                    assert(p == last);
                    assert(run[run.len() - 1] == p);
                }
            }
            if run.contains(p) && !gone.contains(p) {
                let k = choose|k: int| 0 <= k < run.len() && run[k] == p;
                if k < rest.len() {
                    assert(rest[k] == p);
                    assert(kept(rest, gone).contains(p));
                    let m = choose|m: int| 0 <= m < kept(rest, gone).len() && kept(rest, gone)[m] == p;
                    assert(kept(run, gone)[m] == p);
                } else {
                    assert(kept(run, gone)[kept(rest, gone).len() as int] == p);
                }
            }
        }
        if forall|k: int| 0 <= k < run.len() ==> gone.contains(#[trigger] run[k]) {
            assert forall|k: int| 0 <= k < rest.len() implies gone.contains(#[trigger] rest[k]) by {
                assert(rest[k] == run[k]);
            }
            assert(gone.contains(run[run.len() - 1]));
        }
    } else {
        assert(kept(run, gone) =~= Seq::<usize>::empty());
    }
}

/// Two tests that agree on the nodes of a run filter it alike.
pub proof fn lemma_filter_alike(run: Seq<usize>, one: spec_fn(usize) -> bool, other: spec_fn(usize) -> bool)
    requires
        forall|k: int| 0 <= k < run.len() ==> one(#[trigger] run[k]) == other(run[k]),
    ensures
        run.filter(one) == run.filter(other),
    decreases run.len(),
{
    reveal(Seq::filter);
    if run.len() > 0 {
        let rest = run.drop_last();
        assert forall|k: int| 0 <= k < rest.len() implies one(#[trigger] rest[k]) == other(rest[k]) by {
            assert(rest[k] == run[k]);
        }
        lemma_filter_alike(rest, one, other);
        assert(one(run[run.len() - 1]) == other(run[run.len() - 1]));
    }
}

/// Every node of a run passes a test or fails it.
pub proof fn lemma_filter_split(run: Seq<usize>, test: spec_fn(usize) -> bool)
    ensures
        run.filter(test).len() + run.filter(|p: usize| !test(p)).len() == run.len(),
    decreases run.len(),
{
    reveal(Seq::filter);
    if run.len() > 0 {
        lemma_filter_split(run.drop_last(), test);
    }
}

} // verus!
