//! Splices: detached runs that move between lists in one piece.
use crate::iter::Iter;
use crate::link::NULL;
use crate::node::IntrusiveListNode;
use crate::run::disjoint;
use crate::run::is_run;
use crate::run::lemma_run_joined;
use crate::run::lemma_run_kept;
use crate::run::lemma_run_unique;
use crate::run::next_of;
use crate::run::prev_of;
use crate::run::relinked;
use crate::run::spans;
use core::marker::PhantomData;
use vstd::prelude::*;
use vstd::std_specs::convert::FromSpecImpl;

verus! {

/// A detached run of linked nodes, held by its two ends. It owns no storage.
/// Its view is the run, from first to last.
pub struct Splice<N: IntrusiveListNode> {
    first_ptr: usize,
    last_ptr: usize,
    run: Ghost<Seq<usize>>,
    phantom: PhantomData<N>,
}

impl<N: IntrusiveListNode> Splice<N> {
    /// The nodes of the splice, first to last.
    pub closed spec fn view(&self) -> Seq<usize> {
        self.run@
    }

    /// The first node of the splice, or [`NULL`].
    pub closed spec fn first(&self) -> usize {
        self.first_ptr
    }

    /// The last node of the splice, or [`NULL`].
    pub closed spec fn last(&self) -> usize {
        self.last_ptr
    }

    /// The two ends held are the ends of the run.
    pub open spec fn anchored(&self) -> bool {
        spans(self@, self.first(), self.last())
    }

    /// The splice stands for a run of `nodes`.
    pub open spec fn wf(&self, nodes: Seq<N>) -> bool {
        self.anchored() && is_run(nodes, self@)
    }

    pub(crate) fn from_run(first: usize, last: usize, Ghost(run): Ghost<Seq<usize>>) -> (splice: Self)
        requires
            spans(run, first, last),
        ensures
            splice@ == run,
            splice.first() == first,
            splice.last() == last,
            splice.anchored(),
    {
        Splice { first_ptr: first, last_ptr: last, run: Ghost(run), phantom: PhantomData }
    }

    /// The splice that holds no node.
    pub fn new_empty() -> (splice: Self)
        ensures
            splice@ == Seq::<usize>::empty(),
            splice.anchored(),
    {
        Self::from_run(NULL, NULL, Ghost(Seq::empty()))
    }

    /// Wraps the run of `nodes` that leads from `first` to `last`. Nothing is
    /// read or checked: the caller shows that there is such a run, and must
    /// not hand it to a list or another splice as well.
    pub fn new_unchecked(nodes: &[N], first: usize, last: usize) -> (splice: Self)
        requires
            exists|run: Seq<usize>|
                is_run(nodes@, run) && run.len() > 0 && run[0] == first && run.last() == last,
        ensures
            splice.wf(nodes@),
            splice@.len() > 0,
            splice.first() == first,
            splice.last() == last,
            forall|run: Seq<usize>|
                is_run(nodes@, run) && run.len() > 0 && run[0] == first && run.last() == last
                    ==> splice@ == run,
    {
        let ghost chosen = choose|run: Seq<usize>|
            is_run(nodes@, run) && run.len() > 0 && run[0] == first && run.last() == last;
        proof {
            assert forall|run: Seq<usize>|
                is_run(nodes@, run) && run.len() > 0 && run[0] == first && run.last()
                    == last implies chosen == run by {
                lemma_run_unique(nodes@, chosen, run);
            }
        }
        Self::from_run(first, last, Ghost(chosen))
    }

    /// [`Splice::new_unchecked`] under its shorter name.
    pub fn new(nodes: &[N], first: usize, last: usize) -> (splice: Self)
        requires
            exists|run: Seq<usize>|
                is_run(nodes@, run) && run.len() > 0 && run[0] == first && run.last() == last,
        ensures
            splice.wf(nodes@),
            splice@.len() > 0,
            splice.first() == first,
            splice.last() == last,
            forall|run: Seq<usize>|
                is_run(nodes@, run) && run.len() > 0 && run[0] == first && run.last() == last
                    ==> splice@ == run,
    {
        Self::new_unchecked(nodes, first, last)
    }

    /// Whether the splice holds no node.
    pub fn is_empty(&self) -> (empty: bool)
        requires
            self.anchored(),
        ensures
            empty == (self@.len() == 0),
    {
        self.first_ptr == NULL && self.last_ptr == NULL
    }

    /// A splice stays what it is while none of the words that link its nodes
    /// is written.
    pub proof fn lemma_wf_kept(
        self,
        before: Seq<N>,
        after: Seq<N>,
        next_written: Set<usize>,
        prev_written: Set<usize>,
    )
        requires
            self.wf(before),
            relinked(before, after, next_written, prev_written),
            forall|k: int|
                0 <= k < self@.len() ==> !next_written.contains(#[trigger] self@[k])
                    && !prev_written.contains(self@[k]),
        ensures
            self.wf(after),
    {
        lemma_run_kept(before, after, next_written, prev_written, self@);
    }

    /// A cursor over the nodes of the splice, at both its ends.
    pub fn iter<'a>(&self, nodes: &'a [N]) -> (iter: Iter<'a, N>)
        requires
            self.wf(nodes@),
        ensures
            iter@ == self@,
            iter.nodes() == nodes@,
    {
        Iter::over(nodes, self.first_ptr, self.last_ptr, Ghost(self.run@))
    }

    /// A cursor over the nodes of the splice, which it uses up.
    pub fn into_iter<'a>(self, nodes: &'a [N]) -> (iter: Iter<'a, N>)
        requires
            self.wf(nodes@),
        ensures
            iter@ == self@,
            iter.nodes() == nodes@,
    {
        self.iter(nodes)
    }

    /// Attaches `node`, which is not in the splice, at the right end. The
    /// `prev` word of `node` is set to the old last node; its `next` word is
    /// left alone.
    pub fn push_back(&mut self, nodes: &mut [N], node: usize)
        requires
            old(self).wf(old(nodes)@),
            node < old(nodes)@.len(),
            !old(self)@.contains(node),
        ensures
            final(self)@ == old(self)@.push(node),
            final(self).wf(final(nodes)@),
            relinked(old(nodes)@, final(nodes)@, set![old(self).last()], set![node]),
            prev_of(final(nodes)@, node) == old(self).last(),
    {
        let ghost run = self.run@;
        let ghost before = nodes@;
        let last = self.last_ptr;
        proof {
            if run.len() > 0 {
                assert(run[run.len() - 1] == last);
            }
        }
        nodes[node].get_prev_ptr_mut().store_relaxed(last);
        if last == NULL {
            self.first_ptr = node;
        } else {
            nodes[last].get_next_ptr_mut().store_relaxed(node);
        }
        self.last_ptr = node;
        proof {
            lemma_run_kept(before, nodes@, set![last], set![node], run);
            lemma_run_joined(nodes@, run, seq![node]);
            assert(run + seq![node] =~= run.push(node));
        }
        self.run = Ghost(run.push(node));
    }

    /// Attaches `node`, which is not in the splice, at the left end. The
    /// `next` word of `node` is set to the old first node; its `prev` word is
    /// left alone.
    pub fn push_front(&mut self, nodes: &mut [N], node: usize)
        requires
            old(self).wf(old(nodes)@),
            node < old(nodes)@.len(),
            !old(self)@.contains(node),
        ensures
            final(self)@ == seq![node] + old(self)@,
            final(self).wf(final(nodes)@),
            relinked(old(nodes)@, final(nodes)@, set![node], set![old(self).first()]),
            next_of(final(nodes)@, node) == old(self).first(),
    {
        let ghost run = self.run@;
        let ghost before = nodes@;
        let first = self.first_ptr;
        nodes[node].get_next_ptr_mut().store_relaxed(first);
        if first == NULL {
            self.last_ptr = node;
        } else {
            nodes[first].get_prev_ptr_mut().store_relaxed(node);
        }
        self.first_ptr = node;
        proof {
            lemma_run_kept(before, nodes@, set![node], set![first], run);
            lemma_run_joined(nodes@, seq![node], run);
        }
        self.run = Ghost(seq![node] + run);
    }

    /// Attaches all of `other` at the right end, in one step. Where `other`
    /// holds a node, the `prev` word of its first node is set to the old last
    /// node of this splice.
    pub fn push_back_splice(&mut self, nodes: &mut [N], other: Splice<N>)
        requires
            old(self).wf(old(nodes)@),
            other.wf(old(nodes)@),
            disjoint(old(self)@, other@),
        ensures
            final(self)@ == old(self)@ + other@,
            final(self).wf(final(nodes)@),
            relinked(old(nodes)@, final(nodes)@, set![old(self).last()], set![other.first()]),
            other@.len() > 0 ==> prev_of(final(nodes)@, other.first()) == old(self).last(),
    {
        let ghost run = self.run@;
        let ghost before = nodes@;
        if other.first_ptr == NULL {
            assert(run + other@ =~= run);
            return ;
        }
        let last = self.last_ptr;
        proof {
            assert(other@[0] == other.first_ptr && other@[other@.len() - 1] == other.last_ptr);
            if run.len() > 0 {
                assert(run[run.len() - 1] == last);
            }
        }
        nodes[other.first_ptr].get_prev_ptr_mut().store_relaxed(last);
        if last == NULL {
            self.first_ptr = other.first_ptr;
        } else {
            nodes[last].get_next_ptr_mut().store_relaxed(other.first_ptr);
        }
        self.last_ptr = other.last_ptr;
        proof {
            lemma_run_kept(before, nodes@, set![last], set![other.first_ptr], run);
            lemma_run_kept(before, nodes@, set![last], set![other.first_ptr], other@);
            lemma_run_joined(nodes@, run, other@);
        }
        self.run = Ghost(run + other@);
    }

    /// Attaches all of `other` at the left end, in one step. Where `other`
    /// holds a node, the `next` word of its last node is set to the old first
    /// node of this splice.
    pub fn push_front_splice(&mut self, nodes: &mut [N], other: Splice<N>)
        requires
            old(self).wf(old(nodes)@),
            other.wf(old(nodes)@),
            disjoint(other@, old(self)@),
        ensures
            final(self)@ == other@ + old(self)@,
            final(self).wf(final(nodes)@),
            relinked(old(nodes)@, final(nodes)@, set![other.last()], set![old(self).first()]),
            other@.len() > 0 ==> next_of(final(nodes)@, other.last()) == old(self).first(),
    {
        let ghost run = self.run@;
        let ghost before = nodes@;
        if other.first_ptr == NULL {
            assert(other@ + run =~= run);
            return ;
        }
        let first = self.first_ptr;
        proof {
            assert(other@[0] == other.first_ptr && other@[other@.len() - 1] == other.last_ptr);
        }
        nodes[other.last_ptr].get_next_ptr_mut().store_relaxed(first);
        if first == NULL {
            self.last_ptr = other.last_ptr;
        } else {
            nodes[first].get_prev_ptr_mut().store_relaxed(other.last_ptr);
        }
        self.first_ptr = other.first_ptr;
        proof {
            lemma_run_kept(before, nodes@, set![other.last_ptr], set![first], run);
            lemma_run_kept(before, nodes@, set![other.last_ptr], set![first], other@);
            lemma_run_joined(nodes@, other@, run);
        }
        self.run = Ghost(other@ + run);
    }
}

impl<N: IntrusiveListNode> From<Splice<N>> for Option<(usize, usize)> {
    /// The two ends of the splice, or `None` for an empty one.
    fn from(splice: Splice<N>) -> (ends: Self) {
        if splice.first_ptr == NULL {
            None
        } else {
            Some((splice.first_ptr, splice.last_ptr))
        }
    }
}

impl<N: IntrusiveListNode> FromSpecImpl<Splice<N>> for Option<(usize, usize)> {
    open spec fn obeys_from_spec() -> bool {
        true
    }

    open spec fn from_spec(splice: Splice<N>) -> Self {
        if splice.first() == NULL {
            None
        } else {
            Some((splice.first(), splice.last()))
        }
    }
}

} // verus!
