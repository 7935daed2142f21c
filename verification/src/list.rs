//! The list: two anchors over a run of the caller's nodes.
use crate::iter::Iter;
use crate::link::assert_store_ptr;
use crate::link::assert_store_ptr_relaxed;
use crate::link::AtomicLink;
use crate::link::exchange_outcome;
use crate::link::NULL;
use crate::node::IntrusiveListNode;
use crate::run::back;
use crate::run::cut;
use crate::run::disjoint;
use crate::run::ends_closed;
use crate::run::front;
use crate::run::in_store;
use crate::run::is_run;
use crate::run::kept;
use crate::run::lemma_filter_alike;
use crate::run::lemma_filter_split;
use crate::run::lemma_index_of;
use crate::run::lemma_kept_gone_more;
use crate::run::lemma_kept_holds;
use crate::run::lemma_kept_push;
use crate::run::lemma_relinked_same;
use crate::run::lemma_relinked_twice;
use crate::run::lemma_run_joined;
use crate::run::lemma_run_kept;
use crate::run::lemma_run_len;
use crate::run::lemma_run_part;
use crate::run::lemma_same_links_run;
use crate::run::linked_at;
use crate::run::next_of;
use crate::run::node_at;
use crate::run::predecessor_points_back;
use crate::run::prev_of;
use crate::run::relinked;
use crate::run::same_links;
use crate::run::spans;
use crate::run::successor_points_back;
use crate::splice::Splice;
use core::marker::PhantomData;
use vstd::prelude::*;

verus! {

/// The anchor pair of an intrusive doubly-linked list. The nodes live in a
/// store that the caller owns and hands to every operation; the list names
/// them by position. Its view is the run of linked nodes, from first to last.
///
/// Operations that change links take the list and the store by exclusive
/// borrow; readers take both by shared borrow.
pub struct IntrusiveList<N: IntrusiveListNode> {
    first_ptr: AtomicLink,
    last_ptr: AtomicLink,
    run: Ghost<Seq<usize>>,
    phantom: PhantomData<N>,
}

impl<N: IntrusiveListNode> IntrusiveList<N> {
    /// The nodes of the list, first to last: what a walk from the left
    /// meets, in the order in which it meets it.
    pub closed spec fn view(&self) -> Seq<usize> {
        self.run@
    }

    /// The value of the `first` anchor.
    pub closed spec fn first(&self) -> usize {
        self.first_ptr@
    }

    /// The value of the `last` anchor.
    pub closed spec fn last(&self) -> usize {
        self.last_ptr@
    }

    /// The anchors name the two ends of the run: both are [`NULL`] or neither.
    pub open spec fn anchored(&self) -> bool {
        spans(self@, self.first(), self.last())
    }

    /// The list is a run of `nodes` between its anchors, closed at both ends.
    pub open spec fn wf(&self, nodes: Seq<N>) -> bool {
        &&& self.anchored()
        &&& is_run(nodes, self@)
        &&& ends_closed(nodes, self@)
    }

    /// The word that names the successor of `p`: the `next` word of node `p`,
    /// or the `first` anchor when `p` is [`NULL`].
    pub open spec fn successor_word(&self, nodes: Seq<N>, p: usize) -> usize {
        if p == NULL {
            self.first()
        } else {
            next_of(nodes, p)
        }
    }

    /// The word that names the predecessor of `p`: the `prev` word of node
    /// `p`, or the `last` anchor when `p` is [`NULL`].
    pub open spec fn predecessor_word(&self, nodes: Seq<N>, p: usize) -> usize {
        if p == NULL {
            self.last()
        } else {
            prev_of(nodes, p)
        }
    }

    /// The anchors of a list are both [`NULL`] or both name a node, and they
    /// are [`NULL`] exactly when the list holds no node.
    pub proof fn lemma_anchors(self)
        requires
            self.anchored(),
        ensures
            self.first() == NULL <==> self.last() == NULL,
            self.first() == NULL <==> self@.len() == 0,
    {
    }

    /// In a list, the node at position `k` of the run names the nodes beside
    /// it, and they name it: its predecessor is the node before it, or
    /// nothing at the left end; its successor is the node after it, or nothing
    /// at the right end; and the word that names the successor of its
    /// predecessor, like the word that names the predecessor of its successor,
    /// holds the node itself. At the ends that word is an anchor of the list.
    pub proof fn lemma_neighbours(self, nodes: Seq<N>, k: int)
        requires
            self.wf(nodes),
            0 <= k < self@.len(),
        ensures
            self@[k] < nodes.len(),
            self@[k] != NULL,
            prev_of(nodes, self@[k]) == if k == 0 {
                NULL
            } else {
                self@[k - 1]
            },
            next_of(nodes, self@[k]) == if k == self@.len() - 1 {
                NULL
            } else {
                self@[k + 1]
            },
            self.successor_word(nodes, prev_of(nodes, self@[k])) == self@[k],
            self.predecessor_word(nodes, next_of(nodes, self@[k])) == self@[k],
            k > 0 ==> self@[k - 1] != NULL && self@[k - 1] < nodes.len(),
            k < self@.len() - 1 ==> self@[k + 1] != NULL && self@[k + 1] < nodes.len(),
    {
        let run = self@;
        assert(run[0] != NULL && run.last() != NULL);
        if k > 0 {
            assert(linked_at(nodes, run, k));
            assert(in_store(nodes, run[k - 1]));
        }
        if k < run.len() - 1 {
            assert(linked_at(nodes, run, k + 1));
            assert(in_store(nodes, run[k + 1]));
        }
    }

    /// Every node of a list that is not at an end stands between two nodes
    /// that name it: the successor of its predecessor and the predecessor of
    /// its successor are the node itself.
    pub proof fn lemma_linked_both_ways(self, nodes: Seq<N>, k: int)
        requires
            self.wf(nodes),
            0 < k < self@.len() - 1,
        ensures
            next_of(nodes, prev_of(nodes, self@[k])) == self@[k],
            prev_of(nodes, next_of(nodes, self@[k])) == self@[k],
    {
        Self::lemma_neighbours(self, nodes, k);
    }

    /// The nodes of a list name only nodes of the list: no link word of a
    /// node of the list holds a node that is outside it.
    pub proof fn lemma_names_its_own(self, nodes: Seq<N>, k: int, outside: usize)
        requires
            self.wf(nodes),
            0 <= k < self@.len(),
            outside != NULL,
            !self@.contains(outside),
        ensures
            next_of(nodes, self@[k]) != outside,
            prev_of(nodes, self@[k]) != outside,
    {
        Self::lemma_neighbours(self, nodes, k);
    }

    /// A list stays what it is while none of its nodes is written: a change
    /// of the store that writes no word of a node of the list leaves the list
    /// well formed over the new store.
    pub proof fn lemma_wf_kept(
        self,
        before: Seq<N>,
        after: Seq<N>,
        next_written: Set<usize>,
        prev_written: Set<usize>,
    )
        requires
            self.wf(before),
            relinked(before, after, next_written, prev_written),
            forall|k: int|
                0 <= k < self@.len() ==> !next_written.contains(#[trigger] self@[k])
                    && !prev_written.contains(self@[k]),
        ensures
            self.wf(after),
    {
        let run = self@;
        lemma_run_kept(before, after, next_written, prev_written, run);
        if run.len() > 0 {
            assert(in_store(before, run[0]));
            assert(in_store(before, run[run.len() - 1]));
            assert(after[run[0] as int].prev_link() == before[run[0] as int].prev_link());
            assert(after[run.last() as int].next_link() == before[run.last() as int].next_link());
        }
    }

    /// An empty list.
    pub fn new() -> (list: Self)
        ensures
            list@ == Seq::<usize>::empty(),
            list.anchored(),
    {
        IntrusiveList {
            first_ptr: AtomicLink::new(),
            last_ptr: AtomicLink::new(),
            run: Ghost(Seq::empty()),
            phantom: PhantomData,
        }
    }

    /// Whether the list holds no node.
    pub fn is_empty(&self) -> (empty: bool)
        requires
            self.anchored(),
        ensures
            empty == (self@.len() == 0),
    {
        self.first_ptr.load() == NULL
    }

    /// A cursor over the nodes of the list, at both its ends.
    ///
    /// Both anchors are read, and read again as long as one is [`NULL`] and
    /// the other is not. With the list borrowed no push can be under way, so
    /// the first reading stands.
    pub fn iter<'a>(&self, nodes: &'a [N]) -> (iter: Iter<'a, N>)
        requires
            self.wf(nodes@),
        ensures
            iter@ == self@,
            iter.nodes() == nodes@,
    {
        let mut first = self.first_ptr.load();
        let mut last = self.last_ptr.load();
        while (first == NULL) != (last == NULL)
            invariant
                first == self.first(),
                last == self.last(),
                self.anchored(),
            decreases 0int,
        {
            first = self.first_ptr.load();
            last = self.last_ptr.load();
        }
        Iter::over(nodes, first, last, Ghost(self@))
    }

    /// A cursor over the nodes of the list, which it uses up.
    pub fn into_iter<'a>(self, nodes: &'a [N]) -> (iter: Iter<'a, N>)
        requires
            self.wf(nodes@),
        ensures
            iter@ == self@,
            iter.nodes() == nodes@,
    {
        self.iter(nodes)
    }

    /// Appends `node`, which is not in the list, at the right end.
    ///
    /// The place is reserved by an exchange on the word that names the
    /// successor of the last node, and the `last` anchor is moved after that.
    /// With the list borrowed exclusively nothing can come between the read of
    /// the anchor and the exchange, so the first attempt wins.
    pub fn push_back(&mut self, nodes: &mut [N], node: usize)
        requires
            old(self).wf(old(nodes)@),
            node < old(nodes)@.len(),
            !old(self)@.contains(node),
        ensures
            final(self)@ == old(self)@.push(node),
            final(self)@.last() == node,
            final(self).wf(final(nodes)@),
            relinked(old(nodes)@, final(nodes)@, set![node, old(self).last()], set![node]),
    {
        let ghost run = self@;
        let ghost before = nodes@;
        nodes[node].get_next_ptr_mut().store(NULL);

        let mut linked = false;
        while !linked
            invariant
                node < nodes@.len(),
                !run.contains(node),
                run == old(self)@,
                before == old(nodes)@,
                old(self).wf(before),
                !linked ==> {
                    &&& self@ == run
                    &&& self.first() == old(self).first()
                    &&& self.last() == old(self).last()
                    &&& relinked(before, nodes@, set![node], set![node])
                    &&& next_of(nodes@, node) == NULL
                },
                linked ==> {
                    &&& self@ == run.push(node)
                    &&& self.wf(nodes@)
                    &&& relinked(before, nodes@, set![node, old(self).last()], set![node])
                },
            decreases
                    if linked {
                        0int
                    } else {
                        1int
                    },
        {
            let last = self.last_ptr.load();
            proof {
                if run.len() > 0 {
                    Self::lemma_neighbours(*old(self), before, run.len() - 1);
                }
            }
            nodes[node].get_prev_ptr_mut().store(last);
            if self.exchange_successor(nodes, last, NULL, node).is_ok() {
                assert_store_ptr(&mut self.last_ptr, last, node);
                proof {
                    lemma_run_kept(before, nodes@, set![node, last], set![node], run);
                    lemma_run_joined(nodes@, run, seq![node]);
                    assert(run + seq![node] =~= run.push(node));
                }
                self.run = Ghost(run.push(node));
                linked = true;
            }
        }
    }

    /// Prepends `node`, which is not in the list, at the left end.
    ///
    /// The place is reserved by an exchange on the `first` anchor of an empty
    /// list, or on the word that names the predecessor of the first node; the
    /// other anchor, or `first`, is moved after that.
    pub fn push_front(&mut self, nodes: &mut [N], node: usize)
        requires
            old(self).wf(old(nodes)@),
            node < old(nodes)@.len(),
            !old(self)@.contains(node),
        ensures
            final(self)@ == seq![node] + old(self)@,
            final(self)@.first() == node,
            final(self).wf(final(nodes)@),
            relinked(old(nodes)@, final(nodes)@, set![node], set![node, old(self).first()]),
    {
        let ghost run = self@;
        let ghost before = nodes@;
        nodes[node].get_prev_ptr_mut().store(NULL);

        let mut linked = false;
        while !linked
            invariant
                node < nodes@.len(),
                !run.contains(node),
                run == old(self)@,
                before == old(nodes)@,
                old(self).wf(before),
                !linked ==> {
                    &&& self@ == run
                    &&& self.first() == old(self).first()
                    &&& self.last() == old(self).last()
                    &&& relinked(before, nodes@, set![node], set![node])
                    &&& prev_of(nodes@, node) == NULL
                },
                linked ==> {
                    &&& self@ == seq![node] + run
                    &&& self.wf(nodes@)
                    &&& relinked(before, nodes@, set![node], set![node, old(self).first()])
                },
            decreases
                    if linked {
                        0int
                    } else {
                        1int
                    },
        {
            let first = self.first_ptr.load();
            proof {
                if run.len() > 0 {
                    Self::lemma_neighbours(*old(self), before, 0);
                }
            }
            nodes[node].get_next_ptr_mut().store(first);
            let reserved = if first == NULL {
                self.first_ptr.compare_exchange(NULL, node)
            } else {
                nodes[first].get_prev_ptr_mut().compare_exchange(NULL, node)
            };
            if reserved.is_ok() {
                if first == NULL {
                    assert_store_ptr(&mut self.last_ptr, NULL, node);
                } else {
                    assert_store_ptr(&mut self.first_ptr, first, node);
                }
                proof {
                    lemma_run_kept(before, nodes@, set![node], set![node, first], run);
                    lemma_run_joined(nodes@, seq![node], run);
                }
                self.run = Ghost(seq![node] + run);
                linked = true;
            }
        }
    }

    /// Appends all nodes of `splice`, which shares none with the list, at the
    /// right end, in their order. An empty splice changes nothing.
    ///
    /// Only the two links at the seam are formed; the place is reserved and
    /// the `last` anchor moved as in [`IntrusiveList::push_back`].
    pub fn push_back_splice(&mut self, nodes: &mut [N], splice: Splice<N>)
        requires
            old(self).wf(old(nodes)@),
            splice.wf(old(nodes)@),
            disjoint(old(self)@, splice@),
        ensures
            final(self)@ == old(self)@ + splice@,
            final(self).wf(final(nodes)@),
            relinked(
                old(nodes)@,
                final(nodes)@,
                set![splice.last(), old(self).last()],
                set![splice.first()],
            ),
    {
        let ghost run = self@;
        let ghost added = splice@;
        let ghost before = nodes@;
        let ends: Option<(usize, usize)> = Option::from(splice);
        let (first_node, last_node) = match ends {
            Some(ends) => ends,
            None => {
                assert(run + added =~= run);
                return ;
            },
        };
        assert(added[0] == first_node && added[added.len() - 1] == last_node);
        nodes[last_node].get_next_ptr_mut().store(NULL);

        let mut linked = false;
        while !linked
            invariant
                in_store(nodes@, first_node),
                in_store(nodes@, last_node),
                run == old(self)@,
                before == old(nodes)@,
                old(self).wf(before),
                is_run(before, added),
                added.len() > 0,
                added[0] == first_node,
                added.last() == last_node,
                disjoint(run, added),
                !linked ==> {
                    &&& self@ == run
                    &&& self.first() == old(self).first()
                    &&& self.last() == old(self).last()
                    &&& relinked(before, nodes@, set![last_node], set![first_node])
                    &&& next_of(nodes@, last_node) == NULL
                },
                linked ==> {
                    &&& self@ == run + added
                    &&& self.wf(nodes@)
                    &&& relinked(
                        before,
                        nodes@,
                        set![last_node, old(self).last()],
                        set![first_node],
                    )
                },
            decreases
                    if linked {
                        0int
                    } else {
                        1int
                    },
        {
            let last = self.last_ptr.load();
            proof {
                if run.len() > 0 {
                    Self::lemma_neighbours(*old(self), before, run.len() - 1);
                }
            }
            nodes[first_node].get_prev_ptr_mut().store(last);
            if self.exchange_successor(nodes, last, NULL, first_node).is_ok() {
                assert_store_ptr(&mut self.last_ptr, last, last_node);
                proof {
                    lemma_run_kept(before, nodes@, set![last_node, last], set![first_node], run);
                    lemma_run_kept(before, nodes@, set![last_node, last], set![first_node], added);
                    lemma_run_joined(nodes@, run, added);
                }
                self.run = Ghost(run + added);
                linked = true;
            }
        }
    }

    /// Prepends all nodes of `splice`, which shares none with the list, at
    /// the left end, in their order. An empty splice changes nothing.
    ///
    /// Only the two links at the seam are formed; the place is reserved and
    /// the anchor moved as in [`IntrusiveList::push_front`].
    pub fn push_front_splice(&mut self, nodes: &mut [N], splice: Splice<N>)
        requires
            old(self).wf(old(nodes)@),
            splice.wf(old(nodes)@),
            disjoint(splice@, old(self)@),
        ensures
            final(self)@ == splice@ + old(self)@,
            final(self).wf(final(nodes)@),
            relinked(
                old(nodes)@,
                final(nodes)@,
                set![splice.last()],
                set![splice.first(), old(self).first()],
            ),
    {
        let ghost run = self@;
        let ghost added = splice@;
        let ghost before = nodes@;
        let ends: Option<(usize, usize)> = Option::from(splice);
        let (first_node, last_node) = match ends {
            Some(ends) => ends,
            None => {
                assert(added + run =~= run);
                return ;
            },
        };
        assert(added[0] == first_node && added[added.len() - 1] == last_node);
        nodes[first_node].get_prev_ptr_mut().store(NULL);

        let mut linked = false;
        while !linked
            invariant
                in_store(nodes@, first_node),
                in_store(nodes@, last_node),
                run == old(self)@,
                before == old(nodes)@,
                old(self).wf(before),
                is_run(before, added),
                added.len() > 0,
                added[0] == first_node,
                added.last() == last_node,
                disjoint(added, run),
                !linked ==> {
                    &&& self@ == run
                    &&& self.first() == old(self).first()
                    &&& self.last() == old(self).last()
                    &&& relinked(before, nodes@, set![last_node], set![first_node])
                    &&& prev_of(nodes@, first_node) == NULL
                },
                linked ==> {
                    &&& self@ == added + run
                    &&& self.wf(nodes@)
                    &&& relinked(
                        before,
                        nodes@,
                        set![last_node],
                        set![first_node, old(self).first()],
                    )
                },
            decreases
                    if linked {
                        0int
                    } else {
                        1int
                    },
        {
            let first = self.first_ptr.load();
            proof {
                if run.len() > 0 {
                    Self::lemma_neighbours(*old(self), before, 0);
                }
            }
            nodes[last_node].get_next_ptr_mut().store(first);
            let reserved = if first == NULL {
                self.first_ptr.compare_exchange(NULL, first_node)
            } else {
                nodes[first].get_prev_ptr_mut().compare_exchange(NULL, last_node)
            };
            if reserved.is_ok() {
                if first == NULL {
                    assert_store_ptr(&mut self.last_ptr, NULL, last_node);
                } else {
                    assert_store_ptr(&mut self.first_ptr, first, first_node);
                }
                proof {
                    lemma_run_kept(before, nodes@, set![last_node], set![first_node, first], run);
                    lemma_run_kept(before, nodes@, set![last_node], set![first_node, first], added);
                    lemma_run_joined(nodes@, added, run);
                }
                self.run = Ghost(added + run);
                linked = true;
            }
        }
    }

    /// Moves the nodes from `first` to `last`, both included, out of the list
    /// and returns them as a splice; returns `None`, and leaves everything as
    /// it was, unless both are in the list.
    ///
    /// `first` must not stand to the right of `last`. A node outside this list
    /// must really be outside: its neighbours may not name it, as they would
    /// if it were linked in another list or splice, or had left a list in one
    /// run with them.
    pub fn splice(&mut self, nodes: &mut [N], first: usize, last: usize) -> (out: Option<Splice<N>>)
        requires
            old(self).wf(old(nodes)@),
            first < old(nodes)@.len(),
            last < old(nodes)@.len(),
            successor_points_back(old(nodes)@, last) ==> old(self)@.contains(last),
            old(self)@.contains(last) && predecessor_points_back(old(nodes)@, first) ==> old(self)@.contains(
                first,
            ),
            old(self)@.contains(first) && old(self)@.contains(last) ==> old(self)@.index_of(first) <= old(
                self,
            )@.index_of(last),
        ensures
            out.is_some() <==> old(self)@.contains(first) && old(self)@.contains(last),
            final(self).wf(final(nodes)@),
            out.is_some() ==> out.unwrap()@ == old(self)@.subrange(
                old(self)@.index_of(first),
                old(self)@.index_of(last) + 1,
            ),
            out.is_some() ==> out.unwrap().wf(final(nodes)@),
            out.is_some() ==> final(self)@ == cut(
                old(self)@,
                old(self)@.index_of(first),
                old(self)@.index_of(last),
            ),
            relinked(
                old(nodes)@,
                final(nodes)@,
                set![prev_of(old(nodes)@, first)],
                set![next_of(old(nodes)@, last)],
            ),
            out.is_none() ==> final(self)@ == old(self)@,
            out.is_none() ==> same_links(old(nodes)@, final(nodes)@),
    {
        let ghost run = self@;
        let ghost before = nodes@;
        match self.splice_impl(nodes, first, last) {
            Some(_) => {
                let ghost i = run.index_of(first);
                let ghost j = run.index_of(last);
                let ghost part = run.subrange(i, j + 1);
                proof {
                    Self::lemma_neighbours(*old(self), before, i);
                    Self::lemma_neighbours(*old(self), before, j);
                    lemma_run_part(before, run, i, j + 1);
                    lemma_run_kept(
                        before,
                        nodes@,
                        set![prev_of(before, first)],
                        set![next_of(before, last)],
                        part,
                    );
                    assert(part[0] == first && part.last() == last);
                }
                Some(Splice::from_run(first, last, Ghost(part)))
            },
            None => None,
        }
    }

    /// Takes `node` out of the list. Returns whether it was in the list; if
    /// it was not, everything is as it was.
    ///
    /// A node outside this list must really be outside: its successor may not
    /// name it, as it would if the node were linked in another list or splice,
    /// or had left a list in one run with its successor.
    pub fn remove_node(&mut self, nodes: &mut [N], node: usize) -> (removed: bool)
        requires
            old(self).wf(old(nodes)@),
            node < old(nodes)@.len(),
            successor_points_back(old(nodes)@, node) ==> old(self)@.contains(node),
        ensures
            removed == old(self)@.contains(node),
            final(self).wf(final(nodes)@),
            removed ==> final(self)@ == old(self)@.remove(old(self)@.index_of(node)),
            relinked(
                old(nodes)@,
                final(nodes)@,
                set![prev_of(old(nodes)@, node)],
                set![next_of(old(nodes)@, node)],
            ),
            !removed ==> final(self)@ == old(self)@,
            !removed ==> same_links(old(nodes)@, final(nodes)@),
    {
        self.splice_impl(nodes, node, node).is_some()
    }

    /// Walks the list from left to right, asks `f` once of every node, and
    /// takes out the nodes for which it returns `true`. Neighbouring nodes
    /// that go are detached together, as one run. Returns the number of nodes
    /// kept and the number removed.
    ///
    /// `f` sees every node as it was when the walk began: a link of a node is
    /// written only after `f` has let that node stay. The nodes that go keep
    /// their links, so those of one run still name each other.
    pub fn remove_if<F: FnMut(&N) -> bool>(&mut self, nodes: &mut [N], mut f: F) -> (counts: (
        usize,
        usize,
    ))
        requires
            old(self).wf(old(nodes)@),
            forall|k: int|
                0 <= k < old(self)@.len() ==> call_requires(
                    f,
                    (&node_at(old(nodes)@, #[trigger] old(self)@[k]),),
                ),
        ensures
            final(self).wf(final(nodes)@),
            forall|k: int|
                0 <= k < old(self)@.len() ==> call_ensures(
                    f,
                    (&node_at(old(nodes)@, #[trigger] old(self)@[k]),),
                    !final(self)@.contains(old(self)@[k]),
                ),
            final(self)@ == old(self)@.filter(|p: usize| final(self)@.contains(p)),
            counts.0 == final(self)@.len(),
            counts.1 == old(self)@.filter(|p: usize| !final(self)@.contains(p)).len(),
            counts.0 + counts.1 == old(self)@.len(),
            relinked(old(nodes)@, final(nodes)@, final(self)@.to_set(), final(self)@.to_set()),
    {
        let ghost run = self@;
        let ghost before = nodes@;
        let ghost asked = f;
        let ghost mut head: Seq<usize> = Seq::empty();
        let ghost mut gone: Set<usize> = Set::empty();
        let ghost mut k: int = 0;
        let ghost mut b: int = 0;
        let mut kept_count: usize = 0;
        let mut removed_count: usize = 0;
        let mut it = self.first_ptr.load_relaxed();
        let mut prev = NULL;
        let mut beg = NULL;
        proof {
            lemma_run_len(before, run);
            assert(run.subrange(0, 0) =~= Seq::<usize>::empty());
            lemma_kept_holds(run.subrange(0, 0), gone);
            assert(head + run.subrange(0, run.len() as int) =~= run);
        }

        while it != NULL
            invariant
                run == old(self)@,
                before == old(nodes)@,
                f == asked,
                is_run(before, run),
                before.len() == nodes@.len(),
                run.len() <= usize::MAX,
                0 <= b <= k <= run.len(),
                it == if k < run.len() {
                    run[k]
                } else {
                    NULL
                },
                b < k ==> prev == run[k - 1] && beg == run[b],
                b == k ==> beg == NULL,
                forall|m: int| k <= m < run.len() ==> !gone.contains(#[trigger] run[m]),
                forall|m: int|
                    0 <= m < k ==> call_ensures(
                        f,
                        (&node_at(before, #[trigger] run[m]),),
                        gone.contains(run[m]),
                    ),
                forall|m: int|
                    0 <= m < run.len() ==> call_requires(f, (&node_at(before, #[trigger] run[m]),)),
                head == kept(run.subrange(0, k), gone),
                self@ == head + run.subrange(b, run.len() as int),
                self.wf(nodes@),
                relinked(before, nodes@, head.to_set(), head.to_set()),
                kept_count == head.len(),
                kept_count + removed_count == k,
            decreases run.len() - k,
        {
            let ghost x = run[k];
            proof {
                Self::lemma_sweep_here(*self, before, nodes@, run, head, gone, b, k);
            }
            let remove = f(&nodes[it]);
            let following = nodes[it].get_next_ptr().load_relaxed();
            if remove {
                if beg == NULL {
                    beg = it;
                }
                removed_count = removed_count + 1;
                proof {
                    lemma_kept_gone_more(run.subrange(0, k), gone, x);
                    gone = gone.insert(x);
                    assert(run.subrange(0, k + 1) =~= run.subrange(0, k).push(x));
                    lemma_kept_push(run.subrange(0, k), gone, x);
                }
            } else {
                let ghost kept_before = head;
                let ghost mid = nodes@;
                proof {
                    assert(run.subrange(0, k + 1) =~= run.subrange(0, k).push(x));
                    lemma_kept_push(run.subrange(0, k), gone, x);
                    head = head.push(x);
                    assert(self@ =~= kept_before + run.subrange(b, k) + run.subrange(k, run.len() as int));
                    assert(head + run.subrange(k + 1, run.len() as int) =~= kept_before + run.subrange(
                        k,
                        run.len() as int,
                    ));
                    assert(run.subrange(k, run.len() as int)[0] == x);
                    assert(head[kept_before.len() as int] == x);
                    assert forall|p: usize| kept_before.contains(p) implies head.contains(p) by {
                        let m = choose|m: int| 0 <= m < kept_before.len() && kept_before[m] == p;
                        assert(head[m] == p);
                    }
                }
                if beg != NULL {
                    self.detach(
                        nodes,
                        beg,
                        prev,
                        Ghost(kept_before),
                        Ghost(run.subrange(b, k)),
                        Ghost(run.subrange(k, run.len() as int)),
                    );
                    beg = NULL;
                }
                kept_count = kept_count + 1;
                proof {
                    lemma_relinked_twice(
                        before,
                        mid,
                        nodes@,
                        kept_before.to_set(),
                        kept_before.to_set(),
                        back(kept_before),
                        set![x],
                        head.to_set(),
                        head.to_set(),
                    );
                    b = k + 1;
                }
            }
            prev = it;
            it = following;
            proof {
                k = k + 1;
            }
        }

        if beg != NULL {
            let ghost mid = nodes@;
            proof {
                assert(run.subrange(k, run.len() as int) =~= Seq::<usize>::empty());
                assert(self@ =~= head + run.subrange(b, k) + Seq::<usize>::empty());
            }
            self.detach(nodes, beg, prev, Ghost(head), Ghost(run.subrange(b, k)), Ghost(Seq::empty()));
            proof {
                lemma_relinked_twice(
                    before,
                    mid,
                    nodes@,
                    head.to_set(),
                    head.to_set(),
                    back(head),
                    Set::empty(),
                    head.to_set(),
                    head.to_set(),
                );
            }
        }
        proof {
            assert(run.subrange(0, k) =~= run);
            assert(self@ =~= head);
            lemma_kept_holds(run, gone);
            let stays = |p: usize| self@.contains(p);
            lemma_filter_alike(run, |p: usize| !gone.contains(p), stays);
            lemma_filter_split(run, stays);
            lemma_filter_alike(run, |p: usize| !stays(p), |p: usize| !self@.contains(p));
            assert forall|m: int| 0 <= m < run.len() implies call_ensures(
                f,
                (&node_at(before, #[trigger] run[m]),),
                !self@.contains(run[m]),
            ) by {
                assert(gone.contains(run[m]) == !self@.contains(run[m]));
            }
        }
        (kept_count, removed_count)
    }

    /// Forgets all nodes: both anchors are set to [`NULL`]. The nodes are not
    /// touched and keep the links they had.
    pub fn clear(&mut self)
        ensures
            final(self)@ == Seq::<usize>::empty(),
            final(self).anchored(),
    {
        self.first_ptr.store_relaxed(NULL);
        self.last_ptr.store_relaxed(NULL);
        self.run = Ghost(Seq::empty());
    }

    /// Compare-and-swap on the successor word of `p`.
    fn exchange_successor(&mut self, nodes: &mut [N], p: usize, current: usize, new: usize) -> (found:
        Result<usize, usize>)
        requires
            p == NULL || p < old(nodes)@.len(),
        ensures
            found == exchange_outcome(old(self).successor_word(old(nodes)@, p), current),
            final(self).successor_word(final(nodes)@, p) == if found.is_ok() {
                new
            } else {
                old(self).successor_word(old(nodes)@, p)
            },
            final(self)@ == old(self)@,
            final(self).last() == old(self).last(),
            p != NULL ==> final(self).first() == old(self).first(),
            relinked(old(nodes)@, final(nodes)@, set![p], Set::empty()),
    {
        if p == NULL {
            self.first_ptr.compare_exchange(current, new)
        } else {
            nodes[p].get_next_ptr_mut().compare_exchange(current, new)
        }
    }

    /// Compare-and-swap on the predecessor word of `p`.
    fn exchange_predecessor(&mut self, nodes: &mut [N], p: usize, current: usize, new: usize) -> (found:
        Result<usize, usize>)
        requires
            p == NULL || p < old(nodes)@.len(),
        ensures
            found == exchange_outcome(old(self).predecessor_word(old(nodes)@, p), current),
            final(self).predecessor_word(final(nodes)@, p) == if found.is_ok() {
                new
            } else {
                old(self).predecessor_word(old(nodes)@, p)
            },
            final(self)@ == old(self)@,
            final(self).first() == old(self).first(),
            p != NULL ==> final(self).last() == old(self).last(),
            relinked(old(nodes)@, final(nodes)@, Set::empty(), set![p]),
    {
        if p == NULL {
            self.last_ptr.compare_exchange(current, new)
        } else {
            nodes[p].get_prev_ptr_mut().compare_exchange(current, new)
        }
    }

    /// The committing write on the successor word of `p`, which holds
    /// `expected`.
    fn commit_successor(&mut self, nodes: &mut [N], p: usize, expected: usize, new: usize)
        requires
            p == NULL || p < old(nodes)@.len(),
            old(self).successor_word(old(nodes)@, p) == expected,
        ensures
            final(self).successor_word(final(nodes)@, p) == new,
            final(self)@ == old(self)@,
            final(self).last() == old(self).last(),
            p != NULL ==> final(self).first() == old(self).first(),
            relinked(old(nodes)@, final(nodes)@, set![p], Set::empty()),
    {
        if p == NULL {
            assert_store_ptr_relaxed(&mut self.first_ptr, expected, new)
        } else {
            assert_store_ptr_relaxed(nodes[p].get_next_ptr_mut(), expected, new)
        }
    }

    /// The committing write on the predecessor word of `p`, which holds
    /// `expected`.
    fn commit_predecessor(&mut self, nodes: &mut [N], p: usize, expected: usize, new: usize)
        requires
            p == NULL || p < old(nodes)@.len(),
            old(self).predecessor_word(old(nodes)@, p) == expected,
        ensures
            final(self).predecessor_word(final(nodes)@, p) == new,
            final(self)@ == old(self)@,
            final(self).first() == old(self).first(),
            p != NULL ==> final(self).last() == old(self).last(),
            relinked(old(nodes)@, final(nodes)@, Set::empty(), set![p]),
    {
        if p == NULL {
            assert_store_ptr_relaxed(&mut self.last_ptr, expected, new)
        } else {
            assert_store_ptr_relaxed(nodes[p].get_prev_ptr_mut(), expected, new)
        }
    }

    /// Detaches the run that leads from `first` to `last`. Returns `Some` if
    /// both are in the list, and then the list is closed over the gap; returns
    /// `None` otherwise, and then the list and every link are as before.
    ///
    /// The right side is reserved first, by an exchange on the word that names
    /// the predecessor of what follows `last`; the left side follows, and
    /// where its exchange fails the right side is put back.
    ///
    /// A node outside this list must really be outside: its neighbours may not
    /// name it, as they would if it were linked in another list or splice.
    fn splice_impl(&mut self, nodes: &mut [N], first: usize, last: usize) -> (done: Option<()>)
        requires
            old(self).wf(old(nodes)@),
            first < old(nodes)@.len(),
            last < old(nodes)@.len(),
            successor_points_back(old(nodes)@, last) ==> old(self)@.contains(last),
            old(self)@.contains(last) && predecessor_points_back(old(nodes)@, first) ==> old(self)@.contains(
                first,
            ),
            old(self)@.contains(first) && old(self)@.contains(last) ==> old(self)@.index_of(first) <= old(
                self,
            )@.index_of(last),
        ensures
            done.is_some() <==> old(self)@.contains(first) && old(self)@.contains(last),
            final(self).wf(final(nodes)@),
            done.is_some() ==> final(self)@ == cut(
                old(self)@,
                old(self)@.index_of(first),
                old(self)@.index_of(last),
            ),
            relinked(
                old(nodes)@,
                final(nodes)@,
                set![prev_of(old(nodes)@, first)],
                set![next_of(old(nodes)@, last)],
            ),
            done.is_none() ==> final(self)@ == old(self)@,
            done.is_none() ==> same_links(old(nodes)@, final(nodes)@),
    {
        let ghost entry = *self;
        let ghost run = self@;
        let ghost before = nodes@;
        let prev_node = nodes[first].get_prev_ptr().load_relaxed();
        let next_node = nodes[last].get_next_ptr().load_relaxed();
        let ghost next_written = set![prev_node];
        let ghost prev_written = set![next_node];
        proof {
            if run.contains(last) {
                Self::lemma_neighbours(entry, before, run.index_of(last));
            }
            if run.contains(first) {
                Self::lemma_neighbours(entry, before, run.index_of(first));
            }
        }

        if next_node != NULL && next_node >= nodes.len() {
            return None;
        }
        if self.exchange_predecessor(nodes, next_node, last, prev_node).is_err() {
            proof {
                lemma_relinked_same(before, nodes@, Set::empty(), prev_written);
                lemma_same_links_run(before, nodes@, run);
            }
            return None;
        }
        let ghost reserved = nodes@;
        let ghost j = run.index_of(last);
        proof {
            assert(run.contains(last)) by {
                if next_node == NULL {
                    assert(run.len() > 0 && run.last() == last);
                }
            }
        }

        if first == last {
            self.commit_successor(nodes, prev_node, first, next_node);
        } else {
            let left = if prev_node == NULL || prev_node < nodes.len() {
                self.exchange_successor(nodes, prev_node, first, next_node)
            } else {
                Err(prev_node)
            };
            if left.is_err() {
                let ghost tried = nodes@;
                self.commit_predecessor(nodes, next_node, prev_node, last);
                proof {
                    lemma_relinked_twice(
                        before,
                        reserved,
                        tried,
                        Set::empty(),
                        prev_written,
                        next_written,
                        Set::empty(),
                        next_written,
                        prev_written,
                    );
                    lemma_relinked_twice(
                        before,
                        tried,
                        nodes@,
                        next_written,
                        prev_written,
                        Set::empty(),
                        prev_written,
                        next_written,
                        prev_written,
                    );
                    assert(forall|p: usize|
                        in_store(before, p) && next_written.contains(p) ==> next_of(nodes@, p) == next_of(
                            before,
                            p,
                        ));
                    assert(forall|p: usize|
                        in_store(before, p) && prev_written.contains(p) ==> prev_of(nodes@, p) == prev_of(
                            before,
                            p,
                        ));
                    lemma_relinked_same(before, nodes@, next_written, prev_written);
                    lemma_same_links_run(before, nodes@, run);
                }
                return None;
            }
            proof {
                assert(run.contains(first)) by {
                    if prev_node == NULL {
                        assert(run.len() > 0 && run[0] == first);
                    }
                }
            }
        }
        let ghost i = run.index_of(first);
        self.run = Ghost(cut(run, i, j));
        proof {
            lemma_relinked_twice(
                before,
                reserved,
                nodes@,
                Set::empty(),
                prev_written,
                next_written,
                Set::empty(),
                next_written,
                prev_written,
            );
            Self::lemma_cut(entry, before, *self, nodes@, i, j);
        }
        Some(())
    }

    /// Closing a list over the positions `i` to `j` of its run leaves a list.
    proof fn lemma_cut(entry: Self, before: Seq<N>, exit: Self, after: Seq<N>, i: int, j: int)
        requires
            entry.wf(before),
            0 <= i <= j < entry@.len(),
            exit@ == cut(entry@, i, j),
            relinked(
                before,
                after,
                set![prev_of(before, entry@[i])],
                set![next_of(before, entry@[j])],
            ),
            exit.successor_word(after, prev_of(before, entry@[i])) == next_of(before, entry@[j]),
            exit.predecessor_word(after, next_of(before, entry@[j])) == prev_of(before, entry@[i]),
            prev_of(before, entry@[i]) != NULL ==> exit.first() == entry.first(),
            next_of(before, entry@[j]) != NULL ==> exit.last() == entry.last(),
        ensures
            exit.wf(after),
    {
        let run = entry@;
        let left_part = run.subrange(0, i);
        let right_part = run.subrange(j + 1, run.len() as int);
        let next_written = set![prev_of(before, run[i])];
        let prev_written = set![next_of(before, run[j])];
        Self::lemma_neighbours(entry, before, i);
        Self::lemma_neighbours(entry, before, j);
        lemma_run_part(before, run, 0, i);
        lemma_run_part(before, run, j + 1, run.len() as int);
        lemma_run_kept(before, after, next_written, prev_written, left_part);
        lemma_run_kept(before, after, next_written, prev_written, right_part);
        lemma_run_joined(after, left_part, right_part);
        if left_part.len() > 0 {
            Self::lemma_neighbours(entry, before, 0);
            assert(left_part[0] == run[0]);
            assert(after[run[0] as int].prev_link() == before[run[0] as int].prev_link());
        }
        if right_part.len() > 0 {
            Self::lemma_neighbours(entry, before, run.len() - 1);
            assert(right_part.last() == run.last());
            assert(after[run.last() as int].next_link() == before[run.last() as int].next_link());
            assert(right_part[0] == run[j + 1]);
        }
    }

    /// Detaches the run from `first` to `last`, which stands in the list
    /// between the nodes of `head` and those of `tail`.
    fn detach(
        &mut self,
        nodes: &mut [N],
        first: usize,
        last: usize,
        Ghost(head): Ghost<Seq<usize>>,
        Ghost(gap): Ghost<Seq<usize>>,
        Ghost(tail): Ghost<Seq<usize>>,
    )
        requires
            old(self).wf(old(nodes)@),
            old(self)@ == head + gap + tail,
            gap.len() > 0,
            first == gap[0],
            last == gap.last(),
        ensures
            final(self).wf(final(nodes)@),
            final(self)@ == head + tail,
            relinked(old(nodes)@, final(nodes)@, back(head), front(tail)),
    {
        let ghost run = self@;
        let ghost before = nodes@;
        let ghost from = head.len() as int;
        let ghost to = head.len() + gap.len() - 1;
        proof {
            assert(run[from] == gap[0]);
            assert(run[to] == gap[gap.len() - 1]);
            lemma_index_of(run, from);
            lemma_index_of(run, to);
            Self::lemma_neighbours(*self, before, from);
            Self::lemma_neighbours(*self, before, to);
            if from > 0 {
                assert(run[from - 1] == head[from - 1]);
            }
            if tail.len() > 0 {
                assert(run[to + 1] == tail[0]);
            }
        }
        let done = self.splice_impl(nodes, first, last);
        proof {
            assert(done.is_some());
            assert(self@ =~= head + tail);
            lemma_relinked_twice(
                before,
                before,
                nodes@,
                Set::empty(),
                Set::empty(),
                set![prev_of(before, first)],
                set![next_of(before, last)],
                back(head),
                front(tail),
            );
        }
    }

    /// What the sweep of [`IntrusiveList::remove_if`] knows of the node it has
    /// reached: the node is as it was when the sweep began, it is none of the
    /// nodes kept so far, and its `next` word names the node that follows it
    /// in the run.
    proof fn lemma_sweep_here(
        self,
        before: Seq<N>,
        nodes: Seq<N>,
        run: Seq<usize>,
        head: Seq<usize>,
        gone: Set<usize>,
        b: int,
        k: int,
    )
        requires
            is_run(before, run),
            0 <= b <= k < run.len(),
            head == kept(run.subrange(0, k), gone),
            self@ == head + run.subrange(b, run.len() as int),
            self.wf(nodes),
            relinked(before, nodes, head.to_set(), head.to_set()),
        ensures
            in_store(nodes, run[k]),
            node_at(nodes, run[k]) == node_at(before, run[k]),
            !head.contains(run[k]),
            !run.subrange(0, k).contains(run[k]),
            next_of(nodes, run[k]) == if k + 1 < run.len() {
                run[k + 1]
            } else {
                NULL
            },
    {
        let here = head.len() + (k - b);
        assert(self@[here] == run[k]);
        Self::lemma_neighbours(self, nodes, here);
        if k + 1 < run.len() {
            assert(self@[here + 1] == run[k + 1]);
        }
        lemma_kept_holds(run.subrange(0, k), gone);
        if run.subrange(0, k).contains(run[k]) {
            let m = choose|m: int| 0 <= m < k && run.subrange(0, k)[m] == run[k];
            assert(run[m] == run[k]);
        }
        assert(nodes[run[k] as int] == before[run[k] as int]);
    }
}

impl<N: IntrusiveListNode> Default for IntrusiveList<N> {
    /// An empty list.
    fn default() -> (list: Self)
        ensures
            list@ == Seq::<usize>::empty(),
            list.anchored(),
    {
        Self::new()
    }
}

} // verus!
