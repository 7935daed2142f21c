//! Cursors over a run, from either end.
use crate::link::NULL;
use crate::node::IntrusiveListNode;
use crate::run::is_run;
use crate::run::lemma_run_part;
use crate::run::linked_at;
use crate::run::node_at;
use crate::run::spans;
use vstd::prelude::*;

verus! {

/// A cursor over the run that a list or splice stood for when the cursor was
/// made. It borrows the store, so no link can change while it lives. Its view
/// is the part of the run that it has not yet handed out.
pub struct Iter<'a, N: IntrusiveListNode> {
    nodes: &'a [N],
    first_ptr: usize,
    last_ptr: usize,
    rest: Ghost<Seq<usize>>,
}

impl<'a, N: IntrusiveListNode> Iter<'a, N> {
    /// The nodes not yet handed out, first to last.
    pub closed spec fn view(&self) -> Seq<usize> {
        self.rest@
    }

    /// The store that the cursor walks.
    pub closed spec fn nodes(&self) -> Seq<N> {
        self.nodes@
    }

    #[verifier::type_invariant]
    spec fn inv(&self) -> bool {
        spans(self.rest@, self.first_ptr, self.last_ptr) && is_run(self.nodes@, self.rest@)
    }

    /// A cursor over `run`, a run of `nodes` between `first` and `last`.
    pub(crate) fn over(nodes: &'a [N], first: usize, last: usize, Ghost(run): Ghost<Seq<usize>>) -> (iter:
        Self)
        requires
            spans(run, first, last),
            is_run(nodes@, run),
        ensures
            iter@ == run,
            iter.nodes() == nodes@,
    {
        Iter { nodes, first_ptr: first, last_ptr: last, rest: Ghost(run) }
    }

    /// Hands out the first node that is left, and steps over it.
    pub fn next(&mut self) -> (node: Option<usize>)
        ensures
            final(self).nodes() == old(self).nodes(),
            old(self)@.len() == 0 ==> node.is_none() && final(self)@ == old(self)@,
            old(self)@.len() > 0 ==> node == Some(old(self)@[0]) && final(self)@ == old(self)@.drop_first(),
    {
        proof {
            use_type_invariant(&*self);
        }
        if self.first_ptr == NULL {
            return None;
        }
        let ghost rest = self.rest@;
        let current = self.first_ptr;
        if self.first_ptr == self.last_ptr {
            proof {
                assert(rest.len() == 1) by {
                    if rest.len() > 1 {
                        assert(rest[0] == rest[rest.len() - 1]);
                    }
                }
                assert(rest.drop_first() =~= Seq::<usize>::empty());
            }
            *self = Iter { nodes: self.nodes, first_ptr: NULL, last_ptr: NULL, rest: Ghost(Seq::empty()) };
        } else {
            proof {
                assert(rest.len() > 1);
                assert(linked_at(self.nodes@, rest, 1));
                lemma_run_part(self.nodes@, rest, 1, rest.len() as int);
                assert(rest.drop_first() =~= rest.subrange(1, rest.len() as int));
            }
            let following = self.nodes[current].get_next_ptr().load_relaxed();
            *self = Iter {
                nodes: self.nodes,
                first_ptr: following,
                last_ptr: self.last_ptr,
                rest: Ghost(rest.drop_first()),
            };
        }
        Some(current)
    }

    /// Hands out the last node that is left, and steps back over it.
    pub fn next_back(&mut self) -> (node: Option<usize>)
        ensures
            final(self).nodes() == old(self).nodes(),
            old(self)@.len() == 0 ==> node.is_none() && final(self)@ == old(self)@,
            old(self)@.len() > 0 ==> node == Some(old(self)@.last()) && final(self)@ == old(self)@.drop_last(),
    {
        proof {
            use_type_invariant(&*self);
        }
        if self.last_ptr == NULL {
            return None;
        }
        let ghost rest = self.rest@;
        let current = self.last_ptr;
        if self.first_ptr == self.last_ptr {
            proof {
                assert(rest.len() == 1) by {
                    if rest.len() > 1 {
                        assert(rest[0] == rest[rest.len() - 1]);
                    }
                }
                assert(rest.drop_last() =~= Seq::<usize>::empty());
            }
            *self = Iter { nodes: self.nodes, first_ptr: NULL, last_ptr: NULL, rest: Ghost(Seq::empty()) };
        } else {
            proof {
                assert(rest.len() > 1);
                assert(linked_at(self.nodes@, rest, rest.len() - 1));
                lemma_run_part(self.nodes@, rest, 0, rest.len() - 1);
                assert(rest.drop_last() =~= rest.subrange(0, rest.len() - 1));
            }
            let preceding = self.nodes[current].get_prev_ptr().load_relaxed();
            *self = Iter {
                nodes: self.nodes,
                first_ptr: self.first_ptr,
                last_ptr: preceding,
                rest: Ghost(rest.drop_last()),
            };
        }
        Some(current)
    }

    /// The last node that is left, without a walk.
    pub fn last(self) -> (node: Option<usize>)
        ensures
            node == if self@.len() == 0 {
                None
            } else {
                Some(self@.last())
            },
    {
        proof {
            use_type_invariant(&self);
        }
        if self.last_ptr == NULL {
            None
        } else {
            Some(self.last_ptr)
        }
    }

    /// The same cursor, walked from the other end.
    pub fn rev(self) -> (rev: Rev<'a, N>)
        ensures
            rev@ == self@.reverse(),
            rev.nodes() == self.nodes(),
    {
        Rev { inner: self }
    }

    /// Walks to the end and returns the payloads of the nodes in the order
    /// met.
    pub fn elems(self) -> (payloads: Vec<&'a N::Target>)
        ensures
            payloads@.len() == self@.len(),
            forall|k: int|
                0 <= k < self@.len() ==> *payloads@[k] == node_at(self.nodes(), #[trigger] self@[k]).elem(),
    {
        let ghost all = self@;
        let nodes = self.nodes;
        let mut iter = self;
        let mut payloads: Vec<&'a N::Target> = Vec::new();
        loop
            invariant
                iter.nodes() == nodes@,
                payloads@.len() + iter@.len() == all.len(),
                iter@ == all.subrange(payloads@.len() as int, all.len() as int),
                forall|k: int|
                    0 <= k < payloads@.len() ==> *payloads@[k] == node_at(nodes@, #[trigger] all[k]).elem(),
            ensures
                payloads@.len() == all.len(),
                forall|k: int|
                    0 <= k < all.len() ==> *payloads@[k] == node_at(nodes@, #[trigger] all[k]).elem(),
            decreases iter@.len(),
        {
            proof {
                use_type_invariant(&iter);
            }
            let ghost rest = iter@;
            match iter.next() {
                Some(node) => {
                    assert(node == all[payloads@.len() as int]) by {
                        assert(rest[0] == node);
                    }
                    payloads.push(nodes[node].get_elem());
                    assert(iter@ =~= all.subrange(payloads@.len() as int, all.len() as int));
                },
                None => {
                    break ;
                },
            }
        }
        payloads
    }

    /// Walks to the end and returns the nodes in the order met.
    pub fn collect(self) -> (met: Vec<usize>)
        ensures
            met@ == self@,
    {
        let ghost all = self@;
        let mut iter = self;
        let mut met: Vec<usize> = Vec::new();
        loop
            invariant
                met@ + iter@ == all,
            ensures
                met@ == all,
            decreases iter@.len(),
        {
            let ghost rest = iter@;
            match iter.next() {
                Some(node) => {
                    met.push(node);
                    assert(met@ + iter@ =~= all) by {
                        assert(met@ =~= (met@.drop_last()).push(node));
                        assert(met@.drop_last() + rest =~= all);
                    }
                },
                None => {
                    assert(met@ + iter@ =~= met@);
                    break ;
                },
            }
        }
        met
    }
}

/// Walked from the back, a run shows the same nodes as from the front, in the
/// opposite order.
pub proof fn lemma_backward_mirrors_forward(forward: Seq<usize>)
    ensures
        forward.reverse().len() == forward.len(),
        forall|k: int|
            0 <= k < forward.len() ==> #[trigger] forward.reverse()[k] == forward[forward.len() - 1 - k],
        forall|p: usize| forward.reverse().contains(p) <==> forward.contains(p),
{
    let backward = forward.reverse();
    assert forall|p: usize| backward.contains(p) <==> forward.contains(p) by {
        if backward.contains(p) {
            let k = choose|k: int| 0 <= k < backward.len() && backward[k] == p;
            assert(forward[forward.len() - 1 - k] == p);
        }
        if forward.contains(p) {
            let k = choose|k: int| 0 <= k < forward.len() && forward[k] == p;
            assert(backward[forward.len() - 1 - k] == p);
        }
    }
}

/// A cursor walked backwards: its view is what is left, last node first.
pub struct Rev<'a, N: IntrusiveListNode> {
    inner: Iter<'a, N>,
}

impl<'a, N: IntrusiveListNode> Rev<'a, N> {
    /// The nodes not yet handed out, in the order of this walk.
    pub closed spec fn view(&self) -> Seq<usize> {
        self.inner@.reverse()
    }

    /// The store that the cursor walks.
    pub closed spec fn nodes(&self) -> Seq<N> {
        self.inner.nodes()
    }

    /// Hands out the first node that is left, and steps over it.
    pub fn next(&mut self) -> (node: Option<usize>)
        ensures
            final(self).nodes() == old(self).nodes(),
            old(self)@.len() == 0 ==> node.is_none() && final(self)@ == old(self)@,
            old(self)@.len() > 0 ==> node == Some(old(self)@[0]) && final(self)@ == old(self)@.drop_first(),
    {
        let ghost inner = self.inner@;
        let node = self.inner.next_back();
        proof {
            if inner.len() > 0 {
                assert(inner.drop_last().reverse() =~= inner.reverse().drop_first());
            }
        }
        node
    }

    /// Hands out the last node that is left, and steps back over it.
    pub fn next_back(&mut self) -> (node: Option<usize>)
        ensures
            final(self).nodes() == old(self).nodes(),
            old(self)@.len() == 0 ==> node.is_none() && final(self)@ == old(self)@,
            old(self)@.len() > 0 ==> node == Some(old(self)@.last()) && final(self)@ == old(self)@.drop_last(),
    {
        let ghost inner = self.inner@;
        let node = self.inner.next();
        proof {
            if inner.len() > 0 {
                assert(inner.drop_first().reverse() =~= inner.reverse().drop_last());
            }
        }
        node
    }

    /// The same cursor, walked from the other end.
    pub fn rev(self) -> (iter: Iter<'a, N>)
        ensures
            iter@ == self@.reverse(),
            iter.nodes() == self.nodes(),
    {
        assert(self.inner@.reverse().reverse() =~= self.inner@);
        self.inner
    }

    /// Walks to the end and returns the nodes in the order met.
    pub fn collect(self) -> (met: Vec<usize>)
        ensures
            met@ == self@,
    {
        let ghost all = self@;
        let mut iter = self;
        let mut met: Vec<usize> = Vec::new();
        loop
            invariant
                met@ + iter@ == all,
            ensures
                met@ == all,
            decreases iter@.len(),
        {
            let ghost rest = iter@;
            match iter.next() {
                Some(node) => {
                    met.push(node);
                    assert(met@ + iter@ =~= all) by {
                        assert(met@ =~= (met@.drop_last()).push(node));
                        assert(met@.drop_last() + rest =~= all);
                    }
                },
                None => {
                    assert(met@ + iter@ =~= met@);
                    break ;
                },
            }
        }
        met
    }
}

} // verus!
