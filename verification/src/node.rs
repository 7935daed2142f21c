//! The node contract, and a sample node.
use crate::link::AtomicLink;
use crate::link::NULL;
use vstd::prelude::*;

verus! {

/// What an object must offer to be linked into a list: two link words and a
/// payload.
///
/// The two words must be distinct: a write through one accessor leaves the
/// other word and the payload as they were. The words are changed only by the
/// list and splice operations.
pub trait IntrusiveListNode {
    type Target;

    /// The value of the `next` word.
    spec fn next_link(&self) -> usize;

    /// The value of the `prev` word.
    spec fn prev_link(&self) -> usize;

    /// The payload.
    spec fn elem(&self) -> Self::Target;

    /// The `next` word, for reading.
    fn get_next_ptr(&self) -> (link: &AtomicLink)
        ensures
            link@ == self.next_link(),
    ;

    /// The `prev` word, for reading.
    fn get_prev_ptr(&self) -> (link: &AtomicLink)
        ensures
            link@ == self.prev_link(),
    ;

    /// The `next` word, for writing. Whatever is written to it, the `prev`
    /// word and the payload stay as they are.
    fn get_next_ptr_mut(&mut self) -> (link: &mut AtomicLink)
        ensures
            link@ == old(self).next_link(),
            final(self).next_link() == final(link)@,
            final(self).prev_link() == old(self).prev_link(),
            final(self).elem() == old(self).elem(),
    ;

    /// The `prev` word, for writing. Whatever is written to it, the `next`
    /// word and the payload stay as they are.
    fn get_prev_ptr_mut(&mut self) -> (link: &mut AtomicLink)
        ensures
            link@ == old(self).prev_link(),
            final(self).prev_link() == final(link)@,
            final(self).next_link() == old(self).next_link(),
            final(self).elem() == old(self).elem(),
    ;

    /// A borrow of the payload.
    fn get_elem(&self) -> (elem: &Self::Target)
        ensures
            *elem == self.elem(),
    ;
}

/// A node that holds its payload by value.
pub struct IntrusiveListNodeImpl<T> {
    next_ptr: AtomicLink,
    prev_ptr: AtomicLink,
    elem: T,
}

impl<T> IntrusiveListNodeImpl<T> {
    /// An unlinked node around `elem`.
    pub fn new(elem: T) -> (node: Self)
        ensures
            node.next_link() == NULL,
            node.prev_link() == NULL,
            node.elem() == elem,
    {
        IntrusiveListNodeImpl { next_ptr: AtomicLink::new(), prev_ptr: AtomicLink::new(), elem }
    }
}

impl<T> IntrusiveListNode for IntrusiveListNodeImpl<T> {
    type Target = T;

    closed spec fn next_link(&self) -> usize {
        self.next_ptr@
    }

    closed spec fn prev_link(&self) -> usize {
        self.prev_ptr@
    }

    closed spec fn elem(&self) -> T {
        self.elem
    }

    fn get_next_ptr(&self) -> (link: &AtomicLink) {
        &self.next_ptr
    }

    fn get_prev_ptr(&self) -> (link: &AtomicLink) {
        &self.prev_ptr
    }

    fn get_next_ptr_mut(&mut self) -> (link: &mut AtomicLink) {
        &mut self.next_ptr
    }

    fn get_prev_ptr_mut(&mut self) -> (link: &mut AtomicLink) {
        &mut self.prev_ptr
    }

    fn get_elem(&self) -> (elem: &T) {
        &self.elem
    }
}

} // verus!
