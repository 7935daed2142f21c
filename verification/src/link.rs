//! Link words.
//!
//! A link is one pointer-width atomic word. It holds the position of a node in
//! the caller's node store, or [`NULL`]. Every node embeds two of them and
//! every list holds two as its anchors.
//!
//! A link is read through a shared borrow and written only through an
//! exclusive one. The borrow checker is therefore the reader-writer
//! discipline of the list: while somebody may write, nobody else can look, and
//! the value every read returns is the value last written. The memory
//! orderings that the operations pass on are those that a list shared between
//! threads needs; the contracts say nothing of them.
use concurrency_toolkit::atomic::AtomicUsize;
use concurrency_toolkit::atomic::Ordering;
use vstd::prelude::*;

verus! {

/// The word that names no node.
pub const NULL: usize = usize::MAX;

/// The value that an atomic word holds.
///
/// Nothing is proved of it. The five functions below say how the methods of
/// `AtomicUsize` read and change it, and each of them is believed, not
/// verified. What they say is what the documentation of the methods says of a
/// word that no other thread writes meanwhile. That condition is met because
/// the atomic word is a private field of [`AtomicLink`], which hands it out
/// for writing only from an exclusive borrow of itself.
pub uninterp spec fn word_value(word: AtomicUsize) -> usize;

/// What a compare-and-swap reports of a word that holds `held` when asked to
/// replace `current`: the held value, as `Ok` exactly when the two are equal.
pub open spec fn exchange_outcome(held: usize, current: usize) -> Result<usize, usize> {
    if held == current {
        Ok(held)
    } else {
        Err(held)
    }
}

/// Calls `AtomicUsize::new`. Believed: the new word holds `value`.
#[verifier::external_body]
fn word_new(value: usize) -> (word: AtomicUsize)
    ensures
        word_value(word) == value,
{
    AtomicUsize::new(value)
}

/// Calls `AtomicUsize::load`. Believed: it returns the value that the word
/// holds. The method panics on the orderings `Release` and `AcqRel`, which
/// are left out.
#[verifier::external_body]
fn word_load(word: &AtomicUsize, order: Ordering) -> (value: usize)
    requires
        order != Ordering::Release,
        order != Ordering::AcqRel,
    ensures
        value == word_value(*word),
{
    word.load(order)
}

/// Calls `AtomicUsize::store`. Believed: afterwards the word holds `value`.
/// The method panics on the orderings `Acquire` and `AcqRel`, which are left
/// out.
#[verifier::external_body]
fn word_store(word: &mut AtomicUsize, value: usize, order: Ordering)
    requires
        order != Ordering::Acquire,
        order != Ordering::AcqRel,
    ensures
        word_value(*final(word)) == value,
{
    word.store(value, order)
}

/// Calls `AtomicUsize::swap`. Believed: afterwards the word holds `value`,
/// and the value that it held before is returned. The method takes every
/// ordering.
#[verifier::external_body]
fn word_swap(word: &mut AtomicUsize, value: usize, order: Ordering) -> (previous: usize)
    ensures
        previous == word_value(*old(word)),
        word_value(*final(word)) == value,
{
    word.swap(value, order)
}

/// Calls `AtomicUsize::compare_exchange`, the form that does not fail
/// spuriously. Believed: it returns the value that the word held, as `Ok` if
/// that was `current` and as `Err` otherwise; the word holds `new` afterwards
/// in the first case and is unchanged in the second. The method panics on
/// the failure orderings `Release` and `AcqRel`, which are left out.
#[verifier::external_body]
fn word_compare_exchange(
    word: &mut AtomicUsize,
    current: usize,
    new: usize,
    success: Ordering,
    failure: Ordering,
) -> (previous: Result<usize, usize>)
    requires
        failure != Ordering::Release,
        failure != Ordering::AcqRel,
    ensures
        previous == exchange_outcome(word_value(*old(word)), current),
        word_value(*final(word)) == if word_value(*old(word)) == current {
            new
        } else {
            word_value(*old(word))
        },
{
    word.compare_exchange(current, new, success, failure)
}

/// One link word. Its view is the value it holds.
pub struct AtomicLink {
    word: AtomicUsize,
}

impl AtomicLink {
    /// The value that the link holds.
    pub closed spec fn view(&self) -> usize {
        word_value(self.word)
    }

    /// A link that names no node.
    pub fn new() -> (link: Self)
        ensures
            link@ == NULL,
    {
        AtomicLink { word: word_new(NULL) }
    }

    /// Reads the link with acquire ordering.
    pub fn load(&self) -> (value: usize)
        ensures
            value == self@,
    {
        word_load(&self.word, Ordering::Acquire)
    }

    /// Reads the link with relaxed ordering.
    pub fn load_relaxed(&self) -> (value: usize)
        ensures
            value == self@,
    {
        word_load(&self.word, Ordering::Relaxed)
    }

    /// Writes the link with release ordering.
    pub fn store(&mut self, value: usize)
        ensures
            final(self)@ == value,
    {
        word_store(&mut self.word, value, Ordering::Release)
    }

    /// Writes the link with relaxed ordering.
    pub fn store_relaxed(&mut self, value: usize)
        ensures
            final(self)@ == value,
    {
        word_store(&mut self.word, value, Ordering::Relaxed)
    }

    /// Replaces `current` by `new`, with acquire-release ordering on success
    /// and acquire ordering on failure. Returns the value found: `Ok` if it
    /// was `current`, and then the link holds `new`; `Err` otherwise, and then
    /// the link is as it was.
    pub fn compare_exchange(&mut self, current: usize, new: usize) -> (found: Result<usize, usize>)
        ensures
            found == exchange_outcome(old(self)@, current),
            final(self)@ == if old(self)@ == current {
                new
            } else {
                old(self)@
            },
    {
        word_compare_exchange(&mut self.word, current, new, Ordering::AcqRel, Ordering::Acquire)
    }

    fn swap(&mut self, value: usize) -> (previous: usize)
        ensures
            previous == old(self)@,
            final(self)@ == value,
    {
        word_swap(&mut self.word, value, Ordering::AcqRel)
    }

    fn swap_relaxed(&mut self, value: usize) -> (previous: usize)
        ensures
            previous == old(self)@,
            final(self)@ == value,
    {
        word_swap(&mut self.word, value, Ordering::Relaxed)
    }
}

/// The committing write of an update whose place was already reserved: swaps
/// `new` into `slot`. The caller shows that the slot holds `expected`, so the
/// value swapped out is the expected one.
pub fn assert_store_ptr(slot: &mut AtomicLink, expected: usize, new: usize)
    requires
        old(slot)@ == expected,
    ensures
        final(slot)@ == new,
{
    let previous = slot.swap(new);
    assert(previous == expected);
}

/// [`assert_store_ptr`] with relaxed ordering, for regions that are already
/// serialized.
pub fn assert_store_ptr_relaxed(slot: &mut AtomicLink, expected: usize, new: usize)
    requires
        old(slot)@ == expected,
    ensures
        final(slot)@ == new,
{
    let previous = slot.swap_relaxed(new);
    assert(previous == expected);
}

} // verus!
