//! An intrusive doubly-linked list over a caller-owned store of nodes.
//!
//! The list stores nothing itself. The caller keeps the nodes in a slice and
//! each node embeds two link words, `next` and `prev`; a node is named by its
//! position in the slice. A list is a pair of anchors, a [`Splice`] a detached
//! run that moves between lists in one step, and an [`Iter`] a cursor over
//! either.
//!
//! Every operation that writes a link borrows the list and the store
//! exclusively, and every reader borrows them shared. Under that discipline
//! the contracts say exactly which nodes a list holds after each operation, in
//! which order, and which link words were written.
pub mod iter;
pub mod link;
pub mod list;
pub mod node;
pub mod run;
pub mod splice;

pub use iter::Iter;
pub use iter::Rev;
pub use link::assert_store_ptr;
pub use link::assert_store_ptr_relaxed;
pub use link::AtomicLink;
pub use link::NULL;
pub use list::IntrusiveList;
pub use node::IntrusiveListNode;
pub use node::IntrusiveListNodeImpl;
pub use splice::Splice;
