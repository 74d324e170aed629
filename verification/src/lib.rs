//! A doubly-linked deque whose nodes live in a slab-style store and are
//! addressed by small integer handles instead of references.
//!
//! The deque itself holds only three scalars (head handle, tail handle,
//! length); every node is read and written through an [`IndexMap`] store that
//! the caller passes to each operation. Handle `0` is a reserved sentinel: it
//! means "empty deque" for the head and tail scalars and "no neighbour" for a
//! node's predecessor and successor fields, and a store never issues it for
//! live data.
//!
//! Two stores are provided: [`SlabStore`], implemented and verified here, and
//! [`PiSlabStore`], which delegates to the `pi_slab` crate's slab allocator.

pub mod deque;
pub mod index_map;
pub mod node;
pub mod pi_store;
pub mod slab_store;

pub use deque::Deque;
pub use deque::Iter;
pub use index_map::IndexMap;
pub use node::Node;
pub use pi_store::PiSlabStore;
pub use slab_store::SlabStore;
