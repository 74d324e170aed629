use crate::index_map::IndexMap;
use crate::node::Node;
use vstd::prelude::*;

verus! {

/// Declaration of `pi_slab::Slab`, the outside slab allocator; the verifier
/// treats its values as opaque.
#[verifier::external_type_specification]
#[verifier::external_body]
#[verifier::reject_recursive_types(T)]
pub struct ExSlab<T>(pi_slab::Slab<T>);

/// A node store backed by `pi_slab::Slab`.
///
/// The slab itself is opaque to the verifier, so the store carries its
/// mathematical contents in a ghost `shadow` map; each trusted wrapper below
/// states how the shadow evolves, and relies on the slab's source to move
/// its slots in step. Handles are slab keys: `pi_slab` hands out
/// `slot index + 1`, so a live key is never `0`.
#[verifier::reject_recursive_types(T)]
pub struct PiSlabStore<T> {
    inner: pi_slab::Slab<Node<T>>,
    shadow: Ghost<Map<usize, Node<T>>>,
}

impl<T> PiSlabStore<T> {
    /// Relies on `pi_slab::Slab::new`: a freshly created slab has no live
    /// keys.
    #[verifier::external_body]
    pub fn new() -> (store: Self)
        ensures
            store.contents() =~= Map::empty(),
    {
        PiSlabStore { inner: pi_slab::Slab::new(), shadow: Ghost(Map::empty()) }
    }

    /// Relies on `pi_slab::Slab::insert`: the value is written to the slot
    /// at `next_vacancy + 1`, a key that is at least 1 and not live before
    /// the call, and the slab's length grows by one.
    #[verifier::external_body]
    fn insert_node(&mut self, node: Node<T>) -> (key: usize)
        ensures
            key != 0,
            !old(self).shadow@.dom().contains(key),
            final(self).shadow@ == old(self).shadow@.insert(key, node),
    {
        self.inner.insert(node)
    }

    /// Relies on `pi_slab::Slab::remove`: the slot at the live key `key` is
    /// vacated, put at the head of the slab's free list, and its value is
    /// returned.
    #[verifier::external_body]
    fn remove_node(&mut self, key: usize) -> (node: Node<T>)
        requires
            old(self).shadow@.dom().contains(key),
        ensures
            node == old(self).shadow@[key],
            final(self).shadow@ == old(self).shadow@.remove(key),
    {
        self.inner.remove(key)
    }

    /// Relies on `pi_slab::Slab::contains`: true exactly for keys in
    /// `1 ..= slot count` whose vacancy bit is clear, that is for live keys.
    #[verifier::external_body]
    fn contains_key(&self, key: usize) -> (present: bool)
        ensures
            present == self.shadow@.dom().contains(key),
    {
        self.inner.contains(key)
    }

    /// Relies on `pi_slab::Slab::get`: for a live key it returns a reference
    /// to the stored value.
    #[verifier::external_body]
    fn node_at(&self, key: usize) -> (node: &Node<T>)
        requires
            self.shadow@.dom().contains(key),
        ensures
            *node == self.shadow@[key],
    {
        self.inner.get(key).unwrap()
    }

    /// Relies on `pi_slab::Slab::get_mut`: for a live key it returns a
    /// mutable reference to the stored value, and no other slot moves.
    #[verifier::external_body]
    fn write_pre(&mut self, key: usize, pre: usize)
        requires
            old(self).shadow@.dom().contains(key),
        ensures
            final(self).shadow@ == old(self).shadow@.insert(
                key,
                old(self).shadow@[key].with_pre(pre),
            ),
    {
        self.inner.get_mut(key).unwrap().pre = pre;
    }

    /// Relies on `pi_slab::Slab::get_mut`: for a live key it returns a
    /// mutable reference to the stored value, and no other slot moves.
    #[verifier::external_body]
    fn write_next(&mut self, key: usize, next: usize)
        requires
            old(self).shadow@.dom().contains(key),
        ensures
            final(self).shadow@ == old(self).shadow@.insert(
                key,
                old(self).shadow@[key].with_next(next),
            ),
    {
        self.inner.get_mut(key).unwrap().next = next;
    }
}

impl<T> IndexMap<T> for PiSlabStore<T> {
    closed spec fn contents(&self) -> Map<usize, Node<T>> {
        self.shadow@
    }

    fn insert(&mut self, node: Node<T>) -> (key: usize) {
        self.insert_node(node)
    }

    fn remove(&mut self, key: usize) -> (node: Node<T>) {
        self.remove_node(key)
    }

    fn contains(&self, key: usize) -> (present: bool) {
        self.contains_key(key)
    }

    fn get_elem(&self, key: usize) -> (elem: &T) {
        &self.node_at(key).elem
    }

    fn get_pre(&self, key: usize) -> (pre: usize) {
        self.node_at(key).pre
    }

    fn get_next(&self, key: usize) -> (next: usize) {
        self.node_at(key).next
    }

    fn set_pre(&mut self, key: usize, pre: usize) {
        self.write_pre(key, pre)
    }

    fn set_next(&mut self, key: usize, next: usize) {
        self.write_next(key, next)
    }
}

} // verus!
