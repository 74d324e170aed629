use crate::node::Node;
use vstd::prelude::*;

verus! {

/// Slab-style storage for deque nodes, addressed by non-zero integer handles.
///
/// A store's observable state is `contents()`, the map from live handles to
/// the nodes stored under them. `insert` issues a fresh handle, which is
/// never `0`: that value is reserved as the "no such node" sentinel shared
/// with the deque. The methods that take a handle demand that it is live;
/// passing a stale or foreign handle to them is ruled out by contract rather
/// than detected at run time, with `contains` as the caller's checked probe.
pub trait IndexMap<T>: Sized {
    /// The live nodes, keyed by handle.
    spec fn contents(&self) -> Map<usize, Node<T>>;

    /// Store `node` in a vacant slot and return that slot's handle.
    fn insert(&mut self, node: Node<T>) -> (key: usize)
        ensures
            key != 0,
            !old(self).contents().dom().contains(key),
            final(self).contents() == old(self).contents().insert(key, node),
    ;

    /// Free the slot at `key` and return the node that was stored there.
    fn remove(&mut self, key: usize) -> (node: Node<T>)
        requires
            old(self).contents().dom().contains(key),
        ensures
            node == old(self).contents()[key],
            final(self).contents() == old(self).contents().remove(key),
    ;

    /// Whether `key` is currently live.
    fn contains(&self, key: usize) -> (present: bool)
        ensures
            present == self.contents().dom().contains(key),
    ;

    /// A reference to the element stored at the live handle `key`.
    fn get_elem(&self, key: usize) -> (elem: &T)
        requires
            self.contents().dom().contains(key),
        ensures
            *elem == self.contents()[key].elem,
    ;

    /// The predecessor handle of the node at the live handle `key`.
    fn get_pre(&self, key: usize) -> (pre: usize)
        requires
            self.contents().dom().contains(key),
        ensures
            pre == self.contents()[key].pre,
    ;

    /// The successor handle of the node at the live handle `key`.
    fn get_next(&self, key: usize) -> (next: usize)
        requires
            self.contents().dom().contains(key),
        ensures
            next == self.contents()[key].next,
    ;

    /// Overwrite the predecessor handle of the node at the live handle `key`.
    fn set_pre(&mut self, key: usize, pre: usize)
        requires
            old(self).contents().dom().contains(key),
        ensures
            final(self).contents() == old(self).contents().insert(
                key,
                old(self).contents()[key].with_pre(pre),
            ),
    ;

    /// Overwrite the successor handle of the node at the live handle `key`.
    fn set_next(&mut self, key: usize, next: usize)
        requires
            old(self).contents().dom().contains(key),
        ensures
            final(self).contents() == old(self).contents().insert(
                key,
                old(self).contents()[key].with_next(next),
            ),
    ;
}

} // verus!
