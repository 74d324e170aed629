use crate::index_map::IndexMap;
use crate::node::Node;
use vstd::prelude::*;

verus! {

/// A verified slab: nodes live in a vector of slots, the handle of the slot
/// at index `i` is `i + 1` (so that handle `0` stays free for the sentinel),
/// and the indices of vacant slots are kept on a free list for reuse.
pub struct SlabStore<T> {
    slots: Vec<Option<Node<T>>>,
    free: Vec<usize>,
}

impl<T> SlabStore<T> {
    /// Every free-list entry names a distinct vacant slot.
    #[verifier::type_invariant]
    spec fn inv(self) -> bool {
        &&& forall|i: int|
            0 <= i < self.free@.len() ==> #[trigger] self.free@[i] < self.slots@.len()
                && self.slots@[self.free@[i] as int] is None
        &&& forall|i: int, j: int|
            0 <= i < j < self.free@.len() ==> self.free@[i] != self.free@[j]
    }

    pub fn new() -> (store: Self)
        ensures
            store.contents() == Map::<usize, Node<T>>::empty(),
    {
        let store = SlabStore { slots: Vec::new(), free: Vec::new() };
        proof {
            assert(store.contents() =~= Map::<usize, Node<T>>::empty());
        }
        store
    }
}

impl<T> IndexMap<T> for SlabStore<T> {
    closed spec fn contents(&self) -> Map<usize, Node<T>> {
        Map::new(
            |key: usize| 1 <= key <= self.slots@.len() && self.slots@[key - 1] is Some,
            |key: usize| self.slots@[key - 1]->Some_0,
        )
    }

    fn insert(&mut self, node: Node<T>) -> (key: usize) {
        proof {
            use_type_invariant(&*self);
        }
        let mut free: Vec<usize> = Vec::new();
        core::mem::swap(&mut free, &mut self.free);
        let mut slots: Vec<Option<Node<T>>> = Vec::new();
        core::mem::swap(&mut slots, &mut self.slots);
        let key: usize;
        match free.pop() {
            Some(slot) => {
                slots[slot] = Some(node);
                proof {
                    assert(slot < slots.len());
                }
                key = slot + 1;
            },
            None => {
                slots.push(Some(node));
                key = slots.len();
            },
        }
        self.slots = slots;
        self.free = free;
        proof {
            assert(self.contents() =~= old(self).contents().insert(key, node));
        }
        key
    }

    fn remove(&mut self, key: usize) -> (node: Node<T>) {
        proof {
            use_type_invariant(&*self);
        }
        let slot = key - 1;
        let mut free: Vec<usize> = Vec::new();
        core::mem::swap(&mut free, &mut self.free);
        let mut slots: Vec<Option<Node<T>>> = Vec::new();
        core::mem::swap(&mut slots, &mut self.slots);
        let mut taken: Option<Node<T>> = None;
        core::mem::swap(&mut taken, &mut slots[slot]);
        free.push(slot);
        self.slots = slots;
        self.free = free;
        proof {
            assert(self.contents() =~= old(self).contents().remove(key));
        }
        taken.unwrap()
    }

    fn contains(&self, key: usize) -> (present: bool) {
        if key == 0 || key > self.slots.len() {
            false
        } else {
            self.slots[key - 1].is_some()
        }
    }

    fn get_elem(&self, key: usize) -> (elem: &T) {
        &self.slots[key - 1].as_ref().unwrap().elem
    }

    fn get_pre(&self, key: usize) -> (pre: usize) {
        self.slots[key - 1].as_ref().unwrap().pre
    }

    fn get_next(&self, key: usize) -> (next: usize) {
        self.slots[key - 1].as_ref().unwrap().next
    }

    fn set_pre(&mut self, key: usize, pre: usize) {
        proof {
            use_type_invariant(&*self);
        }
        let slot = key - 1;
        let mut taken: Option<Node<T>> = None;
        core::mem::swap(&mut taken, &mut self.slots[slot]);
        let mut node = taken.unwrap();
        node.pre = pre;
        self.slots[slot] = Some(node);
        proof {
            assert(self.contents() =~= old(self).contents().insert(
                key,
                old(self).contents()[key].with_pre(pre),
            ));
        }
    }

    fn set_next(&mut self, key: usize, next: usize) {
        proof {
            use_type_invariant(&*self);
        }
        let slot = key - 1;
        let mut taken: Option<Node<T>> = None;
        core::mem::swap(&mut taken, &mut self.slots[slot]);
        let mut node = taken.unwrap();
        node.next = next;
        self.slots[slot] = Some(node);
        proof {
            assert(self.contents() =~= old(self).contents().insert(
                key,
                old(self).contents()[key].with_next(next),
            ));
        }
    }
}

} // verus!
