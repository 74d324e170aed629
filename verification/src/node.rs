use vstd::prelude::*;

verus! {

/// One record of a node store: an element together with the handles of its
/// neighbours. `pre == 0` marks the node as the head of its deque and
/// `next == 0` marks it as the tail; handle `0` itself never addresses a
/// live node.
pub struct Node<T> {
    pub elem: T,
    pub next: usize,
    pub pre: usize,
}

impl<T> Node<T> {
    /// The same node with its predecessor handle replaced.
    pub open spec fn with_pre(self, pre: usize) -> Node<T> {
        Node { elem: self.elem, pre, next: self.next }
    }

    /// The same node with its successor handle replaced.
    pub open spec fn with_next(self, next: usize) -> Node<T> {
        Node { elem: self.elem, pre: self.pre, next }
    }

    pub fn new(elem: T, pre: usize, next: usize) -> (node: Node<T>)
        ensures
            node == (Node { elem, pre, next }),
    {
        Node { elem, pre, next }
    }
}

} // verus!
