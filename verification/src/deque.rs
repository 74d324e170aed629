use crate::index_map::IndexMap;
use crate::node::Node;
use core::marker::PhantomData;
use vstd::prelude::*;

verus! {

/// One pop from the head, at the level of the model: the head handle leaves
/// the chain, the node it named leaves the store, and the new head node's
/// predecessor handle becomes the `0` sentinel. An empty state is unchanged.
pub open spec fn pop_front_step<T>(hs: Seq<usize>, m: Map<usize, Node<T>>) -> (Seq<usize>, Map<
    usize,
    Node<T>,
>) {
    if hs.len() == 0 {
        (hs, m)
    } else {
        let trimmed = if hs.len() > 1 {
            m.insert(hs[1], m[hs[1]].with_pre(0))
        } else {
            m
        };
        (hs.drop_first(), trimmed.remove(hs[0]))
    }
}

/// `k` pops from the head in a row, each one as in [`pop_front_step`].
pub open spec fn pop_front_steps<T>(hs: Seq<usize>, m: Map<usize, Node<T>>, k: nat) -> (Seq<
    usize,
>, Map<usize, Node<T>>)
    decreases k,
{
    if k == 0 {
        (hs, m)
    } else {
        let stepped = pop_front_step(hs, m);
        pop_front_steps(stepped.0, stepped.1, (k - 1) as nat)
    }
}

/// The store contents after unlinking the node at position `i` of the chain
/// `hs`, just before its own slot is freed: the neighbours on either side,
/// when present, are pointed past it, with `0` standing in at the ends.
pub open spec fn unlink_patch<T>(m: Map<usize, Node<T>>, hs: Seq<usize>, i: int) -> Map<
    usize,
    Node<T>,
> {
    let pre = if i == 0 {
        0usize
    } else {
        hs[i - 1]
    };
    let next = if i == hs.len() - 1 {
        0usize
    } else {
        hs[i + 1]
    };
    let patched = if i > 0 {
        m.insert(hs[i - 1], m[hs[i - 1]].with_next(next))
    } else {
        m
    };
    if i < hs.len() - 1 {
        patched.insert(hs[i + 1], m[hs[i + 1]].with_pre(pre))
    } else {
        patched
    }
}

/// Clearing a deque and popping its head until it is empty reach the same
/// state: as many chained head pops as the chain has handles erase exactly
/// those handles from the store, leave every other entry unchanged, and
/// leave the chain empty. This holds for any chain of distinct handles.
pub proof fn lemma_clear_is_iterated_pop_front<T>(hs: Seq<usize>, m: Map<usize, Node<T>>)
    requires
        forall|a: int, b: int| 0 <= a < b < hs.len() ==> hs[a] != hs[b],
    ensures
        pop_front_steps(hs, m, hs.len()) == (Seq::<usize>::empty(), m.remove_keys(hs.to_set())),
    decreases hs.len(),
{
    if hs.len() == 0 {
        assert(hs =~= Seq::<usize>::empty());
        assert(m.remove_keys(hs.to_set()) =~= m);
    } else {
        let stepped = pop_front_step(hs, m);
        let hs1 = stepped.0;
        let m1 = stepped.1;
        assert forall|a: int, b: int| 0 <= a < b < hs1.len() implies hs1[a] != hs1[b] by {
            assert(hs[a + 1] != hs[b + 1]);
        }
        lemma_clear_is_iterated_pop_front(hs1, m1);
        assert forall|k: usize| hs.to_set().contains(k) implies (k == hs[0] || hs1.to_set().contains(
            k,
        )) by {
            let w = choose|w: int| 0 <= w < hs.len() && hs[w] == k;
            if w > 0 {
                assert(hs1[w - 1] == k);
            }
        }
        assert forall|k: usize| hs1.to_set().contains(k) implies hs.to_set().contains(k) by {
            let w = choose|w: int| 0 <= w < hs1.len() && hs1[w] == k;
            assert(hs[w + 1] == k);
        }
        assert(hs.to_set().contains(hs[0]));
        assert(m1.remove_keys(hs1.to_set()) =~= m.remove_keys(hs.to_set()));
    }
}

/// The handles read off by starting at `h` and following successor handles
/// through `k` nodes.
pub open spec fn forward_walk<T>(m: Map<usize, Node<T>>, h: usize, k: nat) -> Seq<usize>
    decreases k,
{
    if k == 0 {
        Seq::empty()
    } else {
        seq![h] + forward_walk(m, m[h].next, (k - 1) as nat)
    }
}

/// The handles read off by starting at `h` and following predecessor handles
/// through `k` nodes.
pub open spec fn backward_walk<T>(m: Map<usize, Node<T>>, h: usize, k: nat) -> Seq<usize>
    decreases k,
{
    if k == 0 {
        Seq::empty()
    } else {
        seq![h] + backward_walk(m, m[h].pre, (k - 1) as nat)
    }
}

/// A doubly-linked deque over nodes that live in an [`IndexMap`] store and
/// are addressed by handles.
///
/// The deque owns only its boundary handles and its length; every operation
/// that touches a node takes the collaborating store as an explicit
/// parameter. The ghost `chain` field records the handles of this deque's
/// nodes from head to tail: it is the mathematical model that the contracts
/// speak of, and [`Deque::wf`] ties it to the scalars and to the store's
/// contents.
pub struct Deque<T, C: IndexMap<T>> {
    first: usize,
    last: usize,
    len: usize,
    chain: Ghost<Seq<usize>>,
    mark: PhantomData<(T, C)>,
}

impl<T, C: IndexMap<T>> Deque<T, C> {
    /// The handles of this deque's nodes, head first.
    pub closed spec fn handles(&self) -> Seq<usize> {
        self.chain@
    }

    /// The head handle, `0` when the deque is empty.
    pub closed spec fn spec_first(&self) -> usize {
        self.first
    }

    /// The tail handle, `0` when the deque is empty.
    pub closed spec fn spec_last(&self) -> usize {
        self.last
    }

    /// The stored length.
    pub closed spec fn spec_len(&self) -> usize {
        self.len
    }

    /// The node at position `i` of the chain is live in `m` and linked to
    /// its neighbours, with `0` standing in for a missing neighbour.
    spec fn linked(&self, m: Map<usize, Node<T>>, i: int) -> bool {
        let hs = self.chain@;
        &&& m.dom().contains(hs[i])
        &&& hs[i] != 0
        &&& m[hs[i]].pre == (if i == 0 {
            0usize
        } else {
            hs[i - 1]
        })
        &&& m[hs[i]].next == (if i == hs.len() - 1 {
            0usize
        } else {
            hs[i + 1]
        })
    }

    /// Well-formedness of the deque with respect to the store contents `m`:
    /// the chain consists of distinct live non-zero handles, consecutive
    /// nodes point at each other, the boundary nodes carry the `0` sentinel,
    /// and the three scalars agree with the chain.
    pub closed spec fn wf(&self, m: Map<usize, Node<T>>) -> bool {
        let hs = self.chain@;
        &&& self.len == hs.len()
        &&& (forall|i: int| 0 <= i < hs.len() ==> self.linked(m, i))
        &&& (forall|i: int, j: int| 0 <= i < j < hs.len() ==> hs[i] != hs[j])
        &&& self.first == (if hs.len() == 0 {
            0usize
        } else {
            hs[0]
        })
        &&& self.last == (if hs.len() == 0 {
            0usize
        } else {
            hs[hs.len() - 1]
        })
    }

    /// The elements of this deque under the store contents `m`, head first.
    pub open spec fn elems(&self, m: Map<usize, Node<T>>) -> Seq<T> {
        self.handles().map(|i: int, h: usize| m[h].elem)
    }

    pub fn new() -> (deque: Self)
        ensures
            deque.handles() == Seq::<usize>::empty(),
            deque.spec_len() == 0,
            deque.spec_first() == 0,
            deque.spec_last() == 0,
            forall|m: Map<usize, Node<T>>| deque.wf(m),
    {
        Deque { first: 0, last: 0, len: 0, chain: Ghost(Seq::empty()), mark: PhantomData }
    }

    /// Append `elem` and return the handle of its fresh node. The new node
    /// becomes the tail; when the deque was empty it becomes the head too,
    /// and otherwise the old tail's successor is pointed at it.
    pub fn push_back(&mut self, elem: T, index_map: &mut C) -> (key: usize)
        requires
            old(self).wf(old(index_map).contents()),
            old(self).spec_len() < usize::MAX,
        ensures
            final(self).wf(final(index_map).contents()),
            key != 0,
            !old(index_map).contents().dom().contains(key),
            final(self).handles() == old(self).handles().push(key),
            final(index_map).contents() == (if old(self).spec_len() == 0 {
                old(index_map).contents().insert(key, (Node { elem, pre: 0usize, next: 0usize }))
            } else {
                old(index_map).contents().insert(
                    old(self).spec_last(),
                    old(index_map).contents()[old(self).spec_last()].with_next(key),
                ).insert(key, (Node { elem, pre: old(self).spec_last(), next: 0usize }))
            }),
            final(self).elems(final(index_map).contents()) == old(self).elems(
                old(index_map).contents(),
            ).push(elem),
    {
        proof {
            let hs0 = old(self).chain@;
            let m0 = old(index_map).contents();
            if hs0.len() > 0 {
                assert(old(self).linked(m0, 0));
                assert(old(self).linked(m0, hs0.len() - 1));
            }
        }
        self.len = self.len + 1;
        if self.last == 0 {
            let key = index_map.insert(Node::new(elem, 0, 0));
            self.last = key;
            self.first = key;
            self.chain = Ghost(self.chain@.push(key));
            proof {
                assert forall|i: int| 0 <= i < self.chain@.len() implies self.linked(
                    index_map.contents(),
                    i,
                ) by {}
                assert(self.elems(index_map.contents()) =~= old(self).elems(
                    old(index_map).contents(),
                ).push(elem));
            }
            key
        } else {
            let last = self.last;
            let key = index_map.insert(Node::new(elem, last, 0));
            index_map.set_next(last, key);
            self.last = key;
            self.chain = Ghost(self.chain@.push(key));
            proof {
                let hs0 = old(self).chain@;
                let m0 = old(index_map).contents();
                let m2 = index_map.contents();
                assert forall|i: int| 0 <= i < hs0.len() implies hs0[i] != key by {
                    assert(old(self).linked(m0, i));
                }
                assert(m2 =~= m0.insert(last, m0[last].with_next(key)).insert(
                    key,
                    (Node { elem, pre: last, next: 0usize }),
                ));
                assert forall|i: int| 0 <= i < self.chain@.len() implies self.linked(m2, i) by {
                    if i < hs0.len() {
                        assert(old(self).linked(m0, i));
                        if i > 0 {
                            assert(old(self).linked(m0, i - 1));
                        }
                    } else {
                        assert(old(self).linked(m0, hs0.len() - 1));
                    }
                }
                assert(self.elems(m2) =~= old(self).elems(m0).push(elem));
            }
            key
        }
    }

    /// Prepend `elem` and return the handle of its fresh node. The new node
    /// becomes the head; when the deque was empty it becomes the tail too,
    /// and otherwise the old head's predecessor is pointed at it.
    pub fn push_front(&mut self, elem: T, index_map: &mut C) -> (key: usize)
        requires
            old(self).wf(old(index_map).contents()),
            old(self).spec_len() < usize::MAX,
        ensures
            final(self).wf(final(index_map).contents()),
            key != 0,
            !old(index_map).contents().dom().contains(key),
            final(self).handles() == seq![key] + old(self).handles(),
            final(index_map).contents() == (if old(self).spec_len() == 0 {
                old(index_map).contents().insert(key, (Node { elem, pre: 0usize, next: 0usize }))
            } else {
                old(index_map).contents().insert(
                    old(self).spec_first(),
                    old(index_map).contents()[old(self).spec_first()].with_pre(key),
                ).insert(key, (Node { elem, pre: 0usize, next: old(self).spec_first() }))
            }),
            final(self).elems(final(index_map).contents()) == seq![elem] + old(self).elems(
                old(index_map).contents(),
            ),
    {
        proof {
            let hs0 = old(self).chain@;
            let m0 = old(index_map).contents();
            if hs0.len() > 0 {
                assert(old(self).linked(m0, 0));
                assert(old(self).linked(m0, hs0.len() - 1));
            }
        }
        self.len = self.len + 1;
        if self.first == 0 {
            let key = index_map.insert(Node::new(elem, 0, 0));
            self.last = key;
            self.first = key;
            self.chain = Ghost(seq![key] + self.chain@);
            proof {
                assert forall|i: int| 0 <= i < self.chain@.len() implies self.linked(
                    index_map.contents(),
                    i,
                ) by {}
                assert(self.elems(index_map.contents()) =~= seq![elem] + old(self).elems(
                    old(index_map).contents(),
                ));
            }
            key
        } else {
            let first = self.first;
            let key = index_map.insert(Node::new(elem, 0, first));
            index_map.set_pre(first, key);
            self.first = key;
            self.chain = Ghost(seq![key] + self.chain@);
            proof {
                let hs0 = old(self).chain@;
                let m0 = old(index_map).contents();
                let m2 = index_map.contents();
                assert forall|i: int| 0 <= i < hs0.len() implies hs0[i] != key by {
                    assert(old(self).linked(m0, i));
                }
                assert(m2 =~= m0.insert(first, m0[first].with_pre(key)).insert(
                    key,
                    (Node { elem, pre: 0usize, next: first }),
                ));
                assert forall|i: int| 0 <= i < self.chain@.len() implies self.linked(m2, i) by {
                    if i > 0 {
                        assert(old(self).linked(m0, i - 1));
                        if i - 1 > 0 {
                            assert(old(self).linked(m0, i - 2));
                        }
                        if i - 1 < hs0.len() - 1 {
                            assert(old(self).linked(m0, i));
                        }
                    }
                }
                assert(self.elems(m2) =~= seq![elem] + old(self).elems(m0));
            }
            key
        }
    }

    /// Remove the head node and return its element; the deque must be
    /// non-empty. The second node, if any, becomes the head and its
    /// predecessor handle is reset to the `0` sentinel.
    pub fn pop_front_unchecked(&mut self, index_map: &mut C) -> (elem: T)
        requires
            old(self).wf(old(index_map).contents()),
            old(self).spec_len() != 0,
        ensures
            final(self).wf(final(index_map).contents()),
            elem == old(index_map).contents()[old(self).spec_first()].elem,
            final(self).handles() == old(self).handles().drop_first(),
            final(index_map).contents() == pop_front_step(
                old(self).handles(),
                old(index_map).contents(),
            ).1,
            final(self).elems(final(index_map).contents()) == old(self).elems(
                old(index_map).contents(),
            ).drop_first(),
    {
        proof {
            let hs0 = old(self).chain@;
            let m0 = old(index_map).contents();
            assert(old(self).linked(m0, 0));
            if hs0.len() > 1 {
                assert(old(self).linked(m0, 1));
                assert(hs0[0] != hs0[1]);
            }
        }
        self.len = self.len - 1;
        let node = index_map.remove(self.first);
        self.first = node.next;
        if self.first == 0 {
            self.last = 0;
        } else {
            index_map.set_pre(self.first, 0);
        }
        self.chain = Ghost(self.chain@.drop_first());
        proof {
            let hs0 = old(self).chain@;
            let m0 = old(index_map).contents();
            let m2 = index_map.contents();
            assert(m2 =~= pop_front_step(hs0, m0).1);
            assert forall|i: int| 0 <= i < self.chain@.len() implies self.linked(m2, i) by {
                assert(old(self).linked(m0, i + 1));
                assert(hs0[0] != hs0[i + 1]);
                if i + 1 < hs0.len() - 1 {
                    assert(old(self).linked(m0, i + 2));
                }
            }
            assert(self.elems(m2) =~= old(self).elems(m0).drop_first());
        }
        node.elem
    }

    /// Remove the head node and return its element, or `None` when the deque
    /// is empty.
    pub fn pop_front(&mut self, index_map: &mut C) -> (elem: Option<T>)
        requires
            old(self).wf(old(index_map).contents()),
        ensures
            final(self).wf(final(index_map).contents()),
            old(self).spec_len() == 0 ==> {
                &&& elem is None
                &&& final(self).handles() == old(self).handles()
                &&& final(index_map).contents() == old(index_map).contents()
            },
            old(self).spec_len() != 0 ==> {
                &&& elem == Some(old(index_map).contents()[old(self).spec_first()].elem)
                &&& final(self).handles() == old(self).handles().drop_first()
                &&& final(index_map).contents() == pop_front_step(
                    old(self).handles(),
                    old(index_map).contents(),
                ).1
            },
    {
        proof {
            if old(self).chain@.len() > 0 {
                assert(old(self).linked(old(index_map).contents(), 0));
            }
        }
        if self.first == 0 {
            None
        } else {
            Some(self.pop_front_unchecked(index_map))
        }
    }

    /// Remove the tail node and return its element; the deque must be
    /// non-empty. The next-to-last node, if any, becomes the tail and its
    /// successor handle is reset to the `0` sentinel.
    pub fn pop_back_unchecked(&mut self, index_map: &mut C) -> (elem: T)
        requires
            old(self).wf(old(index_map).contents()),
            old(self).spec_len() != 0,
        ensures
            final(self).wf(final(index_map).contents()),
            elem == old(index_map).contents()[old(self).spec_last()].elem,
            final(self).handles() == old(self).handles().drop_last(),
            final(index_map).contents() == (if old(self).spec_len() > 1 {
                old(index_map).contents().insert(
                    old(self).handles()[old(self).spec_len() - 2],
                    old(index_map).contents()[old(self).handles()[old(self).spec_len() - 2]].with_next(0),
                ).remove(old(self).spec_last())
            } else {
                old(index_map).contents().remove(old(self).spec_last())
            }),
            final(self).elems(final(index_map).contents()) == old(self).elems(
                old(index_map).contents(),
            ).drop_last(),
    {
        proof {
            let hs0 = old(self).chain@;
            let m0 = old(index_map).contents();
            assert(old(self).linked(m0, hs0.len() - 1));
            if hs0.len() > 1 {
                assert(old(self).linked(m0, hs0.len() - 2));
                assert(hs0[hs0.len() - 1] != hs0[hs0.len() - 2]);
            }
        }
        self.len = self.len - 1;
        let node = index_map.remove(self.last);
        self.last = node.pre;
        if self.last == 0 {
            self.first = 0;
        } else {
            index_map.set_next(self.last, 0);
        }
        self.chain = Ghost(self.chain@.drop_last());
        proof {
            let hs0 = old(self).chain@;
            let m0 = old(index_map).contents();
            let m2 = index_map.contents();
            assert forall|i: int| 0 <= i < self.chain@.len() implies self.linked(m2, i) by {
                assert(old(self).linked(m0, i));
                assert(hs0[hs0.len() - 1] != hs0[i]);
                if i > 0 {
                    assert(old(self).linked(m0, i - 1));
                }
                if i < hs0.len() - 2 {
                    assert(old(self).linked(m0, i + 1));
                    assert(hs0[hs0.len() - 1] != hs0[i + 1]);
                }
            }
            assert(self.elems(m2) =~= old(self).elems(m0).drop_last());
        }
        node.elem
    }

    /// Remove the tail node and return its element, or `None` when the deque
    /// is empty.
    pub fn pop_back(&mut self, index_map: &mut C) -> (elem: Option<T>)
        requires
            old(self).wf(old(index_map).contents()),
        ensures
            final(self).wf(final(index_map).contents()),
            old(self).spec_len() == 0 ==> {
                &&& elem is None
                &&& final(self).handles() == old(self).handles()
                &&& final(index_map).contents() == old(index_map).contents()
            },
            old(self).spec_len() != 0 ==> {
                &&& elem == Some(old(index_map).contents()[old(self).spec_last()].elem)
                &&& final(self).handles() == old(self).handles().drop_last()
                &&& final(index_map).contents() == (if old(self).spec_len() > 1 {
                old(index_map).contents().insert(
                    old(self).handles()[old(self).spec_len() - 2],
                    old(index_map).contents()[old(self).handles()[old(self).spec_len() - 2]].with_next(0),
                ).remove(old(self).spec_last())
            } else {
                old(index_map).contents().remove(old(self).spec_last())
            })
            },
    {
        proof {
            if old(self).chain@.len() > 0 {
                assert(old(self).linked(old(index_map).contents(), old(self).chain@.len() - 1));
            }
        }
        if self.last == 0 {
            None
        } else {
            Some(self.pop_back_unchecked(index_map))
        }
    }

    /// Insert `elem` immediately after the node at `index` and return the
    /// handle of its fresh node. `index` must be a handle of this deque: no
    /// membership check is made. When `index` was the tail, the new node
    /// becomes the tail.
    pub fn push_to_back(&mut self, elem: T, index: usize, index_map: &mut C) -> (key: usize)
        requires
            old(self).wf(old(index_map).contents()),
            old(self).handles().contains(index),
            old(self).spec_len() < usize::MAX,
        ensures
            final(self).wf(final(index_map).contents()),
            key != 0,
            !old(index_map).contents().dom().contains(key),
            ({
                let hs0 = old(self).handles();
                let m0 = old(index_map).contents();
                let i = hs0.index_of(index);
                let next = if i == hs0.len() - 1 {
                    0usize
                } else {
                    hs0[i + 1]
                };
                &&& final(self).handles() == hs0.insert(i + 1, key)
                &&& final(index_map).contents() == (if next == 0 {
                    m0.insert(index, m0[index].with_next(key)).insert(
                        key,
                        (Node { elem, pre: index, next: 0usize }),
                    )
                } else {
                    m0.insert(index, m0[index].with_next(key)).insert(
                        next,
                        m0[next].with_pre(key),
                    ).insert(key, (Node { elem, pre: index, next }))
                })
                &&& final(self).elems(final(index_map).contents()) == old(self).elems(m0).insert(
                    i + 1,
                    elem,
                )
            }),
    {
        proof {
            let hs0 = old(self).chain@;
            let m0 = old(index_map).contents();
            let i = hs0.index_of(index);
            assert(0 <= i < hs0.len() && hs0[i] == index);
            assert(old(self).linked(m0, i));
            if i < hs0.len() - 1 {
                assert(old(self).linked(m0, i + 1));
                assert(hs0[i] != hs0[i + 1]);
            }
        }
        self.len = self.len + 1;
        let key = index_map.insert(Node::new(elem, index, 0));
        let next = index_map.get_next(index);
        index_map.set_next(index, key);
        if next == 0 {
            self.last = key;
        } else {
            index_map.set_pre(next, key);
            index_map.set_next(key, next);
        }
        self.chain = Ghost(self.chain@.insert(self.chain@.index_of(index) + 1, key));
        proof {
            let hs0 = old(self).chain@;
            let m0 = old(index_map).contents();
            let m2 = index_map.contents();
            let i = hs0.index_of(index);
            assert forall|j: int| 0 <= j < hs0.len() implies hs0[j] != key by {
                assert(old(self).linked(m0, j));
            }
            if i < hs0.len() - 1 {
                assert(m2 =~= m0.insert(index, m0[index].with_next(key)).insert(
                    hs0[i + 1],
                    m0[hs0[i + 1]].with_pre(key),
                ).insert(key, (Node { elem, pre: index, next: hs0[i + 1] })));
            } else {
                assert(m2 =~= m0.insert(index, m0[index].with_next(key)).insert(
                    key,
                    (Node { elem, pre: index, next: 0usize }),
                ));
            }
            assert forall|a: int, b: int|
                0 <= a < b < self.chain@.len() implies self.chain@[a] != self.chain@[b] by {
                if a != i + 1 && b != i + 1 {
                    let aa = if a < i + 1 {
                        a
                    } else {
                        a - 1
                    };
                    let bb = if b < i + 1 {
                        b
                    } else {
                        b - 1
                    };
                    assert(hs0[aa] != hs0[bb]);
                }
            }
            assert forall|j: int| 0 <= j < self.chain@.len() implies self.linked(m2, j) by {
                if j < i + 1 {
                    assert(old(self).linked(m0, j));
                    if j > 0 {
                        assert(old(self).linked(m0, j - 1));
                        assert(hs0[j - 1] != hs0[i]);
                    }
                    if j < i {
                        assert(old(self).linked(m0, j + 1));
                        assert(hs0[j + 1] != hs0[i] || j + 1 == i);
                    }
                } else if j > i + 1 {
                    assert(old(self).linked(m0, j - 1));
                    assert(hs0[j - 1] != hs0[i] || j - 1 == i);
                    if j - 1 > 0 {
                        assert(old(self).linked(m0, j - 2));
                        assert(hs0[j - 2] != hs0[i] || j - 2 == i);
                    }
                    if j - 1 < hs0.len() - 1 {
                        assert(old(self).linked(m0, j));
                        assert(hs0[j] != hs0[i] || j == i);
                    }
                }
            }
            assert(self.elems(m2) =~= old(self).elems(m0).insert(i + 1, elem));
        }
        key
    }

    /// Insert `elem` immediately before the node at `index` and return the
    /// handle of its fresh node. `index` must be a handle of this deque: no
    /// membership check is made. When `index` was the head, the new node
    /// becomes the head.
    pub fn push_to_front(&mut self, elem: T, index: usize, index_map: &mut C) -> (key: usize)
        requires
            old(self).wf(old(index_map).contents()),
            old(self).handles().contains(index),
            old(self).spec_len() < usize::MAX,
        ensures
            final(self).wf(final(index_map).contents()),
            key != 0,
            !old(index_map).contents().dom().contains(key),
            ({
                let hs0 = old(self).handles();
                let m0 = old(index_map).contents();
                let i = hs0.index_of(index);
                let pre = if i == 0 {
                    0usize
                } else {
                    hs0[i - 1]
                };
                &&& final(self).handles() == hs0.insert(i, key)
                &&& final(index_map).contents() == (if pre == 0 {
                    m0.insert(index, m0[index].with_pre(key)).insert(
                        key,
                        (Node { elem, pre: 0usize, next: index }),
                    )
                } else {
                    m0.insert(index, m0[index].with_pre(key)).insert(
                        pre,
                        m0[pre].with_next(key),
                    ).insert(key, (Node { elem, pre, next: index }))
                })
                &&& final(self).elems(final(index_map).contents()) == old(self).elems(m0).insert(
                    i,
                    elem,
                )
            }),
    {
        proof {
            let hs0 = old(self).chain@;
            let m0 = old(index_map).contents();
            let i = hs0.index_of(index);
            assert(0 <= i < hs0.len() && hs0[i] == index);
            assert(old(self).linked(m0, i));
            if i > 0 {
                assert(old(self).linked(m0, i - 1));
                assert(hs0[i - 1] != hs0[i]);
            }
        }
        self.len = self.len + 1;
        let key = index_map.insert(Node::new(elem, 0, index));
        let pre = index_map.get_pre(index);
        index_map.set_pre(index, key);
        if pre == 0 {
            self.first = key;
        } else {
            index_map.set_next(pre, key);
            index_map.set_pre(key, pre);
        }
        self.chain = Ghost(self.chain@.insert(self.chain@.index_of(index), key));
        proof {
            let hs0 = old(self).chain@;
            let m0 = old(index_map).contents();
            let m2 = index_map.contents();
            let i = hs0.index_of(index);
            assert forall|j: int| 0 <= j < hs0.len() implies hs0[j] != key by {
                assert(old(self).linked(m0, j));
            }
            if i > 0 {
                assert(m2 =~= m0.insert(index, m0[index].with_pre(key)).insert(
                    hs0[i - 1],
                    m0[hs0[i - 1]].with_next(key),
                ).insert(key, (Node { elem, pre: hs0[i - 1], next: index })));
            } else {
                assert(m2 =~= m0.insert(index, m0[index].with_pre(key)).insert(
                    key,
                    (Node { elem, pre: 0usize, next: index }),
                ));
            }
            assert forall|a: int, b: int|
                0 <= a < b < self.chain@.len() implies self.chain@[a] != self.chain@[b] by {
                if a != i && b != i {
                    let aa = if a < i {
                        a
                    } else {
                        a - 1
                    };
                    let bb = if b < i {
                        b
                    } else {
                        b - 1
                    };
                    assert(hs0[aa] != hs0[bb]);
                }
            }
            assert forall|j: int| 0 <= j < self.chain@.len() implies self.linked(m2, j) by {
                if j < i {
                    assert(old(self).linked(m0, j));
                    if j > 0 {
                        assert(old(self).linked(m0, j - 1));
                        assert(hs0[j - 1] != hs0[i]);
                    }
                    if j < i - 1 {
                        assert(old(self).linked(m0, j + 1));
                        assert(hs0[j + 1] != hs0[i]);
                    }
                } else if j > i {
                    assert(old(self).linked(m0, j - 1));
                    assert(hs0[j - 1] != hs0[i] || j - 1 == i);
                    if j - 1 > 0 {
                        assert(old(self).linked(m0, j - 2));
                        assert(hs0[j - 2] != hs0[i] || j - 2 == i);
                    }
                    if j - 1 < hs0.len() - 1 {
                        assert(old(self).linked(m0, j));
                        assert(hs0[j] != hs0[i] || j == i);
                    }
                }
            }
            assert(self.elems(m2) =~= old(self).elems(m0).insert(i, elem));
        }
        key
    }

    /// Remove the node at `key` from anywhere in the deque and return its
    /// element. `key` must be a handle of this deque: no membership check is
    /// made. The four structural cases — only node, tail, head, interior —
    /// are told apart by the removed node's `(pre, next)` sentinel pair.
    pub fn remove(&mut self, key: usize, index_map: &mut C) -> (elem: T)
        requires
            old(self).wf(old(index_map).contents()),
            old(self).handles().contains(key),
        ensures
            final(self).wf(final(index_map).contents()),
            ({
                let hs0 = old(self).handles();
                let m0 = old(index_map).contents();
                let i = hs0.index_of(key);
                &&& elem == m0[key].elem
                &&& final(self).handles() == hs0.remove(i)
                &&& final(index_map).contents() == unlink_patch(m0, hs0, i).remove(key)
                &&& final(self).elems(final(index_map).contents()) == old(self).elems(m0).remove(i)
            }),
    {
        proof {
            let hs0 = old(self).chain@;
            let m0 = old(index_map).contents();
            let i = hs0.index_of(key);
            assert(0 <= i < hs0.len() && hs0[i] == key);
            assert(old(self).linked(m0, i));
            if i > 0 {
                assert(old(self).linked(m0, i - 1));
                assert(hs0[i - 1] != hs0[i]);
            }
            if i < hs0.len() - 1 {
                assert(old(self).linked(m0, i + 1));
                assert(hs0[i] != hs0[i + 1]);
            }
            if i > 0 && i < hs0.len() - 1 {
                assert(hs0[i - 1] != hs0[i + 1]);
            }
        }
        let node = index_map.remove(key);
        match (node.pre, node.next) {
            (0, 0) => {
                self.first = 0;
                self.last = 0;
            },
            (_, 0) => {
                index_map.set_next(node.pre, 0);
                self.last = node.pre;
            },
            (0, _) => {
                index_map.set_pre(node.next, 0);
                self.first = node.next;
            },
            (_, _) => {
                index_map.set_next(node.pre, node.next);
                index_map.set_pre(node.next, node.pre);
            },
        }
        self.len = self.len - 1;
        self.chain = Ghost(self.chain@.remove(self.chain@.index_of(key)));
        proof {
            let hs0 = old(self).chain@;
            let m0 = old(index_map).contents();
            let m2 = index_map.contents();
            let i = hs0.index_of(key);
            assert(m2 =~= unlink_patch(m0, hs0, i).remove(key));
            assert forall|a: int, b: int|
                0 <= a < b < self.chain@.len() implies self.chain@[a] != self.chain@[b] by {
                let aa = if a < i {
                    a
                } else {
                    a + 1
                };
                let bb = if b < i {
                    b
                } else {
                    b + 1
                };
                assert(hs0[aa] != hs0[bb]);
            }
            assert forall|j: int| 0 <= j < self.chain@.len() implies self.linked(m2, j) by {
                let jj = if j < i {
                    j
                } else {
                    j + 1
                };
                assert(old(self).linked(m0, jj));
                if jj > 0 {
                    assert(old(self).linked(m0, jj - 1));
                    assert(hs0[jj - 1] != hs0[i] || jj - 1 == i);
                }
                if jj < hs0.len() - 1 {
                    assert(old(self).linked(m0, jj + 1));
                    assert(hs0[jj + 1] != hs0[i] || jj + 1 == i);
                }
                assert(hs0[jj] != hs0[i]);
            }
            assert(self.elems(m2) =~= old(self).elems(m0).remove(i));
        }
        node.elem
    }

    /// Remove the node at `key` if `key` is live in the store, returning its
    /// element, or return `None` and change nothing when it is not. The check
    /// is a liveness probe only: a handle that is live in the store but was
    /// never linked into this deque must not be passed, as with [`Deque::remove`].
    pub fn try_remove(&mut self, key: usize, index_map: &mut C) -> (elem: Option<T>)
        requires
            old(self).wf(old(index_map).contents()),
            old(index_map).contents().dom().contains(key) ==> old(self).handles().contains(key),
        ensures
            final(self).wf(final(index_map).contents()),
            !old(index_map).contents().dom().contains(key) ==> {
                &&& elem is None
                &&& final(self).handles() == old(self).handles()
                &&& final(self).spec_first() == old(self).spec_first()
                &&& final(self).spec_last() == old(self).spec_last()
                &&& final(self).spec_len() == old(self).spec_len()
                &&& final(index_map).contents() == old(index_map).contents()
            },
            old(index_map).contents().dom().contains(key) ==> {
                let hs0 = old(self).handles();
                let m0 = old(index_map).contents();
                let i = hs0.index_of(key);
                &&& elem == Some(m0[key].elem)
                &&& final(self).handles() == hs0.remove(i)
                &&& final(index_map).contents() == unlink_patch(m0, hs0, i).remove(key)
            },
    {
        if index_map.contains(key) {
            Some(self.remove(key, index_map))
        } else {
            None
        }
    }

    /// Empty the deque by removing node after node from the head, walking
    /// successor handles. Exactly this deque's nodes leave the store; every
    /// other entry is untouched, and the end state is the one that popping
    /// the head once per element would reach.
    pub fn clear(&mut self, index_map: &mut C)
        requires
            old(self).wf(old(index_map).contents()),
        ensures
            final(self).wf(final(index_map).contents()),
            final(self).handles() == Seq::<usize>::empty(),
            final(self).spec_len() == 0,
            final(self).spec_first() == 0,
            final(self).spec_last() == 0,
            final(index_map).contents() == old(index_map).contents().remove_keys(
                old(self).handles().to_set(),
            ),
            final(index_map).contents() == pop_front_steps(
                old(self).handles(),
                old(index_map).contents(),
                old(self).handles().len(),
            ).1,
    {
        let ghost hs0 = self.chain@;
        let ghost m0 = index_map.contents();
        let ghost mut k: int = 0;
        while self.first != 0
            invariant
                old(self).wf(m0),
                hs0 == old(self).chain@,
                m0 == old(index_map).contents(),
                0 <= k <= hs0.len(),
                self.chain@ == hs0,
                index_map.contents() == m0.remove_keys(hs0.take(k).to_set()),
                self.first == (if k == hs0.len() {
                    0usize
                } else {
                    hs0[k]
                }),
            decreases hs0.len() - k,
        {
            proof {
                assert(old(self).linked(m0, k));
                assert forall|j: int| 0 <= j < k implies hs0[j] != hs0[k] by {}
                assert(!hs0.take(k).to_set().contains(hs0[k])) by {
                    if hs0.take(k).to_set().contains(hs0[k]) {
                        let w = choose|w: int| 0 <= w < k && hs0.take(k)[w] == hs0[k];
                        assert(hs0[w] != hs0[k]);
                    }
                }
                if k < hs0.len() - 1 {
                    assert(old(self).linked(m0, k + 1));
                }
            }
            let node = index_map.remove(self.first);
            self.first = node.next;
            proof {
                k = k + 1;
                let prefix = hs0.take(k - 1);
                let extended = hs0.take(k);
                assert forall|key: usize| extended.to_set().contains(key) implies (
                prefix.to_set().contains(key) || key == hs0[k - 1]) by {
                    let w = choose|w: int| 0 <= w < extended.len() && extended[w] == key;
                    if w < k - 1 {
                        assert(prefix[w] == key);
                    }
                }
                assert forall|key: usize| prefix.to_set().contains(key) implies extended.to_set()
                    .contains(key) by {
                    let w = choose|w: int| 0 <= w < prefix.len() && prefix[w] == key;
                    assert(extended[w] == key);
                }
                assert(hs0.take(k)[k - 1] == hs0[k - 1]);
                assert(hs0.take(k).to_set().contains(hs0[k - 1]));
                assert(index_map.contents() =~= m0.remove_keys(hs0.take(k).to_set()));
            }
        }
        proof {
            if k < hs0.len() {
                assert(old(self).linked(m0, k));
            }
            assert(hs0.take(hs0.len() as int) =~= hs0);
        }
        self.last = 0;
        self.len = 0;
        self.chain = Ghost(Seq::empty());
        proof {
            lemma_clear_is_iterated_pop_front(hs0, m0);
        }
    }

    pub fn get_first(&self) -> (first: usize)
        ensures
            first == self.spec_first(),
    {
        self.first
    }

    pub fn get_last(&self) -> (last: usize)
        ensures
            last == self.spec_last(),
    {
        self.last
    }

    pub fn len(&self) -> (len: usize)
        ensures
            len == self.spec_len(),
    {
        self.len
    }

    /// A forward iterator over this deque's elements, head first, reading
    /// nodes from `container`. A fresh call restarts from the head and
    /// mutates nothing.
    pub fn iter<'a>(&self, container: &'a C) -> (it: Iter<'a, T, C>)
        requires
            self.wf(container.contents()),
        ensures
            it.wf(),
            it.store() == *container,
            it.remaining() == self.handles(),
            it.future_elems() == self.elems(container.contents()),
    {
        let it = Iter { next: self.first, container, rest: Ghost(self.chain@), mark: PhantomData };
        proof {
            assert forall|i: int| 0 <= i < it.remaining().len() implies it.linked_at(i) by {
                assert(self.linked(container.contents(), i));
            }
            if self.chain@.len() > 0 {
                assert(self.linked(container.contents(), 0));
            }
            assert(it.future_elems() =~= self.elems(container.contents()));
        }
        it
    }

    /// In a well-formed deque the scalars are determined by the chain: the
    /// length counts its handles, and head and tail are its first and last
    /// handles, or `0` when it is empty.
    pub proof fn lemma_wf_boundaries(&self, m: Map<usize, Node<T>>)
        requires
            self.wf(m),
        ensures
            self.spec_len() == self.handles().len(),
            self.spec_first() == (if self.handles().len() == 0 {
                0usize
            } else {
                self.handles()[0]
            }),
            self.spec_last() == (if self.handles().len() == 0 {
                0usize
            } else {
                self.handles()[self.handles().len() - 1]
            }),
    {
    }

    /// The three emptiness markers agree in every reachable state: the head
    /// handle, the tail handle and the length are zero together.
    pub proof fn lemma_empty_sentinels_agree(&self, m: Map<usize, Node<T>>)
        requires
            self.wf(m),
        ensures
            self.spec_first() == 0 <==> self.spec_len() == 0,
            self.spec_last() == 0 <==> self.spec_len() == 0,
            self.spec_first() == 0 <==> self.spec_last() == 0,
    {
        if self.chain@.len() > 0 {
            assert(self.linked(m, 0));
            assert(self.linked(m, self.chain@.len() - 1));
        }
    }

    proof fn lemma_forward_from(&self, m: Map<usize, Node<T>>, i: int)
        requires
            self.wf(m),
            0 <= i < self.handles().len(),
        ensures
            forward_walk(m, self.handles()[i], (self.handles().len() - i) as nat)
                == self.handles().subrange(i, self.handles().len() as int),
        decreases self.handles().len() - i,
    {
        let hs = self.handles();
        assert(self.linked(m, i));
        if i == hs.len() - 1 {
            assert(forward_walk(m, m[hs[i]].next, 0nat) == Seq::<usize>::empty());
            assert(forward_walk(m, hs[i], (hs.len() - i) as nat) =~= hs.subrange(
                i,
                hs.len() as int,
            ));
        } else {
            self.lemma_forward_from(m, i + 1);
            assert(forward_walk(m, hs[i], (hs.len() - i) as nat) =~= hs.subrange(
                i,
                hs.len() as int,
            ));
        }
    }

    proof fn lemma_backward_from(&self, m: Map<usize, Node<T>>, i: int)
        requires
            self.wf(m),
            0 <= i < self.handles().len(),
        ensures
            backward_walk(m, self.handles()[i], (i + 1) as nat) == self.handles().subrange(
                0,
                i + 1,
            ).reverse(),
        decreases i,
    {
        let hs = self.handles();
        assert(self.linked(m, i));
        if i == 0 {
            assert(backward_walk(m, m[hs[i]].pre, 0nat) == Seq::<usize>::empty());
            assert(backward_walk(m, hs[i], 1) =~= hs.subrange(0, 1).reverse());
        } else {
            self.lemma_backward_from(m, i - 1);
            assert(backward_walk(m, hs[i], (i + 1) as nat) =~= hs.subrange(0, i + 1).reverse());
        }
    }

    /// Forward traversal from the head and backward traversal from the tail
    /// both read off `length` handles, they visit exactly this deque's
    /// chain, and the two orders are exact reverses of each other.
    pub proof fn lemma_traversals_are_reverses(&self, m: Map<usize, Node<T>>)
        requires
            self.wf(m),
        ensures
            forward_walk(m, self.spec_first(), self.spec_len() as nat) == self.handles(),
            backward_walk(m, self.spec_last(), self.spec_len() as nat)
                == self.handles().reverse(),
            forward_walk(m, self.spec_first(), self.spec_len() as nat).len() == self.spec_len(),
            backward_walk(m, self.spec_last(), self.spec_len() as nat).len() == self.spec_len(),
            forward_walk(m, self.spec_first(), self.spec_len() as nat) == backward_walk(
                m,
                self.spec_last(),
                self.spec_len() as nat,
            ).reverse(),
    {
        let hs = self.handles();
        if hs.len() == 0 {
            assert(forward_walk(m, self.spec_first(), 0) =~= hs);
            assert(backward_walk(m, self.spec_last(), 0) =~= hs.reverse());
        } else {
            self.lemma_forward_from(m, 0);
            assert(hs.subrange(0, hs.len() as int) =~= hs);
            self.lemma_backward_from(m, hs.len() - 1);
        }
        assert(hs.reverse().reverse() =~= hs);
    }
}

impl<T, C: IndexMap<T>> Clone for Deque<T, C> {
    /// Cloning copies the three scalars; the clone describes the same chain
    /// of nodes in the same store.
    fn clone(&self) -> (other: Self)
        ensures
            other.handles() == self.handles(),
            other.spec_first() == self.spec_first(),
            other.spec_last() == self.spec_last(),
            other.spec_len() == self.spec_len(),
            forall|m: Map<usize, Node<T>>| other.wf(m) <==> self.wf(m),
    {
        Deque {
            first: self.first,
            last: self.last,
            len: self.len,
            chain: Ghost(self.chain@),
            mark: PhantomData,
        }
    }
}

impl<T, C: IndexMap<T>> Default for Deque<T, C> {
    /// The default deque is the empty one.
    fn default() -> (deque: Self)
        ensures
            deque.handles() == Seq::<usize>::empty(),
            deque.spec_len() == 0,
            deque.spec_first() == 0,
            deque.spec_last() == 0,
            forall|m: Map<usize, Node<T>>| deque.wf(m),
    {
        Deque::new()
    }
}

/// A forward iterator over a deque, walking successor handles through a
/// shared borrow of the node store. The ghost `rest` field holds the handles
/// not yet visited.
pub struct Iter<'a, T, C: IndexMap<T>> {
    next: usize,
    container: &'a C,
    rest: Ghost<Seq<usize>>,
    mark: PhantomData<T>,
}

impl<'a, T, C: IndexMap<T>> Iter<'a, T, C> {
    /// The handles not yet visited, in the order they will be visited.
    pub closed spec fn remaining(&self) -> Seq<usize> {
        self.rest@
    }

    /// The store this iterator reads from.
    pub closed spec fn store(&self) -> C {
        *self.container
    }

    /// The elements not yet visited, in the order they will be visited.
    pub open spec fn future_elems(&self) -> Seq<T> {
        self.remaining().map(|i: int, h: usize| self.store().contents()[h].elem)
    }

    /// The handle at position `i` of the remaining chain is live, non-zero,
    /// and points at its successor in the chain.
    spec fn linked_at(&self, i: int) -> bool {
        let hs = self.rest@;
        let m = self.container.contents();
        &&& m.dom().contains(hs[i])
        &&& hs[i] != 0
        &&& m[hs[i]].next == (if i == hs.len() - 1 {
            0usize
        } else {
            hs[i + 1]
        })
    }

    /// The remaining handles form a successor chain ending in the `0`
    /// sentinel, and the cursor sits on its head.
    pub closed spec fn wf(&self) -> bool {
        &&& (forall|i: int| 0 <= i < self.rest@.len() ==> self.linked_at(i))
        &&& self.next == (if self.rest@.len() == 0 {
            0usize
        } else {
            self.rest@[0]
        })
    }

    /// Yield a reference to the next element, or `None` once the walk has
    /// reached the tail.
    pub fn next(&mut self) -> (elem: Option<&'a T>)
        requires
            old(self).wf(),
        ensures
            final(self).wf(),
            final(self).store() == old(self).store(),
            old(self).remaining().len() == 0 ==> {
                &&& elem is None
                &&& final(self).remaining() == old(self).remaining()
            },
            old(self).remaining().len() != 0 ==> {
                &&& elem matches Some(e) && *e == old(self).future_elems()[0]
                &&& final(self).remaining() == old(self).remaining().drop_first()
                &&& final(self).future_elems() == old(self).future_elems().drop_first()
            },
    {
        proof {
            if old(self).rest@.len() > 0 {
                assert(old(self).linked_at(0));
            }
        }
        if self.next == 0 {
            None
        } else {
            let elem = self.container.get_elem(self.next);
            let nxt = self.container.get_next(self.next);
            self.next = nxt;
            self.rest = Ghost(self.rest@.drop_first());
            proof {
                assert forall|i: int| 0 <= i < self.rest@.len() implies self.linked_at(i) by {
                    assert(old(self).linked_at(i + 1));
                }
                if self.rest@.len() > 0 {
                    assert(old(self).linked_at(1));
                }
                assert(self.future_elems() =~= old(self).future_elems().drop_first());
            }
            Some(elem)
        }
    }
}

/// Iteration is a pure function of the deque and the store: two iterators
/// that start from the same remaining chain over the same store contents
/// promise identical element sequences, so two successive `iter` calls on an
/// unmodified deque yield the same elements.
pub proof fn lemma_iteration_deterministic<'a, 'b, T, C: IndexMap<T>>(
    it1: Iter<'a, T, C>,
    it2: Iter<'b, T, C>,
)
    requires
        it1.remaining() == it2.remaining(),
        it1.store() == it2.store(),
    ensures
        it1.future_elems() == it2.future_elems(),
{
    assert(it1.future_elems() =~= it2.future_elems());
}

} // verus!

