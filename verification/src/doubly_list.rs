//! A doubly-linked sequence container.
//!
//! Nodes live in an arena (`slots`); the forward chain is made of owning
//! arena indices (`next`), while `prev` and `tail` are non-owning backward
//! lookups. A ghost sequence `order` records the arena index of every node
//! in front-to-back order; the well-formedness invariant ties every `next`,
//! `prev`, `head` and `tail` link to that one authoritative order, so the
//! links can never disagree with each other.

use vstd::prelude::*;

verus! {

/// One node of the chain: an element, the owning forward link, and the
/// non-owning backward link. Links are arena indices into `LinkedList::slots`.
struct Node<T> {
    data: T,
    next: Option<usize>,
    prev: Option<usize>,
}

/// A doubly-linked sequence with O(1) operations at both ends.
///
/// A slot holding `None` is a node that has been removed and destroyed;
/// a slot holding `Some` is a live node of the chain.
pub struct LinkedList<T> {
    slots: Vec<Option<Node<T>>>,
    head: Option<usize>,
    tail: Option<usize>,
    order: Ghost<Seq<usize>>,
}

/// The node standing at chain position `i` (front-to-back) of an arena
/// `slots` whose front-to-back slot indices are `order`.
spec fn node_at<T>(slots: Seq<Option<Node<T>>>, order: Seq<usize>, i: int) -> Node<T> {
    slots[order[i] as int].unwrap()
}

/// Structural well-formedness of an arena-backed chain: `order` lists the
/// live slots front-to-back, every forward and backward link agrees with it,
/// the anchors name its two ends, no node is reachable twice, and a slot
/// outside the chain holds no node.
spec fn links_ok<T>(
    slots: Seq<Option<Node<T>>>,
    order: Seq<usize>,
    head: Option<usize>,
    tail: Option<usize>,
) -> bool {
    let n = order.len() as int;
    &&& (forall|i: int| 0 <= i < n ==> (#[trigger] order[i]) < slots.len())
    &&& (forall|i: int| 0 <= i < n ==> (#[trigger] slots[order[i] as int]) is Some)
    &&& (forall|i: int, j: int| 0 <= i < n && 0 <= j < n && i != j ==> order[i] != order[j])
    &&& (forall|i: int|
        0 <= i < n ==> (#[trigger] node_at(slots, order, i)).next == (if i + 1 < n {
            Some(order[i + 1])
        } else {
            None::<usize>
        }))
    &&& (forall|i: int|
        0 <= i < n ==> (#[trigger] node_at(slots, order, i)).prev == (if 0 < i {
            Some(order[i - 1])
        } else {
            None::<usize>
        }))
    &&& head == (if 0 < n {
        Some(order[0])
    } else {
        None::<usize>
    })
    &&& tail == (if 0 < n {
        Some(order[n - 1])
    } else {
        None::<usize>
    })
    &&& (forall|k: usize|
        k < slots.len() && (#[trigger] slots[k as int]) is Some ==> order.contains(k))
}

/// The elements held by an arena-backed chain, in front-to-back order.
spec fn elems_of<T>(slots: Seq<Option<Node<T>>>, order: Seq<usize>) -> Seq<T> {
    Seq::new(order.len(), |i: int| node_at(slots, order, i).data)
}

impl<T> LinkedList<T> {
    /// Structural well-formedness; holds after every public operation.
    pub closed spec fn wf(self) -> bool {
        links_ok(self.slots@, self.order@, self.head, self.tail)
    }

    /// `current` names the live node standing at chain position `at`, or
    /// neither names anything: the validity of a cursor position over this
    /// sequence.
    pub closed spec fn pos_ok(self, current: Option<usize>, at: Option<int>) -> bool {
        match (current, at) {
            (None, None) => true,
            (Some(k), Some(i)) => 0 <= i < self.order@.len() && self.order@[i] == k,
            _ => false,
        }
    }
}

impl<T> View for LinkedList<T> {
    type V = Seq<T>;

    /// The elements of the sequence in front-to-back order.
    closed spec fn view(&self) -> Seq<T> {
        elems_of(self.slots@, self.order@)
    }
}

impl<T> LinkedList<T> {
    /// An empty sequence: both anchors absent.
    pub fn new() -> (r: LinkedList<T>)
        ensures
            r.wf(),
            r@ == Seq::<T>::empty(),
    {
        let r = LinkedList { slots: Vec::new(), head: None, tail: None, order: Ghost(Seq::empty()) };
        proof {
            assert(r@ =~= Seq::<T>::empty());
        }
        r
    }

    /// Redirect the backward link of the node in slot `k`.
    fn set_prev(&mut self, k: usize, p: Option<usize>)
        requires
            k < old(self).slots@.len(),
            old(self).slots@[k as int] is Some,
        ensures
            final(self).slots@ == old(self).slots@.update(
                k as int,
                Some(Node { prev: p, ..old(self).slots@[k as int].unwrap() }),
            ),
            final(self).head == old(self).head,
            final(self).tail == old(self).tail,
            final(self).order == old(self).order,
    {
        match &mut self.slots[k] {
            Some(node) => {
                node.prev = p;
            },
            None => {},
        }
    }

    /// Redirect the forward link of the node in slot `k`.
    fn set_next(&mut self, k: usize, nx: Option<usize>)
        requires
            k < old(self).slots@.len(),
            old(self).slots@[k as int] is Some,
        ensures
            final(self).slots@ == old(self).slots@.update(
                k as int,
                Some(Node { next: nx, ..old(self).slots@[k as int].unwrap() }),
            ),
            final(self).head == old(self).head,
            final(self).tail == old(self).tail,
            final(self).order == old(self).order,
    {
        match &mut self.slots[k] {
            Some(node) => {
                node.next = nx;
            },
            None => {},
        }
    }

    /// Detach the node in slot `k` from the arena and yield it, leaving the
    /// slot empty: the destroyed node can never be reached again.
    fn take_slot(&mut self, k: usize) -> (n: Node<T>)
        requires
            k < old(self).slots@.len(),
            old(self).slots@[k as int] is Some,
        ensures
            n == old(self).slots@[k as int].unwrap(),
            final(self).slots@ == old(self).slots@.update(k as int, None::<Node<T>>),
            final(self).head == old(self).head,
            final(self).tail == old(self).tail,
            final(self).order == old(self).order,
    {
        let mut tmp: Option<Node<T>> = None;
        core::mem::swap(&mut tmp, &mut self.slots[k]);
        tmp.unwrap()
    }

    /// Create a Node owning `value` and make it the new head.
    pub fn push_front(&mut self, value: T)
        requires
            old(self).wf(),
        ensures
            final(self).wf(),
            final(self)@ == seq![value] + old(self)@,
    {
        let idx = self.slots.len();
        let node = Node { data: value, next: self.head, prev: None };
        self.slots.push(Some(node));
        match self.head {
            Some(h) => {
                self.set_prev(h, Some(idx));
            },
            None => {
                self.tail = Some(idx);
            },
        }
        self.head = Some(idx);
        proof {
            let o = *old(self);
            let on = o.order@.len() as int;
            self.order@ = seq![idx] + o.order@;
            assert(forall|i: int| 0 <= i < on ==> #[trigger] self.order@[i + 1] == o.order@[i]);
            assert forall|i: int| 0 <= i < on + 1 implies (#[trigger] node_at(self.slots@, self.order@, i)).next == (if i
                + 1 < on + 1 {
                Some(self.order@[i + 1])
            } else {
                None::<usize>
            }) && node_at(self.slots@, self.order@, i).prev == (if 0 < i {
                Some(self.order@[i - 1])
            } else {
                None::<usize>
            }) by {
                if i == 0 {
                    assert(self.slots@[idx as int] == Some(
                        Node { data: value, next: o.head, prev: None::<usize> },
                    ));
                } else {
                    assert(self.order@[i] == o.order@[i - 1]);
                    assert(node_at(o.slots@, o.order@, i - 1).next == (if i < on {
                        Some(o.order@[i])
                    } else {
                        None::<usize>
                    }));
                    assert(node_at(o.slots@, o.order@, i - 1).prev == (if 1 < i {
                        Some(o.order@[i - 2])
                    } else {
                        None::<usize>
                    }));
                    if i == 1 {
                        assert(self.slots@[self.order@[1] as int] == Some(
                            Node { prev: Some(idx), ..node_at(o.slots@, o.order@, 0) },
                        ));
                    } else {
                        assert(o.order@[i - 1] != o.order@[0]);
                        assert(self.slots@[self.order@[i] as int] == o.slots@[o.order@[i
                            - 1] as int]);
                    }
                }
            }
            assert forall|k: usize|
                k < self.slots@.len() && (#[trigger] self.slots@[k as int]) is Some
                implies self.order@.contains(k) by {
                if k == idx {
                    assert(self.order@[0] == idx);
                } else {
                    assert(o.slots@[k as int] is Some);
                    assert(o.order@.contains(k));
                    let j = choose|j: int| 0 <= j < o.order@.len() && o.order@[j] == k;
                    assert(self.order@[j + 1] == k);
                }
            }
            assert(self@ =~= seq![value] + old(self)@);
        }
    }

    /// Detach the head node, advance `head` to its successor, and return the
    /// detached element; on an empty sequence, return no element.
    pub fn pop_front(&mut self) -> (r: Option<T>)
        requires
            old(self).wf(),
        ensures
            final(self).wf(),
            old(self)@.len() == 0 ==> r is None && final(self)@ == old(self)@,
            old(self)@.len() > 0 ==> r == Some(old(self)@[0]) && final(self)@ == old(
                self,
            )@.drop_first(),
    {
        let h = match self.head {
            None => {
                return None;
            },
            Some(h) => h,
        };
        proof {
            assert(old(self).order@.len() > 0);
            assert(h == old(self).order@[0]);
        }
        let node = self.take_slot(h);
        self.head = node.next;
        match self.head {
            Some(h2) => {
                proof {
                    let o = *old(self);
                    let on = o.order@.len() as int;
                    assert(node == node_at(o.slots@, o.order@, 0));
                    assert(node_at(o.slots@, o.order@, 0).next == (if 1 < on {
                        Some(o.order@[1])
                    } else {
                        None::<usize>
                    }));
                    assert(on >= 2);
                    assert(h2 == o.order@[1]);
                    assert(o.order@[1] != o.order@[0]);
                }
                self.set_prev(h2, None);
            },
            None => {
                self.tail = None;
            },
        }
        proof {
            let o = *old(self);
            let on = o.order@.len() as int;
            self.order@ = o.order@.drop_first();
            assert(forall|i: int| 0 <= i < on - 1 ==> #[trigger] self.order@[i] == o.order@[i + 1]);
            assert forall|i: int| 0 <= i < on - 1 implies (#[trigger] node_at(self.slots@, self.order@, i)).next == (if i
                + 1 < on - 1 {
                Some(self.order@[i + 1])
            } else {
                None::<usize>
            }) && node_at(self.slots@, self.order@, i).prev == (if 0 < i {
                Some(self.order@[i - 1])
            } else {
                None::<usize>
            }) by {
                assert(self.order@[i] == o.order@[i + 1]);
                assert(o.order@[i + 1] != o.order@[0]);
                assert(node_at(o.slots@, o.order@, i + 1).next == (if i + 2 < on {
                    Some(o.order@[i + 2])
                } else {
                    None::<usize>
                }));
                assert(node_at(o.slots@, o.order@, i + 1).prev == Some(o.order@[i]));
                if i == 0 {
                    assert(self.slots@[self.order@[0] as int] == Some(
                        Node { prev: None::<usize>, ..node_at(o.slots@, o.order@, 1) },
                    ));
                } else {
                    assert(o.order@[i + 1] != o.order@[1]);
                    assert(self.slots@[self.order@[i] as int] == o.slots@[o.order@[i
                        + 1] as int]);
                }
            }
            assert forall|k: usize|
                k < self.slots@.len() && (#[trigger] self.slots@[k as int]) is Some
                implies self.order@.contains(k) by {
                assert(k != h);
                assert(o.slots@[k as int] is Some);
                assert(o.order@.contains(k));
                let j = choose|j: int| 0 <= j < o.order@.len() && o.order@[j] == k;
                assert(j != 0);
                assert(self.order@[j - 1] == k);
            }
            assert(self@ =~= old(self)@.drop_first());
            assert(node.data == old(self)@[0]);
        }
        Some(node.data)
    }

    /// Create a Node owning `value` and make it the new tail, operating
    /// through the `tail` anchor.
    pub fn push_back(&mut self, value: T)
        requires
            old(self).wf(),
        ensures
            final(self).wf(),
            final(self)@ == old(self)@ + seq![value],
    {
        let idx = self.slots.len();
        let node = Node { data: value, next: None, prev: self.tail };
        self.slots.push(Some(node));
        match self.tail {
            Some(t) => {
                self.set_next(t, Some(idx));
            },
            None => {
                self.head = Some(idx);
            },
        }
        self.tail = Some(idx);
        proof {
            let o = *old(self);
            let on = o.order@.len() as int;
            self.order@ = o.order@.push(idx);
            assert(forall|i: int| 0 <= i < on ==> #[trigger] self.order@[i] == o.order@[i]);
            assert forall|i: int| 0 <= i < on + 1 implies (#[trigger] node_at(self.slots@, self.order@, i)).next == (if i
                + 1 < on + 1 {
                Some(self.order@[i + 1])
            } else {
                None::<usize>
            }) && node_at(self.slots@, self.order@, i).prev == (if 0 < i {
                Some(self.order@[i - 1])
            } else {
                None::<usize>
            }) by {
                if i == on {
                    assert(self.slots@[idx as int] == Some(
                        Node { data: value, next: None::<usize>, prev: o.tail },
                    ));
                } else {
                    assert(self.order@[i] == o.order@[i]);
                    assert(node_at(o.slots@, o.order@, i).next == (if i + 1 < on {
                        Some(o.order@[i + 1])
                    } else {
                        None::<usize>
                    }));
                    assert(node_at(o.slots@, o.order@, i).prev == (if 0 < i {
                        Some(o.order@[i - 1])
                    } else {
                        None::<usize>
                    }));
                    if i == on - 1 {
                        assert(self.slots@[self.order@[i] as int] == Some(
                            Node { next: Some(idx), ..node_at(o.slots@, o.order@, on - 1) },
                        ));
                    } else {
                        assert(o.order@[i] != o.order@[on - 1]);
                        assert(self.slots@[self.order@[i] as int] == o.slots@[o.order@[i] as int]);
                    }
                }
            }
            assert forall|k: usize|
                k < self.slots@.len() && (#[trigger] self.slots@[k as int]) is Some
                implies self.order@.contains(k) by {
                if k == idx {
                    assert(self.order@[on] == idx);
                } else {
                    assert(o.slots@[k as int] is Some);
                    assert(o.order@.contains(k));
                    let j = choose|j: int| 0 <= j < o.order@.len() && o.order@[j] == k;
                    assert(self.order@[j] == k);
                }
            }
            assert(self@ =~= old(self)@ + seq![value]);
        }
    }

    /// Detach the tail node, move `tail` back to its predecessor, and return
    /// the detached element; on an empty sequence, return no element.
    pub fn pop_back(&mut self) -> (r: Option<T>)
        requires
            old(self).wf(),
        ensures
            final(self).wf(),
            old(self)@.len() == 0 ==> r is None && final(self)@ == old(self)@,
            old(self)@.len() > 0 ==> r == Some(old(self)@.last()) && final(self)@ == old(
                self,
            )@.drop_last(),
    {
        let t = match self.tail {
            None => {
                return None;
            },
            Some(t) => t,
        };
        proof {
            let on = old(self).order@.len() as int;
            assert(on > 0);
            assert(t == old(self).order@[on - 1]);
        }
        let node = self.take_slot(t);
        self.tail = node.prev;
        match self.tail {
            Some(t2) => {
                proof {
                    let o = *old(self);
                    let on = o.order@.len() as int;
                    assert(node == node_at(o.slots@, o.order@, on - 1));
                    assert(node_at(o.slots@, o.order@, on - 1).prev == (if 0 < on - 1 {
                        Some(o.order@[on - 2])
                    } else {
                        None::<usize>
                    }));
                    assert(on >= 2);
                    assert(t2 == o.order@[on - 2]);
                    assert(o.order@[on - 2] != o.order@[on - 1]);
                }
                self.set_next(t2, None);
            },
            None => {
                self.head = None;
            },
        }
        proof {
            let o = *old(self);
            let on = o.order@.len() as int;
            self.order@ = o.order@.drop_last();
            assert(forall|i: int| 0 <= i < on - 1 ==> #[trigger] self.order@[i] == o.order@[i]);
            assert forall|i: int| 0 <= i < on - 1 implies (#[trigger] node_at(self.slots@, self.order@, i)).next == (if i
                + 1 < on - 1 {
                Some(self.order@[i + 1])
            } else {
                None::<usize>
            }) && node_at(self.slots@, self.order@, i).prev == (if 0 < i {
                Some(self.order@[i - 1])
            } else {
                None::<usize>
            }) by {
                assert(self.order@[i] == o.order@[i]);
                assert(o.order@[i] != o.order@[on - 1]);
                assert(node_at(o.slots@, o.order@, i).next == (if i + 1 < on {
                    Some(o.order@[i + 1])
                } else {
                    None::<usize>
                }));
                assert(node_at(o.slots@, o.order@, i).prev == (if 0 < i {
                    Some(o.order@[i - 1])
                } else {
                    None::<usize>
                }));
                if i == on - 2 {
                    assert(self.slots@[self.order@[i] as int] == Some(
                        Node { next: None::<usize>, ..node_at(o.slots@, o.order@, on - 2) },
                    ));
                } else {
                    assert(o.order@[i] != o.order@[on - 2]);
                    assert(self.slots@[self.order@[i] as int] == o.slots@[o.order@[i] as int]);
                }
            }
            assert forall|k: usize|
                k < self.slots@.len() && (#[trigger] self.slots@[k as int]) is Some
                implies self.order@.contains(k) by {
                assert(k != t);
                assert(o.slots@[k as int] is Some);
                assert(o.order@.contains(k));
                let j = choose|j: int| 0 <= j < o.order@.len() && o.order@[j] == k;
                assert(j != on - 1);
                assert(self.order@[j] == k);
            }
            assert(self@ =~= old(self)@.drop_last());
            assert(node.data == old(self)@.last());
        }
        Some(node.data)
    }

    /// The link picture that a diagnostic listing renders: for each node in
    /// front-to-back order, whether its backward (`prev`) and forward
    /// (`next`) links are present. It is recomputed by walking the live
    /// chain, never cached, so it always reflects the current structure:
    /// `prev` is absent exactly at the head and `next` exactly at the tail.
    pub fn link_shape(&self) -> (r: Vec<(bool, bool)>)
        requires
            self.wf(),
        ensures
            r@.len() == self@.len(),
            forall|i: int| 0 <= i < r@.len() ==> #[trigger] r@[i] == (i > 0, i + 1 < r@.len()),
    {
        let mut r: Vec<(bool, bool)> = Vec::new();
        let mut cur: Option<usize> = self.head;
        let ghost n = self.order@.len() as int;
        loop
            invariant
                self.wf(),
                n == self.order@.len(),
                r@.len() <= n,
                cur == (if r@.len() < n {
                    Some(self.order@[r@.len() as int])
                } else {
                    None::<usize>
                }),
                forall|j: int| 0 <= j < r@.len() ==> #[trigger] r@[j] == (j > 0, j + 1 < n),
            ensures
                r@.len() == n,
                forall|j: int| 0 <= j < r@.len() ==> #[trigger] r@[j] == (j > 0, j + 1 < n),
            decreases n - r@.len(),
        {
            match cur {
                None => {
                    break ;
                },
                Some(k) => {
                    proof {
                        let i = r@.len() as int;
                        assert(self.order@[i] == k);
                        assert(self.slots@[k as int] is Some);
                        assert(node_at(self.slots@, self.order@, i) == self.slots@[
                            k as int].unwrap());
                    }
                    match &self.slots[k] {
                        Some(node) => {
                            r.push((node.prev.is_some(), node.next.is_some()));
                            cur = node.next;
                        },
                        None => {
                            proof {
                                assert(false);
                            }
                            break ;
                        },
                    }
                },
            }
        }
        r
    }

    /// A cursor positioned at the head node (off-list when the sequence is
    /// empty), holding exclusive mutable access to this sequence for the
    /// cursor's lifetime.
    pub fn cursor_front<'a>(&'a mut self) -> (c: Cursor<'a, T>)
        requires
            old(self).wf(),
        ensures
            c.wf(),
            c.elems() == old(self)@,
            c.pos() == (if old(self)@.len() > 0 {
                Some(0int)
            } else {
                None::<int>
            }),
            *final(self) == *final(c.list),
    {
        let current = self.head;
        let ghost at = if self.order@.len() > 0 {
            Some(0int)
        } else {
            None::<int>
        };
        Cursor { list: self, current, at: Ghost(at) }
    }
}

/// A transient handle over a `LinkedList` that tracks a current position and
/// offers positional read, mutate, insert and remove operations. It holds the
/// only mutable path into the sequence while it exists, so no other handle can
/// observe or change the chain under it.
pub struct Cursor<'a, T> {
    /// The exclusively borrowed sequence. While the cursor lives, this borrow
    /// is the only path into the chain; contracts use it to say what the
    /// borrowed-from sequence holds once the cursor is gone.
    pub list: &'a mut LinkedList<T>,
    /// The arena slot of the current node; `None` when the cursor is off-list.
    pub current: Option<usize>,
    /// Ghost shadow of `current`: the chain position it stands for.
    pub at: Ghost<Option<int>>,
}

impl<'a, T> Cursor<'a, T> {
    /// The elements of the underlying sequence, front-to-back, as they stand now.
    pub open spec fn elems(self) -> Seq<T> {
        (*self.list)@
    }

    /// The chain position the cursor stands at; `None` means off-list.
    pub open spec fn pos(self) -> Option<int> {
        self.at@
    }

    /// The cursor is well-formed: the sequence is, and the tracked position
    /// names a live node of the chain (or nothing at all).
    pub open spec fn wf(self) -> bool {
        &&& (*self.list).wf()
        &&& (*self.list).pos_ok(self.current, self.at@)
    }

    /// A mutable view of the current element's data; no element when off-list.
    /// Mutations land in the live chain, not in a copy.
    pub fn peek_mut<'s>(&'s mut self) -> (r: Option<&'s mut T>)
        requires
            old(self).wf(),
        ensures
            final(self).wf(),
            *final(final(self).list) == *final(old(self).list),
            final(self).pos() == old(self).pos(),
            match old(self).pos() {
                None => r is None && final(self).elems() == old(self).elems(),
                Some(i) => r is Some && *r.unwrap() == old(self).elems()[i] && final(self).elems()
                    == old(self).elems().update(i, *final(r.unwrap())),
            },
    {
        match self.current {
            None => None,
            Some(k) => {
                proof {
                    let l = *self.list;
                    let i = self.at@.unwrap();
                    assert(l.order@[i] == k);
                    assert(l.slots@[k as int] is Some);
                    let nd = l.slots@[k as int].unwrap();
                    assert forall|d: T|
                        links_ok(
                            l.slots@.update(k as int, Some(Node { data: d, ..nd })),
                            l.order@,
                            l.head,
                            l.tail,
                        ) by {
                        let slots2 = l.slots@.update(k as int, Some(Node { data: d, ..nd }));
                        assert forall|j: int| 0 <= j < l.order@.len() implies (#[trigger] node_at(
                            slots2,
                            l.order@,
                            j,
                        )).next == node_at(l.slots@, l.order@, j).next && node_at(
                            slots2,
                            l.order@,
                            j,
                        ).prev == node_at(l.slots@, l.order@, j).prev && slots2[l.order@[j] as int]
                            is Some by {
                            if l.order@[j] == k {
                            } else {
                            }
                        }
                        assert(forall|k2: usize|
                            k2 < slots2.len() && (#[trigger] slots2[k2 as int]) is Some
                                ==> l.slots@[k2 as int] is Some);
                    }
                }
                match &mut self.list.slots[k] {
                    Some(node) => Some(&mut node.data),
                    None => {
                        proof {
                            assert(false);
                        }
                        None
                    },
                }
            },
        }
    }

    /// Move one position towards the back and return a mutable view of the
    /// element there; stepping past the last node, or moving while off-list,
    /// leaves the cursor off-list and returns no element.
    pub fn next<'s>(&'s mut self) -> (r: Option<&'s mut T>)
        requires
            old(self).wf(),
        ensures
            final(self).wf(),
            *final(final(self).list) == *final(old(self).list),
            match old(self).pos() {
                None => r is None && final(self).pos() is None && final(self).elems() == old(
                    self,
                ).elems(),
                Some(i) => {
                    if i + 1 < old(self).elems().len() {
                        &&& final(self).pos() == Some(i + 1)
                        &&& r is Some
                        &&& *r.unwrap() == old(self).elems()[i + 1]
                        &&& final(self).elems() == old(self).elems().update(
                            i + 1,
                            *final(r.unwrap()),
                        )
                    } else {
                        &&& final(self).pos() is None
                        &&& r is None
                        &&& final(self).elems() == old(self).elems()
                    }
                },
            },
    {
        match self.current {
            None => {},
            Some(k) => {
                proof {
                    let i = self.at@.unwrap();
                    assert(self.list.order@[i] == k);
                    assert(self.list.slots@[k as int] is Some);
                    assert(node_at(self.list.slots@, self.list.order@, i).next == (if i + 1
                        < self.list.order@.len() {
                        Some(self.list.order@[i + 1])
                    } else {
                        None::<usize>
                    }));
                }
                let nk = match &self.list.slots[k] {
                    Some(node) => node.next,
                    None => None,
                };
                self.current = nk;
                proof {
                    let i = self.at@.unwrap();
                    if i + 1 < self.list.order@.len() {
                        self.at@ = Some(i + 1);
                    } else {
                        self.at@ = None::<int>;
                    }
                }
            },
        }
        self.peek_mut()
    }

    /// Move one position towards the front and return a mutable view of the
    /// element there; stepping past the first node leaves the cursor
    /// off-list, and moving while off-list is a no-op that stays off-list.
    pub fn prev<'s>(&'s mut self) -> (r: Option<&'s mut T>)
        requires
            old(self).wf(),
        ensures
            final(self).wf(),
            *final(final(self).list) == *final(old(self).list),
            match old(self).pos() {
                None => r is None && final(self).pos() is None && final(self).elems() == old(
                    self,
                ).elems(),
                Some(i) => {
                    if i > 0 {
                        &&& final(self).pos() == Some(i - 1)
                        &&& r is Some
                        &&& *r.unwrap() == old(self).elems()[i - 1]
                        &&& final(self).elems() == old(self).elems().update(
                            i - 1,
                            *final(r.unwrap()),
                        )
                    } else {
                        &&& final(self).pos() is None
                        &&& r is None
                        &&& final(self).elems() == old(self).elems()
                    }
                },
            },
    {
        match self.current {
            None => {},
            Some(k) => {
                proof {
                    let i = self.at@.unwrap();
                    assert(self.list.order@[i] == k);
                    assert(self.list.slots@[k as int] is Some);
                    assert(node_at(self.list.slots@, self.list.order@, i).prev == (if 0 < i {
                        Some(self.list.order@[i - 1])
                    } else {
                        None::<usize>
                    }));
                }
                let pk = match &self.list.slots[k] {
                    Some(node) => node.prev,
                    None => None,
                };
                self.current = pk;
                proof {
                    let i = self.at@.unwrap();
                    if i > 0 {
                        self.at@ = Some(i - 1);
                    } else {
                        self.at@ = None::<int>;
                    }
                }
            },
        }
        self.peek_mut()
    }

    /// Detach the current node from the chain, rewiring both neighbours and
    /// the anchors, and return its element. The cursor moves to the node now
    /// at the same front index (the old successor); when none existed, to the
    /// new tail; when the sequence became empty, off-list. Off-list, this
    /// returns no element and changes nothing.
    #[verifier::rlimit(50)]
    pub fn take(&mut self) -> (r: Option<T>)
        requires
            old(self).wf(),
        ensures
            final(self).wf(),
            *final(final(self).list) == *final(old(self).list),
            match old(self).pos() {
                None => r is None && final(self).pos() is None && final(self).elems() == old(
                    self,
                ).elems(),
                Some(i) => {
                    &&& r == Some(old(self).elems()[i])
                    &&& final(self).elems() == old(self).elems().remove(i)
                    &&& final(self).pos() == (if i + 1 < old(self).elems().len() {
                        Some(i)
                    } else if i > 0 {
                        Some(i - 1)
                    } else {
                        None::<int>
                    })
                },
            },
    {
        let k = match self.current {
            None => {
                return None;
            },
            Some(k) => k,
        };
        proof {
            let i = self.at@.unwrap();
            assert(self.list.order@[i] == k);
            assert(self.list.slots@[k as int] is Some);
            assert(node_at(self.list.slots@, self.list.order@, i) == self.list.slots@[
                k as int].unwrap());
        }
        let node = self.list.take_slot(k);
        proof {
            let o = *old(self);
            let i = o.at@.unwrap();
            let on = o.list.order@.len() as int;
            assert(node.prev == (if 0 < i {
                Some(o.list.order@[i - 1])
            } else {
                None::<usize>
            }));
            assert(node.next == (if i + 1 < on {
                Some(o.list.order@[i + 1])
            } else {
                None::<usize>
            }));
            if 0 < i {
                assert(o.list.order@[i - 1] != o.list.order@[i]);
            }
            if i + 1 < on {
                assert(o.list.order@[i + 1] != o.list.order@[i]);
                if 0 < i {
                    assert(o.list.order@[i + 1] != o.list.order@[i - 1]);
                }
            }
        }
        match node.prev {
            Some(p) => {
                self.list.set_next(p, node.next);
            },
            None => {
                self.list.head = node.next;
            },
        }
        match node.next {
            Some(nx) => {
                self.list.set_prev(nx, node.prev);
            },
            None => {
                self.list.tail = node.prev;
            },
        }
        self.current = match node.next {
            Some(nx) => Some(nx),
            None => node.prev,
        };
        proof {
            let o = *old(self);
            let ol = *o.list;
            let i = o.at@.unwrap();
            let on = ol.order@.len() as int;
            self.list.order@ = ol.order@.remove(i);
            self.at@ = if i + 1 < on {
                Some(i)
            } else if i > 0 {
                Some(i - 1)
            } else {
                None::<int>
            };
            assert(forall|j: int| 0 <= j < i ==> #[trigger] self.list.order@[j] == ol.order@[j]);
            assert(forall|j: int|
                i <= j < on - 1 ==> #[trigger] self.list.order@[j] == ol.order@[j + 1]);
            assert forall|j: int| 0 <= j < on - 1 implies (#[trigger] node_at(
                self.list.slots@,
                self.list.order@,
                j,
            )).next == (if j + 1 < on - 1 {
                Some(self.list.order@[j + 1])
            } else {
                None::<usize>
            }) && node_at(self.list.slots@, self.list.order@, j).prev == (if 0 < j {
                Some(self.list.order@[j - 1])
            } else {
                None::<usize>
            }) && self.list.slots@[self.list.order@[j] as int] is Some by {
                let kj = self.list.order@[j];
                assert(kj != ol.order@[i]);
                assert(node_at(ol.slots@, ol.order@, (if j < i {
                    j
                } else {
                    j + 1
                })) == ol.slots@[kj as int].unwrap());
                if j == i - 1 {
                    assert(self.list.slots@[kj as int] == Some(
                        Node { next: node.next, ..node_at(ol.slots@, ol.order@, i - 1) },
                    ));
                } else if j == i && i + 1 < on {
                    assert(self.list.slots@[kj as int] == Some(
                        Node { prev: node.prev, ..node_at(ol.slots@, ol.order@, i + 1) },
                    ));
                } else {
                    if j < i {
                        assert(ol.order@[j] != ol.order@[i - 1] || j == i - 1);
                        assert(self.list.slots@[kj as int] == ol.slots@[kj as int]);
                    } else {
                        assert(self.list.slots@[kj as int] == ol.slots@[kj as int]);
                    }
                }
            }
            assert forall|k2: usize|
                k2 < self.list.slots@.len() && (#[trigger] self.list.slots@[k2 as int]) is Some
                implies self.list.order@.contains(k2) by {
                assert(k2 != k);
                assert(ol.slots@[k2 as int] is Some);
                assert(ol.order@.contains(k2));
                let j = choose|j: int| 0 <= j < ol.order@.len() && ol.order@[j] == k2;
                assert(j != i);
                if j < i {
                    assert(self.list.order@[j] == k2);
                } else {
                    assert(self.list.order@[j - 1] == k2);
                }
            }
            assert(self.list.wf());
            assert(self.elems() =~= old(self).elems().remove(i));
            assert(node.data == old(self).elems()[i]);
        }
        Some(node.data)
    }

    /// Splice a new node holding `value` between the current node and its
    /// former successor (or make it the new tail), without moving the cursor.
    /// Off-list over an empty sequence, the new node becomes the sole element
    /// and the cursor moves onto it; off-list past the end of a non-empty
    /// sequence, the new node is inserted at the back and the cursor stays
    /// off-list.
    #[verifier::rlimit(50)]
    pub fn insert_after(&mut self, value: T)
        requires
            old(self).wf(),
        ensures
            final(self).wf(),
            *final(final(self).list) == *final(old(self).list),
            match old(self).pos() {
                Some(i) => final(self).elems() == old(self).elems().insert(i + 1, value)
                    && final(self).pos() == Some(i),
                None => final(self).elems() == old(self).elems().push(value) && final(self).pos()
                    == (if old(self).elems().len() == 0 {
                    Some(0int)
                } else {
                    None::<int>
                }),
            },
    {
        let k = match self.current {
            None => {
                let was_empty = self.list.head.is_none();
                self.list.push_back(value);
                if was_empty {
                    self.current = self.list.head;
                    proof {
                        self.at@ = Some(0int);
                        assert(old(self).elems().len() == 0);
                        assert(self.list.order@.len() == 1);
                    }
                }
                return ;
            },
            Some(k) => k,
        };
        proof {
            let i = self.at@.unwrap();
            assert(self.list.order@[i] == k);
            assert(self.list.slots@[k as int] is Some);
            assert(node_at(self.list.slots@, self.list.order@, i) == self.list.slots@[
                k as int].unwrap());
        }
        let nx = match &self.list.slots[k] {
            Some(node) => node.next,
            None => None,
        };
        let idx = self.list.slots.len();
        self.list.slots.push(Some(Node { data: value, next: nx, prev: Some(k) }));
        self.list.set_next(k, Some(idx));
        match nx {
            Some(nn) => {
                proof {
                    let i = old(self).at@.unwrap();
                    let ol = *old(self).list;
                    assert(nn == ol.order@[i + 1]);
                    assert(ol.order@[i + 1] != ol.order@[i]);
                    assert(nn < idx);
                }
                self.list.set_prev(nn, Some(idx));
            },
            None => {
                self.list.tail = Some(idx);
            },
        }
        proof {
            let o = *old(self);
            let ol = *o.list;
            let i = o.at@.unwrap();
            let on = ol.order@.len() as int;
            self.list.order@ = ol.order@.insert(i + 1, idx);
            assert(forall|j: int| 0 <= j <= i ==> #[trigger] self.list.order@[j] == ol.order@[j]);
            assert(self.list.order@[i + 1] == idx);
            assert(forall|j: int|
                i + 2 <= j < on + 1 ==> #[trigger] self.list.order@[j] == ol.order@[j - 1]);
            assert forall|j: int| 0 <= j < on + 1 implies (#[trigger] node_at(
                self.list.slots@,
                self.list.order@,
                j,
            )).next == (if j + 1 < on + 1 {
                Some(self.list.order@[j + 1])
            } else {
                None::<usize>
            }) && node_at(self.list.slots@, self.list.order@, j).prev == (if 0 < j {
                Some(self.list.order@[j - 1])
            } else {
                None::<usize>
            }) && self.list.slots@[self.list.order@[j] as int] is Some by {
                let kj = self.list.order@[j];
                if j == i + 1 {
                    assert(self.list.slots@[idx as int] == Some(
                        Node { data: value, next: nx, prev: Some(k) },
                    ));
                } else {
                    let oj = if j <= i {
                        j
                    } else {
                        j - 1
                    };
                    assert(kj == ol.order@[oj]);
                    assert(node_at(ol.slots@, ol.order@, oj) == ol.slots@[kj as int].unwrap());
                    if j == i {
                        assert(self.list.slots@[kj as int] == Some(
                            Node { next: Some(idx), ..node_at(ol.slots@, ol.order@, i) },
                        ));
                    } else if j == i + 2 {
                        assert(oj == i + 1);
                        assert(self.list.slots@[kj as int] == Some(
                            Node { prev: Some(idx), ..node_at(ol.slots@, ol.order@, i + 1) },
                        ));
                    } else {
                        assert(kj != ol.order@[i]);
                        assert(oj != i + 1);
                        assert(kj != idx);
                        if i + 1 < on {
                            assert(kj != ol.order@[i + 1]);
                        }
                        assert(self.list.slots@[kj as int] == ol.slots@[kj as int]);
                    }
                }
            }
            assert forall|k2: usize|
                k2 < self.list.slots@.len() && (#[trigger] self.list.slots@[k2 as int]) is Some
                implies self.list.order@.contains(k2) by {
                if k2 == idx {
                    assert(self.list.order@[i + 1] == idx);
                } else {
                    assert(ol.slots@[k2 as int] is Some);
                    assert(ol.order@.contains(k2));
                    let j = choose|j: int| 0 <= j < ol.order@.len() && ol.order@[j] == k2;
                    if j <= i {
                        assert(self.list.order@[j] == k2);
                    } else {
                        assert(self.list.order@[j + 1] == k2);
                    }
                }
            }
            assert(self.list.wf());
            assert(self.elems() =~= old(self).elems().insert(i + 1, value));
        }
    }

    /// Splice a new node holding `value` between the current node and its
    /// former predecessor (or make it the new head), without moving the
    /// cursor off its node. Off-list behaviour mirrors `insert_after`: into an
    /// empty sequence the new node becomes the sole element and the cursor
    /// moves onto it; past the end of a non-empty sequence it is inserted at
    /// the back and the cursor stays off-list.
    #[verifier::rlimit(50)]
    pub fn insert_before(&mut self, value: T)
        requires
            old(self).wf(),
        ensures
            final(self).wf(),
            *final(final(self).list) == *final(old(self).list),
            match old(self).pos() {
                Some(i) => final(self).elems() == old(self).elems().insert(i, value)
                    && final(self).pos() == Some(i + 1),
                None => final(self).elems() == old(self).elems().push(value) && final(self).pos()
                    == (if old(self).elems().len() == 0 {
                    Some(0int)
                } else {
                    None::<int>
                }),
            },
    {
        let k = match self.current {
            None => {
                let was_empty = self.list.head.is_none();
                self.list.push_back(value);
                if was_empty {
                    self.current = self.list.head;
                    proof {
                        self.at@ = Some(0int);
                        assert(old(self).elems().len() == 0);
                        assert(self.list.order@.len() == 1);
                    }
                }
                return ;
            },
            Some(k) => k,
        };
        proof {
            let i = self.at@.unwrap();
            assert(self.list.order@[i] == k);
            assert(self.list.slots@[k as int] is Some);
            assert(node_at(self.list.slots@, self.list.order@, i) == self.list.slots@[
                k as int].unwrap());
        }
        let pv = match &self.list.slots[k] {
            Some(node) => node.prev,
            None => None,
        };
        let idx = self.list.slots.len();
        self.list.slots.push(Some(Node { data: value, next: Some(k), prev: pv }));
        self.list.set_prev(k, Some(idx));
        match pv {
            Some(p) => {
                proof {
                    let i = old(self).at@.unwrap();
                    let ol = *old(self).list;
                    assert(p == ol.order@[i - 1]);
                    assert(ol.order@[i - 1] != ol.order@[i]);
                    assert(p < idx);
                }
                self.list.set_next(p, Some(idx));
            },
            None => {
                self.list.head = Some(idx);
            },
        }
        proof {
            let o = *old(self);
            let ol = *o.list;
            let i = o.at@.unwrap();
            let on = ol.order@.len() as int;
            self.list.order@ = ol.order@.insert(i, idx);
            self.at@ = Some(i + 1);
            assert(forall|j: int| 0 <= j < i ==> #[trigger] self.list.order@[j] == ol.order@[j]);
            assert(self.list.order@[i] == idx);
            assert(forall|j: int|
                i + 1 <= j < on + 1 ==> #[trigger] self.list.order@[j] == ol.order@[j - 1]);
            assert forall|j: int| 0 <= j < on + 1 implies (#[trigger] node_at(
                self.list.slots@,
                self.list.order@,
                j,
            )).next == (if j + 1 < on + 1 {
                Some(self.list.order@[j + 1])
            } else {
                None::<usize>
            }) && node_at(self.list.slots@, self.list.order@, j).prev == (if 0 < j {
                Some(self.list.order@[j - 1])
            } else {
                None::<usize>
            }) && self.list.slots@[self.list.order@[j] as int] is Some by {
                let kj = self.list.order@[j];
                if j == i {
                    assert(self.list.slots@[idx as int] == Some(
                        Node { data: value, next: Some(k), prev: pv },
                    ));
                } else {
                    let oj = if j < i {
                        j
                    } else {
                        j - 1
                    };
                    assert(kj == ol.order@[oj]);
                    assert(node_at(ol.slots@, ol.order@, oj) == ol.slots@[kj as int].unwrap());
                    if j == i + 1 {
                        assert(oj == i);
                        assert(self.list.slots@[kj as int] == Some(
                            Node { prev: Some(idx), ..node_at(ol.slots@, ol.order@, i) },
                        ));
                    } else if j == i - 1 {
                        assert(oj == i - 1);
                        assert(self.list.slots@[kj as int] == Some(
                            Node { next: Some(idx), ..node_at(ol.slots@, ol.order@, i - 1) },
                        ));
                    } else {
                        assert(kj != ol.order@[i]);
                        assert(kj != idx);
                        if 0 < i {
                            assert(oj != i - 1);
                            assert(kj != ol.order@[i - 1]);
                        }
                        assert(self.list.slots@[kj as int] == ol.slots@[kj as int]);
                    }
                }
            }
            assert forall|k2: usize|
                k2 < self.list.slots@.len() && (#[trigger] self.list.slots@[k2 as int]) is Some
                implies self.list.order@.contains(k2) by {
                if k2 == idx {
                    assert(self.list.order@[i] == idx);
                } else {
                    assert(ol.slots@[k2 as int] is Some);
                    assert(ol.order@.contains(k2));
                    let j = choose|j: int| 0 <= j < ol.order@.len() && ol.order@[j] == k2;
                    if j < i {
                        assert(self.list.order@[j] == k2);
                    } else {
                        assert(self.list.order@[j + 1] == k2);
                    }
                }
            }
            assert(self.list.wf());
            assert(self.elems() =~= old(self).elems().insert(i, value));
        }
    }
}

/// Which end of the sequence a push goes to.
pub enum End {
    Front,
    Back,
}

/// The front-to-back order established by an interleaving of `push_front`
/// and `push_back` calls applied to an empty sequence: a front push prepends
/// its element, a back push appends it, exactly as the contracts of
/// `push_front` and `push_back` state.
pub open spec fn pushed_order<T>(ops: Seq<(End, T)>) -> Seq<T>
    decreases ops.len(),
{
    if ops.len() == 0 {
        Seq::empty()
    } else {
        let rest = pushed_order(ops.drop_last());
        if ops.last().0 is Front {
            seq![ops.last().1] + rest
        } else {
            rest.push(ops.last().1)
        }
    }
}

/// FIFO via mixed ends: however front and back pushes were interleaved, a
/// sequence built by them holds `pushed_order(ops)`, and draining it with
/// `pop_front` yields those elements in exactly that front-to-back order.
/// By `pop_front`'s contract, popping contents `s` returns `s[0]` and leaves
/// `s.drop_first()`; this law says that after `k` such pops the contents are
/// `pushed_order(ops).skip(k)`, so the k-th pop yields `pushed_order(ops)[k]`.
pub proof fn lemma_fifo_via_mixed_ends<T>(ops: Seq<(End, T)>, k: int)
    requires
        0 <= k < pushed_order(ops).len(),
    ensures
        pushed_order(ops).skip(k)[0] == pushed_order(ops)[k],
        pushed_order(ops).skip(k).drop_first() == pushed_order(ops).skip(k + 1),
{
    assert(pushed_order(ops).skip(k).drop_first() =~= pushed_order(ops).skip(k + 1));
}

} // verus!
