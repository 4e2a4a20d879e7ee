//! A singly-linked, exclusively-owned list.
//!
//! The forward chain is a plain chain of owning links; there are no
//! back-references and no cursor, only stack-like operations at the front
//! and forward iteration.

use vstd::prelude::*;

verus! {

/// One node: an element plus the owning link to the rest of the chain.
pub struct Node<T> {
    data: T,
    next: Option<Box<Node<T>>>,
}

/// The elements of the chain hanging from node `n`, front-to-back.
pub closed spec fn node_chain<T>(n: Node<T>) -> Seq<T> {
    seq![n.data] + chain_view(n.next)
}

/// The elements of a chain, front-to-back.
spec fn chain_view<T>(n: Option<Box<Node<T>>>) -> Seq<T>
    decreases n,
{
    match n {
        None => Seq::empty(),
        Some(b) => seq![b.data] + chain_view(b.next),
    }
}

/// A singly-linked list owning its elements, with O(1) operations at the
/// front and a stored length.
pub struct List<T> {
    head: Option<Box<Node<T>>>,
    len: usize,
}

impl<T> View for List<T> {
    type V = Seq<T>;

    /// The elements of the list in front-to-back order.
    closed spec fn view(&self) -> Seq<T> {
        chain_view(self.head)
    }
}

impl<T> List<T> {
    /// The stored length matches the number of reachable elements.
    pub closed spec fn wf(self) -> bool {
        self.len == self@.len()
    }

    /// An empty list.
    pub fn new() -> (r: List<T>)
        ensures
            r.wf(),
            r@ == Seq::<T>::empty(),
    {
        List { head: None, len: 0 }
    }

    /// The number of elements.
    pub fn len(&self) -> (n: usize)
        requires
            self.wf(),
        ensures
            n == self@.len(),
    {
        self.len
    }

    /// Prepend `val`, making it the new front element.
    pub fn push_front(&mut self, val: T)
        requires
            old(self).wf(),
            old(self)@.len() < usize::MAX,
        ensures
            final(self).wf(),
            final(self)@ == seq![val] + old(self)@,
    {
        self.len = self.len + 1;
        let mut tmp: Option<Box<Node<T>>> = None;
        core::mem::swap(&mut tmp, &mut self.head);
        self.head = Some(Box::new(Node { data: val, next: tmp }));
    }

    /// Detach and return the front element; no element when the list is empty.
    pub fn pop_front(&mut self) -> (r: Option<T>)
        requires
            old(self).wf(),
        ensures
            final(self).wf(),
            old(self)@.len() == 0 ==> r is None && final(self)@ == old(self)@,
            old(self)@.len() > 0 ==> r == Some(old(self)@[0]) && final(self)@ == old(
                self,
            )@.drop_first(),
    {
        let mut tmp: Option<Box<Node<T>>> = None;
        core::mem::swap(&mut tmp, &mut self.head);
        match tmp {
            None => None,
            Some(b) => {
                let node = *b;
                self.head = node.next;
                self.len = self.len - 1;
                proof {
                    assert(final(self)@ =~= old(self)@.drop_first());
                }
                Some(node.data)
            },
        }
    }

    /// A view of the front element; no element when the list is empty.
    pub fn peek_front(&self) -> (r: Option<&T>)
        ensures
            self@.len() == 0 ==> r is None,
            self@.len() > 0 ==> r is Some && *r.unwrap() == self@[0],
    {
        match &self.head {
            None => None,
            Some(b) => Some(&b.data),
        }
    }

    /// A mutable view of the front element; no element when the list is empty.
    pub fn peek_front_mut<'s>(&'s mut self) -> (r: Option<&'s mut T>)
        requires
            old(self).wf(),
        ensures
            final(self).wf(),
            old(self)@.len() == 0 ==> r is None && *final(self) == *old(self),
            old(self)@.len() > 0 ==> r is Some && *r.unwrap() == old(self)@[0] && final(self)@
                == old(self)@.update(0, *final(r.unwrap())),
    {
        match &mut self.head {
            None => None,
            Some(b) => Some(&mut b.data),
        }
    }

    /// Drop every element, releasing the whole chain.
    pub fn clear(&mut self)
        ensures
            final(self).wf(),
            final(self)@ == Seq::<T>::empty(),
    {
        self.head = None;
        self.len = 0;
    }

    /// An iterator over views of the elements, front-to-back.
    pub fn iter<'s>(&'s self) -> (it: Iter<'s, T>)
        ensures
            it.remaining() == self@,
    {
        Iter {
            curr: match &self.head {
                None => None,
                Some(b) => Some(&**b),
            },
        }
    }

    /// An iterator over mutable views of the elements, front-to-back.
    /// Mutations through the views it yields land in this list: once the
    /// iterator and its views are gone, the list holds the mutated chain.
    pub fn iter_mut<'s>(&'s mut self) -> (it: IterMut<'s, T>)
        requires
            old(self).wf(),
        ensures
            it.remaining() == old(self)@,
            old(self)@.len() == 0 ==> it.curr is None && *final(self) == *old(self),
            old(self)@.len() > 0 ==> it.curr is Some && final(self)@ == node_chain(
                *final(it.curr.unwrap()),
            ) && (final(self)@.len() == old(self)@.len() ==> final(self).wf()),
    {
        IterMut {
            curr: match &mut self.head {
                None => None,
                Some(b) => Some(&mut **b),
            },
        }
    }
}

/// A forward iterator over a `List`, yielding shared views of the elements.
pub struct Iter<'a, T> {
    curr: Option<&'a Node<T>>,
}

impl<'a, T> Iter<'a, T> {
    /// The elements not yet yielded, front-to-back.
    pub closed spec fn remaining(self) -> Seq<T> {
        match self.curr {
            None => Seq::empty(),
            Some(n) => seq![n.data] + chain_view(n.next),
        }
    }

    /// Yield a view of the next element, or no element once exhausted.
    pub fn next(&mut self) -> (r: Option<&'a T>)
        ensures
            old(self).remaining().len() == 0 ==> r is None && final(self).remaining() == old(
                self,
            ).remaining(),
            old(self).remaining().len() > 0 ==> r is Some && *r.unwrap() == old(
                self,
            ).remaining()[0] && final(self).remaining() == old(self).remaining().drop_first(),
    {
        match self.curr {
            None => None,
            Some(node) => {
                self.curr = match &node.next {
                    None => None,
                    Some(b) => Some(&**b),
                };
                proof {
                    assert(final(self).remaining() =~= old(self).remaining().drop_first());
                }
                Some(&node.data)
            },
        }
    }
}

/// A forward iterator over a `List`, yielding mutable views of the elements.
pub struct IterMut<'a, T> {
    /// The rest of the chain: a mutable borrow of the first node not yet
    /// yielded. Contracts use its final value to say what flows back into
    /// the list the iterator was made from.
    pub curr: Option<&'a mut Node<T>>,
}

impl<'a, T> IterMut<'a, T> {
    /// The elements not yet yielded, front-to-back, as they currently stand.
    pub open spec fn remaining(self) -> Seq<T> {
        match self.curr {
            None => Seq::empty(),
            Some(n) => node_chain(*n),
        }
    }

    /// Yield a mutable view of the next element, or no element once
    /// exhausted. Mutations through the view land in the node it was yielded
    /// from, and so in the list the iterator was made from.
    pub fn next(&mut self) -> (r: Option<&'a mut T>)
        ensures
            old(self).remaining().len() == 0 ==> r is None && final(self).remaining() == old(
                self,
            ).remaining(),
            old(self).remaining().len() > 0 ==> r is Some && *r.unwrap() == old(
                self,
            ).remaining()[0] && final(self).remaining() == old(self).remaining().drop_first()
                && old(self).curr is Some && node_chain(*final(old(self).curr.unwrap())) == seq![
                *final(r.unwrap()),
            ] + (if final(self).curr is Some {
                node_chain(*final(final(self).curr.unwrap()))
            } else {
                Seq::<T>::empty()
            }),
    {
        let mut tmp: Option<&'a mut Node<T>> = None;
        core::mem::swap(&mut tmp, &mut self.curr);
        match tmp {
            None => None,
            Some(node) => {
                self.curr = match &mut node.next {
                    None => None,
                    Some(b) => Some(&mut **b),
                };
                Some(&mut node.data)
            },
        }
    }
}

} // verus!
