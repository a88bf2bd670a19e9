//! A singly linked stack. The model of a stack is the sequence of its
//! elements from the top down.

use crate::model::{front, popped, stack_pushed};
use vstd::prelude::*;

verus! {

/// One cell of the chain: an element and the cells below it.
#[derive(Debug)]
pub struct Node<T> {
    data: T,
    next: Option<Box<Node<T>>>,
}

impl<T> Node<T> {
    /// The elements of this cell and of every cell below it, this one first.
    pub closed spec fn elements(self) -> Seq<T>
        decreases self,
    {
        match self.next {
            None => seq![self.data],
            Some(below) => seq![self.data] + below.elements(),
        }
    }

    /// A cell holds at least its own element.
    pub broadcast proof fn lemma_elements_nonempty(self)
        ensures
            (#[trigger] self.elements()).len() > 0,
    {
    }
}

/// The elements held by a chain that starts at `link`.
spec fn link_elements<T>(link: Option<Box<Node<T>>>) -> Seq<T> {
    match link {
        None => Seq::empty(),
        Some(node) => node.elements(),
    }
}

/// A last-in, first-out container.
#[derive(Debug)]
pub struct Stack<T> {
    head: Option<Box<Node<T>>>,
    size: usize,
}

impl<T> View for Stack<T> {
    type V = Seq<T>;

    /// The elements from the top of the stack down.
    closed spec fn view(&self) -> Seq<T> {
        link_elements(self.head)
    }
}

impl<T> Stack<T> {
    /// The count that the stack keeps beside its chain of cells.
    pub closed spec fn count(self) -> nat {
        self.size as nat
    }

    /// The count that the stack keeps is the number of its elements.
    pub open spec fn wf(self) -> bool {
        self.count() == self@.len()
    }

    /// An empty stack.
    pub fn new() -> (s: Self)
        ensures
            s.wf(),
            s@ == Seq::<T>::empty(),
    {
        Stack { head: None, size: 0 }
    }

    /// Puts `data` on top.
    pub fn push(&mut self, data: T)
        requires
            old(self).wf(),
            old(self)@.len() < usize::MAX,
        ensures
            final(self).wf(),
            final(self)@ == stack_pushed(old(self)@, data),
            final(self)@.len() == old(self)@.len() + 1,
    {
        let below = self.head.take();
        self.head = Some(Box::new(Node { data, next: below }));
        self.size += 1;
    }

    /// Takes the top element off, if there is one.
    pub fn pop(&mut self) -> (r: Option<T>)
        requires
            old(self).wf(),
        ensures
            final(self).wf(),
            r == front(old(self)@),
            final(self)@ == popped(old(self)@),
            old(self)@.len() == 0 ==> r is None && final(self)@.len() == 0,
            old(self)@.len() > 0 ==> r is Some && final(self)@.len() == old(self)@.len() - 1,
    {
        match self.head.take() {
            None => None,
            Some(node) => {
                let node = *node;
                self.head = node.next;
                self.size -= 1;
                Some(node.data)
            },
        }
    }

    /// The number of elements.
    pub fn size(&self) -> (n: usize)
        requires
            self.wf(),
        ensures
            n == self@.len(),
    {
        self.size
    }

    /// A traversal that takes the stack and hands out its elements from the
    /// top down.
    pub fn into_iter(self) -> (it: IntoIter<T>)
        requires
            self.wf(),
        ensures
            it.wf(),
            it.remaining() == self@,
    {
        IntoIter(self)
    }

    /// A traversal that reads the elements from the top down and leaves the
    /// stack as it is.
    pub fn iter(&self) -> (it: Iter<'_, T>)
        ensures
            it.remaining() == self@,
    {
        match &self.head {
            None => Iter(None),
            Some(node) => Iter(Some(&**node)),
        }
    }

    /// A traversal from the top down that hands out each element for
    /// writing. The stack's elements after the traversal are those that the
    /// traversal's cells hold when it ends; its count stays.
    pub fn iter_mut(&mut self) -> (it: IterMut<'_, T>)
        ensures
            it.remaining() == old(self)@,
            it.cursor() is None <==> old(self)@.len() == 0,
            final(self).count() == old(self).count(),
            final(self)@ == (match it.cursor() {
                None => Seq::empty(),
                Some(node) => final(node).elements(),
            }),
    {
        match &mut self.head {
            None => IterMut(None),
            Some(node) => IterMut(Some(&mut **node)),
        }
    }
}

impl<T> Drop for Stack<T> {
    /// Releases the cells one by one from the top, so that a long chain is
    /// not released by a call nested once for each cell.
    fn drop(&mut self)
        opens_invariants none
        no_unwind
    {
        let mut link: Option<Box<Node<T>>> = None;
        core::mem::swap(&mut self.head, &mut link);
        loop
            decreases link_elements(link).len(),
        {
            match link {
                None => {
                    break;
                },
                Some(node) => {
                    let node = *node;
                    link = node.next;
                },
            }
        }
    }
}

/// A traversal that owns the stack it walks.
pub struct IntoIter<T>(Stack<T>);

impl<T> IntoIter<T> {
    /// The elements not yet handed out, the next one first.
    pub closed spec fn remaining(self) -> Seq<T> {
        self.0@
    }

    /// The stack inside is well formed.
    pub closed spec fn wf(self) -> bool {
        self.0.wf()
    }

    /// Hands out the next element, or nothing once all are out.
    pub fn next(&mut self) -> (r: Option<T>)
        requires
            old(self).wf(),
        ensures
            final(self).wf(),
            r == front(old(self).remaining()),
            final(self).remaining() == popped(old(self).remaining()),
    {
        self.0.pop()
    }
}

/// A traversal that reads a stack from the top down.
pub struct Iter<'a, T>(Option<&'a Node<T>>);

impl<'a, T> Iter<'a, T> {
    /// The elements not yet visited, the next one first.
    pub closed spec fn remaining(self) -> Seq<T> {
        match self.0 {
            None => Seq::empty(),
            Some(node) => node.elements(),
        }
    }

    /// Hands out the next element, or nothing once all are visited.
    pub fn next(&mut self) -> (r: Option<&'a T>)
        ensures
            r is Some <==> old(self).remaining().len() > 0,
            r is Some ==> *r.unwrap() == old(self).remaining()[0],
            final(self).remaining() == popped(old(self).remaining()),
    {
        match self.0 {
            None => None,
            Some(node) => {
                match &node.next {
                    None => {
                        self.0 = None;
                    },
                    Some(below) => {
                        self.0 = Some(&**below);
                    },
                }
                Some(&node.data)
            },
        }
    }
}

/// A traversal of a stack from the top down that hands out each element
/// for writing.
pub struct IterMut<'a, T>(Option<&'a mut Node<T>>);

impl<'a, T> IterMut<'a, T> {
    /// The cell that the next step visits, if one is left.
    pub closed spec fn cursor(self) -> Option<&'a mut Node<T>> {
        self.0
    }

    /// The elements not yet visited, as they are now, the next one first.
    pub open spec fn remaining(self) -> Seq<T> {
        match self.cursor() {
            None => Seq::empty(),
            Some(node) => node.elements(),
        }
    }

    /// Hands out the next element for writing, or nothing once all are
    /// visited. What the visited cell's chain holds in the end is what is
    /// written to the element handed out, followed by what the rest of the
    /// traversal leaves.
    pub fn next(&mut self) -> (r: Option<&'a mut T>)
        ensures
            (match old(self).cursor() {
                None => r is None && final(self).cursor() is None,
                Some(node) => {
                    &&& r is Some
                    &&& old(self).remaining().len() > 0
                    &&& *r.unwrap() == old(self).remaining()[0]
                    &&& final(self).remaining() == old(self).remaining().drop_first()
                    &&& final(node).elements() == seq![*final(r.unwrap())] + (
                    match final(self).cursor() {
                        None => Seq::empty(),
                        Some(rest) => final(rest).elements(),
                    })
                },
            }),
    {
        match self.0.take() {
            None => None,
            Some(node) => {
                match &mut node.next {
                    None => {
                        self.0 = None;
                    },
                    Some(below) => {
                        self.0 = Some(&mut **below);
                    },
                }
                Some(&mut node.data)
            },
        }
    }

    /// A traversal that is no longer used leaves the elements it has not
    /// visited as they are.
    pub broadcast proof fn lemma_unvisited_stay(self)
        ensures
            #[trigger] has_resolved(self) ==> (match self.cursor() {
                None => true,
                Some(node) => final(node).elements() == node.elements(),
            }),
    {
    }
}

} // verus!
