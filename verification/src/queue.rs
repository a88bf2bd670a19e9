//! A singly linked queue whose cells live in an arena: a cell is named by
//! its index, and the head and tail markers are such indices. The model of
//! a queue is the sequence of its elements from the front to the back.

use crate::model::{front, popped, queue_pushed};
use vstd::prelude::*;

verus! {

/// One cell of the arena. A cell in use holds an element and names the cell
/// behind it; an idle cell holds none and names the next idle cell.
struct Slot<T> {
    data: Option<T>,
    next: Option<usize>,
}

/// A first-in, first-out container.
pub struct Queue<T> {
    slots: Vec<Slot<T>>,
    head: Option<usize>,
    tail: Option<usize>,
    free: Option<usize>,
    size: usize,
    chain: Ghost<Seq<usize>>,
    spare: Ghost<Seq<usize>>,
}

/// The first index of `path`, if it has one.
spec fn first_of(path: Seq<usize>) -> Option<usize> {
    if path.len() == 0 {
        None
    } else {
        Some(path[0])
    }
}

/// The last index of `path`, if it has one.
spec fn last_of(path: Seq<usize>) -> Option<usize> {
    if path.len() == 0 {
        None
    } else {
        Some(path[path.len() - 1])
    }
}

/// `path` lists, without repetition, the cells met from `start` by going
/// from each cell to the one it names, up to a cell that names none; each
/// of them holds an element if and only if `in_use`.
spec fn linked<T>(slots: Seq<Slot<T>>, path: Seq<usize>, start: Option<usize>, in_use: bool) -> bool {
    &&& start == first_of(path)
    &&& forall|k: int|
        0 <= k < path.len() ==> {
            &&& (#[trigger] path[k]) < slots.len()
            &&& (slots[path[k] as int].data is Some) == in_use
        }
    &&& forall|j: int, k: int|
        0 <= j && k == j + 1 && k < path.len() ==> slots[(#[trigger] path[j]) as int].next == Some(
            #[trigger] path[k],
        )
    &&& path.len() > 0 ==> slots[path[path.len() - 1] as int].next is None
    &&& forall|j: int, k: int| 0 <= j < k < path.len() ==> #[trigger] path[j] != #[trigger] path[k]
}

impl<T> View for Queue<T> {
    type V = Seq<T>;

    /// The elements from the front of the queue to its back.
    closed spec fn view(&self) -> Seq<T> {
        Seq::new(self.chain@.len(), |k: int| self.slots@[self.chain@[k] as int].data.unwrap())
    }
}

impl<T> Queue<T> {
    /// The head marker: the cell at the front, if there is one.
    pub closed spec fn head_marker(self) -> Option<usize> {
        self.head
    }

    /// The tail marker: the cell that a push links the new cell behind.
    pub closed spec fn tail_marker(self) -> Option<usize> {
        self.tail
    }

    /// The cell that cell `i` names as the one behind it.
    pub closed spec fn successor(self, i: usize) -> Option<usize> {
        self.slots@[i as int].next
    }

    /// The element that cell `i` holds, if it holds one.
    pub closed spec fn element(self, i: usize) -> Option<T> {
        self.slots@[i as int].data
    }

    /// The cells in use, from the front to the back.
    pub closed spec fn nodes(self) -> Seq<usize> {
        self.chain@
    }

    /// The queue's invariant: the cells in use form one chain from the head
    /// marker, the tail marker names the last of them, the idle cells form a
    /// chain of their own, the two chains have as many cells as the arena,
    /// and the count is the number of cells in use.
    pub closed spec fn wf(self) -> bool {
        &&& linked(self.slots@, self.chain@, self.head, true)
        &&& linked(self.slots@, self.spare@, self.free, false)
        &&& self.tail == last_of(self.chain@)
        &&& self.size == self.chain@.len()
        &&& self.chain@.len() + self.spare@.len() == self.slots@.len()
    }

    /// An empty queue.
    pub fn new() -> (q: Self)
        ensures
            q.wf(),
            q@ == Seq::<T>::empty(),
    {
        let q = Queue {
            slots: Vec::new(),
            head: None,
            tail: None,
            free: None,
            size: 0,
            chain: Ghost(Seq::empty()),
            spare: Ghost(Seq::empty()),
        };
        assert(q@ =~= Seq::<T>::empty());
        q
    }

    /// Puts `data` at the back.
    pub fn push(&mut self, data: T)
        requires
            old(self).wf(),
        ensures
            final(self).wf(),
            final(self)@ == queue_pushed(old(self)@, data),
            final(self)@.len() == old(self)@.len() + 1,
    {
        let slot = Slot { data: Some(data), next: None };
        let i: usize;
        match self.free {
            Some(f) => {
                i = f;
                assert(self.spare@[0] == f);
                self.free = self.slots[f].next;
                self.slots[f] = slot;
                self.spare = Ghost(self.spare@.drop_first());
            },
            None => {
                i = self.slots.len();
                self.slots.push(slot);
            },
        }
        match self.tail {
            Some(t) => {
                assert(self.chain@[self.chain@.len() - 1] == t);
                self.slots[t].next = Some(i);
            },
            None => {
                self.head = Some(i);
            },
        }
        self.tail = Some(i);
        assert(self.size < self.slots.len());
        self.size += 1;
        self.chain = Ghost(self.chain@.push(i));
        assert(self@ =~= queue_pushed(old(self)@, data));
    }

    /// Takes the element at the front off, if there is one.
    pub fn pop(&mut self) -> (r: Option<T>)
        requires
            old(self).wf(),
        ensures
            final(self).wf(),
            r == front(old(self)@),
            final(self)@ == popped(old(self)@),
            old(self)@.len() == 0 ==> r is None && final(self)@.len() == 0,
            old(self)@.len() > 0 ==> r is Some && final(self)@.len() == old(self)@.len() - 1,
    {
        match self.head {
            None => None,
            Some(h) => {
                assert(self.chain@[0] == h);
                let data = self.slots[h].data.take();
                let behind = self.slots[h].next;
                self.slots[h].next = self.free;
                self.free = Some(h);
                self.head = behind;
                if behind.is_none() {
                    self.tail = None;
                }
                self.size -= 1;
                self.chain = Ghost(self.chain@.drop_first());
                self.spare = Ghost(seq![h] + self.spare@);
                assert(self@ =~= popped(old(self)@));
                data
            },
        }
    }

    /// The tail marker names no cell exactly when the queue is empty, and
    /// otherwise the last of the cells that are met from the head marker by
    /// going from each cell to the one behind it; those cells are as many as
    /// the queue has elements, and hold them in the queue's order.
    pub proof fn lemma_tail_marks_last_node(self)
        requires
            self.wf(),
        ensures
            self.nodes().len() == self@.len(),
            forall|k: int|
                0 <= k < self.nodes().len() ==> #[trigger] self.element(self.nodes()[k]) == Some(
                    self@[k],
                ),
            self@.len() == 0 <==> self.tail_marker() is None,
            self@.len() == 0 <==> self.head_marker() is None,
            self@.len() > 0 ==> self.head_marker() == Some(self.nodes()[0]),
            forall|k: int|
                0 <= k < self.nodes().len() - 1 ==> #[trigger] self.successor(self.nodes()[k])
                    == Some(self.nodes()[k + 1]),
            self@.len() > 0 ==> self.successor(self.nodes().last()) is None,
            self@.len() > 0 ==> self.tail_marker() == Some(self.nodes().last()),
    {
        assert forall|k: int| 0 <= k < self.nodes().len() - 1 implies #[trigger] self.successor(
            self.nodes()[k],
        ) == Some(self.nodes()[k + 1]) by {
            let j = k + 1;
            assert(self.slots@[self.chain@[k] as int].next == Some(self.chain@[j]));
        }
    }

    /// The number of elements.
    pub fn size(&self) -> (n: usize)
        requires
            self.wf(),
        ensures
            n == self@.len(),
    {
        self.size
    }
}

} // verus!
