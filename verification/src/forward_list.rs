use vstd::prelude::*;

verus! {

use vstd::std_specs::cmp::PartialEqSpec;
use crate::linked_list::first_eq;

/// One list slot seen as plain values: `head` is a clone of the value
/// before it, `tail` a clone of the value after it, where those exist.
pub struct Node<T> {
    pub head: Option<T>,
    pub value: T,
    pub tail: Option<T>,
}

impl<T: Clone + PartialEq> Node<T> {
    /// A lone node holding this value.
    pub fn new(value: T) -> (out: Self)
        ensures
            out.head is None,
            out.value == value,
            out.tail is None,
    {
        Node { head: None, value, tail: None }
    }

    /// Boxes the node.
    pub fn wrap(self) -> (out: Box<Self>)
        ensures
            *out == self,
    {
        Box::new(self)
    }
}

/// What a well-taken snapshot of position `i` looks like.
pub open spec fn slot_matches<T: Clone>(s: Seq<T>, i: int, n: Node<T>) -> bool {
    &&& 0 <= i < s.len()
    &&& cloned(s[i], n.value)
    &&& (i == 0 ==> n.head is None)
    &&& (i > 0 ==> (n.head matches Some(p) && cloned(s[i - 1], p)))
    &&& (i == s.len() - 1 ==> n.tail is None)
    &&& (i < s.len() - 1 ==> (n.tail matches Some(q) && cloned(s[i + 1], q)))
}

/// A singly linked list of values, walked from its head.
pub struct LinkedList<T> {
    items: Vec<T>,
}

impl<T> View for LinkedList<T> {
    type V = Seq<T>;

    closed spec fn view(&self) -> Seq<T> {
        self.items@
    }
}

impl<T: Clone + PartialEq> Default for LinkedList<T> {
    /// An empty list.
    fn default() -> (out: Self)
        ensures
            out@ == Seq::<T>::empty(),
    {
        Self::new()
    }
}

impl<T: Clone + PartialEq> LinkedList<T> {
    /// Creates a new empty list.
    pub fn new() -> (out: Self)
        ensures
            out@ == Seq::<T>::empty(),
    {
        let out = LinkedList { items: Vec::new() };
        proof {
            assert(out@ =~= Seq::<T>::empty());
        }
        out
    }

    /// Returns the number of elements.
    pub fn size(&self) -> (out: usize)
        ensures
            out == self@.len(),
    {
        self.items.len()
    }

    /// A snapshot of the first slot, or `None` on an empty list.
    pub fn head(&self) -> (out: Option<Node<T>>)
        ensures
            self@.len() == 0 ==> out is None,
            self@.len() > 0 ==> (out matches Some(n) && slot_matches(self@, 0, n)),
    {
        if self.items.len() == 0 {
            return None;
        }
        Some(self.snapshot(0))
    }

    /// A snapshot of the slot at `index`.
    fn snapshot(&self, index: usize) -> (out: Node<T>)
        requires
            index < self@.len(),
        ensures
            slot_matches(self@, index as int, out),
    {
        let head = if index > 0 {
            Some(self.items[index - 1].clone())
        } else {
            None
        };
        let tail = if index < self.items.len() - 1 {
            Some(self.items[index + 1].clone())
        } else {
            None
        };
        Node { head, value: self.items[index].clone(), tail }
    }

    /// Finds the first slot whose value equals `value`.
    pub fn find(&self, value: T) -> (out: Option<Node<T>>)
        ensures
            T::obeys_eq_spec() ==> ({
                let i = first_eq(self@, value);
                if i >= 0 {
                    out matches Some(n) && slot_matches(self@, i, n)
                } else {
                    out is None
                }
            }),
    {
        let mut j: usize = 0;
        while j < self.items.len()
            invariant
                j <= self@.len(),
                T::obeys_eq_spec() ==> forall|q: int|
                    0 <= q < j ==> !(#[trigger] self@[q]).eq_spec(&value),
            decreases self@.len() - j,
        {
            if self.items[j] == value {
                proof {
                    if T::obeys_eq_spec() {
                        crate::linked_list::lemma_first_eq_found(self@, value, j as int);
                    }
                }
                return Some(self.snapshot(j));
            }
            j = j + 1;
        }
        proof {
            if T::obeys_eq_spec() {
                crate::linked_list::lemma_first_eq_none(self@, value);
            }
        }
        None
    }

    /// Returns a snapshot of the slot at `pos`, or `None` past the end.
    pub fn node_at(&self, pos: usize) -> (out: Option<Node<T>>)
        ensures
            pos >= self@.len() ==> out is None,
            pos < self@.len() ==> (out matches Some(n) && slot_matches(self@, pos as int, n)),
    {
        if pos >= self.items.len() {
            return None;
        }
        Some(self.snapshot(pos))
    }

    /// Inserts a value at the start and returns the new first slot.
    pub fn insert_start(&mut self, value: T) -> (out: Option<Node<T>>)
        ensures
            final(self)@ == seq![value] + old(self)@,
            out matches Some(n) && slot_matches(final(self)@, 0, n),
    {
        self.items.insert(0, value);
        proof {
            assert(self@ =~= seq![value] + old(self)@);
        }
        Some(self.snapshot(0))
    }

    /// Inserts a value at the end and returns the new last slot.
    pub fn insert_end(&mut self, value: T) -> (out: Option<Node<T>>)
        ensures
            final(self)@ == old(self)@.push(value),
            out matches Some(n) && slot_matches(final(self)@, final(self)@.len() - 1, n),
    {
        self.items.push(value);
        Some(self.snapshot(self.items.len() - 1))
    }

    /// Inserts a value at `pos`, or at the end where `pos` runs past it,
    /// and returns the new slot.
    pub fn insert_at(&mut self, value: T, pos: usize) -> (out: Option<Node<T>>)
        ensures
            ({
                let eff: int = if pos as int <= old(self)@.len() {
                    pos as int
                } else {
                    old(self)@.len() as int
                };
                &&& final(self)@ == old(self)@.insert(eff, value)
                &&& (out matches Some(n) && slot_matches(final(self)@, eff, n))
            }),
    {
        let eff = if pos <= self.items.len() {
            pos
        } else {
            self.items.len()
        };
        self.items.insert(eff, value);
        Some(self.snapshot(eff))
    }

    /// Rewrites the value at `pos`; `None` past the end.
    pub fn update_at(&mut self, value: T, pos: usize) -> (out: Option<Node<T>>)
        ensures
            pos >= old(self)@.len() ==> out is None && final(self)@ == old(self)@,
            pos < old(self)@.len() ==> ({
                &&& final(self)@ == old(self)@.update(pos as int, value)
                &&& (out matches Some(n) && slot_matches(final(self)@, pos as int, n))
            }),
    {
        if pos >= self.items.len() {
            return None;
        }
        self.items.remove(pos);
        self.items.insert(pos, value);
        proof {
            assert(self@ =~= old(self)@.update(pos as int, value));
        }
        Some(self.snapshot(pos))
    }

    /// Removes the first slot and hands its value back.
    pub fn pop_start(&mut self) -> (out: Option<Node<T>>)
        ensures
            old(self)@.len() == 0 ==> out is None && final(self)@ == old(self)@,
            old(self)@.len() > 0 ==> ({
                &&& final(self)@ == old(self)@.drop_first()
                &&& (out matches Some(n) && cloned(old(self)@[0], n.value) && n.head is None
                    && n.tail is None)
            }),
    {
        if self.items.len() == 0 {
            return None;
        }
        let value = self.items.remove(0);
        proof {
            assert(self.items@ =~= old(self)@.drop_first());
        }
        Some(Node { head: None, value, tail: None })
    }

    /// Removes the last slot and hands its value back.
    pub fn pop_end(&mut self) -> (out: Option<Node<T>>)
        ensures
            old(self)@.len() == 0 ==> out is None && final(self)@ == old(self)@,
            old(self)@.len() > 0 ==> ({
                &&& final(self)@ == old(self)@.drop_last()
                &&& (out matches Some(n) && cloned(old(self)@.last(), n.value))
            }),
    {
        match self.items.pop() {
            Some(value) => Some(Node { head: None, value, tail: None }),
            None => None,
        }
    }

    /// Removes the slot at `pos` and hands its value back; `None` past
    /// the end.
    pub fn pop_at(&mut self, pos: usize) -> (out: Option<Node<T>>)
        ensures
            pos >= old(self)@.len() ==> out is None && final(self)@ == old(self)@,
            pos < old(self)@.len() ==> ({
                &&& final(self)@ == old(self)@.remove(pos as int)
                &&& (out matches Some(n) && cloned(old(self)@[pos as int], n.value))
            }),
    {
        if pos >= self.items.len() {
            return None;
        }
        let value = self.items.remove(pos);
        Some(Node { head: None, value, tail: None })
    }
}

} // verus!
