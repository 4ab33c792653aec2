use vstd::prelude::*;

verus! {

/// One stack slot seen as plain values: the value it holds, the value
/// below it and the value above it, where those exist.
pub struct Node<T> {
    pub prev: Option<T>,
    pub value: T,
    pub next: Option<T>,
}

/// A last-in-first-out stack. The view runs bottom to top: pushes append
/// at the end, pops take from the end.
pub struct Stack<T> {
    items: Vec<T>,
}

impl<T> View for Stack<T> {
    type V = Seq<T>;

    closed spec fn view(&self) -> Seq<T> {
        self.items@
    }
}

impl<T: PartialEq + Copy> Default for Stack<T> {
    /// An empty stack.
    fn default() -> (out: Self)
        ensures
            out@ == Seq::<T>::empty(),
    {
        Self::new()
    }
}

impl<T: PartialEq + Copy> Stack<T> {
    /// Creates a new empty stack.
    pub fn new() -> (out: Self)
        ensures
            out@ == Seq::<T>::empty(),
    {
        let out = Stack { items: Vec::new() };
        proof {
            assert(out@ =~= Seq::<T>::empty());
        }
        out
    }

    /// Returns number of stored values.
    pub fn size(&self) -> (out: usize)
        ensures
            out == self@.len(),
    {
        self.items.len()
    }

    /// Returns `true` if stack stores no items.
    pub fn is_empty(&self) -> (out: bool)
        ensures
            out == (self@.len() == 0),
    {
        self.items.len() == 0
    }

    /// Returns the node at the top of the stack without removing it.
    pub fn peek(&self) -> (out: Option<Node<T>>)
        ensures
            self@.len() == 0 ==> out is None,
            self@.len() > 0 ==> (out matches Some(n) && n.value == self@.last() && n.next
                is None && (self@.len() > 1 ==> n.prev == Some(self@[self@.len() - 2])) && (
            self@.len() == 1 ==> n.prev is None)),
    {
        if self.items.len() == 0 {
            return None;
        }
        let top = self.items[self.items.len() - 1];
        let prev = if self.items.len() > 1 {
            Some(self.items[self.items.len() - 2])
        } else {
            None
        };
        Some(Node { prev, value: top, next: None })
    }

    /// Returns the value at the top of the stack without removing it.
    pub fn peek_value(&self) -> (out: Option<T>)
        ensures
            self@.len() == 0 ==> out is None,
            self@.len() > 0 ==> out == Some(self@.last()),
    {
        if self.items.len() == 0 {
            None
        } else {
            Some(self.items[self.items.len() - 1])
        }
    }

    /// Removes all items, leaving the stack empty.
    pub fn clear(&mut self)
        ensures
            final(self)@ == Seq::<T>::empty(),
    {
        self.items.clear();
        proof {
            assert(self@ =~= Seq::<T>::empty());
        }
    }

    /// Pushes a value onto the top of the stack and returns the new top.
    pub fn push(&mut self, value: T) -> (out: Option<Node<T>>)
        ensures
            final(self)@ == old(self)@.push(value),
            out matches Some(n) && n.value == value && n.next is None,
            old(self)@.len() > 0 ==> (out matches Some(n) && n.prev == Some(old(self)@.last())),
            old(self)@.len() == 0 ==> (out matches Some(n) && n.prev is None),
    {
        let prev = if self.items.len() > 0 {
            Some(self.items[self.items.len() - 1])
        } else {
            None
        };
        self.items.push(value);
        Some(Node { prev, value, next: None })
    }

    /// Pops the top value off the stack, returning the removed node.
    pub fn pop(&mut self) -> (out: Option<Node<T>>)
        ensures
            old(self)@.len() == 0 ==> out is None && final(self)@ == old(self)@,
            old(self)@.len() > 0 ==> ({
                &&& final(self)@ == old(self)@.drop_last()
                &&& (out matches Some(n) && n.value == old(self)@.last() && n.next is None
                    && n.prev is None)
            }),
    {
        if self.items.len() == 0 {
            return None;
        }
        let value = match self.items.pop() {
            Some(v) => v,
            None => {
                proof {
                    assert(false);
                }
                return None;
            },
        };
        Some(Node { prev: None, value, next: None })
    }

    /// Consumes the stack, returning the stored values bottom to top.
    pub fn into_vec(self) -> (out: Vec<T>)
        ensures
            out@ == self@,
    {
        self.items
    }

    /// Returns an iterator that yields values from bottom to top.
    pub fn iter(&self) -> (out: StackIter<T>)
        ensures
            out.items@ == self@,
            out.pos == 0,
    {
        let mut copied: Vec<T> = Vec::new();
        let mut i: usize = 0;
        while i < self.items.len()
            invariant
                i <= self@.len(),
                copied@ == self@.take(i as int),
            decreases self@.len() - i,
        {
            copied.push(self.items[i]);
            proof {
                assert(self@.take(i + 1) =~= self@.take(i as int).push(self@[i as int]));
            }
            i = i + 1;
        }
        proof {
            assert(self@.take(self@.len() as int) =~= self@);
        }
        StackIter { items: copied, pos: 0 }
    }
}

/// Walks a stack's values from the bottom to the top.
pub struct StackIter<T> {
    pub items: Vec<T>,
    pub pos: usize,
}

impl<T: PartialEq + Copy> StackIter<T> {
    /// The next value, or `None` past the top.
    pub fn next(&mut self) -> (out: Option<T>)
        ensures
            old(self).pos >= old(self).items@.len() ==> out is None && *final(self) == *old(
                self,
            ),
            old(self).pos < old(self).items@.len() ==> out == Some(
                old(self).items@[old(self).pos as int],
            ) && final(self).items == old(self).items && final(self).pos == old(self).pos + 1,
    {
        if self.pos >= self.items.len() {
            return None;
        }
        let value = self.items[self.pos];
        self.pos = self.pos + 1;
        Some(value)
    }
}

} // verus!
