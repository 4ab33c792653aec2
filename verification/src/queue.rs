use vstd::prelude::*;

verus! {

/// One queue slot seen as plain values: the value it holds beside the
/// values of its two neighbours, if it has them.
pub struct Node<T> {
    pub prev: Option<T>,
    pub value: T,
    pub next: Option<T>,
}

/// A first-in-first-out queue. Values enter at the back and leave at the
/// front.
pub struct Queue<T> {
    items: Vec<T>,
}

impl<T> View for Queue<T> {
    type V = Seq<T>;

    closed spec fn view(&self) -> Seq<T> {
        self.items@
    }
}

impl<T: PartialEq + Copy> Default for Queue<T> {
    /// An empty queue.
    fn default() -> (out: Self)
        ensures
            out@ == Seq::<T>::empty(),
    {
        Self::new()
    }
}

impl<T: PartialEq + Copy> Queue<T> {
    /// Creates a new empty queue.
    pub fn new() -> (out: Self)
        ensures
            out@ == Seq::<T>::empty(),
    {
        let out = Queue { items: Vec::new() };
        proof {
            assert(out@ =~= Seq::<T>::empty());
        }
        out
    }

    /// Returns `true` if queue is empty.
    pub fn is_empty(&self) -> (out: bool)
        ensures
            out == (self@.len() == 0),
    {
        self.items.len() == 0
    }

    /// Returns number of items in queue.
    pub fn size(&self) -> (out: usize)
        ensures
            out == self@.len(),
    {
        self.items.len()
    }

    /// Returns the value at the front of the queue.
    pub fn peek(&self) -> (out: Option<T>)
        ensures
            self@.len() == 0 ==> out is None,
            self@.len() > 0 ==> out == Some(self@[0]),
    {
        if self.items.len() == 0 {
            None
        } else {
            Some(self.items[0])
        }
    }

    /// Pushes a value to the back of the queue.
    pub fn enqueue(&mut self, value: T)
        ensures
            final(self)@ == old(self)@.push(value),
    {
        self.items.push(value);
    }

    /// Pops a value from the front of the queue.
    pub fn dequeue(&mut self) -> (out: Option<T>)
        ensures
            old(self)@.len() == 0 ==> out is None && final(self)@ == old(self)@,
            old(self)@.len() > 0 ==> out == Some(old(self)@[0]) && final(self)@ == old(
                self,
            )@.drop_first(),
    {
        if self.items.len() == 0 {
            return None;
        }
        let value = self.items.remove(0);
        proof {
            assert(self.items@ =~= old(self)@.drop_first());
        }
        Some(value)
    }

    /// Copies the queue's values into a vec, front first.
    pub fn into_vec(&self) -> (out: Vec<T>)
        ensures
            out@ == self@,
    {
        let mut out: Vec<T> = Vec::new();
        let mut i: usize = 0;
        while i < self.items.len()
            invariant
                i <= self@.len(),
                out@ == self@.take(i as int),
            decreases self@.len() - i,
        {
            out.push(self.items[i]);
            proof {
                assert(self@.take(i + 1) =~= self@.take(i as int).push(self@[i as int]));
            }
            i = i + 1;
        }
        proof {
            assert(self@.take(self@.len() as int) =~= self@);
        }
        out
    }

    /// Returns an iterator over queue items, front to back.
    pub fn iter(&self) -> (out: QueueIterator<T>)
        ensures
            out.items@ == self@,
            out.pos == 0,
    {
        QueueIterator { items: self.into_vec(), pos: 0 }
    }
}

/// Walks the queue's values from front to back.
pub struct QueueIterator<T> {
    pub items: Vec<T>,
    pub pos: usize,
}

impl<T: PartialEq + Copy> QueueIterator<T> {
    /// The next value, or `None` past the back.
    pub fn next(&mut self) -> (out: Option<T>)
        ensures
            old(self).pos >= old(self).items@.len() ==> out is None && *final(self) == *old(
                self,
            ),
            old(self).pos < old(self).items@.len() ==> out == Some(
                old(self).items@[old(self).pos as int],
            ) && final(self).items == old(self).items && final(self).pos == old(self).pos + 1,
    {
        if self.pos >= self.items.len() {
            return None;
        }
        let value = self.items[self.pos];
        self.pos = self.pos + 1;
        Some(value)
    }
}

} // verus!
