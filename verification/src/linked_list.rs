use vstd::prelude::*;

verus! {

use vstd::std_specs::cmp::PartialEqSpec;

/// One list slot seen as plain values: clones of the value it holds and
/// of its two neighbours' values, where those exist.
pub struct Node<T> {
    pub prev: Option<T>,
    pub value: T,
    pub next: Option<T>,
}

/// What a well-taken snapshot of position `i` looks like.
pub open spec fn node_matches<T: Clone>(s: Seq<T>, i: int, n: Node<T>) -> bool {
    &&& 0 <= i < s.len()
    &&& cloned(s[i], n.value)
    &&& (i == 0 ==> n.prev is None)
    &&& (i > 0 ==> (n.prev matches Some(p) && cloned(s[i - 1], p)))
    &&& (i == s.len() - 1 ==> n.next is None)
    &&& (i < s.len() - 1 ==> (n.next matches Some(q) && cloned(s[i + 1], q)))
}

/// The first position whose value equals `v` under the type's own
/// equality, or -1 if none does.
pub open spec fn first_eq<T: PartialEq>(s: Seq<T>, v: T) -> int
    decreases s.len(),
{
    if s.len() == 0 {
        -1
    } else if s.first().eq_spec(&v) {
        0
    } else {
        let rest = first_eq(s.drop_first(), v);
        if rest < 0 {
            -1
        } else {
            1 + rest
        }
    }
}

pub proof fn lemma_first_eq_found<T: PartialEq>(s: Seq<T>, v: T, i: int)
    requires
        0 <= i < s.len(),
        s[i].eq_spec(&v),
        forall|q: int| 0 <= q < i ==> !(#[trigger] s[q]).eq_spec(&v),
    ensures
        first_eq(s, v) == i,
    decreases i,
{
    if i > 0 {
        assert(!s.first().eq_spec(&v));
        assert(forall|q: int|
            0 <= q < s.drop_first().len() ==> (#[trigger] s.drop_first()[q]) == s[q + 1]);
        lemma_first_eq_found(s.drop_first(), v, i - 1);
    }
}

pub proof fn lemma_first_eq_none<T: PartialEq>(s: Seq<T>, v: T)
    requires
        forall|q: int| 0 <= q < s.len() ==> !(#[trigger] s[q]).eq_spec(&v),
    ensures
        first_eq(s, v) == -1,
    decreases s.len(),
{
    if s.len() > 0 {
        assert(forall|q: int|
            0 <= q < s.drop_first().len() ==> (#[trigger] s.drop_first()[q]) == s[q + 1]);
        lemma_first_eq_none(s.drop_first(), v);
    }
}

/// A doubly linked list of values: inserting, updating and removing at
/// the start, the end, or any position, searching by value, and walking
/// the values in order.
pub struct LinkedList<T> {
    items: Vec<T>,
}

impl<T> View for LinkedList<T> {
    type V = Seq<T>;

    closed spec fn view(&self) -> Seq<T> {
        self.items@
    }
}

impl<T: PartialEq + Clone> Default for LinkedList<T> {
    /// An empty list.
    fn default() -> (out: Self)
        ensures
            out@ == Seq::<T>::empty(),
    {
        Self::new()
    }
}

impl<T: PartialEq + Clone> LinkedList<T> {
    /// Creates a new empty linked list.
    pub fn new() -> (out: Self)
        ensures
            out@ == Seq::<T>::empty(),
    {
        let out = LinkedList { items: Vec::new() };
        proof {
            assert(out@ =~= Seq::<T>::empty());
        }
        out
    }

    /// Returns the number of elements in the list.
    pub fn size(&self) -> (out: usize)
        ensures
            out == self@.len(),
    {
        self.items.len()
    }

    /// A snapshot of the slot at `index`.
    fn snapshot(&self, index: usize) -> (out: Node<T>)
        requires
            index < self@.len(),
        ensures
            node_matches(self@, index as int, out),
    {
        let prev = if index > 0 {
            Some(self.items[index - 1].clone())
        } else {
            None
        };
        let next = if index < self.items.len() - 1 {
            Some(self.items[index + 1].clone())
        } else {
            None
        };
        Node { prev, value: self.items[index].clone(), next }
    }

    /// Finds the first slot whose value equals `value`, or `None` if no
    /// slot does.
    pub fn find(&self, value: T) -> (out: Option<Node<T>>)
        ensures
            T::obeys_eq_spec() ==> ({
                let i = first_eq(self@, value);
                if i >= 0 {
                    out matches Some(n) && node_matches(self@, i, n)
                } else {
                    out is None
                }
            }),
    {
        let mut j: usize = 0;
        while j < self.items.len()
            invariant
                j <= self@.len(),
                T::obeys_eq_spec() ==> forall|q: int|
                    0 <= q < j ==> !(#[trigger] self@[q]).eq_spec(&value),
            decreases self@.len() - j,
        {
            if self.items[j] == value {
                proof {
                    if T::obeys_eq_spec() {
                        lemma_first_eq_found(self@, value, j as int);
                    }
                }
                return Some(self.snapshot(j));
            }
            j = j + 1;
        }
        proof {
            if T::obeys_eq_spec() {
                lemma_first_eq_none(self@, value);
            }
        }
        None
    }

    /// Returns a snapshot of the slot at `index`, or `None` past the end.
    pub fn node_at(&self, index: usize) -> (out: Option<Node<T>>)
        ensures
            index >= self@.len() ==> out is None,
            index < self@.len() ==> (out matches Some(n) && node_matches(self@, index as int, n)),
    {
        if index >= self.items.len() {
            return None;
        }
        Some(self.snapshot(index))
    }

    /// Inserts a value at the start of the list and returns a snapshot of
    /// the new first slot.
    pub fn insert_start(&mut self, value: T) -> (out: Option<Node<T>>)
        ensures
            final(self)@ == seq![value] + old(self)@,
            out matches Some(n) && node_matches(final(self)@, 0, n),
    {
        self.items.insert(0, value);
        proof {
            assert(self@ =~= seq![value] + old(self)@);
        }
        Some(self.snapshot(0))
    }

    /// Inserts a value at the end of the list and returns a snapshot of
    /// the new last slot.
    pub fn insert_end(&mut self, value: T) -> (out: Option<Node<T>>)
        ensures
            final(self)@ == old(self)@.push(value),
            out matches Some(n) && node_matches(final(self)@, final(self)@.len() - 1, n),
    {
        self.items.push(value);
        Some(self.snapshot(self.items.len() - 1))
    }

    /// Inserts a value at the given index: the start at 0, the end at the
    /// length, otherwise before the slot now at `index`. Past the length
    /// nothing changes and `None` comes back.
    pub fn insert_at(&mut self, value: T, index: usize) -> (out: Option<Node<T>>)
        ensures
            index > old(self)@.len() ==> out is None && final(self)@ == old(self)@,
            index <= old(self)@.len() ==> ({
                &&& final(self)@ == old(self)@.insert(index as int, value)
                &&& (out matches Some(n) && node_matches(final(self)@, index as int, n))
            }),
    {
        if index > self.items.len() {
            return None;
        }
        self.items.insert(index, value);
        Some(self.snapshot(index))
    }

    /// Rewrites the first value; `None` on an empty list.
    pub fn update_start(&mut self, value: T) -> (out: Option<Node<T>>)
        ensures
            old(self)@.len() == 0 ==> out is None && final(self)@ == old(self)@,
            old(self)@.len() > 0 ==> ({
                &&& final(self)@ == old(self)@.update(0, value)
                &&& (out matches Some(n) && node_matches(final(self)@, 0, n))
            }),
    {
        if self.items.len() == 0 {
            return None;
        }
        self.set_at(0, value);
        Some(self.snapshot(0))
    }

    /// Rewrites the last value; `None` on an empty list.
    pub fn update_end(&mut self, value: T) -> (out: Option<Node<T>>)
        ensures
            old(self)@.len() == 0 ==> out is None && final(self)@ == old(self)@,
            old(self)@.len() > 0 ==> ({
                &&& final(self)@ == old(self)@.update(old(self)@.len() - 1, value)
                &&& (out matches Some(n) && node_matches(final(self)@, final(self)@.len() - 1, n))
            }),
    {
        if self.items.len() == 0 {
            return None;
        }
        let last = self.items.len() - 1;
        self.set_at(last, value);
        Some(self.snapshot(last))
    }

    /// Rewrites the value at `index`; `None` past the end.
    pub fn update_at(&mut self, value: T, index: usize) -> (out: Option<Node<T>>)
        ensures
            index >= old(self)@.len() ==> out is None && final(self)@ == old(self)@,
            index < old(self)@.len() ==> ({
                &&& final(self)@ == old(self)@.update(index as int, value)
                &&& (out matches Some(n) && node_matches(final(self)@, index as int, n))
            }),
    {
        if index >= self.items.len() {
            return None;
        }
        self.set_at(index, value);
        Some(self.snapshot(index))
    }

    /// Replaces the value at a known-good index.
    fn set_at(&mut self, index: usize, value: T)
        requires
            index < old(self)@.len(),
        ensures
            final(self)@ == old(self)@.update(index as int, value),
    {
        self.items.remove(index);
        self.items.insert(index, value);
        proof {
            assert(self@ =~= old(self)@.update(index as int, value));
        }
    }

    /// Removes the first slot and hands its value back; `None` on an
    /// empty list.
    pub fn pop_start(&mut self) -> (out: Option<Node<T>>)
        ensures
            old(self)@.len() == 0 ==> out is None && final(self)@ == old(self)@,
            old(self)@.len() > 0 ==> ({
                &&& final(self)@ == old(self)@.drop_first()
                &&& (out matches Some(n) && cloned(old(self)@[0], n.value) && n.prev is None
                    && n.next is None)
            }),
    {
        if self.items.len() == 0 {
            return None;
        }
        let value = self.items.remove(0);
        proof {
            assert(self.items@ =~= old(self)@.drop_first());
        }
        Some(Node { prev: None, value, next: None })
    }

    /// Removes the last slot and hands its value back; `None` on an
    /// empty list.
    pub fn pop_end(&mut self) -> (out: Option<Node<T>>)
        ensures
            old(self)@.len() == 0 ==> out is None && final(self)@ == old(self)@,
            old(self)@.len() > 0 ==> ({
                &&& final(self)@ == old(self)@.drop_last()
                &&& (out matches Some(n) && cloned(old(self)@.last(), n.value) && n.prev
                    is None && n.next is None)
            }),
    {
        match self.items.pop() {
            Some(value) => Some(Node { prev: None, value, next: None }),
            None => None,
        }
    }

    /// Removes the slot at `index` and hands its value back; `None` past
    /// the end.
    pub fn pop_at(&mut self, index: usize) -> (out: Option<Node<T>>)
        ensures
            index >= old(self)@.len() ==> out is None && final(self)@ == old(self)@,
            index < old(self)@.len() ==> ({
                &&& final(self)@ == old(self)@.remove(index as int)
                &&& (out matches Some(n) && cloned(old(self)@[index as int], n.value))
            }),
    {
        if index >= self.items.len() {
            return None;
        }
        let value = self.items.remove(index);
        Some(Node { prev: None, value, next: None })
    }

    /// Returns an iterator over the values in the list, head to tail.
    pub fn iter(&self) -> (out: LinkedListIter<T>)
        ensures
            forall|i: int|
                0 <= i < self@.len() ==> cloned(self@[i], #[trigger] out.items@[i]),
            out.items@.len() == self@.len(),
            out.pos == 0,
    {
        let mut copied: Vec<T> = Vec::new();
        let mut i: usize = 0;
        while i < self.items.len()
            invariant
                i <= self@.len(),
                copied@.len() == i as int,
                forall|q: int| 0 <= q < i ==> cloned(self@[q], #[trigger] copied@[q]),
            decreases self@.len() - i,
        {
            copied.push(self.items[i].clone());
            i = i + 1;
        }
        LinkedListIter { items: copied, pos: 0 }
    }
}

/// Iterator over a list, walking from head to tail.
pub struct LinkedListIter<T> {
    pub items: Vec<T>,
    pub pos: usize,
}

impl<T: PartialEq + Clone> LinkedListIter<T> {
    /// The next value, or `None` past the tail.
    pub fn next(&mut self) -> (out: Option<T>)
        ensures
            old(self).pos >= old(self).items@.len() ==> out is None && *final(self) == *old(
                self,
            ),
            old(self).pos < old(self).items@.len() ==> (out matches Some(v) && cloned(
                old(self).items@[old(self).pos as int],
                v,
            ) && final(self).items == old(self).items && final(self).pos == old(self).pos + 1),
    {
        if self.pos >= self.items.len() {
            return None;
        }
        let value = self.items[self.pos].clone();
        self.pos = self.pos + 1;
        Some(value)
    }
}

} // verus!
