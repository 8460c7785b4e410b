use crate::base::order::{at_most, orderly};
use std::collections::VecDeque;
use vstd::prelude::*;

verus! {

/// A queue with its elements in ascending order (unstrict)
pub struct MonotonicQueue<'a, T: PartialOrd> {
    inner: VecDeque<&'a T>,
}

/// How many of the items stay when `value` joins: those up to the last one
/// that is at most `value`.
pub open spec fn kept<T: PartialOrd>(items: Seq<T>, value: T) -> int
    decreases items.len(),
{
    if items.len() == 0 {
        0
    } else if at_most(items.last(), value) {
        items.len() as int
    } else {
        kept(items.drop_last(), value)
    }
}

/// Each item is at most the one that follows it.
pub open spec fn ascending<T: PartialOrd>(items: Seq<T>) -> bool {
    forall|i: int| 0 <= i < items.len() - 1 ==> at_most(#[trigger] items[i], items[i + 1])
}

impl<'a, T: PartialOrd> MonotonicQueue<'a, T> {
    /// The items of the queue, the oldest first.
    pub closed spec fn items(&self) -> Seq<T> {
        Seq::new(self.inner@.len(), |i: int| *self.inner@[i])
    }

    /// Creates an empty MonotonicQueue.
    pub fn new() -> (q: Self)
        ensures
            q.items() == Seq::<T>::empty(),
    {
        let q = MonotonicQueue { inner: VecDeque::new() };
        assert(q.items() =~= Seq::<T>::empty());
        q
    }

    /// Returns the number of elements.
    pub fn len(&self) -> (n: usize)
        ensures
            n == self.items().len(),
    {
        self.inner.len()
    }

    /// Returns true if the MonotonicQueue is empty.
    pub fn is_empty(&self) -> (b: bool)
        ensures
            b == (self.items().len() == 0),
    {
        self.inner.len() == 0
    }

    /// Clears the MonotonicQueue, removing all values.
    pub fn clear(&mut self)
        ensures
            final(self).items() == Seq::<T>::empty(),
    {
        self.inner.clear();
        assert(self.items() =~= Seq::<T>::empty());
    }

    /// Appends an element to the back of the MonotonicQueue, after removing
    /// from the back all elements that are not at most `value`.
    pub fn enqueue(&mut self, value: &'a T)
        ensures
            final(self).items().len() >= 1,
            final(self).items().last() == *value,
            final(self).items().drop_last() == old(self).items().take(
                final(self).items().len() - 1,
            ),
            orderly::<T>() ==> final(self).items().len() == kept(old(self).items(), *value) + 1,
            orderly::<T>() && ascending(old(self).items()) ==> ascending(final(self).items()),
    {
        let ghost before = self.items();
        while self.inner.len() > 0 && !(*self.inner[self.inner.len() - 1] <= *value)
            invariant
                self.items().len() <= before.len(),
                self.items() == before.take(self.items().len() as int),
                orderly::<T>() ==> kept(self.items(), *value) == kept(before, *value),
            decreases self.inner.len(),
        {
            let ghost longer = self.items();
            self.inner.pop_back();
            proof {
                assert(self.items() =~= longer.drop_last());
                assert(self.items() =~= before.take(self.items().len() as int));
            }
        }
        let ghost rest = self.items();
        self.inner.push_back(value);
        proof {
            assert(self.items() =~= rest.push(*value));
            assert(self.items().drop_last() =~= rest);
            if orderly::<T>() && ascending(before) {
                assert forall|i: int| 0 <= i < self.items().len() - 1 implies at_most(
                    #[trigger] self.items()[i],
                    self.items()[i + 1],
                ) by {
                    if i < rest.len() - 1 {
                        assert(at_most(before[i], before[i + 1]));
                    }
                }
            }
        }
    }

    /// Removes the first element and returns it, or None if the MonotonicQueue is empty.
    pub fn dequeue(&mut self) -> (r: Option<&T>)
        ensures
            match r {
                Some(x) => old(self).items().len() > 0 && *x == old(self).items()[0] && final(self).items() == old(self).items().drop_first(),
                None => old(self).items().len() == 0 && final(self).items() == old(self).items(),
            },
            ascending(old(self).items()) ==> ascending(final(self).items()),
    {
        let r = self.inner.pop_front();
        proof {
            if r is Some {
                assert(self.items() =~= old(self).items().drop_first());
                if ascending(old(self).items()) {
                    assert forall|i: int| 0 <= i < self.items().len() - 1 implies at_most(
                        #[trigger] self.items()[i],
                        self.items()[i + 1],
                    ) by {
                        assert(at_most(old(self).items()[i + 1], old(self).items()[i + 1 + 1]));
                    }
                }
            } else {
                assert(self.items() =~= old(self).items());
            }
        }
        match r {
            Some(x) => Some(x),
            None => None,
        }
    }

    /// Provides a reference to the front element, or None if the MonotonicQueue is empty.
    pub fn head(&self) -> (r: Option<&&T>)
        ensures
            match r {
                Some(x) => self.items().len() > 0 && **x == self.items()[0],
                None => self.items().len() == 0,
            },
    {
        if self.inner.len() == 0 {
            None
        } else {
            Some(&self.inner[0])
        }
    }
}

impl<'a, T: PartialOrd> Default for MonotonicQueue<'a, T> {
    fn default() -> (q: Self)
        ensures
            q.items() == Seq::<T>::empty(),
    {
        MonotonicQueue::new()
    }
}

} // verus!
