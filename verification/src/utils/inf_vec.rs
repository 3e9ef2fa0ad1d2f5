use vstd::prelude::*;

verus! {

/// A conceptually infinite vector of optional slots, all empty at the start.
/// Only the prefix that has ever been written is stored; every index beyond it
/// reads as an empty slot.
pub struct InfVec<T> {
    items: Vec<Option<T>>,
}

impl<T> InfVec<T> {
    /// The slot at index `i`: `None` wherever nothing has been stored.
    pub closed spec fn slot(&self, i: int) -> Option<T> {
        if 0 <= i < self.items@.len() {
            self.items@[i]
        } else {
            None
        }
    }

    pub fn new() -> (r: Self)
        ensures
            forall|i: int| r.slot(i) is None,
    {
        InfVec { items: Vec::new() }
    }

    /// Empties every slot.
    pub fn clear(&mut self)
        ensures
            forall|i: int| final(self).slot(i) is None,
    {
        self.items.clear();
    }

    /// Stores `v` at index `i`, leaving every other slot as it was.
    pub fn set(&mut self, i: usize, v: T)
        ensures
            final(self).slot(i as int) == Some(v),
            forall|j: int| j != i ==> final(self).slot(j) == old(self).slot(j),
    {
        while self.items.len() <= i
            invariant
                self.items@.len() >= old(self).items@.len(),
                forall|j: int|
                    0 <= j < self.items@.len() ==> (#[trigger] self.items@[j]) == old(self).slot(
                        j,
                    ),
            decreases i + 1 - self.items.len(),
        {
            self.items.push(None);
        }
        self.items[i] = Some(v);
    }

    /// Removes and returns what the slot at `i` held, leaving it empty.
    pub fn take(&mut self, i: usize) -> (r: Option<T>)
        ensures
            r == old(self).slot(i as int),
            final(self).slot(i as int) is None,
            forall|j: int| j != i ==> final(self).slot(j) == old(self).slot(j),
    {
        if i < self.items.len() {
            self.items[i].take()
        } else {
            None
        }
    }

    /// Whether the slot at `i` holds a value.
    pub fn is_set(&self, i: usize) -> (r: bool)
        ensures
            r == (self.slot(i as int) is Some),
    {
        i < self.items.len() && self.items[i].is_some()
    }
}

} // verus!
