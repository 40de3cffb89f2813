use vstd::prelude::*;

verus! {

/// A fixed-capacity block of storage.
///
/// The backing vector is reserved once at the block's capacity and is only
/// ever appended to while it holds fewer values than that, so it never
/// reallocates: the address of an occupied slot is fixed for the block's life.
pub struct InternedItemHolder<T> {
    items: Vec<T>,
    capacity: usize,
}

impl<T> View for InternedItemHolder<T> {
    type V = Seq<T>;

    /// The occupied slots, in insertion order.
    closed spec fn view(&self) -> Seq<T> {
        self.items@
    }
}

impl<T> InternedItemHolder<T> {
    /// The number of slots the block was created with.
    pub closed spec fn spec_capacity(&self) -> nat {
        self.capacity as nat
    }

    /// The occupied slots never outnumber the capacity.
    pub open spec fn wf(&self) -> bool {
        self@.len() <= self.spec_capacity()
    }

    /// An empty block with room for exactly `capacity` values.
    pub fn new(capacity: usize) -> (r: Self)
        ensures
            r.wf(),
            r@ == Seq::<T>::empty(),
            r.spec_capacity() == capacity,
    {
        InternedItemHolder { items: Vec::with_capacity(capacity), capacity }
    }

    /// Appends `item` if a slot is free; otherwise hands `item` back and
    /// leaves the block as it was.
    pub fn try_push(&mut self, item: T) -> (r: Result<(), T>)
        requires
            old(self).wf(),
        ensures
            final(self).wf(),
            final(self).spec_capacity() == old(self).spec_capacity(),
            old(self)@.len() < old(self).spec_capacity() ==> {
                &&& r is Ok
                &&& final(self)@ == old(self)@.push(item)
            },
            old(self)@.len() >= old(self).spec_capacity() ==> {
                &&& r == Err::<(), T>(item)
                &&& *final(self) == *old(self)
            },
    {
        if self.items.len() == self.capacity {
            Err(item)
        } else {
            self.items.push(item);
            Ok(())
        }
    }

    /// The number of occupied slots.
    pub fn len(&self) -> (r: usize)
        ensures
            r == self@.len(),
    {
        self.items.len()
    }

    /// The number of slots the block was created with.
    pub fn capacity(&self) -> (r: usize)
        ensures
            r == self.spec_capacity(),
    {
        self.capacity
    }

    /// The value in slot `index`, if that slot is occupied.
    pub fn get(&self, index: usize) -> (r: Option<&T>)
        ensures
            index < self@.len() ==> r == Some(&self@[index as int]),
            index >= self@.len() ==> r is None,
    {
        if index < self.items.len() {
            Some(&self.items[index])
        } else {
            None
        }
    }
}

} // verus!
