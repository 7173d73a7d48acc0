//! An append-only arena handing out stable integer identities.

use vstd::prelude::*;

verus! {

/// Stores registered items and gives each a fresh identity: its index.
/// Identities are never reused; no update or removal exists.
pub struct ItemStorage<T> {
    items: Vec<T>,
}

impl<T> View for ItemStorage<T> {
    type V = Seq<T>;

    closed spec fn view(&self) -> Seq<T> {
        self.items@
    }
}

impl<T> ItemStorage<T> {
    /// An empty arena.
    pub fn new() -> (r: Self)
        ensures
            r@ == Seq::<T>::empty(),
    {
        ItemStorage { items: Vec::new() }
    }

    /// Appends an item and returns its fresh, previously unused identity.
    pub fn add(&mut self, item: T) -> (id: u64)
        ensures
            final(self)@ == old(self)@.push(item),
            id == old(self)@.len(),
    {
        let id = self.items.len() as u64;
        self.items.push(item);
        id
    }

    /// The item an identity of this arena refers to.
    pub fn borrow(&self, id: u64) -> (r: &T)
        requires
            id < self@.len(),
        ensures
            *r == self@[id as int],
    {
        let n = self.items.len();
        proof {
            assert(id < n as u64);
        }
        &self.items[id as usize]
    }

    /// How many items have been registered.
    pub fn len(&self) -> (r: usize)
        ensures
            r == self@.len(),
    {
        self.items.len()
    }
}

} // verus!
