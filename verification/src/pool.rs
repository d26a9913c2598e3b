//! A rotation pool: items leave at the front, return at the tail, so
//! repeated takers walk the items round-robin.
//!
//! An item is always either held by exactly one caller or in the pool,
//! never both and never neither: taking moves it out, returning moves it
//! back.

use vstd::prelude::*;

verus! {

/// Items waiting to be taken, in rotation order.
pub struct Pool<T> {
    items: Vec<T>,
}

impl<T> Pool<T> {
    /// The queued items, front first.
    pub closed spec fn items_spec(&self) -> Seq<T> {
        self.items@
    }

    /// A pool over the given items, in order.
    pub fn new(items: Vec<T>) -> (r: Pool<T>)
        ensures
            r.items_spec() == items@,
    {
        Pool { items }
    }

    /// How many items are in the pool right now.
    pub fn len(&self) -> (r: usize)
        ensures
            r == self.items_spec().len(),
    {
        self.items.len()
    }

    /// Takes the front item; nothing when every item is out.  A caller
    /// that needs an item then tries again later.
    pub fn get_item(&mut self) -> (r: Option<T>)
        ensures
            if old(self).items_spec().len() > 0 {
                &&& r == Some(old(self).items_spec()[0])
                &&& final(self).items_spec() == old(self).items_spec().drop_first()
            } else {
                &&& r is None
                &&& final(self).items_spec() == old(self).items_spec()
            },
    {
        if self.items.len() > 0 {
            let item = self.items.remove(0);
            Some(item)
        } else {
            None
        }
    }

    /// Returns an item to the tail, behind the others.
    pub fn put_back(&mut self, item: T)
        ensures
            final(self).items_spec() == old(self).items_spec().push(item),
    {
        self.items.push(item);
    }
}

} // verus!
