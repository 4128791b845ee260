//! A set: a treap map whose values carry nothing.
use vstd::prelude::*;
use crate::map::{lemma_search_tree_and_heap, TreapMap};
use crate::order::total_order;

verus! {

/// A set based on a randomized treap.
pub struct TreapSet<T> {
    map: TreapMap<T, ()>,
}

impl<T> View for TreapSet<T> {
    type V = Set<T>;

    closed spec fn view(&self) -> Set<T> {
        self.map@.dom()
    }
}

impl<T: Ord> TreapSet<T> {
    /// The underlying map is a well-formed treap.
    pub closed spec fn wf(&self) -> bool {
        self.map.wf()
    }

    /// A well-formed set is finite.
    pub proof fn lemma_finite(&self)
        requires
            self.wf(),
        ensures
            self@.finite(),
    {
        lemma_search_tree_and_heap(&self.map);
    }

    /// Returns a new empty set.
    pub fn new() -> (s: TreapSet<T>)
        ensures
            s.wf(),
            s@ == Set::<T>::empty(),
    {
        let s = TreapSet { map: TreapMap::new() };
        proof {
            assert(s@ =~= Set::empty());
        }
        s
    }

    /// Returns the number of elements in the set.
    pub fn len(&self) -> (n: usize)
        requires
            self.wf(),
        ensures
            n == self@.len(),
    {
        self.map.len()
    }

    /// Remove all elements from the set.
    pub fn clean(&mut self)
        ensures
            final(self).wf(),
            final(self)@ == Set::<T>::empty(),
    {
        self.map.clear();
        proof {
            assert(self@ =~= Set::empty());
        }
    }

    /// Returns true if the set is empty.
    pub fn is_empty(&self) -> (b: bool)
        requires
            self.wf(),
        ensures
            b == (self@.len() == 0),
    {
        self.map.is_empty()
    }

    /// Returns true if the item is in the set.
    pub fn contains(&self, item: &T) -> (b: bool)
        requires
            total_order::<T>(),
            self.wf(),
        ensures
            b == self@.contains(*item),
    {
        self.map.get(item).is_some()
    }

    /// Add an item to the set under a given priority. Returns true if the item was not in the
    /// set already.
    pub fn insert_with_priority(&mut self, item: T, priority: u64) -> (b: bool)
        requires
            total_order::<T>(),
            old(self).wf(),
            old(self)@.len() < usize::MAX,
        ensures
            final(self).wf(),
            final(self)@ == old(self)@.insert(item),
            b == !old(self)@.contains(item),
            final(self)@.len() == old(self)@.len() + (if b { 1int } else { 0 }),
    {
        proof {
            lemma_search_tree_and_heap(&self.map);
        }
        let r = self.map.insert_with_priority(item, (), priority).is_none();
        proof {
            assert(self@ =~= old(self)@.insert(item));
        }
        r
    }

    /// Add an item to the set. Returns true if the item was not in the set already.
    pub fn insert(&mut self, item: T) -> (b: bool)
        requires
            total_order::<T>(),
            old(self).wf(),
            old(self)@.len() < usize::MAX,
        ensures
            final(self).wf(),
            final(self)@ == old(self)@.insert(item),
            b == !old(self)@.contains(item),
            final(self)@.len() == old(self)@.len() + (if b { 1int } else { 0 }),
    {
        proof {
            lemma_search_tree_and_heap(&self.map);
        }
        let r = self.map.insert(item, ()).is_none();
        proof {
            assert(self@ =~= old(self)@.insert(item));
        }
        r
    }

    /// Remove an item from the set. Returns true if the item was in the set.
    pub fn remove(&mut self, item: &T) -> (b: bool)
        requires
            total_order::<T>(),
            old(self).wf(),
        ensures
            final(self).wf(),
            final(self)@ == old(self)@.remove(*item),
            b == old(self)@.contains(*item),
            final(self)@.len() == old(self)@.len() - (if b { 1int } else { 0 }),
            !b ==> *final(self) == *old(self),
    {
        proof {
            lemma_search_tree_and_heap(&self.map);
        }
        let r = self.map.remove(item).is_some();
        proof {
            assert(self@ =~= old(self)@.remove(*item));
        }
        r
    }
}

} // verus!
