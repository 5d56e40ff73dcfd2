use vstd::prelude::*;

use super::store::Store;

verus! {

/// The values of a bitmap whose high 16 bits equal `key`, by their low 16 bits.
#[derive(Debug, PartialEq, Eq)]
pub struct Container {
    pub key: u16,
    pub store: Store,
}

impl Container {
    pub open spec fn wf(&self) -> bool {
        self.store.wf()
    }

    /// An empty container for `key`.
    pub fn new(key: u16) -> (r: Container)
        ensures
            r.wf(),
            r.key == key,
            r.store@ == Set::<u16>::empty(),
    {
        Container { key, store: Store::new() }
    }

    /// Whether the two containers hold no low half in common.
    pub fn is_disjoint(&self, other: &Container) -> (r: bool)
        requires
            self.wf(),
            other.wf(),
        ensures
            r == self.store@.disjoint(other.store@),
    {
        self.store.is_disjoint(&other.store)
    }

    /// Whether every low half of `self` is in `other`.
    pub fn is_subset(&self, other: &Container) -> (r: bool)
        requires
            self.wf(),
            other.wf(),
        ensures
            r == self.store@.subset_of(other.store@),
    {
        self.store.is_subset(&other.store)
    }
}

impl Clone for Container {
    fn clone(&self) -> (r: Self)
        ensures
            r.key == self.key,
            r.store.same_as(&self.store),
    {
        Container { key: self.key, store: self.store.clone() }
    }
}

} // verus!
