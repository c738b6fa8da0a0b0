//! A grid of D dimensions held in a flat buffer.
use vstd::prelude::*;
use crate::ndcoord::{is_extent, volume_of, Coord};

verus! {

/// A D-dimensional grid: one item for each point of a box of extent `size`.
pub struct NGrid<T, const D: usize> {
    items: Vec<T>,
    size: Coord<D>,
}

impl<T, const D: usize> NGrid<T, D> {
    pub closed spec fn items(&self) -> Seq<T> {
        self.items@
    }

    pub closed spec fn size(&self) -> Seq<int> {
        self.size@
    }

    /// The grid of extent `size` holding `items`, one for each point.
    pub fn new(items: Vec<T>, size: Coord<D>) -> (r: Self)
        requires
            is_extent(size@),
            items@.len() == volume_of(size@),
        ensures
            r.items() == items@,
            r.size() == size@,
    {
        Self { items, size }
    }
}

} // verus!
