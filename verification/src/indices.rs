//! Index types: arena positions, list handles, and the handle allocator.

use vstd::prelude::*;

verus! {

/// The position of a node inside the arena of a linked list set.
///
/// `NodeIndex::end()` is the sentinel meaning "no node"; it terminates the
/// chains and marks the ends of an empty list.  Arena positions are not
/// stable across mutations of the set: removing a node may move another
/// node into its slot.
#[derive(Copy, Clone, Debug, PartialEq, Eq, PartialOrd, Ord, Hash, Structural)]
pub struct NodeIndex(pub usize);

impl NodeIndex {
    /// The arena position this index names.
    pub open spec fn val(self) -> usize {
        self.0
    }

    /// Whether this index is the "no node" sentinel.
    pub open spec fn is_end(self) -> bool {
        self.0 == usize::MAX
    }

    /// Wrap an arena position as a node index.
    pub fn new(index: usize) -> (r: Self)
        ensures
            r.val() == index,
    {
        NodeIndex(index)
    }

    /// The sentinel index meaning "no node".
    pub fn end() -> (r: Self)
        ensures
            r.is_end(),
    {
        NodeIndex(usize::MAX)
    }
}

/// A stable handle naming one linked list inside a linked list set.
///
/// Handles are drawn from a monotone counter and are never reused, so a
/// handle keeps naming the same list until that list is removed.
/// `ListIndex::end()` is a reserved sentinel that is never assigned to a
/// real list.
#[derive(Copy, Clone, Debug, PartialEq, Eq, PartialOrd, Ord, Hash, Structural)]
pub struct ListIndex(pub usize);

impl ListIndex {
    /// The numeric value of the handle.
    pub open spec fn val(self) -> usize {
        self.0
    }

    /// Whether this handle is the "no list" sentinel.
    pub open spec fn is_end(self) -> bool {
        self.0 == usize::MAX
    }

    /// Wrap a numeric value as a list handle.
    pub fn new(index: usize) -> (r: Self)
        ensures
            r.val() == index,
    {
        ListIndex(index)
    }

    /// The sentinel handle meaning "no list".
    pub fn end() -> (r: Self)
        ensures
            r.is_end(),
    {
        ListIndex(usize::MAX)
    }
}

/// The allocator handing out list handles from a monotone counter.
#[derive(Copy, Clone, Debug, Default)]
pub struct ListIndexAllocator {
    /// The value the next allocated handle will carry.
    pub current: usize,
}

impl ListIndexAllocator {
    /// Create an allocator whose first handle will be `ListIndex(0)`.
    pub fn new() -> (r: Self)
        ensures
            r.current == 0,
    {
        ListIndexAllocator { current: 0 }
    }

    /// Allocate the next handle.
    ///
    /// The counter only grows, so no two calls on one allocator return the
    /// same handle.  Once the counter space is exhausted the allocator can
    /// hand out nothing more; that state is excluded here rather than
    /// wrapped around silently.
    pub fn new_index(&mut self) -> (r: ListIndex)
        requires
            old(self).current < usize::MAX,
        ensures
            r.val() == old(self).current,
            final(self).current == old(self).current + 1,
    {
        let next_index = ListIndex::new(self.current);
        self.current += 1;
        next_index
    }
}

} // verus!
