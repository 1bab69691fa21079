//! Per-node and per-list records.

use vstd::prelude::*;

use crate::indices::ListIndex;
use crate::indices::NodeIndex;

verus! {

/// One element of a linked list, as stored in the arena.
///
/// Besides the payload, a node remembers which list owns it and the arena
/// positions of its neighbours in that list.
#[derive(Clone, Debug)]
pub struct Node<T> {
    /// The payload stored in the node.
    pub item: T,
    /// The handle of the list this node belongs to.
    pub list: ListIndex,
    /// The arena position of the previous node of the same list.
    pub previous: NodeIndex,
    /// The arena position of the next node of the same list.
    pub next: NodeIndex,
}

impl<T> Node<T> {
    /// Build a fresh, unlinked node owned by the list `list_index`.
    pub fn new(list_index: ListIndex, item: T) -> (r: Self)
        ensures
            r.item == item,
            r.list == list_index,
            r.previous.is_end(),
            r.next.is_end(),
    {
        Node { item, list: list_index, previous: NodeIndex::end(), next: NodeIndex::end() }
    }

    /// Borrow the payload.
    pub fn item(&self) -> (r: &T)
        ensures
            *r == self.item,
    {
        &self.item
    }

    /// Borrow the payload mutably.
    pub fn item_mut(&mut self) -> (r: &mut T)
        ensures
            *r == old(self).item,
            final(self).item == *final(r),
            final(self).list == old(self).list,
            final(self).previous == old(self).previous,
            final(self).next == old(self).next,
    {
        &mut self.item
    }

    /// The arena position of the previous node of the same list.
    pub fn previous(&self) -> (r: NodeIndex)
        ensures
            r == self.previous,
    {
        self.previous
    }

    /// The arena position of the next node of the same list.
    pub fn next(&self) -> (r: NodeIndex)
        ensures
            r == self.next,
    {
        self.next
    }
}

/// The bookkeeping record of one doubly linked list: the arena positions of
/// its first and last nodes and its element count.
///
/// `front` and `back` are the sentinel exactly when the list is empty.
#[derive(Copy, Clone, Debug)]
pub struct LinkedList {
    /// The arena position of the first node in the list.
    pub front: NodeIndex,
    /// The arena position of the last node in the list.
    pub back: NodeIndex,
    /// The number of elements in the list.
    pub length: usize,
}

impl LinkedList {
    /// Create the record of a new, empty list.
    pub fn new() -> (r: Self)
        ensures
            r.front.is_end(),
            r.back.is_end(),
            r.length == 0,
    {
        LinkedList { front: NodeIndex::end(), back: NodeIndex::end(), length: 0 }
    }

    /// Whether the record describes an empty list.
    pub fn is_empty(&self) -> (r: bool)
        ensures
            r == (self.front.is_end() && self.back.is_end()),
    {
        self.front == NodeIndex::end() && self.back == NodeIndex::end()
    }

    /// The number of elements in the list.
    pub fn len(&self) -> (r: usize)
        ensures
            r == self.length,
    {
        self.length
    }
}

} // verus!
