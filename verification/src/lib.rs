//! A set of doubly linked lists packed into one contiguous arena.
//!
//! Every node of every list lives in a single growable array; each list is
//! threaded through that array by per-node `previous`/`next` indices.  Lists
//! are addressed by stable [`ListIndex`] handles, while the arena positions
//! themselves ([`NodeIndex`]) are free to move: removal swaps the last arena
//! slot into the vacated one, so storage stays dense and removal is O(1)
//! once the node has been located.

pub mod indices;
pub mod laws;
pub mod records;
pub mod set;
pub mod table;

pub use indices::ListIndex;
pub use indices::ListIndexAllocator;
pub use indices::NodeIndex;
pub use records::LinkedList;
pub use records::Node;
pub use set::LinkedListSet;
pub use set::ListIndices;
pub use set::ListIter;
pub use set::ListIterMut;
pub use table::ListTable;
