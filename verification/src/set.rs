//! The linked list set: many doubly linked lists packed into one arena.
//!
//! Every node of every list lives in `nodes`, a single dense vector.  A
//! list is threaded through the arena by the `previous`/`next` indices of
//! its nodes; `lists` maps each live handle to the record holding its
//! front, back and length.  The ghost field `chains` carries, for each
//! live handle, the sequence of arena positions of its nodes in logical
//! order; the well-formedness predicate [`LinkedListSet::wf`] ties the
//! ghost chains to the physical links, and every operation is proved
//! against the per-list views derived from the chains.

use vstd::prelude::*;
use vstd::std_specs::cmp::PartialEqSpec;
use vstd::set_lib::lemma_int_range;
use vstd::set_lib::lemma_len_subset;
use vstd::set_lib::set_int_range;

use crate::indices::ListIndex;
use crate::indices::ListIndexAllocator;
use crate::indices::NodeIndex;
use crate::records::LinkedList;
use crate::records::Node;
use crate::table::ListTable;
use crate::table::table_contents;

verus! {

/// Relies on `Vec::capacity`: the vector can hold at least as many
/// elements as it currently holds.
#[verifier::external_body]
fn vec_capacity<T>(v: &Vec<T>) -> (r: usize)
    ensures
        r as int >= v@.len(),
{
    v.capacity()
}

/// `n` with its `previous` and `next` links replaced.
pub open spec fn with_links<T>(n: Node<T>, previous: NodeIndex, next: NodeIndex) -> Node<T> {
    Node { previous, next, ..n }
}

/// `n` with its `previous` link replaced.
pub open spec fn with_previous<T>(n: Node<T>, previous: NodeIndex) -> Node<T> {
    Node { previous, ..n }
}

/// `n` with its `next` link replaced.
pub open spec fn with_next<T>(n: Node<T>, next: NodeIndex) -> Node<T> {
    Node { next, ..n }
}

/// Entry `i` of the chain `ch` of list `h` is in bounds, owned by `h`, and
/// its stored links agree with its neighbours in the chain.
pub open spec fn chain_entry_ok<T>(nodes: Seq<Node<T>>, h: ListIndex, ch: Seq<int>, i: int) -> bool {
    let p = ch[i];
    &&& 0 <= p < nodes.len()
    &&& nodes[p].list == h
    &&& nodes[p].previous.0 as int == (if i == 0 {
        usize::MAX as int
    } else {
        ch[i - 1]
    })
    &&& nodes[p].next.0 as int == (if i == ch.len() - 1 {
        usize::MAX as int
    } else {
        ch[i + 1]
    })
}

/// The chain `ch` of list `h` is a well-formed doubly linked thread
/// through `nodes`, and the record `rec` describes it.
pub open spec fn chain_ok<T>(nodes: Seq<Node<T>>, rec: LinkedList, h: ListIndex, ch: Seq<int>) -> bool {
    &&& rec.length as int == ch.len()
    &&& (if ch.len() == 0 {
        rec.front.is_end() && rec.back.is_end()
    } else {
        rec.front.0 as int == ch[0] && rec.back.0 as int == ch[ch.len() - 1]
    })
    &&& (forall|i: int| 0 <= i < ch.len() ==> #[trigger] chain_entry_ok(nodes, h, ch, i))
    &&& ch.no_duplicates()
}

/// A chain of pairwise distinct positions below `n` has at most `n`
/// entries.
proof fn lemma_chain_len_bounded(ch: Seq<int>, n: int)
    requires
        ch.no_duplicates(),
        forall|i: int| 0 <= i < ch.len() ==> 0 <= #[trigger] ch[i] < n,
        0 <= n,
    ensures
        ch.len() <= n,
{
    ch.unique_seq_to_set();
    assert(ch.to_set().subset_of(set_int_range(0, n))) by {
        assert forall|p: int| ch.to_set().contains(p) implies set_int_range(0, n).contains(
            p,
        ) by {
            let i = choose|i: int| 0 <= i < ch.len() && ch[i] == p;
            assert(0 <= ch[i] < n);
        }
    }
    lemma_int_range(0, n);
    lemma_len_subset(ch.to_set(), set_int_range(0, n));
}

/// A chain stays well formed when the arena changes only outside of it, or
/// only in the payloads of its nodes.
proof fn lemma_chain_ok_unchanged<T>(
    n1: Seq<Node<T>>,
    n2: Seq<Node<T>>,
    rec: LinkedList,
    h: ListIndex,
    ch: Seq<int>,
)
    requires
        chain_ok(n1, rec, h, ch),
        forall|i: int|
            0 <= i < ch.len() ==> {
                &&& 0 <= #[trigger] ch[i] < n2.len()
                &&& n2[ch[i]].list == n1[ch[i]].list
                &&& n2[ch[i]].previous == n1[ch[i]].previous
                &&& n2[ch[i]].next == n1[ch[i]].next
            },
    ensures
        chain_ok(n2, rec, h, ch),
{
    assert forall|i: int| 0 <= i < ch.len() implies #[trigger] chain_entry_ok(n2, h, ch, i) by {
        assert(chain_entry_ok(n1, h, ch, i));
    }
}

/// Removing the entry at `i` keeps exactly the values found at the other
/// spots of the chain.
proof fn lemma_remove_entry_contains(ch: Seq<int>, i: int, q: int)
    requires
        0 <= i < ch.len(),
    ensures
        ch.remove(i).contains(q) <==> (exists|j: int| 0 <= j < ch.len() && j != i && ch[j] == q),
{
    if ch.remove(i).contains(q) {
        let k = choose|k: int| 0 <= k < ch.remove(i).len() && ch.remove(i)[k] == q;
        let j = if k < i {
            k
        } else {
            k + 1
        };
        assert(0 <= j < ch.len() && j != i && ch[j] == q);
    }
    if exists|j: int| 0 <= j < ch.len() && j != i && ch[j] == q {
        let j = choose|j: int| 0 <= j < ch.len() && j != i && ch[j] == q;
        let k = if j < i {
            j
        } else {
            j - 1
        };
        assert(ch.remove(i)[k] == q);
    }
}

/// A set of doubly linked lists stored in one contiguous arena.
///
/// Lists are created with [`LinkedListSet::new_list`] and addressed by the
/// returned [`ListIndex`] handle, which stays valid across arbitrary
/// mutations of other lists until the list itself is removed.
pub struct LinkedListSet<T> {
    /// The allocator for generating new list handles.
    alloc: ListIndexAllocator,
    /// The record of each live linked list, keyed by its handle.
    lists: ListTable,
    /// The arena: every node of every list, in no particular order.
    nodes: Vec<Node<T>>,
    /// For each live handle, the arena positions of its nodes in logical
    /// front-to-back order.
    chains: Ghost<Map<ListIndex, Seq<int>>>,
}

impl<T> LinkedListSet<T> {
    /// Whether `h` names a live list of this set.
    pub closed spec fn live(self, h: ListIndex) -> bool {
        table_contents(self.lists).dom().contains(h)
    }

    /// The set of live handles.
    pub closed spec fn live_handles(self) -> Set<ListIndex> {
        table_contents(self.lists).dom()
    }

    /// The record stored for the live handle `h`.
    pub closed spec fn record(self, h: ListIndex) -> LinkedList {
        table_contents(self.lists)[h]
    }

    /// The payloads of list `h`, in logical front-to-back order.
    pub closed spec fn list_view(self, h: ListIndex) -> Seq<T> {
        self.chains@[h].map_values(|p: int| self.nodes@[p].item)
    }

    /// The number of nodes in the arena, over all lists together.
    pub closed spec fn total_nodes(self) -> int {
        self.nodes@.len() as int
    }

    /// The value the next allocated handle will carry.
    pub closed spec fn handle_counter(self) -> usize {
        self.alloc.current
    }

    /// The arena position `p` is accounted for: its node's owner is live
    /// and the owner's chain passes through `p`.
    pub closed spec fn covered(self, p: int) -> bool {
        &&& table_contents(self.lists).dom().contains(self.nodes@[p].list)
        &&& self.chains@[self.nodes@[p].list].contains(p)
    }

    /// A handle is live exactly when it is a member of the live-handle
    /// set.
    pub proof fn lemma_live_is_membership(self, h: ListIndex)
        ensures
            self.live(h) == self.live_handles().contains(h),
    {
    }

    /// A handle the allocator has not issued yet is never live.  In
    /// particular the sentinel `ListIndex::end()` never names a list.
    pub proof fn lemma_unissued_not_live(self, h: ListIndex)
        requires
            self.wf(),
            self.handle_counter() <= h.val(),
        ensures
            !self.live(h),
    {
        if table_contents(self.lists).dom().contains(h) {
            assert(h.0 < self.alloc.current);
        }
    }

    /// Well-formedness: the ghost chains, the physical links, the table
    /// records and the handle allocator all agree.
    pub closed spec fn wf(self) -> bool {
        &&& self.chains@.dom() == table_contents(self.lists).dom()
        &&& table_contents(self.lists).dom().finite()
        &&& self.nodes@.len() <= usize::MAX
        &&& (forall|h: ListIndex| #[trigger]
            table_contents(self.lists).dom().contains(h) ==> chain_ok(
                self.nodes@,
                table_contents(self.lists)[h],
                h,
                self.chains@[h],
            ))
        &&& (forall|h: ListIndex| #[trigger]
            table_contents(self.lists).dom().contains(h) ==> h.0 < self.alloc.current)
        &&& (forall|p: int| 0 <= p < self.nodes@.len() ==> #[trigger] self.covered(p))
    }

    /// Create a new, empty linked list set.
    pub fn new() -> (r: Self)
        ensures
            r.wf(),
            forall|h: ListIndex| !r.live(h),
            r.live_handles().len() == 0,
            r.total_nodes() == 0,
            r.handle_counter() == 0,
    {
        let r = LinkedListSet {
            alloc: ListIndexAllocator::new(),
            lists: ListTable::new(),
            nodes: Vec::new(),
            chains: Ghost(Map::empty()),
        };
        proof {
            assert(r.chains@.dom() =~= table_contents(r.lists).dom());
            assert(r.live_handles() =~= Set::empty());
        }
        r
    }

    /// Create a new linked list set whose arena can hold `node_capacity`
    /// nodes before it must grow.
    pub fn with_capacity(node_capacity: usize) -> (r: Self)
        ensures
            r.wf(),
            forall|h: ListIndex| !r.live(h),
            r.live_handles().len() == 0,
            r.total_nodes() == 0,
            r.handle_counter() == 0,
    {
        let r = LinkedListSet {
            alloc: ListIndexAllocator::new(),
            lists: ListTable::new(),
            nodes: Vec::with_capacity(node_capacity),
            chains: Ghost(Map::empty()),
        };
        proof {
            assert(r.chains@.dom() =~= table_contents(r.lists).dom());
            assert(r.live_handles() =~= Set::empty());
        }
        r
    }

    /// Create a new empty linked list and return its handle.
    ///
    /// The handle is fresh: it has never named a list of this set before.
    pub fn new_list(&mut self) -> (r: ListIndex)
        requires
            old(self).wf(),
            old(self).handle_counter() < usize::MAX,
        ensures
            final(self).wf(),
            r.val() == old(self).handle_counter(),
            !old(self).live(r),
            final(self).live(r),
            final(self).list_view(r) == Seq::<T>::empty(),
            final(self).live_handles() == old(self).live_handles().insert(r),
            forall|h2: ListIndex| h2 != r ==> final(self).live(h2) == old(self).live(h2),
            forall|h2: ListIndex|
                h2 != r && old(self).live(h2) ==> final(self).list_view(h2) == old(self).list_view(
                    h2,
                ),
            final(self).total_nodes() == old(self).total_nodes(),
            final(self).handle_counter() == old(self).handle_counter() + 1,
    {
        let new_list_index = self.alloc.new_index();
        let new_list = LinkedList::new();
        proof {
            assert(!table_contents(self.lists).dom().contains(new_list_index));
        }
        self.lists.insert(new_list_index, new_list);
        proof {
            self.chains@ = self.chains@.insert(new_list_index, Seq::empty());
            assert(self.chains@.dom() =~= table_contents(self.lists).dom());
            assert(self.list_view(new_list_index) =~= Seq::<T>::empty());
            assert forall|h2: ListIndex| #[trigger]
                table_contents(self.lists).dom().contains(h2) implies chain_ok(
                self.nodes@,
                table_contents(self.lists)[h2],
                h2,
                self.chains@[h2],
            ) by {
                if h2 != new_list_index {
                    assert(table_contents(old(self).lists).dom().contains(h2));
                    assert(self.chains@[h2] == old(self).chains@[h2]);
                    assert(table_contents(self.lists)[h2] == table_contents(old(self).lists)[h2]);
                    assert forall|i: int|
                        0 <= i < self.chains@[h2].len() implies #[trigger] chain_entry_ok(
                        self.nodes@,
                        h2,
                        self.chains@[h2],
                        i,
                    ) by {
                        assert(chain_entry_ok(old(self).nodes@, h2, old(self).chains@[h2], i));
                    }
                }
            }
            assert forall|p: int| 0 <= p < self.nodes@.len() implies #[trigger] self.covered(
                p,
            ) by {
                assert(old(self).covered(p));
                assert(self.nodes@[p].list != new_list_index);
            }
            assert forall|h2: ListIndex|
                h2 != new_list_index && old(self).live(h2) implies final(self).list_view(h2)
                == old(self).list_view(h2) by {
                assert(self.chains@[h2] == old(self).chains@[h2]);
                assert(self.list_view(h2) =~= old(self).list_view(h2));
            }
        }
        new_list_index
    }

    /// In a well-formed set, a chain entry pins its position's owner and
    /// bounds.
    proof fn lemma_chain_member(self, h: ListIndex, p: int)
        requires
            self.wf(),
            self.live(h),
            self.chains@[h].contains(p),
        ensures
            0 <= p < self.nodes@.len(),
            self.nodes@[p].list == h,
    {
        let ch = self.chains@[h];
        let j = choose|j: int| 0 <= j < ch.len() && ch[j] == p;
        assert(chain_entry_ok(self.nodes@, h, ch, j));
    }

    /// In a well-formed set, every arena position sits at exactly one spot
    /// of exactly one chain: the chain of its owner, at `index_of`.
    proof fn lemma_node_facts(self, p: int)
        requires
            self.wf(),
            0 <= p < self.nodes@.len(),
        ensures
            ({
                let h = self.nodes@[p].list;
                let ch = self.chains@[h];
                let i = ch.index_of(p);
                &&& self.live(h)
                &&& ch.contains(p)
                &&& 0 <= i < ch.len()
                &&& ch[i] == p
                &&& (forall|j: int| 0 <= j < ch.len() && ch[j] == p ==> j == i)
                &&& chain_entry_ok(self.nodes@, h, ch, i)
                &&& (forall|h2: ListIndex|
                    self.live(h2) && h2 != h ==> !self.chains@[h2].contains(p))
            }),
    {
        assert(self.covered(p));
        let h = self.nodes@[p].list;
        let ch = self.chains@[h];
        let i = ch.index_of(p);
        assert(0 <= i < ch.len() && ch[i] == p);
        assert(chain_entry_ok(self.nodes@, h, ch, i));
        assert forall|h2: ListIndex|
            self.live(h2) && h2 != h implies !self.chains@[h2].contains(p) by {
            if self.chains@[h2].contains(p) {
                self.lemma_chain_member(h2, p);
            }
        }
    }

    /// Whether the set holds no lists at all.
    ///
    /// Note that a set holding only empty lists is not itself empty.
    pub fn is_empty(&self) -> (r: bool)
        ensures
            r == (self.live_handles().len() == 0),
    {
        self.lists.len() == 0
    }

    /// The number of linked lists in the set.
    pub fn list_count(&self) -> (r: usize)
        ensures
            r == self.live_handles().len(),
    {
        self.lists.len()
    }

    /// The number of nodes in the arena, over all lists together.
    pub fn node_count(&self) -> (r: usize)
        ensures
            r == self.total_nodes(),
    {
        self.nodes.len()
    }

    /// The number of nodes the set can currently hold without growing.
    pub fn node_capacity(&self) -> (r: usize)
        ensures
            r as int >= self.total_nodes(),
    {
        vec_capacity(&self.nodes)
    }

    /// Whether the set holds a list with the handle `list_index`.
    pub fn contains_list(&self, list_index: ListIndex) -> (r: bool)
        ensures
            r == self.live(list_index),
    {
        self.lists.get(list_index).is_some()
    }

    /// Borrow the record of the list named by `list_index`.
    ///
    /// The handle must name a live list; the unchecked lookup is fatal on
    /// an unknown handle.
    pub fn get_list_unchecked(&self, list_index: ListIndex) -> (r: &LinkedList)
        requires
            self.live(list_index),
        ensures
            *r == self.record(list_index),
            self.wf() ==> r.length as int == self.list_view(list_index).len() && ((
            r.front.is_end() && r.back.is_end()) <==> self.list_view(list_index).len() == 0),
    {
        proof {
            if self.wf() {
                assert(table_contents(self.lists).dom().contains(list_index));
                let ch = self.chains@[list_index];
                if ch.len() > 0 {
                    assert(chain_entry_ok(self.nodes@, list_index, ch, 0));
                }
            }
        }
        self.lists.get(list_index).unwrap()
    }

    /// Borrow the record of the list named by `list_index`, or `None` if
    /// the handle is unknown.
    pub fn get_list(&self, list_index: ListIndex) -> (r: Option<&LinkedList>)
        ensures
            match r {
                Some(rec) => self.live(list_index) && *rec == self.record(list_index) && (
                self.wf() ==> rec.length as int == self.list_view(list_index).len() && ((
                rec.front.is_end() && rec.back.is_end()) <==> self.list_view(list_index).len()
                    == 0)),
                None => !self.live(list_index),
            },
    {
        proof {
            if self.wf() && self.live(list_index) {
                assert(table_contents(self.lists).dom().contains(list_index));
                let ch = self.chains@[list_index];
                if ch.len() > 0 {
                    assert(chain_entry_ok(self.nodes@, list_index, ch, 0));
                }
            }
        }
        self.lists.get(list_index)
    }

    /// The length of the list named by `list_index`.
    ///
    /// The handle must name a live list; the lookup is fatal otherwise.
    pub fn len(&self, list_index: ListIndex) -> (r: usize)
        requires
            self.wf(),
            self.live(list_index),
        ensures
            r == self.list_view(list_index).len(),
    {
        self.get_list_unchecked(list_index).len()
    }

    /// Whether the list named by `list_index` is empty.
    ///
    /// The handle must name a live list; the lookup is fatal otherwise.
    pub fn list_is_empty(&self, list_index: ListIndex) -> (r: bool)
        requires
            self.wf(),
            self.live(list_index),
        ensures
            r == (self.list_view(list_index).len() == 0),
    {
        proof {
            let ch = self.chains@[list_index];
            if ch.len() > 0 {
                assert(chain_entry_ok(self.nodes@, list_index, ch, 0));
            }
        }
        self.get_list_unchecked(list_index).is_empty()
    }

    /// Wire the node at `node_index` between `previous_index` and
    /// `next_index`, patching the neighbours' opposite links.
    ///
    /// This touches only node link fields: the table, the allocator and
    /// the ghost chains are left alone, so the caller accounts for the
    /// new shape of the affected chain.
    fn link_list_node(
        &mut self,
        node_index: NodeIndex,
        previous_index: NodeIndex,
        next_index: NodeIndex,
    )
        requires
            node_index.0 < old(self).nodes@.len(),
            !previous_index.is_end() ==> previous_index.0 < old(self).nodes@.len()
                && previous_index != node_index,
            !next_index.is_end() ==> next_index.0 < old(self).nodes@.len() && next_index
                != node_index,
            !previous_index.is_end() && !next_index.is_end() ==> previous_index != next_index,
        ensures
            final(self).lists == old(self).lists,
            final(self).alloc == old(self).alloc,
            final(self).chains == old(self).chains,
            final(self).nodes@.len() == old(self).nodes@.len(),
            final(self).nodes@[node_index.0 as int] == with_links(
                old(self).nodes@[node_index.0 as int],
                previous_index,
                next_index,
            ),
            !next_index.is_end() ==> final(self).nodes@[next_index.0 as int] == with_previous(
                old(self).nodes@[next_index.0 as int],
                node_index,
            ),
            !previous_index.is_end() ==> final(self).nodes@[previous_index.0 as int] == with_next(
                old(self).nodes@[previous_index.0 as int],
                node_index,
            ),
            forall|q: int|
                0 <= q < old(self).nodes@.len() && q != node_index.0 as int && !(
                !previous_index.is_end() && q == previous_index.0 as int) && !(!next_index.is_end()
                    && q == next_index.0 as int) ==> final(self).nodes@[q] == old(self).nodes@[q],
    {
        {
            let node = &mut self.nodes[node_index.0];
            node.previous = previous_index;
            node.next = next_index;
        }
        if next_index != NodeIndex::end() {
            let next_node = &mut self.nodes[next_index.0];
            next_node.previous = node_index;
        }
        if previous_index != NodeIndex::end() {
            let previous_node = &mut self.nodes[previous_index.0];
            previous_node.next = node_index;
        }
    }

    /// Append `item` at the back of the list named by `list_index`.
    ///
    /// The handle must name a live list; the lookup is fatal otherwise.
    /// Every other list is left untouched.
    pub fn push_back(&mut self, list_index: ListIndex, item: T)
        requires
            old(self).wf(),
            old(self).live(list_index),
        ensures
            final(self).wf(),
            final(self).live_handles() == old(self).live_handles(),
            forall|h2: ListIndex| final(self).live(h2) == old(self).live(h2),
            final(self).list_view(list_index) == old(self).list_view(list_index).push(item),
            forall|h2: ListIndex|
                h2 != list_index && old(self).live(h2) ==> final(self).list_view(h2) == old(
                    self,
                ).list_view(h2),
            final(self).total_nodes() == old(self).total_nodes() + 1,
            final(self).handle_counter() == old(self).handle_counter(),
    {
        let ghost ch = self.chains@[list_index];
        proof {
            assert(table_contents(self.lists).dom().contains(list_index));
            assert forall|i: int| 0 <= i < ch.len() implies 0 <= #[trigger] ch[i]
                < self.nodes@.len() by {
                assert(chain_entry_ok(self.nodes@, list_index, ch, i));
            }
            lemma_chain_len_bounded(ch, self.nodes@.len() as int);
            if ch.len() > 0 {
                assert(chain_entry_ok(self.nodes@, list_index, ch, ch.len() - 1));
                assert(chain_entry_ok(self.nodes@, list_index, ch, 0));
            }
        }
        let rec = *self.get_list_unchecked(list_index);
        let new_node = Node::new(list_index, item);
        let new_node_index = NodeIndex::new(self.nodes.len());
        let ghost p = self.nodes@.len() as int;
        self.nodes.push(new_node);
        proof {
            assert(self.nodes.len() == self.nodes@.len());
        }
        if rec.is_empty() {
            self.lists.insert(
                list_index,
                LinkedList { front: new_node_index, back: new_node_index, length: 1 },
            );
        } else {
            let back = rec.back;
            self.link_list_node(new_node_index, back, NodeIndex::end());
            self.lists.insert(
                list_index,
                LinkedList { front: rec.front, back: new_node_index, length: rec.length + 1 },
            );
        }
        proof {
            self.chains@ = self.chains@.insert(list_index, ch.push(p));
            self.lemma_push_restores(*old(self), list_index, item, false);
        }
    }

    /// Prepend `item` at the front of the list named by `list_index`.
    ///
    /// The handle must name a live list; the lookup is fatal otherwise.
    /// Every other list is left untouched.
    pub fn push_front(&mut self, list_index: ListIndex, item: T)
        requires
            old(self).wf(),
            old(self).live(list_index),
        ensures
            final(self).wf(),
            final(self).live_handles() == old(self).live_handles(),
            forall|h2: ListIndex| final(self).live(h2) == old(self).live(h2),
            final(self).list_view(list_index) == seq![item] + old(self).list_view(list_index),
            forall|h2: ListIndex|
                h2 != list_index && old(self).live(h2) ==> final(self).list_view(h2) == old(
                    self,
                ).list_view(h2),
            final(self).total_nodes() == old(self).total_nodes() + 1,
            final(self).handle_counter() == old(self).handle_counter(),
    {
        let ghost ch = self.chains@[list_index];
        proof {
            assert(table_contents(self.lists).dom().contains(list_index));
            assert forall|i: int| 0 <= i < ch.len() implies 0 <= #[trigger] ch[i]
                < self.nodes@.len() by {
                assert(chain_entry_ok(self.nodes@, list_index, ch, i));
            }
            lemma_chain_len_bounded(ch, self.nodes@.len() as int);
            if ch.len() > 0 {
                assert(chain_entry_ok(self.nodes@, list_index, ch, ch.len() - 1));
                assert(chain_entry_ok(self.nodes@, list_index, ch, 0));
            }
        }
        let rec = *self.get_list_unchecked(list_index);
        let new_node = Node::new(list_index, item);
        let new_node_index = NodeIndex::new(self.nodes.len());
        let ghost p = self.nodes@.len() as int;
        self.nodes.push(new_node);
        proof {
            assert(self.nodes.len() == self.nodes@.len());
        }
        if rec.is_empty() {
            self.lists.insert(
                list_index,
                LinkedList { front: new_node_index, back: new_node_index, length: 1 },
            );
        } else {
            let front = rec.front;
            self.link_list_node(new_node_index, NodeIndex::end(), front);
            self.lists.insert(
                list_index,
                LinkedList { front: new_node_index, back: rec.back, length: rec.length + 1 },
            );
        }
        proof {
            self.chains@ = self.chains@.insert(list_index, seq![p] + ch);
            self.lemma_push_restores(*old(self), list_index, item, true);
        }
    }

    /// After a push: the mutated set is well formed again, the target list
    /// gained exactly the new payload at the chosen end, and every other
    /// list reads as before.
    proof fn lemma_push_restores(
        &self,
        pre: Self,
        list_index: ListIndex,
        item: T,
        at_front: bool,
    )
        requires
            pre.wf(),
            pre.live(list_index),
            pre.nodes@.len() < usize::MAX,
            self.alloc == pre.alloc,
            self.nodes@.len() == pre.nodes@.len() + 1,
            self.nodes@[pre.nodes@.len() as int] == (Node {
                item: item,
                list: list_index,
                previous: if at_front || pre.chains@[list_index].len() == 0 {
                    NodeIndex(usize::MAX)
                } else {
                    pre.record(list_index).back
                },
                next: if !at_front || pre.chains@[list_index].len() == 0 {
                    NodeIndex(usize::MAX)
                } else {
                    pre.record(list_index).front
                },
            }),
            self.chains@ == pre.chains@.insert(
                list_index,
                if at_front {
                    seq![pre.nodes@.len() as int] + pre.chains@[list_index]
                } else {
                    pre.chains@[list_index].push(pre.nodes@.len() as int)
                },
            ),
            table_contents(self.lists) == table_contents(pre.lists).insert(
                list_index,
                if at_front {
                    LinkedList {
                        front: NodeIndex(pre.nodes@.len() as usize),
                        back: if pre.chains@[list_index].len() == 0 {
                            NodeIndex(pre.nodes@.len() as usize)
                        } else {
                            pre.record(list_index).back
                        },
                        length: (pre.record(list_index).length + 1) as usize,
                    }
                } else {
                    LinkedList {
                        front: if pre.chains@[list_index].len() == 0 {
                            NodeIndex(pre.nodes@.len() as usize)
                        } else {
                            pre.record(list_index).front
                        },
                        back: NodeIndex(pre.nodes@.len() as usize),
                        length: (pre.record(list_index).length + 1) as usize,
                    }
                },
            ),
            forall|q: int|
                0 <= q < pre.nodes@.len() ==> {
                    &&& (#[trigger] self.nodes@[q]).item == pre.nodes@[q].item
                    &&& self.nodes@[q].list == pre.nodes@[q].list
                    &&& self.nodes@[q].previous == (if at_front
                        && pre.chains@[list_index].len() > 0 && q
                        == pre.record(list_index).front.0 as int {
                        NodeIndex(pre.nodes@.len() as usize)
                    } else {
                        pre.nodes@[q].previous
                    })
                    &&& self.nodes@[q].next == (if !at_front && pre.chains@[list_index].len() > 0
                        && q == pre.record(list_index).back.0 as int {
                        NodeIndex(pre.nodes@.len() as usize)
                    } else {
                        pre.nodes@[q].next
                    })
                },
        ensures
            self.wf(),
            self.live_handles() == pre.live_handles(),
            !at_front ==> self.list_view(list_index) == pre.list_view(list_index).push(item),
            at_front ==> self.list_view(list_index) == seq![item] + pre.list_view(list_index),
            forall|h2: ListIndex|
                h2 != list_index && pre.live(h2) ==> self.list_view(h2) == pre.list_view(h2),
            self.total_nodes() == pre.total_nodes() + 1,
            self.handle_counter() == pre.handle_counter(),
    {
        let p = pre.nodes@.len() as int;
        let ch = pre.chains@[list_index];
        let ch2 = self.chains@[list_index];
        let rec = pre.record(list_index);
        assert(table_contents(pre.lists).dom().contains(list_index));
        assert(rec.length as int == ch.len());
        assert forall|i: int| 0 <= i < ch.len() implies 0 <= #[trigger] ch[i] < p by {
            assert(chain_entry_ok(pre.nodes@, list_index, ch, i));
        }
        lemma_chain_len_bounded(ch, p);
        // The end node of the old chain, if any, is the one whose link was
        // patched; it sits in no other chain.
        if ch.len() > 0 {
            assert(chain_entry_ok(pre.nodes@, list_index, ch, 0));
            assert(chain_entry_ok(pre.nodes@, list_index, ch, ch.len() - 1));
        }
        assert(self.live_handles() =~= pre.live_handles());
        // Well-formedness of the target chain.
        assert(chain_ok(
            self.nodes@,
            table_contents(self.lists)[list_index],
            list_index,
            ch2,
        )) by {
            assert forall|i: int| 0 <= i < ch2.len() implies #[trigger] chain_entry_ok(
                self.nodes@,
                list_index,
                ch2,
                i,
            ) by {
                let j = if at_front {
                    i - 1
                } else {
                    i
                };
                if 0 <= j < ch.len() {
                    assert(chain_entry_ok(pre.nodes@, list_index, ch, j));
                }
            }
            assert forall|i: int, j: int|
                0 <= i < ch2.len() && 0 <= j < ch2.len() && i != j implies ch2[i] != ch2[j] by {
                let ii = if at_front {
                    i - 1
                } else {
                    i
                };
                let jj = if at_front {
                    j - 1
                } else {
                    j
                };
                if 0 <= ii < ch.len() {
                    assert(chain_entry_ok(pre.nodes@, list_index, ch, ii));
                }
                if 0 <= jj < ch.len() {
                    assert(chain_entry_ok(pre.nodes@, list_index, ch, jj));
                }
            }
        }
        // Well-formedness of every other chain.
        assert forall|h2: ListIndex| #[trigger]
            table_contents(self.lists).dom().contains(h2) && h2 != list_index implies chain_ok(
            self.nodes@,
            table_contents(self.lists)[h2],
            h2,
            self.chains@[h2],
        ) by {
            let chh = pre.chains@[h2];
            assert(chain_ok(pre.nodes@, table_contents(pre.lists)[h2], h2, chh));
            assert forall|i: int|
                0 <= i < chh.len() implies {
                &&& 0 <= #[trigger] chh[i] < self.nodes@.len()
                &&& self.nodes@[chh[i]].list == pre.nodes@[chh[i]].list
                &&& self.nodes@[chh[i]].previous == pre.nodes@[chh[i]].previous
                &&& self.nodes@[chh[i]].next == pre.nodes@[chh[i]].next
            } by {
                assert(chain_entry_ok(pre.nodes@, h2, chh, i));
                if ch.len() > 0 {
                    let end = if at_front {
                        rec.front.0 as int
                    } else {
                        rec.back.0 as int
                    };
                    if chh[i] == end {
                        assert(pre.nodes@[end].list == list_index);
                        assert(false);
                    }
                }
            }
            lemma_chain_ok_unchanged(
                pre.nodes@,
                self.nodes@,
                table_contents(pre.lists)[h2],
                h2,
                chh,
            );
        }
        // Coverage.
        assert forall|q: int| 0 <= q < self.nodes@.len() implies #[trigger] self.covered(q) by {
            if q < p {
                assert(pre.covered(q));
                let hq = pre.nodes@[q].list;
                if hq == list_index {
                    let j = choose|j: int| 0 <= j < ch.len() && ch[j] == q;
                    assert(ch2[if at_front {
                        j + 1
                    } else {
                        j
                    }] == q);
                } else {
                    assert(self.chains@[hq] == pre.chains@[hq]);
                }
            } else {
                assert(ch2[if at_front {
                    0
                } else {
                    ch2.len() - 1
                }] == p);
            }
        }
        // Views.
        assert forall|i: int| 0 <= i < ch.len() implies #[trigger] self.nodes@[ch[i]].item
            == pre.nodes@[ch[i]].item by {
            assert(chain_entry_ok(pre.nodes@, list_index, ch, i));
        }
        if at_front {
            assert forall|i: int| 0 <= i < ch2.len() implies #[trigger] self.list_view(
                list_index,
            )[i] == (seq![item] + pre.list_view(list_index))[i] by {
                if i >= 1 {
                    assert(ch2[i] == ch[i - 1]);
                    assert(self.nodes@[ch[i - 1]].item == pre.nodes@[ch[i - 1]].item);
                }
            }
            assert(self.list_view(list_index) =~= seq![item] + pre.list_view(list_index));
        } else {
            assert forall|i: int| 0 <= i < ch2.len() implies #[trigger] self.list_view(
                list_index,
            )[i] == pre.list_view(list_index).push(item)[i] by {
                if i < ch.len() {
                    assert(ch2[i] == ch[i]);
                    assert(self.nodes@[ch[i]].item == pre.nodes@[ch[i]].item);
                }
            }
            assert(self.list_view(list_index) =~= pre.list_view(list_index).push(item));
        }
        assert forall|h2: ListIndex|
            h2 != list_index && pre.live(h2) implies self.list_view(h2) == pre.list_view(h2) by {
            let chh = pre.chains@[h2];
            assert forall|i: int| 0 <= i < chh.len() implies #[trigger] self.nodes@[chh[i]].item
                == pre.nodes@[chh[i]].item by {
                assert(chain_entry_ok(pre.nodes@, h2, chh, i));
            }
            assert(self.list_view(h2) =~= pre.list_view(h2));
        }
    }

    /// The node stored at arena position `p`.
    pub closed spec fn node_at(self, p: int) -> Node<T> {
        self.nodes@[p]
    }

    /// Borrow the node at arena position `node_index`.
    ///
    /// The position must be in bounds; the access is fatal otherwise.
    /// Arena positions are not stable across mutations of the set.
    pub fn get_node_unchecked(&self, node_index: NodeIndex) -> (r: &Node<T>)
        requires
            (node_index.0 as int) < self.total_nodes(),
        ensures
            *r == self.node_at(node_index.0 as int),
    {
        &self.nodes[node_index.0]
    }

    /// The state of a set whose bookkeeping is consistent everywhere but
    /// at the arena position `p`, which no chain passes through.
    ///
    /// This is the shape of the set between unlinking a node and swapping
    /// it out of the arena.
    spec fn orphan_wf(self, p: int) -> bool {
        &&& self.chains@.dom() == table_contents(self.lists).dom()
        &&& table_contents(self.lists).dom().finite()
        &&& self.nodes@.len() <= usize::MAX
        &&& 0 <= p < self.nodes@.len()
        &&& (forall|h: ListIndex| #[trigger]
            table_contents(self.lists).dom().contains(h) ==> chain_ok(
                self.nodes@,
                table_contents(self.lists)[h],
                h,
                self.chains@[h],
            ))
        &&& (forall|h: ListIndex| #[trigger]
            table_contents(self.lists).dom().contains(h) ==> h.0 < self.alloc.current)
        &&& (forall|q: int| 0 <= q < self.nodes@.len() && q != p ==> #[trigger] self.covered(q))
        &&& (forall|h: ListIndex| #[trigger]
            table_contents(self.lists).dom().contains(h) ==> !self.chains@[h].contains(p))
    }

    /// How `post` relates to `pre` after unlinking the node at
    /// `node_index`: the node's neighbours are patched around it, its
    /// list's record and chain drop it, and everything else is untouched.
    /// The node itself stays in the arena, outside every chain.
    pub closed spec fn unlink_post(pre: Self, post: Self, node_index: NodeIndex) -> bool {
        let p = node_index.0 as int;
        let h = pre.nodes@[p].list;
        let ch = pre.chains@[h];
        let i = ch.index_of(p);
        let prev = pre.nodes@[p].previous;
        let next = pre.nodes@[p].next;
        let rec = table_contents(pre.lists)[h];
        &&& post.alloc == pre.alloc
        &&& post.chains@ == pre.chains@.insert(h, ch.remove(i))
        &&& table_contents(post.lists) == table_contents(pre.lists).insert(
            h,
            LinkedList {
                front: if rec.front == node_index {
                    next
                } else {
                    rec.front
                },
                back: if rec.back == node_index {
                    prev
                } else {
                    rec.back
                },
                length: (rec.length - 1) as usize,
            },
        )
        &&& post.nodes@.len() == pre.nodes@.len()
        &&& (!prev.is_end() ==> post.nodes@[prev.0 as int] == with_next(
            pre.nodes@[prev.0 as int],
            next,
        ))
        &&& (!next.is_end() ==> post.nodes@[next.0 as int] == with_previous(
            pre.nodes@[next.0 as int],
            prev,
        ))
        &&& (forall|q: int|
            0 <= q < pre.nodes@.len() && !(!prev.is_end() && q == prev.0 as int) && !(
            !next.is_end() && q == next.0 as int) ==> post.nodes@[q] == pre.nodes@[q])
    }

    /// Unlink the node at `node_index` from its list.
    ///
    /// The node's list record and its neighbours' links are patched so the
    /// list no longer passes through the node, but the node itself stays
    /// in the arena.  The caller is expected to move it out again (as
    /// removal does); until then the set is not well formed.
    pub fn unlink_list_node(&mut self, node_index: NodeIndex)
        requires
            old(self).wf(),
            (node_index.0 as int) < old(self).total_nodes(),
        ensures
            Self::unlink_post(*old(self), *final(self), node_index),
            ({
                let p = node_index.0 as int;
                let h = old(self).node_at(p).list;
                &&& old(self).live(h)
                &&& final(self).live_handles() == old(self).live_handles()
                &&& (forall|h2: ListIndex| final(self).live(h2) == old(self).live(h2))
                &&& final(self).total_nodes() == old(self).total_nodes()
                &&& final(self).handle_counter() == old(self).handle_counter()
                &&& (exists|i: int|
                    0 <= i < old(self).list_view(h).len() && old(self).list_view(h)[i] == old(
                        self,
                    ).node_at(p).item && final(self).list_view(h) == old(self).list_view(
                        h,
                    ).remove(i))
                &&& (forall|h2: ListIndex|
                    h2 != h && old(self).live(h2) ==> final(self).list_view(h2) == old(
                        self,
                    ).list_view(h2))
            }),
    {
        let ghost p = node_index.0 as int;
        let ghost h = old(self).nodes@[p].list;
        let ghost ch = old(self).chains@[h];
        let ghost i = ch.index_of(p);
        proof {
            self.lemma_node_facts(p);
            if i > 0 {
                assert(chain_entry_ok(self.nodes@, h, ch, i - 1));
            }
            if i < ch.len() - 1 {
                assert(chain_entry_ok(self.nodes@, h, ch, i + 1));
            }
        }
        let previous_index = {
            let node = self.get_node_unchecked(node_index);
            node.previous()
        };
        let next_index = {
            let node = self.get_node_unchecked(node_index);
            node.next()
        };
        if previous_index != NodeIndex::end() {
            let previous_node = &mut self.nodes[previous_index.0];
            previous_node.next = next_index;
        }
        if next_index != NodeIndex::end() {
            let next_node = &mut self.nodes[next_index.0];
            next_node.previous = previous_index;
        }
        let list_index = {
            let node = self.get_node_unchecked(node_index);
            node.list
        };
        let rec = *self.get_list_unchecked(list_index);
        let mut new_rec = rec;
        if rec.front == node_index {
            new_rec.front = next_index;
        }
        if rec.back == node_index {
            new_rec.back = previous_index;
        }
        new_rec.length = rec.length - 1;
        self.lists.insert(list_index, new_rec);
        proof {
            self.chains@ = self.chains@.insert(h, ch.remove(i));
            assert(Self::unlink_post(*old(self), *self, node_index));
            Self::lemma_unlink_restores(*old(self), *self, node_index);
            assert(old(self).list_view(h)[i] == old(self).nodes@[p].item);
        }
    }

    /// After an unlink: every chain is well formed again, every position
    /// but the unlinked one is covered, and the views follow suit.
    proof fn lemma_unlink_restores(pre: Self, post: Self, node_index: NodeIndex)
        requires
            pre.wf(),
            (node_index.0 as int) < pre.nodes@.len(),
            Self::unlink_post(pre, post, node_index),
        ensures
            ({
                let p = node_index.0 as int;
                let h = pre.nodes@[p].list;
                let ch = pre.chains@[h];
                let i = ch.index_of(p);
                &&& post.orphan_wf(p)
                &&& pre.live(h)
                &&& 0 <= i < ch.len() && ch[i] == p
                &&& post.live_handles() == pre.live_handles()
                &&& post.nodes@[p] == pre.nodes@[p]
                &&& post.list_view(h) == pre.list_view(h).remove(i)
                &&& (forall|h2: ListIndex|
                    h2 != h && pre.live(h2) ==> post.list_view(h2) == pre.list_view(h2))
                &&& post.total_nodes() == pre.total_nodes()
                &&& post.handle_counter() == pre.handle_counter()
                &&& (forall|q: int|
                    0 <= q < post.nodes@.len() ==> (#[trigger] post.nodes@[q]).list
                        == pre.nodes@[q].list && post.nodes@[q].item == pre.nodes@[q].item)
            }),
    {
        let p = node_index.0 as int;
        let h = pre.nodes@[p].list;
        let ch = pre.chains@[h];
        let i = ch.index_of(p);
        let prev = pre.nodes@[p].previous;
        let next = pre.nodes@[p].next;
        pre.lemma_node_facts(p);
        if i > 0 {
            assert(chain_entry_ok(pre.nodes@, h, ch, i - 1));
        }
        if i < ch.len() - 1 {
            assert(chain_entry_ok(pre.nodes@, h, ch, i + 1));
        }
        assert(post.live_handles() =~= pre.live_handles());
        assert(post.nodes@[p] == pre.nodes@[p]);
        // Node owners and payloads are untouched.
        assert forall|q: int|
            0 <= q < post.nodes@.len() implies (#[trigger] post.nodes@[q]).list
            == pre.nodes@[q].list && post.nodes@[q].item == pre.nodes@[q].item by {}
        // The shortened chain of `h` is well formed.
        let ch1 = ch.remove(i);
        assert(chain_ok(post.nodes@, table_contents(post.lists)[h], h, ch1)) by {
            assert forall|j: int| 0 <= j < ch1.len() implies #[trigger] chain_entry_ok(
                post.nodes@,
                h,
                ch1,
                j,
            ) by {
                let jj = if j < i {
                    j
                } else {
                    j + 1
                };
                assert(ch1[j] == ch[jj]);
                assert(chain_entry_ok(pre.nodes@, h, ch, jj));
                if jj > 0 {
                    assert(chain_entry_ok(pre.nodes@, h, ch, jj - 1));
                }
                if jj < ch.len() - 1 {
                    assert(chain_entry_ok(pre.nodes@, h, ch, jj + 1));
                }
                if j > 0 {
                    assert(ch1[j - 1] == ch[if j - 1 < i {
                        j - 1
                    } else {
                        j
                    }]);
                }
                if j < ch1.len() - 1 {
                    assert(ch1[j + 1] == ch[if j + 1 < i {
                        j + 1
                    } else {
                        j + 2
                    }]);
                }
            }
            assert(ch1.no_duplicates());
            if ch1.len() > 0 {
                assert(ch1[0] == ch[if 0 < i {
                    0
                } else {
                    1
                }]);
                assert(ch1[ch1.len() - 1] == ch[if ch1.len() - 1 < i {
                    ch1.len() - 1
                } else {
                    ch1.len() as int
                }]);
            }
        }
        // Every other chain is untouched: the patched positions belong to
        // `h` alone.
        assert forall|h2: ListIndex| #[trigger]
            table_contents(post.lists).dom().contains(h2) && h2 != h implies chain_ok(
            post.nodes@,
            table_contents(post.lists)[h2],
            h2,
            post.chains@[h2],
        ) by {
            let chh = pre.chains@[h2];
            assert(table_contents(pre.lists).dom().contains(h2));
            assert(chain_ok(pre.nodes@, table_contents(pre.lists)[h2], h2, chh));
            assert forall|j: int|
                0 <= j < chh.len() implies {
                &&& 0 <= #[trigger] chh[j] < post.nodes@.len()
                &&& post.nodes@[chh[j]].list == pre.nodes@[chh[j]].list
                &&& post.nodes@[chh[j]].previous == pre.nodes@[chh[j]].previous
                &&& post.nodes@[chh[j]].next == pre.nodes@[chh[j]].next
            } by {
                assert(chain_entry_ok(pre.nodes@, h2, chh, j));
                if !prev.is_end() && chh[j] == prev.0 as int {
                    assert(pre.nodes@[prev.0 as int].list == h);
                    assert(false);
                }
                if !next.is_end() && chh[j] == next.0 as int {
                    assert(pre.nodes@[next.0 as int].list == h);
                    assert(false);
                }
            }
            lemma_chain_ok_unchanged(
                pre.nodes@,
                post.nodes@,
                table_contents(pre.lists)[h2],
                h2,
                chh,
            );
        }
        // Coverage of every position but `p`.
        assert forall|q: int| 0 <= q < post.nodes@.len() && q != p implies #[trigger] post.covered(
            q,
        ) by {
            assert(pre.covered(q));
            let hq = pre.nodes@[q].list;
            if hq == h {
                let j = choose|j: int| 0 <= j < ch.len() && ch[j] == q;
                assert(j != i);
                lemma_remove_entry_contains(ch, i, q);
            }
        }
        // `p` sits in no chain.
        assert forall|h2: ListIndex| #[trigger]
            table_contents(post.lists).dom().contains(h2) implies !post.chains@[h2].contains(
            p,
        ) by {
            if h2 == h {
                lemma_remove_entry_contains(ch, i, p);
                if exists|j: int| 0 <= j < ch.len() && j != i && ch[j] == p {
                    let j = choose|j: int| 0 <= j < ch.len() && j != i && ch[j] == p;
                    assert(false);
                }
            } else {
                if post.chains@[h2].contains(p) {
                    pre.lemma_chain_member(h2, p);
                }
            }
        }
        // Views.
        assert forall|j: int| 0 <= j < ch1.len() implies #[trigger] post.list_view(h)[j]
            == pre.list_view(h).remove(i)[j] by {
            let jj = if j < i {
                j
            } else {
                j + 1
            };
            assert(ch1[j] == ch[jj]);
            assert(chain_entry_ok(pre.nodes@, h, ch, jj));
        }
        assert(post.list_view(h) =~= pre.list_view(h).remove(i));
        assert forall|h2: ListIndex|
            h2 != h && pre.live(h2) implies post.list_view(h2) == pre.list_view(h2) by {
            let chh = pre.chains@[h2];
            assert forall|j: int| 0 <= j < chh.len() implies #[trigger] post.nodes@[chh[j]].item
                == pre.nodes@[chh[j]].item by {
                assert(chain_entry_ok(pre.nodes@, h2, chh, j));
            }
            assert(post.list_view(h2) =~= pre.list_view(h2));
        }
    }

    /// How `post` relates to `pre` after redirecting every reference to
    /// the node at `old_node_index` onto `new_node_index`: the node's
    /// neighbours and its list's record now name the new position; the
    /// node itself, the chains and everything else are untouched.
    spec fn relink_post(
        pre: Self,
        post: Self,
        old_node_index: NodeIndex,
        new_node_index: NodeIndex,
    ) -> bool {
        let o = old_node_index.0 as int;
        let nd = pre.nodes@[o];
        let h = nd.list;
        let rec = table_contents(pre.lists)[h];
        &&& post.alloc == pre.alloc
        &&& post.chains == pre.chains
        &&& table_contents(post.lists) == table_contents(pre.lists).insert(
            h,
            LinkedList {
                front: if rec.front == old_node_index {
                    new_node_index
                } else {
                    rec.front
                },
                back: if rec.back == old_node_index {
                    new_node_index
                } else {
                    rec.back
                },
                length: rec.length,
            },
        )
        &&& post.nodes@.len() == pre.nodes@.len()
        &&& (!nd.previous.is_end() ==> post.nodes@[nd.previous.0 as int] == with_next(
            pre.nodes@[nd.previous.0 as int],
            new_node_index,
        ))
        &&& (!nd.next.is_end() ==> post.nodes@[nd.next.0 as int] == with_previous(
            pre.nodes@[nd.next.0 as int],
            new_node_index,
        ))
        &&& (forall|q: int|
            0 <= q < pre.nodes@.len() && !(!nd.previous.is_end() && q == nd.previous.0 as int)
                && !(!nd.next.is_end() && q == nd.next.0 as int) ==> post.nodes@[q]
                == pre.nodes@[q])
    }

    /// Redirect every reference to the node at `old_node_index` onto
    /// `new_node_index`, in preparation for physically moving the node.
    ///
    /// Nothing happens when the two positions coincide.
    fn relink_list_node(&mut self, old_node_index: NodeIndex, new_node_index: NodeIndex)
        requires
            old_node_index != new_node_index ==> ({
                let nd = old(self).nodes@[old_node_index.0 as int];
                &&& (old_node_index.0 as int) < old(self).nodes@.len()
                &&& (!nd.previous.is_end() ==> nd.previous.0 < old(self).nodes@.len()
                    && nd.previous != old_node_index)
                &&& (!nd.next.is_end() ==> nd.next.0 < old(self).nodes@.len() && nd.next
                    != old_node_index)
                &&& (!nd.previous.is_end() && !nd.next.is_end() ==> nd.previous != nd.next)
                &&& table_contents(old(self).lists).dom().contains(nd.list)
            }),
        ensures
            old_node_index == new_node_index ==> *final(self) == *old(self),
            old_node_index != new_node_index ==> Self::relink_post(
                *old(self),
                *final(self),
                old_node_index,
                new_node_index,
            ),
    {
        if old_node_index != new_node_index {
            let previous_index = {
                let node = self.get_node_unchecked(old_node_index);
                node.previous()
            };
            let next_index = {
                let node = self.get_node_unchecked(old_node_index);
                node.next()
            };
            if previous_index != NodeIndex::end() {
                let previous_node = &mut self.nodes[previous_index.0];
                previous_node.next = new_node_index;
            }
            if next_index != NodeIndex::end() {
                let next_node = &mut self.nodes[next_index.0];
                next_node.previous = new_node_index;
            }
            let list_index = {
                let node = self.get_node_unchecked(old_node_index);
                node.list
            };
            let rec = *self.get_list_unchecked(list_index);
            let mut new_rec = rec;
            if rec.front == old_node_index {
                new_rec.front = new_node_index;
            }
            if rec.back == old_node_index {
                new_rec.back = new_node_index;
            }
            self.lists.insert(list_index, new_rec);
        }
    }

    /// After relinking the last arena slot onto the vacated position `p`
    /// and swapping it down, the set is well formed again and every list
    /// reads exactly as it did with the orphan still in place.
    proof fn lemma_swap_restores(s: Self, u: Self, t: Self, p: int)
        requires
            s.orphan_wf(p),
            ({
                let ll = s.nodes@.len() - 1;
                if p == ll {
                    u == s
                } else {
                    Self::relink_post(s, u, NodeIndex(ll as usize), NodeIndex(p as usize))
                }
            }),
            t.alloc == u.alloc,
            t.lists == u.lists,
            t.nodes@ == u.nodes@.update(p, u.nodes@[s.nodes@.len() - 1]).drop_last(),
            t.chains@ == (if p == s.nodes@.len() - 1 {
                u.chains@
            } else {
                u.chains@.insert(
                    s.nodes@[s.nodes@.len() - 1].list,
                    s.chains@[s.nodes@[s.nodes@.len() - 1].list].update(
                        s.chains@[s.nodes@[s.nodes@.len() - 1].list].index_of(
                            s.nodes@.len() - 1,
                        ),
                        p,
                    ),
                )
            }),
        ensures
            t.wf(),
            t.live_handles() == s.live_handles(),
            forall|hh: ListIndex|
                s.live(hh) ==> #[trigger] t.list_view(hh) == s.list_view(hh),
            t.total_nodes() == s.total_nodes() - 1,
            t.handle_counter() == s.handle_counter(),
    {
        let ll = s.nodes@.len() - 1;
        if p != ll {
            assert(s.covered(ll));
        }
        assert(t.live_handles() =~= s.live_handles());
        if p == ll {
            // The orphan was the last slot: truncation alone removes it.
            assert forall|h2: ListIndex| #[trigger]
                table_contents(t.lists).dom().contains(h2) implies chain_ok(
                t.nodes@,
                table_contents(t.lists)[h2],
                h2,
                t.chains@[h2],
            ) by {
                let chh = s.chains@[h2];
                assert(chain_ok(s.nodes@, table_contents(s.lists)[h2], h2, chh));
                assert forall|j: int|
                    0 <= j < chh.len() implies {
                    &&& 0 <= #[trigger] chh[j] < t.nodes@.len()
                    &&& t.nodes@[chh[j]].list == s.nodes@[chh[j]].list
                    &&& t.nodes@[chh[j]].previous == s.nodes@[chh[j]].previous
                    &&& t.nodes@[chh[j]].next == s.nodes@[chh[j]].next
                } by {
                    assert(chain_entry_ok(s.nodes@, h2, chh, j));
                    assert(chh[j] != p);
                }
                lemma_chain_ok_unchanged(
                    s.nodes@,
                    t.nodes@,
                    table_contents(s.lists)[h2],
                    h2,
                    chh,
                );
            }
            assert forall|q: int| 0 <= q < t.nodes@.len() implies #[trigger] t.covered(q) by {
                assert(s.covered(q));
                assert(t.nodes@[q] == s.nodes@[q]);
            }
            assert forall|hh: ListIndex| s.live(hh) implies #[trigger] t.list_view(hh)
                == s.list_view(hh) by {
                let chh = s.chains@[hh];
                assert forall|j: int| 0 <= j < chh.len() implies #[trigger] t.nodes@[chh[j]].item
                    == s.nodes@[chh[j]].item by {
                    assert(chain_entry_ok(s.nodes@, hh, chh, j));
                    assert(chh[j] != p);
                }
                assert(t.list_view(hh) =~= s.list_view(hh));
            }
        } else {
            // The last slot's node moved into `p`; its chain now says so.
            let nd = s.nodes@[ll];
            let h2 = nd.list;
            let ch2 = s.chains@[h2];
            assert(s.covered(ll));
            let j2 = ch2.index_of(ll);
            assert(0 <= j2 < ch2.len() && ch2[j2] == ll);
            assert(chain_entry_ok(s.nodes@, h2, ch2, j2));
            if j2 > 0 {
                assert(chain_entry_ok(s.nodes@, h2, ch2, j2 - 1));
            }
            if j2 < ch2.len() - 1 {
                assert(chain_entry_ok(s.nodes@, h2, ch2, j2 + 1));
            }
            let chn = ch2.update(j2, p);
            let rec = table_contents(s.lists)[h2];
            // The node that moved into `p` kept its fields.
            assert(t.nodes@[p] == nd);
            // Chain of `h2`.
            assert(chain_ok(t.nodes@, table_contents(t.lists)[h2], h2, chn)) by {
                assert forall|k: int| 0 <= k < chn.len() implies #[trigger] chain_entry_ok(
                    t.nodes@,
                    h2,
                    chn,
                    k,
                ) by {
                    assert(chain_entry_ok(s.nodes@, h2, ch2, k));
                    if k > 0 {
                        assert(chain_entry_ok(s.nodes@, h2, ch2, k - 1));
                    }
                    if k < ch2.len() - 1 {
                        assert(chain_entry_ok(s.nodes@, h2, ch2, k + 1));
                    }
                }
                assert forall|k1: int, k2: int|
                    0 <= k1 < chn.len() && 0 <= k2 < chn.len() && k1 != k2 implies chn[k1]
                    != chn[k2] by {
                    assert(chain_entry_ok(s.nodes@, h2, ch2, k1));
                    assert(chain_entry_ok(s.nodes@, h2, ch2, k2));
                    if chn[k1] == p && k1 != j2 {
                        assert(!ch2.contains(p));
                        assert(false);
                    }
                    if chn[k2] == p && k2 != j2 {
                        assert(!ch2.contains(p));
                        assert(false);
                    }
                }
            }
            // Every other chain is untouched.
            assert forall|h3: ListIndex| #[trigger]
                table_contents(t.lists).dom().contains(h3) && h3 != h2 implies chain_ok(
                t.nodes@,
                table_contents(t.lists)[h3],
                h3,
                t.chains@[h3],
            ) by {
                let chh = s.chains@[h3];
                assert(chain_ok(s.nodes@, table_contents(s.lists)[h3], h3, chh));
                assert forall|j: int|
                    0 <= j < chh.len() implies {
                    &&& 0 <= #[trigger] chh[j] < t.nodes@.len()
                    &&& t.nodes@[chh[j]].list == s.nodes@[chh[j]].list
                    &&& t.nodes@[chh[j]].previous == s.nodes@[chh[j]].previous
                    &&& t.nodes@[chh[j]].next == s.nodes@[chh[j]].next
                } by {
                    assert(chain_entry_ok(s.nodes@, h3, chh, j));
                    if chh[j] == ll {
                        assert(s.nodes@[ll].list == h3);
                        assert(false);
                    }
                    if !nd.previous.is_end() && chh[j] == nd.previous.0 as int {
                        assert(s.nodes@[nd.previous.0 as int].list == h2);
                        assert(false);
                    }
                    if !nd.next.is_end() && chh[j] == nd.next.0 as int {
                        assert(s.nodes@[nd.next.0 as int].list == h2);
                        assert(false);
                    }
                    assert(chh[j] != p);
                }
                lemma_chain_ok_unchanged(
                    s.nodes@,
                    t.nodes@,
                    table_contents(s.lists)[h3],
                    h3,
                    chh,
                );
            }
            // Coverage.
            assert forall|q: int| 0 <= q < t.nodes@.len() implies #[trigger] t.covered(q) by {
                if q == p {
                    assert(t.nodes@[p] == nd);
                    assert(chn[j2] == p);
                } else {
                    assert(s.covered(q));
                    let hq = s.nodes@[q].list;
                    assert(t.nodes@[q].list == hq);
                    if hq == h2 {
                        let k = choose|k: int| 0 <= k < ch2.len() && ch2[k] == q;
                        assert(k != j2);
                        assert(chn[k] == q);
                    }
                }
            }
            // Views.
            assert forall|hh: ListIndex| s.live(hh) implies #[trigger] t.list_view(hh)
                == s.list_view(hh) by {
                let chh = s.chains@[hh];
                if hh == h2 {
                    assert forall|k: int| 0 <= k < chn.len() implies #[trigger] t.list_view(
                        h2,
                    )[k] == s.list_view(h2)[k] by {
                        assert(chain_entry_ok(s.nodes@, h2, ch2, k));
                        if k == j2 {
                            assert(t.nodes@[p].item == s.nodes@[ll].item);
                        }
                    }
                    assert(t.list_view(h2) =~= s.list_view(h2));
                } else {
                    assert forall|j: int|
                        0 <= j < chh.len() implies #[trigger] t.nodes@[chh[j]].item
                        == s.nodes@[chh[j]].item by {
                        assert(chain_entry_ok(s.nodes@, hh, chh, j));
                        if chh[j] == ll {
                            assert(s.nodes@[ll].list == hh);
                            assert(false);
                        }
                        assert(chh[j] != p);
                    }
                    assert(t.list_view(hh) =~= s.list_view(hh));
                }
            }
        }
    }

    /// Remove the node at `node_to_be_removed_index` from the set and
    /// return its payload.
    ///
    /// The node is unlinked from its list, the node in the last arena slot
    /// is relinked onto the vacated position, and the arena shrinks by
    /// one.  Other lists keep their contents; the owning list loses
    /// exactly the removed payload.
    fn remove_list_node(&mut self, node_to_be_removed_index: NodeIndex) -> (item: T)
        requires
            old(self).wf(),
            (node_to_be_removed_index.0 as int) < old(self).total_nodes(),
        ensures
            ({
                let p = node_to_be_removed_index.0 as int;
                let h = old(self).nodes@[p].list;
                let i = old(self).chains@[h].index_of(p);
                &&& final(self).wf()
                &&& old(self).live(h)
                &&& 0 <= i < old(self).list_view(h).len()
                &&& old(self).chains@[h][i] == p
                &&& item == old(self).list_view(h)[i]
                &&& final(self).live_handles() == old(self).live_handles()
                &&& (forall|h2: ListIndex| final(self).live(h2) == old(self).live(h2))
                &&& final(self).list_view(h) == old(self).list_view(h).remove(i)
                &&& (forall|h2: ListIndex|
                    h2 != h && old(self).live(h2) ==> final(self).list_view(h2) == old(
                        self,
                    ).list_view(h2))
                &&& final(self).total_nodes() == old(self).total_nodes() - 1
                &&& final(self).handle_counter() == old(self).handle_counter()
            }),
    {
        let ghost p = node_to_be_removed_index.0 as int;
        let ghost h = old(self).nodes@[p].list;
        let ghost ch = old(self).chains@[h];
        let ghost i = ch.index_of(p);
        proof {
            self.lemma_node_facts(p);
        }
        let node_to_be_moved_index = NodeIndex::new(self.nodes.len() - 1);
        let ghost ll = node_to_be_moved_index.0 as int;
        self.unlink_list_node(node_to_be_removed_index);
        proof {
            Self::lemma_unlink_restores(*old(self), *self, node_to_be_removed_index);
        }
        let ghost s = *self;
        proof {
            // The last slot still sits in its own chain; that pins its
            // links well enough to relink it.
            if ll != p {
                assert(s.covered(ll));
                let h2 = s.nodes@[ll].list;
                let ch2 = s.chains@[h2];
                let j2 = ch2.index_of(ll);
                assert(0 <= j2 < ch2.len() && ch2[j2] == ll);
                assert(chain_entry_ok(s.nodes@, h2, ch2, j2));
                if j2 > 0 {
                    assert(chain_entry_ok(s.nodes@, h2, ch2, j2 - 1));
                }
                if j2 < ch2.len() - 1 {
                    assert(chain_entry_ok(s.nodes@, h2, ch2, j2 + 1));
                }
            }
        }
        self.relink_list_node(node_to_be_moved_index, node_to_be_removed_index);
        let ghost u = *self;
        let removed = self.nodes.swap_remove(node_to_be_removed_index.0);
        proof {
            if ll != p {
                let h2 = s.nodes@[ll].list;
                let ch2 = s.chains@[h2];
                let j2 = ch2.index_of(ll);
                self.chains@ = self.chains@.insert(h2, ch2.update(j2, p));
            }
            Self::lemma_swap_restores(s, u, *self, p);
        }
        removed.item
    }

    /// Remove and return the first element of the list named by
    /// `list_index`, or `None` if the list is empty.
    ///
    /// The handle must name a live list; the lookup is fatal otherwise.
    pub fn pop_front(&mut self, list_index: ListIndex) -> (r: Option<T>)
        requires
            old(self).wf(),
            old(self).live(list_index),
        ensures
            final(self).wf(),
            final(self).live_handles() == old(self).live_handles(),
            forall|h2: ListIndex| final(self).live(h2) == old(self).live(h2),
            final(self).handle_counter() == old(self).handle_counter(),
            forall|h2: ListIndex|
                h2 != list_index && old(self).live(h2) ==> final(self).list_view(h2) == old(
                    self,
                ).list_view(h2),
            match r {
                Some(item) => old(self).list_view(list_index).len() > 0 && item == old(
                    self,
                ).list_view(list_index)[0] && final(self).list_view(list_index) == old(
                    self,
                ).list_view(list_index).remove(0) && final(self).total_nodes() == old(
                    self,
                ).total_nodes() - 1,
                None => old(self).list_view(list_index).len() == 0 && *final(self) == *old(self),
            },
    {
        let front_node_index = self.get_list_unchecked(list_index).front;
        proof {
            assert(table_contents(self.lists).dom().contains(list_index));
            let ch = self.chains@[list_index];
            if ch.len() > 0 {
                assert(chain_entry_ok(self.nodes@, list_index, ch, 0));
            }
        }
        if front_node_index != NodeIndex::end() {
            proof {
                let ch = self.chains@[list_index];
                let p = front_node_index.0 as int;
                assert(ch[0] == p);
                let i = ch.index_of(p);
                assert(0 <= i < ch.len() && ch[i] == p);
                assert(i == 0);
            }
            let item = self.remove_list_node(front_node_index);
            Some(item)
        } else {
            None
        }
    }

    /// Remove and return the last element of the list named by
    /// `list_index`, or `None` if the list is empty.
    ///
    /// The handle must name a live list; the lookup is fatal otherwise.
    pub fn pop_back(&mut self, list_index: ListIndex) -> (r: Option<T>)
        requires
            old(self).wf(),
            old(self).live(list_index),
        ensures
            final(self).wf(),
            final(self).live_handles() == old(self).live_handles(),
            forall|h2: ListIndex| final(self).live(h2) == old(self).live(h2),
            final(self).handle_counter() == old(self).handle_counter(),
            forall|h2: ListIndex|
                h2 != list_index && old(self).live(h2) ==> final(self).list_view(h2) == old(
                    self,
                ).list_view(h2),
            match r {
                Some(item) => old(self).list_view(list_index).len() > 0 && item == old(
                    self,
                ).list_view(list_index).last() && final(self).list_view(list_index) == old(
                    self,
                ).list_view(list_index).drop_last() && final(self).total_nodes() == old(
                    self,
                ).total_nodes() - 1,
                None => old(self).list_view(list_index).len() == 0 && *final(self) == *old(self),
            },
    {
        let back_node_index = self.get_list_unchecked(list_index).back;
        proof {
            assert(table_contents(self.lists).dom().contains(list_index));
            let ch = self.chains@[list_index];
            if ch.len() > 0 {
                assert(chain_entry_ok(self.nodes@, list_index, ch, ch.len() - 1));
            }
        }
        if back_node_index != NodeIndex::end() {
            proof {
                let ch = self.chains@[list_index];
                let p = back_node_index.0 as int;
                assert(ch[ch.len() - 1] == p);
                let i = ch.index_of(p);
                assert(0 <= i < ch.len() && ch[i] == p);
                assert(i == ch.len() - 1);
            }
            let item = self.remove_list_node(back_node_index);
            proof {
                let v = old(self).list_view(list_index);
                assert(v.remove(v.len() - 1) =~= v.drop_last());
            }
            Some(item)
        } else {
            None
        }
    }

    /// Borrow the first element of the list named by `list_index`, or
    /// `None` if the handle is unknown or the list is empty.
    pub fn front(&self, list_index: ListIndex) -> (r: Option<&T>)
        requires
            self.wf(),
        ensures
            match r {
                Some(item) => self.live(list_index) && self.list_view(list_index).len() > 0
                    && *item == self.list_view(list_index)[0],
                None => !self.live(list_index) || self.list_view(list_index).len() == 0,
            },
    {
        let front_node_index = match self.get_list(list_index) {
            Some(list) => list.front,
            None => {
                return None;
            },
        };
        proof {
            assert(table_contents(self.lists).dom().contains(list_index));
            let ch = self.chains@[list_index];
            if ch.len() > 0 {
                assert(chain_entry_ok(self.nodes@, list_index, ch, 0));
            }
        }
        if front_node_index != NodeIndex::end() {
            let node = self.get_node_unchecked(front_node_index);
            Some(node.item())
        } else {
            None
        }
    }

    /// Borrow the last element of the list named by `list_index`, or
    /// `None` if the handle is unknown or the list is empty.
    pub fn back(&self, list_index: ListIndex) -> (r: Option<&T>)
        requires
            self.wf(),
        ensures
            match r {
                Some(item) => self.live(list_index) && self.list_view(list_index).len() > 0
                    && *item == self.list_view(list_index).last(),
                None => !self.live(list_index) || self.list_view(list_index).len() == 0,
            },
    {
        let back_node_index = match self.get_list(list_index) {
            Some(list) => list.back,
            None => {
                return None;
            },
        };
        proof {
            assert(table_contents(self.lists).dom().contains(list_index));
            let ch = self.chains@[list_index];
            if ch.len() > 0 {
                assert(chain_entry_ok(self.nodes@, list_index, ch, ch.len() - 1));
            }
        }
        if back_node_index != NodeIndex::end() {
            let node = self.get_node_unchecked(back_node_index);
            Some(node.item())
        } else {
            None
        }
    }

    /// Payload changes at covered positions leave the set well formed and
    /// change only the owning list's view, at the node's spot in it.
    proof fn lemma_item_update_keeps_wf(s1: Self, s2: Self, p: int)
        requires
            s1.wf(),
            0 <= p < s1.nodes@.len(),
            s2.alloc == s1.alloc,
            s2.lists == s1.lists,
            s2.chains == s1.chains,
            s2.nodes@.len() == s1.nodes@.len(),
            forall|q: int|
                0 <= q < s1.nodes@.len() && q != p ==> s2.nodes@[q] == s1.nodes@[q],
            s2.nodes@[p].list == s1.nodes@[p].list,
            s2.nodes@[p].previous == s1.nodes@[p].previous,
            s2.nodes@[p].next == s1.nodes@[p].next,
        ensures
            ({
                let h = s1.nodes@[p].list;
                let i = s1.chains@[h].index_of(p);
                &&& s2.wf()
                &&& s1.live(h)
                &&& 0 <= i < s1.list_view(h).len()
                &&& s1.chains@[h][i] == p
                &&& s2.list_view(h) == s1.list_view(h).update(i, s2.nodes@[p].item)
                &&& (forall|h2: ListIndex|
                    s1.live(h2) && h2 != h ==> s2.list_view(h2) == s1.list_view(h2))
            }),
    {
        let h = s1.nodes@[p].list;
        let i = s1.chains@[h].index_of(p);
        s1.lemma_node_facts(p);
        assert forall|h2: ListIndex| #[trigger]
            table_contents(s2.lists).dom().contains(h2) implies chain_ok(
            s2.nodes@,
            table_contents(s2.lists)[h2],
            h2,
            s2.chains@[h2],
        ) by {
            let chh = s1.chains@[h2];
            assert(chain_ok(s1.nodes@, table_contents(s1.lists)[h2], h2, chh));
            assert forall|j: int|
                0 <= j < chh.len() implies {
                &&& 0 <= #[trigger] chh[j] < s2.nodes@.len()
                &&& s2.nodes@[chh[j]].list == s1.nodes@[chh[j]].list
                &&& s2.nodes@[chh[j]].previous == s1.nodes@[chh[j]].previous
                &&& s2.nodes@[chh[j]].next == s1.nodes@[chh[j]].next
            } by {
                assert(chain_entry_ok(s1.nodes@, h2, chh, j));
            }
            lemma_chain_ok_unchanged(
                s1.nodes@,
                s2.nodes@,
                table_contents(s1.lists)[h2],
                h2,
                chh,
            );
        }
        assert forall|q: int| 0 <= q < s2.nodes@.len() implies #[trigger] s2.covered(q) by {
            assert(s1.covered(q));
        }
        assert forall|j: int| 0 <= j < s1.chains@[h].len() implies #[trigger] s2.list_view(h)[j]
            == s1.list_view(h).update(i, s2.nodes@[p].item)[j] by {
            assert(chain_entry_ok(s1.nodes@, h, s1.chains@[h], j));
        }
        assert(s2.list_view(h) =~= s1.list_view(h).update(i, s2.nodes@[p].item));
        assert forall|h2: ListIndex|
            s1.live(h2) && h2 != h implies s2.list_view(h2) == s1.list_view(h2) by {
            let chh = s1.chains@[h2];
            assert forall|j: int| 0 <= j < chh.len() implies #[trigger] s2.nodes@[chh[j]].item
                == s1.nodes@[chh[j]].item by {
                assert(chain_entry_ok(s1.nodes@, h2, chh, j));
            }
            assert(s2.list_view(h2) =~= s1.list_view(h2));
        }
    }

    /// Borrow the first element of the list named by `list_index`
    /// mutably, or `None` if the handle is unknown or the list is empty.
    ///
    /// Writing through the returned borrow changes exactly the front
    /// payload of that list.
    pub fn front_mut(&mut self, list_index: ListIndex) -> (r: Option<&mut T>)
        requires
            old(self).wf(),
        ensures
            forall|h2: ListIndex| final(self).live(h2) == old(self).live(h2),
            match r {
                Some(m) => {
                    &&& old(self).live(list_index)
                    &&& old(self).list_view(list_index).len() > 0
                    &&& *m == old(self).list_view(list_index)[0]
                    &&& final(self).wf()
                    &&& final(self).live_handles() == old(self).live_handles()
                    &&& final(self).handle_counter() == old(self).handle_counter()
                    &&& final(self).total_nodes() == old(self).total_nodes()
                    &&& final(self).list_view(list_index) == old(self).list_view(
                        list_index,
                    ).update(0, *final(m))
                    &&& (forall|h2: ListIndex|
                        h2 != list_index && old(self).live(h2) ==> final(self).list_view(h2)
                            == old(self).list_view(h2))
                },
                None => (!old(self).live(list_index) || old(self).list_view(list_index).len()
                    == 0) && *final(self) == *old(self),
            },
    {
        let front_node_index = match self.get_list(list_index) {
            Some(list) => list.front,
            None => {
                return None;
            },
        };
        proof {
            assert(table_contents(self.lists).dom().contains(list_index));
            let ch = self.chains@[list_index];
            if ch.len() > 0 {
                assert(chain_entry_ok(self.nodes@, list_index, ch, 0));
                let i = ch.index_of(ch[0]);
                assert(0 <= i < ch.len() && ch[i] == ch[0]);
                assert(i == 0);
            }
        }
        if front_node_index != NodeIndex::end() {
            let m = self.item_mut_at(front_node_index);
            Some(m)
        } else {
            None
        }
    }

    /// Borrow the last element of the list named by `list_index` mutably,
    /// or `None` if the handle is unknown or the list is empty.
    ///
    /// Writing through the returned borrow changes exactly the back
    /// payload of that list.
    pub fn back_mut(&mut self, list_index: ListIndex) -> (r: Option<&mut T>)
        requires
            old(self).wf(),
        ensures
            forall|h2: ListIndex| final(self).live(h2) == old(self).live(h2),
            match r {
                Some(m) => {
                    &&& old(self).live(list_index)
                    &&& old(self).list_view(list_index).len() > 0
                    &&& *m == old(self).list_view(list_index).last()
                    &&& final(self).wf()
                    &&& final(self).live_handles() == old(self).live_handles()
                    &&& final(self).handle_counter() == old(self).handle_counter()
                    &&& final(self).total_nodes() == old(self).total_nodes()
                    &&& final(self).list_view(list_index) == old(self).list_view(
                        list_index,
                    ).update(old(self).list_view(list_index).len() - 1, *final(m))
                    &&& (forall|h2: ListIndex|
                        h2 != list_index && old(self).live(h2) ==> final(self).list_view(h2)
                            == old(self).list_view(h2))
                },
                None => (!old(self).live(list_index) || old(self).list_view(list_index).len()
                    == 0) && *final(self) == *old(self),
            },
    {
        let back_node_index = match self.get_list(list_index) {
            Some(list) => list.back,
            None => {
                return None;
            },
        };
        proof {
            assert(table_contents(self.lists).dom().contains(list_index));
            let ch = self.chains@[list_index];
            if ch.len() > 0 {
                assert(chain_entry_ok(self.nodes@, list_index, ch, ch.len() - 1));
                let i = ch.index_of(ch[ch.len() - 1]);
                assert(0 <= i < ch.len() && ch[i] == ch[ch.len() - 1]);
                assert(i == ch.len() - 1);
            }
        }
        if back_node_index != NodeIndex::end() {
            let m = self.item_mut_at(back_node_index);
            Some(m)
        } else {
            None
        }
    }

    /// Whether the list named by `list_index` holds a payload equal to
    /// `item`.
    ///
    /// The handle must name a live list; the lookup is fatal otherwise.
    pub fn contains(&self, list_index: ListIndex, item: &T) -> (r: bool) where T: PartialEq
        requires
            self.wf(),
            self.live(list_index),
        ensures
            T::obeys_eq_spec() ==> (r <==> exists|j: int|
                0 <= j < self.list_view(list_index).len() && self.list_view(list_index)[j].eq_spec(
                    item,
                )),
    {
        let ghost ch = self.chains@[list_index];
        proof {
            assert(table_contents(self.lists).dom().contains(list_index));
            if ch.len() > 0 {
                assert(chain_entry_ok(self.nodes@, list_index, ch, 0));
            }
        }
        let mut current_index = self.get_list_unchecked(list_index).front;
        let ghost mut i: int = 0;
        while current_index != NodeIndex::end()
            invariant
                self.wf(),
                self.live(list_index),
                ch == self.chains@[list_index],
                0 <= i <= ch.len(),
                current_index.0 as int == (if i == ch.len() {
                    usize::MAX as int
                } else {
                    ch[i]
                }),
                i < ch.len() ==> (0 <= ch[i] < self.nodes@.len()),
                T::obeys_eq_spec() ==> (forall|j: int|
                    0 <= j < i ==> !(#[trigger] self.list_view(list_index)[j].eq_spec(item))),
            decreases ch.len() - i,
        {
            proof {
                assert(chain_entry_ok(self.nodes@, list_index, ch, i));
            }
            let current_node = self.get_node_unchecked(current_index);
            if current_node.item().eq(item) {
                proof {
                    if T::obeys_eq_spec() {
                        assert(self.list_view(list_index)[i] == self.nodes@[ch[i]].item);
                        assert(self.list_view(list_index)[i].eq_spec(item));
                    }
                }
                return true;
            } else {
                current_index = current_node.next();
                proof {
                    i = i + 1;
                    if i < ch.len() {
                        assert(chain_entry_ok(self.nodes@, list_index, ch, i));
                    }
                }
            }
        }
        false
    }

    /// Remove and return the element at position `at` of the list named
    /// by `list_index`, together with its position, or `None` if the
    /// handle is unknown or `at` falls outside the list.
    pub fn remove(&mut self, list_index: ListIndex, at: usize) -> (r: Option<(T, usize)>)
        requires
            old(self).wf(),
        ensures
            final(self).wf(),
            final(self).live_handles() == old(self).live_handles(),
            forall|h2: ListIndex| final(self).live(h2) == old(self).live(h2),
            final(self).handle_counter() == old(self).handle_counter(),
            forall|h2: ListIndex|
                h2 != list_index && old(self).live(h2) ==> final(self).list_view(h2) == old(
                    self,
                ).list_view(h2),
            match r {
                Some(pair) => old(self).live(list_index) && (at as int) < old(self).list_view(
                    list_index,
                ).len() && pair.0 == old(self).list_view(list_index)[at as int] && pair.1 == at
                    && final(self).list_view(list_index) == old(self).list_view(list_index).remove(
                    at as int,
                ) && final(self).total_nodes() == old(self).total_nodes() - 1,
                None => (!old(self).live(list_index) || (at as int) >= old(self).list_view(
                    list_index,
                ).len()) && *final(self) == *old(self),
            },
    {
        if !self.contains_list(list_index) {
            return None;
        }
        let ghost ch = self.chains@[list_index];
        proof {
            assert(table_contents(self.lists).dom().contains(list_index));
            if ch.len() > 0 {
                assert(chain_entry_ok(self.nodes@, list_index, ch, 0));
            }
        }
        let mut current_index = self.get_list_unchecked(list_index).front;
        let mut i: usize = 0;
        while current_index != NodeIndex::end()
            invariant
                *self == *old(self),
                self.wf(),
                self.live(list_index),
                ch == self.chains@[list_index],
                0 <= i as int <= ch.len(),
                i <= at,
                current_index.0 as int == (if i as int == ch.len() {
                    usize::MAX as int
                } else {
                    ch[i as int]
                }),
                (i as int) < ch.len() ==> 0 <= ch[i as int] < self.nodes@.len(),
            decreases ch.len() - i as int,
        {
            proof {
                assert(chain_entry_ok(self.nodes@, list_index, ch, i as int));
            }
            let current_node = self.get_node_unchecked(current_index);
            if i == at {
                proof {
                    let p = current_index.0 as int;
                    let k = ch.index_of(p);
                    assert(0 <= k < ch.len() && ch[k] == p);
                    assert(k == i as int);
                }
                let res = self.remove_list_node(current_index);
                return Some((res, i));
            } else {
                current_index = current_node.next();
                i = i + 1;
                proof {
                    if (i as int) < ch.len() {
                        assert(chain_entry_ok(self.nodes@, list_index, ch, i as int));
                    }
                }
            }
        }
        None
    }

    /// Remove and return the first payload of the list named by
    /// `list_index` that equals `item`, together with its position, or
    /// `None` if the handle is unknown or no payload matches.  Later
    /// equal payloads stay in place.
    pub fn remove_item(&mut self, list_index: ListIndex, item: &T) -> (r: Option<(T, usize)>) where
        T: PartialEq,
        requires
            old(self).wf(),
        ensures
            final(self).wf(),
            final(self).live_handles() == old(self).live_handles(),
            forall|h2: ListIndex| final(self).live(h2) == old(self).live(h2),
            final(self).handle_counter() == old(self).handle_counter(),
            forall|h2: ListIndex|
                h2 != list_index && old(self).live(h2) ==> final(self).list_view(h2) == old(
                    self,
                ).list_view(h2),
            match r {
                Some(pair) => {
                    let v = old(self).list_view(list_index);
                    &&& old(self).live(list_index)
                    &&& 0 <= pair.1 as int && (pair.1 as int) < v.len()
                    &&& pair.0 == v[pair.1 as int]
                    &&& final(self).list_view(list_index) == v.remove(pair.1 as int)
                    &&& final(self).total_nodes() == old(self).total_nodes() - 1
                    &&& (T::obeys_eq_spec() ==> pair.0.eq_spec(item) && (forall|j: int|
                        0 <= j < pair.1 as int ==> !(#[trigger] v[j].eq_spec(item))))
                },
                None => *final(self) == *old(self) && (old(self).live(list_index)
                    && T::obeys_eq_spec() ==> (forall|j: int|
                    0 <= j < old(self).list_view(list_index).len() ==> !(#[trigger] old(
                        self,
                    ).list_view(list_index)[j].eq_spec(item)))),
            },
    {
        if !self.contains_list(list_index) {
            return None;
        }
        let ghost ch = self.chains@[list_index];
        proof {
            assert(table_contents(self.lists).dom().contains(list_index));
            if ch.len() > 0 {
                assert(chain_entry_ok(self.nodes@, list_index, ch, 0));
            }
        }
        let mut current_index = self.get_list_unchecked(list_index).front;
        let mut i: usize = 0;
        while current_index != NodeIndex::end()
            invariant
                *self == *old(self),
                self.wf(),
                self.live(list_index),
                ch == self.chains@[list_index],
                0 <= i as int <= ch.len(),
                current_index.0 as int == (if i as int == ch.len() {
                    usize::MAX as int
                } else {
                    ch[i as int]
                }),
                (i as int) < ch.len() ==> 0 <= ch[i as int] < self.nodes@.len(),
                T::obeys_eq_spec() ==> (forall|j: int|
                    0 <= j < i as int ==> !(#[trigger] self.list_view(list_index)[j].eq_spec(
                        item,
                    ))),
            decreases ch.len() - i as int,
        {
            proof {
                assert(chain_entry_ok(self.nodes@, list_index, ch, i as int));
            }
            let current_node = self.get_node_unchecked(current_index);
            if current_node.item().eq(item) {
                proof {
                    let p = current_index.0 as int;
                    let k = ch.index_of(p);
                    assert(0 <= k < ch.len() && ch[k] == p);
                    assert(k == i as int);
                }
                let res = self.remove_list_node(current_index);
                return Some((res, i));
            } else {
                current_index = current_node.next();
                i = i + 1;
                proof {
                    if (i as int) < ch.len() {
                        assert(chain_entry_ok(self.nodes@, list_index, ch, i as int));
                    }
                }
            }
        }
        None
    }

    /// Remove every element of the list named by `list_index`.  The list
    /// itself stays live, empty.
    ///
    /// The handle must name a live list; the lookup is fatal otherwise.
    pub fn clear(&mut self, list_index: ListIndex)
        requires
            old(self).wf(),
            old(self).live(list_index),
        ensures
            final(self).wf(),
            final(self).live_handles() == old(self).live_handles(),
            forall|h2: ListIndex| final(self).live(h2) == old(self).live(h2),
            final(self).handle_counter() == old(self).handle_counter(),
            final(self).list_view(list_index) == Seq::<T>::empty(),
            forall|h2: ListIndex|
                h2 != list_index && old(self).live(h2) ==> final(self).list_view(h2) == old(
                    self,
                ).list_view(h2),
            final(self).total_nodes() == old(self).total_nodes() - old(self).list_view(
                list_index,
            ).len(),
    {
        while !self.list_is_empty(list_index)
            invariant
                self.wf(),
                self.live(list_index),
                self.live_handles() == old(self).live_handles(),
                self.handle_counter() == old(self).handle_counter(),
                forall|h2: ListIndex|
                    h2 != list_index && old(self).live(h2) ==> self.list_view(h2) == old(
                        self,
                    ).list_view(h2),
                self.list_view(list_index).len() <= old(self).list_view(list_index).len(),
                self.total_nodes() == old(self).total_nodes() - (old(self).list_view(
                    list_index,
                ).len() - self.list_view(list_index).len()),
            decreases self.list_view(list_index).len(),
        {
            self.pop_front(list_index);
        }
        proof {
            assert(self.list_view(list_index) =~= Seq::<T>::empty());
        }
    }

    /// Discard every list and every node of the set in one step.
    ///
    /// Unlike clearing each list, this also forgets the lists themselves.
    /// Handles are still never reused afterwards.
    pub fn clear_all(&mut self)
        ensures
            final(self).wf(),
            forall|h: ListIndex| !final(self).live(h),
            final(self).live_handles().len() == 0,
            final(self).total_nodes() == 0,
            final(self).handle_counter() == old(self).handle_counter(),
    {
        self.nodes.clear();
        self.lists.clear();
        proof {
            self.chains@ = Map::empty();
            assert(self.chains@.dom() =~= table_contents(self.lists).dom());
            assert(self.live_handles() =~= Set::empty());
        }
    }

    /// Remove the list named by `list_index` and all its elements from
    /// the set, returning whether the list existed.
    ///
    /// Every other list, and every other handle, is unaffected.
    pub fn remove_list(&mut self, list_index: ListIndex) -> (r: bool)
        requires
            old(self).wf(),
        ensures
            final(self).wf(),
            r == old(self).live(list_index),
            !final(self).live(list_index),
            forall|h2: ListIndex|
                h2 != list_index ==> final(self).live(h2) == old(self).live(h2),
            final(self).live_handles() == old(self).live_handles().remove(list_index),
            final(self).handle_counter() == old(self).handle_counter(),
            forall|h2: ListIndex|
                h2 != list_index && old(self).live(h2) ==> final(self).live(h2)
                    && final(self).list_view(h2) == old(self).list_view(h2),
            final(self).total_nodes() == old(self).total_nodes() - (if old(self).live(list_index) {
                old(self).list_view(list_index).len() as int
            } else {
                0
            }),
    {
        if self.contains_list(list_index) {
            self.clear(list_index);
            let ghost mid = *self;
            self.lists.remove(list_index);
            proof {
                assert(mid.list_view(list_index).len() == 0);
                assert(mid.chains@[list_index].len() == 0);
                self.chains@ = self.chains@.remove(list_index);
                assert(self.chains@.dom() =~= table_contents(self.lists).dom());
                assert(self.live_handles() =~= old(self).live_handles().remove(list_index));
                assert forall|h2: ListIndex| #[trigger]
                    table_contents(self.lists).dom().contains(h2) implies chain_ok(
                    self.nodes@,
                    table_contents(self.lists)[h2],
                    h2,
                    self.chains@[h2],
                ) by {
                    assert(table_contents(mid.lists).dom().contains(h2));
                    assert(chain_ok(mid.nodes@, table_contents(mid.lists)[h2], h2, mid.chains@[h2]));
                }
                assert forall|q: int| 0 <= q < self.nodes@.len() implies #[trigger] self.covered(
                    q,
                ) by {
                    assert(mid.covered(q));
                    if mid.nodes@[q].list == list_index {
                        assert(mid.chains@[list_index].len() == 0);
                        assert(false);
                    }
                }
                assert forall|h2: ListIndex|
                    h2 != list_index && old(self).live(h2) implies self.list_view(h2)
                    == old(self).list_view(h2) by {
                    assert(self.list_view(h2) =~= mid.list_view(h2));
                }
            }
            true
        } else {
            false
        }
    }

    /// Append every element of `items` at the back of the list named by
    /// `list_index`, in order.
    ///
    /// The handle must name a live list; the lookup is fatal otherwise.
    pub fn extend(&mut self, list_index: ListIndex, items: Vec<T>)
        requires
            old(self).wf(),
            old(self).live(list_index),
        ensures
            final(self).wf(),
            final(self).live_handles() == old(self).live_handles(),
            forall|h2: ListIndex| final(self).live(h2) == old(self).live(h2),
            final(self).handle_counter() == old(self).handle_counter(),
            final(self).list_view(list_index) == old(self).list_view(list_index) + items@,
            forall|h2: ListIndex|
                h2 != list_index && old(self).live(h2) ==> final(self).list_view(h2) == old(
                    self,
                ).list_view(h2),
            final(self).total_nodes() == old(self).total_nodes() + items@.len(),
    {
        let mut items = items;
        let ghost all = items@;
        while items.len() > 0
            invariant
                self.wf(),
                self.live(list_index),
                self.live_handles() == old(self).live_handles(),
                self.handle_counter() == old(self).handle_counter(),
                items@.len() <= all.len(),
                items@ == all.skip(all.len() - items@.len()),
                self.list_view(list_index) == old(self).list_view(list_index) + all.take(
                    all.len() - items@.len(),
                ),
                forall|h2: ListIndex|
                    h2 != list_index && old(self).live(h2) ==> self.list_view(h2) == old(
                        self,
                    ).list_view(h2),
                self.total_nodes() == old(self).total_nodes() + (all.len() - items@.len()),
            decreases items@.len(),
        {
            let ghost k = all.len() - items@.len();
            let item = items.remove(0);
            proof {
                assert(item == all[k]);
                assert(items@ =~= all.skip(k + 1));
            }
            self.push_back(list_index, item);
            proof {
                assert(old(self).list_view(list_index) + all.take(k + 1) =~= (old(
                    self,
                ).list_view(list_index) + all.take(k)).push(item));
            }
        }
        proof {
            assert(all.take(all.len() as int) =~= all);
            assert(final(self).list_view(list_index) == old(self).list_view(list_index) + all);
        }
    }


    /// How `post` relates to `pre` after a mutable borrow of the payload
    /// at the covered position `p` was handed out and finally set to `x`:
    /// the set is still well formed and exactly that payload changed, at
    /// the node's spot in its list's view.
    spec fn payload_update_post(pre: Self, post: Self, p: int, x: T) -> bool {
        let h = pre.nodes@[p].list;
        let i = pre.chains@[h].index_of(p);
        &&& post.wf()
        &&& post.live_handles() == pre.live_handles()
        &&& (forall|h2: ListIndex| post.live(h2) == pre.live(h2))
        &&& post.handle_counter() == pre.handle_counter()
        &&& post.total_nodes() == pre.total_nodes()
        &&& post.chains == pre.chains
        &&& post.lists == pre.lists
        &&& post.nodes@[p].item == x
        &&& post.list_view(h) == pre.list_view(h).update(i, x)
        &&& (forall|h2: ListIndex|
            h2 != h && pre.live(h2) ==> post.list_view(h2) == pre.list_view(h2))
    }

    /// Borrow the payload at the covered arena position `node_index`
    /// mutably.  Writing through the borrow changes exactly that node's
    /// payload, at its spot in its list's view.
    fn item_mut_at(&mut self, node_index: NodeIndex) -> (m: &mut T)
        requires
            old(self).wf(),
            (node_index.0 as int) < old(self).total_nodes(),
        ensures
            ({
                let p = node_index.0 as int;
                let h = old(self).nodes@[p].list;
                let i = old(self).chains@[h].index_of(p);
                &&& old(self).live(h)
                &&& 0 <= i < old(self).list_view(h).len()
                &&& old(self).chains@[h][i] == p
                &&& *m == old(self).list_view(h)[i]
                &&& Self::payload_update_post(*old(self), *final(self), p, *final(m))
            }),
    {
        let ghost snap = *self;
        let ghost p = node_index.0 as int;
        proof {
            self.lemma_node_facts(p);
            assert forall|s2: Self, x: T|
                (s2.alloc == snap.alloc && s2.lists == snap.lists && s2.chains == snap.chains
                    && s2.nodes@.len() == snap.nodes@.len() && (forall|q: int|
                    0 <= q < snap.nodes@.len() && q != p ==> s2.nodes@[q] == snap.nodes@[q])
                    && s2.nodes@[p].list == snap.nodes@[p].list && s2.nodes@[p].previous
                    == snap.nodes@[p].previous && s2.nodes@[p].next == snap.nodes@[p].next
                    && s2.nodes@[p].item == x) implies #[trigger] Self::payload_update_post(
                snap,
                s2,
                p,
                x,
            ) by {
                Self::lemma_item_update_keeps_wf(snap, s2, p);
            }
        }
        &mut self.nodes[node_index.0].item
    }

    /// Create an iterator over the payloads of the list named by
    /// `list_index`, walking the list's links from either end.
    ///
    /// The iterator snapshots the list at creation time; mutating the set
    /// invalidates it.  The handle must name a live list; the lookup is
    /// fatal otherwise.
    pub fn iter(&self, list_index: ListIndex) -> (r: ListIter)
        requires
            self.wf(),
            self.live(list_index),
        ensures
            r.valid(*self),
            r.inv(),
            r.items(*self) == self.list_view(list_index),
            r.length() == self.list_view(list_index).len(),
            r.pos_front() == 0,
            r.pos_back() == 0,
    {
        let list = *self.get_list_unchecked(list_index);
        proof {
            assert(table_contents(self.lists).dom().contains(list_index));
            let ch = self.chains@[list_index];
            assert forall|k: int| 0 <= k < ch.len() implies #[trigger] thread_entry_ok(
                self.nodes@,
                ch,
                k,
            ) by {
                assert(chain_entry_ok(self.nodes@, list_index, ch, k));
            }
        }
        ListIter {
            current_front: list.front,
            current_back: list.back,
            position_front: 0,
            position_back: 0,
            list,
            elems: Ghost(self.chains@[list_index]),
        }
    }

    /// Create a mutable iterator over the payloads of the list named by
    /// `list_index`, walking the list's links from either end.
    ///
    /// Each step hands out a mutable borrow of one payload; only the
    /// payloads change, never the shape of any list.  The handle must
    /// name a live list; the lookup is fatal otherwise.
    pub fn iter_mut(&mut self, list_index: ListIndex) -> (r: ListIterMut)
        requires
            old(self).wf(),
            old(self).live(list_index),
        ensures
            *final(self) == *old(self),
            r.valid(*final(self)),
            r.inv(),
            r.list_handle() == list_index,
            r.length() == old(self).list_view(list_index).len(),
            r.pos_front() == 0,
            r.pos_back() == 0,
    {
        let list = *self.get_list_unchecked(list_index);
        ListIterMut {
            current_front: list.front,
            current_back: list.back,
            position_front: 0,
            position_back: 0,
            list,
            elems: Ghost(self.chains@[list_index]),
            handle: Ghost(list_index),
        }
    }

    /// Create an iterator over the handles of the live lists of the set,
    /// in an unspecified order.
    pub fn list_indices(&self) -> (r: ListIndices)
        ensures
            r.inv(),
            r.remaining().no_duplicates(),
            forall|h: ListIndex| #[trigger] r.remaining().contains(h) <==> self.live(h),
            r.remaining().len() == self.live_handles().len(),
    {
        let indices = self.lists.keys_vec();
        proof {
            assert(indices@.skip(0) =~= indices@);
            indices@.unique_seq_to_set();
            assert(indices@.to_set() =~= self.live_handles());
        }
        ListIndices { indices, position: 0 }
    }
}

impl<T> Default for LinkedListSet<T> {
    /// The default set is the empty set.
    fn default() -> (r: Self)
        ensures
            r.wf(),
            forall|h: ListIndex| !r.live(h),
            r.live_handles().len() == 0,
            r.total_nodes() == 0,
            r.handle_counter() == 0,
    {
        Self::new()
    }
}



/// Entry `k` of the position sequence `ch` is in bounds of `nodes` and
/// its stored links agree with its neighbours in the sequence.
pub open spec fn thread_entry_ok<T>(nodes: Seq<Node<T>>, ch: Seq<int>, k: int) -> bool {
    &&& 0 <= ch[k] < nodes.len()
    &&& nodes[ch[k]].previous.0 as int == (if k == 0 {
        usize::MAX as int
    } else {
        ch[k - 1]
    })
    &&& nodes[ch[k]].next.0 as int == (if k == ch.len() - 1 {
        usize::MAX as int
    } else {
        ch[k + 1]
    })
}

/// The position sequence `ch` is a faithful doubly linked thread through
/// `nodes`.
pub open spec fn thread_ok<T>(nodes: Seq<Node<T>>, ch: Seq<int>) -> bool {
    forall|k: int| 0 <= k < ch.len() ==> #[trigger] thread_entry_ok(nodes, ch, k)
}

/// A double-ended iterator over one list of a [`LinkedListSet`].
///
/// The iterator snapshots the list's front, back and length at creation;
/// each step takes the set it was created from.  The two ends walk
/// towards each other and converge: together they yield each payload of
/// the list exactly once per pass.
pub struct ListIter {
    /// The arena position the forward end will yield next.
    current_front: NodeIndex,
    /// The arena position the backward end will yield next.
    current_back: NodeIndex,
    /// How many payloads the forward end has yielded.
    position_front: usize,
    /// How many payloads the backward end has yielded.
    position_back: usize,
    /// The snapshot of the list's record.
    list: LinkedList,
    /// The arena positions of the list's nodes, in logical order.
    elems: Ghost<Seq<int>>,
}

impl ListIter {
    /// How many payloads the forward end has yielded.
    pub closed spec fn pos_front(self) -> int {
        self.position_front as int
    }

    /// How many payloads the backward end has yielded.
    pub closed spec fn pos_back(self) -> int {
        self.position_back as int
    }

    /// How many payloads the iterator ranges over in all.
    pub closed spec fn length(self) -> int {
        self.elems@.len() as int
    }

    /// The iterator's own consistency: the cursors sit where the consumed
    /// counts say, within the snapshotted chain.
    pub closed spec fn inv(self) -> bool {
        &&& self.elems@.len() == self.list.length as int
        &&& 0 <= self.pos_front() <= self.elems@.len()
        &&& 0 <= self.pos_back() <= self.elems@.len()
        &&& self.pos_front() + self.pos_back() <= self.elems@.len()
        &&& self.current_front.0 as int == (if self.pos_front() == self.elems@.len() {
            usize::MAX as int
        } else {
            self.elems@[self.pos_front()]
        })
        &&& self.current_back.0 as int == (if self.pos_back() == self.elems@.len() {
            usize::MAX as int
        } else {
            self.elems@[self.elems@.len() - 1 - self.pos_back()]
        })
    }

    /// The iterator agrees with `set`: its snapshotted chain still
    /// threads the arena.
    pub closed spec fn valid<T>(self, set: LinkedListSet<T>) -> bool {
        &&& self.inv()
        &&& thread_ok(set.nodes@, self.elems@)
    }

    /// The payloads the iterator ranges over, front to back.
    pub closed spec fn items<T>(self, set: LinkedListSet<T>) -> Seq<T> {
        self.elems@.map_values(|p: int| set.nodes@[p].item)
    }

    /// Yield a borrow of the next payload from the front, or `None` once
    /// the two ends together have yielded every payload of the list: the
    /// ends converge and no payload is yielded twice in one pass.
    pub fn next<'a, T>(&mut self, set: &'a LinkedListSet<T>) -> (r: Option<&'a T>)
        requires
            old(self).valid(*set),
        ensures
            final(self).valid(*set),
            final(self).inv(),
            final(self).items(*set) == old(self).items(*set),
            final(self).length() == old(self).length(),
            final(self).pos_back() == old(self).pos_back(),
            match r {
                Some(item) => old(self).pos_front() + old(self).pos_back() < old(self).length()
                    && *item == old(self).items(*set)[old(self).pos_front()] && final(self).pos_front() == old(self).pos_front() + 1,
                None => old(self).pos_front() + old(self).pos_back() == old(self).length()
                    && final(self).pos_front() == old(self).pos_front(),
            },
    {
        proof {
            assert(set.nodes.len() == set.nodes@.len());
            if self.pos_front() < self.elems@.len() {
                assert(thread_entry_ok(set.nodes@, self.elems@, self.pos_front()));
            }
        }
        if self.position_front < self.list.len() - self.position_back {
            let node = set.get_node_unchecked(self.current_front);
            let item = node.item();
            self.current_front = node.next();
            self.position_front = self.position_front + 1;
            proof {
                if self.pos_front() < self.elems@.len() {
                    assert(thread_entry_ok(set.nodes@, self.elems@, self.pos_front()));
                }
            }
            Some(item)
        } else {
            None
        }
    }

    /// Yield a borrow of the next payload from the back, or `None` once
    /// the two ends together have yielded every payload of the list: the
    /// ends converge and no payload is yielded twice in one pass.
    pub fn next_back<'a, T>(&mut self, set: &'a LinkedListSet<T>) -> (r: Option<&'a T>)
        requires
            old(self).valid(*set),
        ensures
            final(self).valid(*set),
            final(self).inv(),
            final(self).items(*set) == old(self).items(*set),
            final(self).length() == old(self).length(),
            final(self).pos_front() == old(self).pos_front(),
            match r {
                Some(item) => old(self).pos_front() + old(self).pos_back() < old(self).length()
                    && *item == old(self).items(*set)[old(self).length() - 1 - old(
                    self,
                ).pos_back()] && final(self).pos_back() == old(self).pos_back() + 1,
                None => old(self).pos_front() + old(self).pos_back() == old(self).length()
                    && final(self).pos_back() == old(self).pos_back(),
            },
    {
        proof {
            assert(set.nodes.len() == set.nodes@.len());
            if self.pos_back() < self.elems@.len() {
                assert(thread_entry_ok(
                    set.nodes@,
                    self.elems@,
                    self.elems@.len() - 1 - self.pos_back(),
                ));
            }
        }
        if self.position_back < self.list.len() - self.position_front {
            let node = set.get_node_unchecked(self.current_back);
            let item = node.item();
            self.current_back = node.previous();
            self.position_back = self.position_back + 1;
            proof {
                if self.pos_back() < self.elems@.len() {
                    assert(thread_entry_ok(
                        set.nodes@,
                        self.elems@,
                        self.elems@.len() - 1 - self.pos_back(),
                    ));
                }
            }
            Some(item)
        } else {
            None
        }
    }

    /// How many payloads the iterator has left to yield, over both ends
    /// together, as both ends of a size hint.
    pub fn size_hint(&self) -> ((lo, hi): (usize, Option<usize>))
        requires
            self.inv(),
        ensures
            lo as int == self.length() - self.pos_front() - self.pos_back(),
            hi == Some(lo),
    {
        let remaining = self.list.len() - self.position_front - self.position_back;
        (remaining, Some(remaining))
    }
}

/// A double-ended iterator over one list of a [`LinkedListSet`] that
/// hands out mutable borrows of the payloads.
///
/// Each step borrows the set mutably and may change exactly the payload
/// it yields; the shape of every list is untouched, so the iterator stays
/// in agreement with the set across such writes.  The two ends walk
/// towards each other and converge, so each payload is handed out
/// mutably at most once per pass.
pub struct ListIterMut {
    /// The arena position the forward end will yield next.
    current_front: NodeIndex,
    /// The arena position the backward end will yield next.
    current_back: NodeIndex,
    /// How many payloads the forward end has yielded.
    position_front: usize,
    /// How many payloads the backward end has yielded.
    position_back: usize,
    /// The snapshot of the list's record.
    list: LinkedList,
    /// The arena positions of the list's nodes, in logical order.
    elems: Ghost<Seq<int>>,
    /// The handle of the list being iterated.
    handle: Ghost<ListIndex>,
}

impl ListIterMut {
    /// How many payloads the forward end has yielded.
    pub closed spec fn pos_front(self) -> int {
        self.position_front as int
    }

    /// How many payloads the backward end has yielded.
    pub closed spec fn pos_back(self) -> int {
        self.position_back as int
    }

    /// The handle of the list being iterated.
    pub closed spec fn list_handle(self) -> ListIndex {
        self.handle@
    }

    /// How many payloads the iterator ranges over in all.
    pub closed spec fn length(self) -> int {
        self.elems@.len() as int
    }

    /// The iterator's own consistency: the cursors sit where the consumed
    /// counts say, within the snapshotted chain.
    pub closed spec fn inv(self) -> bool {
        &&& self.elems@.len() == self.list.length as int
        &&& 0 <= self.pos_front() <= self.elems@.len()
        &&& 0 <= self.pos_back() <= self.elems@.len()
        &&& self.pos_front() + self.pos_back() <= self.elems@.len()
        &&& self.current_front.0 as int == (if self.pos_front() == self.elems@.len() {
            usize::MAX as int
        } else {
            self.elems@[self.pos_front()]
        })
        &&& self.current_back.0 as int == (if self.pos_back() == self.elems@.len() {
            usize::MAX as int
        } else {
            self.elems@[self.elems@.len() - 1 - self.pos_back()]
        })
    }

    /// The iterator agrees with `set`: the set is well formed, the list
    /// is live, and its chain is still the snapshotted one.
    pub closed spec fn valid<T>(self, set: LinkedListSet<T>) -> bool {
        &&& self.inv()
        &&& set.wf()
        &&& set.live(self.handle@)
        &&& set.chains@[self.handle@] == self.elems@
    }

    /// Yield a mutable borrow of the next payload from the front, or
    /// `None` once the two ends together have yielded every payload: the
    /// ends converge, so each payload is handed out at most once per
    /// pass.
    ///
    /// Writing through the borrow changes exactly that payload of the
    /// iterated list.
    pub fn next<'a, T>(&mut self, set: &'a mut LinkedListSet<T>) -> (r: Option<&'a mut T>)
        requires
            old(self).valid(*old(set)),
        ensures
            final(self).list_handle() == old(self).list_handle(),
            final(self).pos_back() == old(self).pos_back(),
            final(self).inv(),
            final(self).length() == old(self).length(),
            forall|h2: ListIndex| final(set).live(h2) == old(set).live(h2),
            match r {
                Some(m) => ({
                    let h = old(self).list_handle();
                    let k = old(self).pos_front();
                    &&& k + old(self).pos_back() < old(set).list_view(h).len()
                    &&& *m == old(set).list_view(h)[k]
                    &&& final(self).pos_front() == k + 1
                    &&& final(set).wf()
                    &&& final(set).live_handles() == old(set).live_handles()
                    &&& final(set).handle_counter() == old(set).handle_counter()
                    &&& final(set).total_nodes() == old(set).total_nodes()
                    &&& final(set).list_view(h) == old(set).list_view(h).update(k, *final(m))
                    &&& (forall|h2: ListIndex|
                        h2 != h && old(set).live(h2) ==> final(set).list_view(h2) == old(
                            set,
                        ).list_view(h2))
                    &&& final(self).valid(*final(set))
                }),
                None => old(self).pos_front() + old(self).pos_back() == old(set).list_view(
                    old(self).list_handle(),
                ).len() && final(self).pos_front() == old(self).pos_front() && *final(set)
                    == *old(set) && final(self).valid(*final(set)),
            },
    {
        let ghost h = self.handle@;
        let ghost ch = self.elems@;
        let ghost k = self.pos_front();
        proof {
            assert(table_contents(set.lists).dom().contains(h));
            if k < ch.len() {
                assert(chain_entry_ok(set.nodes@, h, ch, k));
                let p = ch[k];
                let i0 = ch.index_of(p);
                assert(0 <= i0 < ch.len() && ch[i0] == p);
                assert(i0 == k);
            }
        }
        if self.position_front < self.list.len() - self.position_back {
            let p_index = self.current_front;
            let new_current_front = {
                let node = set.get_node_unchecked(p_index);
                node.next()
            };
            self.current_front = new_current_front;
            self.position_front = self.position_front + 1;
            proof {
                if self.pos_front() < ch.len() {
                    assert(chain_entry_ok(set.nodes@, h, ch, self.pos_front()));
                }
            }
            let m = set.item_mut_at(p_index);
            Some(m)
        } else {
            None
        }
    }

    /// Yield a mutable borrow of the next payload from the back, or
    /// `None` once the two ends together have yielded every payload: the
    /// ends converge, so each payload is handed out at most once per
    /// pass.
    ///
    /// Writing through the borrow changes exactly that payload of the
    /// iterated list.
    pub fn next_back<'a, T>(&mut self, set: &'a mut LinkedListSet<T>) -> (r: Option<&'a mut T>)
        requires
            old(self).valid(*old(set)),
        ensures
            final(self).list_handle() == old(self).list_handle(),
            final(self).pos_front() == old(self).pos_front(),
            final(self).inv(),
            final(self).length() == old(self).length(),
            forall|h2: ListIndex| final(set).live(h2) == old(set).live(h2),
            match r {
                Some(m) => ({
                    let h = old(self).list_handle();
                    let v = old(set).list_view(h);
                    let k = v.len() - 1 - old(self).pos_back();
                    &&& old(self).pos_front() + old(self).pos_back() < v.len()
                    &&& *m == v[k]
                    &&& final(self).pos_back() == old(self).pos_back() + 1
                    &&& final(set).wf()
                    &&& final(set).live_handles() == old(set).live_handles()
                    &&& final(set).handle_counter() == old(set).handle_counter()
                    &&& final(set).total_nodes() == old(set).total_nodes()
                    &&& final(set).list_view(h) == v.update(k, *final(m))
                    &&& (forall|h2: ListIndex|
                        h2 != h && old(set).live(h2) ==> final(set).list_view(h2) == old(
                            set,
                        ).list_view(h2))
                    &&& final(self).valid(*final(set))
                }),
                None => old(self).pos_front() + old(self).pos_back() == old(set).list_view(
                    old(self).list_handle(),
                ).len() && final(self).pos_back() == old(self).pos_back() && *final(set) == *old(
                    set,
                ) && final(self).valid(*final(set)),
            },
    {
        let ghost h = self.handle@;
        let ghost ch = self.elems@;
        let ghost k = ch.len() - 1 - self.pos_back();
        proof {
            assert(table_contents(set.lists).dom().contains(h));
            if self.pos_back() < ch.len() {
                assert(chain_entry_ok(set.nodes@, h, ch, k));
                let p = ch[k];
                let i0 = ch.index_of(p);
                assert(0 <= i0 < ch.len() && ch[i0] == p);
                assert(i0 == k);
            }
        }
        if self.position_back < self.list.len() - self.position_front {
            let p_index = self.current_back;
            let new_current_back = {
                let node = set.get_node_unchecked(p_index);
                node.previous()
            };
            self.current_back = new_current_back;
            self.position_back = self.position_back + 1;
            proof {
                if self.pos_back() < ch.len() {
                    assert(chain_entry_ok(set.nodes@, h, ch, ch.len() - 1 - self.pos_back()));
                }
            }
            let m = set.item_mut_at(p_index);
            Some(m)
        } else {
            None
        }
    }

    /// How many payloads the iterator has left to yield, over both ends
    /// together, as both ends of a size hint.
    pub fn size_hint(&self) -> ((lo, hi): (usize, Option<usize>))
        requires
            self.inv(),
        ensures
            lo as int == self.length() - self.pos_front() - self.pos_back(),
            hi == Some(lo),
    {
        let remaining = self.list.len() - self.position_front - self.position_back;
        (remaining, Some(remaining))
    }
}

/// An iterator over the handles of the live lists of a
/// [`LinkedListSet`], in an unspecified order.
pub struct ListIndices {
    /// The handles still to be yielded, then those already yielded.
    indices: Vec<ListIndex>,
    /// How many handles have been yielded.
    position: usize,
}

impl ListIndices {
    /// The handles the iterator has still to yield, in order.
    pub closed spec fn remaining(self) -> Seq<ListIndex> {
        self.indices@.skip(self.position as int)
    }

    /// The cursor sits within the handle list.
    pub closed spec fn inv(self) -> bool {
        self.position as int <= self.indices@.len()
    }

    /// Yield the next handle, or `None` when every handle has been
    /// yielded.
    pub fn next(&mut self) -> (r: Option<ListIndex>)
        requires
            old(self).inv(),
        ensures
            final(self).inv(),
            match r {
                Some(h) => old(self).remaining().len() > 0 && h == old(self).remaining()[0]
                    && final(self).remaining() == old(self).remaining().drop_first(),
                None => old(self).remaining().len() == 0 && *final(self) == *old(self),
            },
    {
        if self.position < self.indices.len() {
            let h = self.indices[self.position];
            self.position = self.position + 1;
            proof {
                assert(final(self).remaining() =~= old(self).remaining().drop_first());
            }
            Some(h)
        } else {
            None
        }
    }

    /// How many handles are left, as both ends of a size hint.
    pub fn size_hint(&self) -> ((lo, hi): (usize, Option<usize>))
        requires
            self.inv(),
        ensures
            lo as int == self.remaining().len(),
            hi == Some(lo),
    {
        let remaining = self.indices.len() - self.position;
        (remaining, Some(remaining))
    }
}

} // verus!
