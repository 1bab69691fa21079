//! General laws of the list operations, stated over the sequence views
//! that the operations' contracts use.
//!
//! `push_back`, `push_front`, `pop_back`, `pop_front`, `remove` and
//! `remove_item` describe their effect on a list's view as `push`,
//! prepending, `drop_last`, `remove(0)` and `remove(i)` of the view
//! sequence.  The proofs here pin down what those transformations mean
//! for whole workloads: the order in which pushed payloads come back
//! out, what a push/pop pair leaves behind, and what survives a removal.

use vstd::prelude::*;

verus! {

/// `s` after pushing each element of `xs` at the back, first element
/// first, as `extend` and repeated `push_back` do.
pub open spec fn push_back_all<T>(s: Seq<T>, xs: Seq<T>) -> Seq<T>
    decreases xs.len(),
{
    if xs.len() == 0 {
        s
    } else {
        push_back_all(s.push(xs[0]), xs.drop_first())
    }
}

/// `s` after pushing each element of `xs` at the front, first element
/// first, as repeated `push_front` does.
pub open spec fn push_front_all<T>(s: Seq<T>, xs: Seq<T>) -> Seq<T>
    decreases xs.len(),
{
    if xs.len() == 0 {
        s
    } else {
        push_front_all(seq![xs[0]] + s, xs.drop_first())
    }
}

/// Order preservation, back pushes: pushing a sequence of payloads at
/// the back one by one appends them in push order.  With an empty
/// starting list, iteration therefore yields exactly the push order.
pub proof fn lemma_push_back_order<T>(s: Seq<T>, xs: Seq<T>)
    ensures
        push_back_all(s, xs) == s + xs,
    decreases xs.len(),
{
    if xs.len() == 0 {
        assert(push_back_all(s, xs) =~= s + xs);
    } else {
        lemma_push_back_order(s.push(xs[0]), xs.drop_first());
        assert(s.push(xs[0]) + xs.drop_first() =~= s + xs);
    }
}

/// Order preservation, front pushes: pushing a sequence of payloads at
/// the front one by one leaves them in reverse push order, ahead of
/// whatever was there.
pub proof fn lemma_push_front_order<T>(s: Seq<T>, xs: Seq<T>)
    ensures
        push_front_all(s, xs) == xs.reverse() + s,
    decreases xs.len(),
{
    if xs.len() == 0 {
        assert(push_front_all(s, xs) =~= xs.reverse() + s);
    } else {
        lemma_push_front_order(seq![xs[0]] + s, xs.drop_first());
        assert(xs.drop_first().reverse() + (seq![xs[0]] + s) =~= xs.reverse() + s);
    }
}

/// Round trip at the back: a `push_back` followed by a `pop_back`
/// returns the pushed payload and restores the list exactly.
pub proof fn lemma_push_back_pop_back<T>(s: Seq<T>, x: T)
    ensures
        s.push(x).len() == s.len() + 1,
        s.push(x).last() == x,
        s.push(x).drop_last() == s,
{
    assert(s.push(x).drop_last() =~= s);
}

/// Round trip at the front: a `push_front` followed by a `pop_front`
/// returns the pushed payload and restores the list exactly.
pub proof fn lemma_push_front_pop_front<T>(s: Seq<T>, x: T)
    ensures
        (seq![x] + s).len() == s.len() + 1,
        (seq![x] + s)[0] == x,
        (seq![x] + s).remove(0) == s,
{
    assert((seq![x] + s).remove(0) =~= s);
}

/// Swap-remove correctness: removing the payload at one position keeps
/// every other payload, in its original relative order, wherever the
/// nodes happen to sit in the backing arena.
pub proof fn lemma_remove_keeps_order<T>(s: Seq<T>, i: int)
    requires
        0 <= i < s.len(),
    ensures
        s.remove(i).len() == s.len() - 1,
        forall|k: int| 0 <= k < i ==> s.remove(i)[k] == s[k],
        forall|k: int| i <= k < s.len() - 1 ==> s.remove(i)[k] == s[k + 1],
{
}

/// Removal targeting: after removing the payload at position `i`, a
/// payload that sat at a later position `j` is still present, one spot
/// earlier.  In particular, removing the first match of some value keeps
/// every later equal payload findable.
pub proof fn lemma_later_payload_remains<T>(s: Seq<T>, i: int, j: int)
    requires
        0 <= i < j < s.len(),
    ensures
        s.remove(i)[j - 1] == s[j],
        s.remove(i).contains(s[j]),
{
    assert(s.remove(i)[j - 1] == s[j]);
}

} // verus!
