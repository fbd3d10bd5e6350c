//! The address-rewriting primitives: the only code that writes links while a
//! list is being edited.
use vstd::prelude::*;
use crate::link::{LinkOps, Next, SinglyLinkedListOps, succ, next_to};

verus! {

/// The links after setting `prev`'s successor to `target`, when `prev` is given.
pub open spec fn point_prev(links: Seq<Next>, prev: Option<usize>, target: Next) -> Seq<Next> {
    match prev {
        Some(p) => links.update(p as int, target),
        None => links,
    }
}

/// Attaches `ptr` between `prev` and `next`.
pub fn link_between(ops: &mut LinkOps, ptr: usize, prev: Option<usize>, next: Option<usize>)
    requires
        ptr < old(ops)@.len(),
        prev matches Some(p) ==> p < old(ops)@.len(),
    ensures
        final(ops)@ == point_prev(old(ops)@, prev, Next::Node(ptr)).update(ptr as int, next_to(next)),
{
    if let Some(p) = prev {
        ops.set_next(p, Some(ptr));
    }
    ops.set_next(ptr, next);
}

/// Inserts `ptr` immediately after `prev`.
pub fn link_after(ops: &mut LinkOps, ptr: usize, prev: usize)
    requires
        ptr < old(ops)@.len(),
        prev < old(ops)@.len(),
    ensures
        final(ops)@ == old(ops)@.update(prev as int, Next::Node(ptr)).update(
            ptr as int,
            next_to(succ(old(ops)@[prev as int])),
        ),
{
    let next = ops.next(prev);
    link_between(ops, ptr, Some(prev), next);
}

/// Puts `new` in the place of `ptr`, whose predecessor is `prev`, and marks
/// `ptr` unlinked.
pub fn replace_with(ops: &mut LinkOps, ptr: usize, prev: Option<usize>, new: usize)
    requires
        ptr < old(ops)@.len(),
        new < old(ops)@.len(),
        prev matches Some(p) ==> p < old(ops)@.len(),
    ensures
        final(ops)@ == point_prev(old(ops)@, prev, Next::Node(new)).update(
            new as int,
            next_to(succ(point_prev(old(ops)@, prev, Next::Node(new))[ptr as int])),
        ).update(ptr as int, Next::Unlinked),
{
    if let Some(p) = prev {
        ops.set_next(p, Some(new));
    }
    let next = ops.next(ptr);
    ops.set_next(new, next);
    ops.mark_unlinked(ptr);
}

/// Detaches `ptr`, whose predecessor is `prev`, and marks it unlinked.
pub fn remove(ops: &mut LinkOps, ptr: usize, prev: Option<usize>)
    requires
        ptr < old(ops)@.len(),
        prev matches Some(p) ==> p < old(ops)@.len(),
    ensures
        final(ops)@ == point_prev(old(ops)@, prev, next_to(succ(old(ops)@[ptr as int]))).update(
            ptr as int,
            Next::Unlinked,
        ),
{
    if let Some(p) = prev {
        let next = ops.next(ptr);
        ops.set_next(p, next);
    }
    ops.mark_unlinked(ptr);
}

/// Attaches the connected chain from `start` to `end` between `prev` and
/// `next`.
pub fn splice(ops: &mut LinkOps, start: usize, end: usize, prev: Option<usize>, next: Option<usize>)
    requires
        start < old(ops)@.len(),
        end < old(ops)@.len(),
        prev matches Some(p) ==> p < old(ops)@.len(),
    ensures
        final(ops)@ == point_prev(old(ops)@.update(end as int, next_to(next)), prev, Next::Node(start)),
{
    ops.set_next(end, next);
    if let Some(p) = prev {
        ops.set_next(p, Some(start));
    }
}

} // verus!
