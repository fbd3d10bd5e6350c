//! The list root, its cursors and its iterators.
use vstd::prelude::*;
use vstd::pervasive::strictly_cloned;
use crate::graph;
use crate::chain::{
    after, disjoint, first, index_of, insert_links, is_chain, is_position, lemma_index_at, lemma_index_of,
    lemma_insert, lemma_remove, lemma_replace, lemma_splice, lemma_split, link_at, remove_links,
    replace_links, same_outside, splice_links, split_links,
};
use crate::link::{LinkOps, Next, SinglyLinkedListOps, succ};

verus! {

/// An intrusive singly-linked list: the handle of its first object, its links
/// kept in a `LinkOps` table shared with other lists of the same link field.
pub struct SinglyLinkedList {
    head: Option<usize>,
    nodes: Ghost<Seq<usize>>,
}

impl SinglyLinkedList {
    /// The handles of the list, from the first.
    pub closed spec fn view(&self) -> Seq<usize> {
        self.nodes@
    }

    pub closed spec fn head_spec(&self) -> Option<usize> {
        self.head
    }

    /// The list is the chain that `links` records from its head.
    pub open spec fn wf(&self, links: Seq<Next>) -> bool {
        &&& is_chain(links, self@)
        &&& self.head_spec() == first(self@)
    }

    /// Creates an empty `SinglyLinkedList`.
    pub fn new() -> (r: SinglyLinkedList)
        ensures
            r@ == Seq::<usize>::empty(),
            forall|links: Seq<Next>| r.wf(links),
    {
        SinglyLinkedList { head: None, nodes: Ghost(Seq::empty()) }
    }

    /// Returns `true` if the list is empty.
    pub fn is_empty(&self) -> (r: bool)
        requires
            self.head_spec() == first(self@),
        ensures
            r == (self@.len() == 0),
    {
        self.head.is_none()
    }

    /// Returns a read-only cursor at the null position of this list.
    pub fn cursor(&self) -> (r: Cursor)
        ensures
            r@ == None::<usize>,
    {
        Cursor { current: None }
    }

    /// Returns a read-only cursor at the element `ptr` of this list.
    pub fn cursor_from_ptr(&self, ptr: usize) -> (r: Cursor)
        requires
            self@.contains(ptr),
        ensures
            r@ == Some(ptr),
    {
        Cursor { current: Some(ptr) }
    }

    /// Returns a mutating cursor at the element `ptr` of this list.
    pub fn cursor_mut_from_ptr(&self, ptr: usize) -> (r: CursorMut)
        requires
            self@.contains(ptr),
        ensures
            r@ == Some(ptr),
    {
        CursorMut { current: Some(ptr) }
    }

    /// Returns a mutating cursor at the null position of this list.
    pub fn cursor_mut(&self) -> (r: CursorMut)
        ensures
            r@ == None::<usize>,
    {
        CursorMut { current: None }
    }

    /// Returns a read-only cursor at the first element; at the null position
    /// when the list is empty.
    pub fn front(&self, ops: &LinkOps) -> (r: Cursor)
        requires
            self.wf(ops@),
        ensures
            r@ == first(self@),
            is_position(self@, r@),
    {
        let mut cursor = self.cursor();
        cursor.move_next(self, ops);
        cursor
    }

    /// Returns a mutating cursor at the first element; at the null position
    /// when the list is empty.
    pub fn front_mut(&self, ops: &LinkOps) -> (r: CursorMut)
        requires
            self.wf(ops@),
        ensures
            r@ == first(self@),
            is_position(self@, r@),
    {
        let mut cursor = self.cursor_mut();
        cursor.move_next(self, ops);
        cursor
    }

    /// An iterator over the handles of the list, from the first.
    pub fn iter(&self) -> (r: Iter)
        requires
            self.head_spec() == first(self@),
        ensures
            r@ == first(self@),
    {
        Iter { current: self.head }
    }

    /// Removes all elements, marking each unlinked; this walks the whole
    /// list.
    pub fn clear(&mut self, ops: &mut LinkOps)
        requires
            old(self).wf(old(ops)@),
        ensures
            final(self)@ == Seq::<usize>::empty(),
            final(self).wf(final(ops)@),
            forall|x: usize| old(self)@.contains(x) ==> final(ops)@[x as int] is Unlinked,
            same_outside(old(ops)@, final(ops)@, old(self)@),
    {
        let ghost ns = self@;
        let ghost links = ops@;
        let mut current = self.head;
        self.head = None;
        self.nodes = Ghost(Seq::empty());
        let ghost mut i: int = 0;
        while current.is_some()
            invariant
                is_chain(links, ns),
                0 <= i <= ns.len(),
                current == (if i < ns.len() { Some(ns[i]) } else { None::<usize> }),
                ops@.len() == links.len(),
                forall|j: int| 0 <= j < i ==> ops@[#[trigger] ns[j] as int] is Unlinked,
                forall|j: int| i <= j < ns.len() ==> ops@[#[trigger] ns[j] as int] == links[ns[j] as int],
                same_outside(links, ops@, ns),
            decreases ns.len() - i,
        {
            let x = current.unwrap();
            let next = ops.next(x);
            ops.mark_unlinked(x);
            proof {
                assert forall|j: int| i < j < ns.len() implies ops@[#[trigger] ns[j] as int]
                    == links[ns[j] as int] by {
                    assert(ns[j] != ns[i]);
                }
                assert forall|j: int| 0 <= j < links.len() && !ns.contains(j as usize)
                    implies links[j] == #[trigger] ops@[j] by {
                    assert(ns.contains(ns[i]));
                }
                i = i + 1;
            }
            current = next;
        }
        proof {
            assert forall|x: usize| ns.contains(x) implies ops@[x as int] is Unlinked by {
                let j = choose|j: int| 0 <= j < ns.len() && ns[j] == x;
                assert(ops@[ns[j] as int] is Unlinked);
            }
        }
    }

    /// Forgets all elements at once without unlinking them: their links keep
    /// reporting linked until they are reset with `LinkOps::mark_unlinked`.
    pub fn fast_clear(&mut self)
        ensures
            final(self)@ == Seq::<usize>::empty(),
            forall|links: Seq<Next>| final(self).wf(links),
    {
        self.head = None;
        self.nodes = Ghost(Seq::empty());
    }

    /// Moves all elements into a new list, which it returns, leaving this one
    /// empty.
    pub fn take(&mut self) -> (r: SinglyLinkedList)
        ensures
            r@ == old(self)@,
            r.head_spec() == old(self).head_spec(),
            final(self)@ == Seq::<usize>::empty(),
            forall|links: Seq<Next>| final(self).wf(links),
    {
        let r = SinglyLinkedList { head: self.head, nodes: Ghost(self@) };
        self.head = None;
        self.nodes = Ghost(Seq::empty());
        r
    }

    /// Inserts the object `val` as the first element.
    ///
    /// An object whose link is already linked cannot be inserted.
    pub fn push_front(&mut self, ops: &mut LinkOps, val: usize)
        requires
            old(self).wf(old(ops)@),
            val < old(ops)@.len(),
            old(ops)@[val as int] is Unlinked,
        ensures
            final(self).wf(final(ops)@),
            final(self)@ == seq![val] + old(self)@,
            final(ops)@ == insert_links(old(ops)@, old(self)@, -1, val),
            same_outside(old(ops)@, final(ops)@, old(self)@.push(val)),
    {
        let cursor = self.cursor_mut();
        cursor.insert_after(self, ops, val);
        assert(self@ =~= seq![val] + old(self)@);
    }

    /// Removes the first element and returns its handle, marked unlinked;
    /// `None` when the list is empty.
    pub fn pop_front(&mut self, ops: &mut LinkOps) -> (r: Option<usize>)
        requires
            old(self).wf(old(ops)@),
        ensures
            final(self).wf(final(ops)@),
            r == first(old(self)@),
            r is None ==> final(self)@ == old(self)@ && final(ops)@ == old(ops)@,
            r matches Some(n) ==> final(self)@ == old(self)@.skip(1)
                && final(ops)@ == remove_links(old(ops)@, old(self)@, -1)
                && final(ops)@[n as int] is Unlinked,
            same_outside(old(ops)@, final(ops)@, old(self)@),
    {
        let cursor = self.cursor_mut();
        let r = cursor.remove_next(self, ops);
        assert(old(self)@.remove(0) =~= old(self)@.skip(1));
        r
    }

    /// An iterator that takes the elements out of the list one by one.
    pub fn into_iter(self) -> (r: IntoIter)
        ensures
            r@ == self@,
            r.list().head_spec() == self.head_spec(),
    {
        IntoIter { list: self }
    }
}

impl Default for SinglyLinkedList {
    fn default() -> (r: SinglyLinkedList)
        ensures
            r@ == Seq::<usize>::empty(),
            forall|links: Seq<Next>| r.wf(links),
    {
        SinglyLinkedList::new()
    }
}

/// An iterator over the handles of a `SinglyLinkedList`.
#[derive(Clone, Copy)]
pub struct Iter {
    current: Option<usize>,
}

impl Iter {
    /// The handle that comes next; `None` once the list is exhausted.
    pub closed spec fn view(&self) -> Option<usize> {
        self.current
    }

    /// Returns the next handle of `list`, or `None` at its end.
    pub fn next(&mut self, list: &SinglyLinkedList, ops: &LinkOps) -> (r: Option<usize>)
        requires
            list.wf(ops@),
            is_position(list@, old(self)@),
        ensures
            r == old(self)@,
            final(self)@ == (if r is Some { after(list@, r) } else { None }),
            is_position(list@, final(self)@),
    {
        let current = self.current;
        if let Some(x) = current {
            proof {
                lemma_index_of(list@, current);
            }
            self.current = ops.next(x);
        }
        current
    }
}

/// An iterator that takes the elements out of a `SinglyLinkedList`.
pub struct IntoIter {
    list: SinglyLinkedList,
}

impl IntoIter {
    /// The handles that are still to come.
    pub closed spec fn view(&self) -> Seq<usize> {
        self.list@
    }

    pub closed spec fn list(&self) -> SinglyLinkedList {
        self.list
    }

    /// The remaining elements form a list of `links`.
    pub open spec fn wf(&self, links: Seq<Next>) -> bool {
        self.list().wf(links)
    }

    /// Takes the next element out of the list and returns its handle, marked
    /// unlinked; `None` at the end.
    pub fn next(&mut self, ops: &mut LinkOps) -> (r: Option<usize>)
        requires
            old(self).wf(old(ops)@),
        ensures
            final(self).wf(final(ops)@),
            r == first(old(self)@),
            r is None ==> final(self)@ == old(self)@ && final(ops)@ == old(ops)@,
            r matches Some(n) ==> final(self)@ == old(self)@.skip(1) && final(ops)@[n as int] is Unlinked,
            same_outside(old(ops)@, final(ops)@, old(self)@),
    {
        self.list.pop_front(ops)
    }
}

/// A read-only position in a `SinglyLinkedList`: the null position before the
/// first element, or an element.
#[derive(Clone, Copy)]
pub struct Cursor {
    current: Option<usize>,
}

impl Cursor {
    pub closed spec fn view(&self) -> Option<usize> {
        self.current
    }

    /// Checks if the cursor is at the null position.
    pub fn is_null(&self) -> (r: bool)
        ensures
            r == (self@ is None),
    {
        self.current.is_none()
    }

    /// The handle of the element at the cursor; `None` at the null position.
    pub fn get(&self) -> (r: Option<usize>)
        ensures
            r == self@,
    {
        self.current
    }

    /// A new owning pointer to the element at the cursor, cloned from the
    /// pointer that `pointers` holds for its handle; `None` at the null
    /// position.
    pub fn clone_pointer<P: Clone>(&self, pointers: &Vec<P>) -> (r: Option<P>)
        requires
            self@ matches Some(x) ==> x < pointers@.len(),
        ensures
            r is Some <==> self@ is Some,
            r matches Some(p) ==> strictly_cloned(pointers@[self@->0 as int], p),
    {
        match self.current {
            Some(x) => Some(pointers[x].clone()),
            None => None,
        }
    }

    /// Moves to the next element; from the null position to the first one,
    /// from the last one to the null position.
    pub fn move_next(&mut self, list: &SinglyLinkedList, ops: &LinkOps)
        requires
            list.wf(ops@),
            is_position(list@, old(self)@),
        ensures
            final(self)@ == after(list@, old(self)@),
            is_position(list@, final(self)@),
    {
        proof {
            lemma_index_of(list@, self@);
        }
        if let Some(current) = self.current {
            self.current = ops.next(current);
        } else {
            self.current = list.head;
        }
    }

    /// A cursor at the position after this one.
    pub fn peek_next(&self, list: &SinglyLinkedList, ops: &LinkOps) -> (r: Cursor)
        requires
            list.wf(ops@),
            is_position(list@, self@),
        ensures
            r@ == after(list@, self@),
            is_position(list@, r@),
    {
        let mut next = Cursor { current: self.current };
        next.move_next(list, ops);
        next
    }
}

/// A position in a `SinglyLinkedList` from which the element after it can be
/// inserted, removed or replaced.
pub struct CursorMut {
    current: Option<usize>,
}

impl CursorMut {
    pub closed spec fn view(&self) -> Option<usize> {
        self.current
    }

    /// Checks if the cursor is at the null position.
    pub fn is_null(&self) -> (r: bool)
        ensures
            r == (self@ is None),
    {
        self.current.is_none()
    }

    /// The handle of the element at the cursor; `None` at the null position.
    pub fn get(&self) -> (r: Option<usize>)
        ensures
            r == self@,
    {
        self.current
    }

    /// A read-only cursor at the same position.
    pub fn as_cursor(&self) -> (r: Cursor)
        ensures
            r@ == self@,
    {
        Cursor { current: self.current }
    }

    /// The handle after the cursor, if any.
    fn next_of(&self, list: &SinglyLinkedList, ops: &LinkOps) -> (r: Option<usize>)
        requires
            list.wf(ops@),
            is_position(list@, self@),
        ensures
            r == after(list@, self@),
    {
        proof {
            lemma_index_of(list@, self@);
        }
        if let Some(current) = self.current {
            ops.next(current)
        } else {
            list.head
        }
    }

    /// Moves to the next element; from the null position to the first one,
    /// from the last one to the null position.
    pub fn move_next(&mut self, list: &SinglyLinkedList, ops: &LinkOps)
        requires
            list.wf(ops@),
            is_position(list@, old(self)@),
        ensures
            final(self)@ == after(list@, old(self)@),
            is_position(list@, final(self)@),
    {
        self.current = self.next_of(list, ops);
        proof {
            lemma_index_of(list@, old(self)@);
        }
    }

    /// A read-only cursor at the position after this one.
    pub fn peek_next(&self, list: &SinglyLinkedList, ops: &LinkOps) -> (r: Cursor)
        requires
            list.wf(ops@),
            is_position(list@, self@),
        ensures
            r@ == after(list@, self@),
            is_position(list@, r@),
    {
        let mut next = self.as_cursor();
        next.move_next(list, ops);
        next
    }

    /// Inserts the object `val` after the cursor; at the null position it
    /// becomes the first element. The cursor does not move.
    ///
    /// An object whose link is already linked cannot be inserted.
    pub fn insert_after(&self, list: &mut SinglyLinkedList, ops: &mut LinkOps, val: usize)
        requires
            old(list).wf(old(ops)@),
            is_position(old(list)@, self@),
            val < old(ops)@.len(),
            old(ops)@[val as int] is Unlinked,
        ensures
            final(list).wf(final(ops)@),
            final(list)@ == old(list)@.insert(index_of(old(list)@, self@) + 1, val),
            final(ops)@ == insert_links(old(ops)@, old(list)@, index_of(old(list)@, self@), val),
            index_of(final(list)@, self@) == index_of(old(list)@, self@),
            same_outside(old(ops)@, final(ops)@, old(list)@.push(val)),
    {
        let ghost ns = list@;
        let ghost links = ops@;
        let ghost k = index_of(ns, self@);
        proof {
            lemma_index_of(ns, self@);
            lemma_insert(links, ns, k, val);
        }
        if let Some(current) = self.current {
            graph::link_after(ops, val, current);
            assert(links[current as int] == link_at(ns, k));
        } else {
            graph::link_between(ops, val, None, list.head);
            list.head = Some(val);
        }
        assert(ops@ =~= insert_links(links, ns, k, val));
        list.nodes = Ghost(ns.insert(k + 1, val));
        proof {
            if k >= 0 {
                lemma_index_at(list@, k);
            }
        }
    }

    /// Removes the element after the cursor and returns its handle, marked
    /// unlinked; `None`, with nothing changed, when there is none. The cursor
    /// does not move.
    pub fn remove_next(&self, list: &mut SinglyLinkedList, ops: &mut LinkOps) -> (r: Option<usize>)
        requires
            old(list).wf(old(ops)@),
            is_position(old(list)@, self@),
        ensures
            final(list).wf(final(ops)@),
            r == after(old(list)@, self@),
            r is None ==> final(list)@ == old(list)@ && final(ops)@ == old(ops)@,
            r matches Some(n) ==> final(list)@ == old(list)@.remove(index_of(old(list)@, self@) + 1)
                && final(ops)@ == remove_links(old(ops)@, old(list)@, index_of(old(list)@, self@))
                && final(ops)@[n as int] is Unlinked,
            index_of(final(list)@, self@) == index_of(old(list)@, self@),
            same_outside(old(ops)@, final(ops)@, old(list)@),
    {
        let ghost ns = list@;
        let ghost links = ops@;
        let ghost k = index_of(ns, self@);
        proof {
            lemma_index_of(ns, self@);
        }
        let next = self.next_of(list, ops);
        let n = match next {
            Some(n) => n,
            None => {
                return None;
            },
        };
        proof {
            lemma_remove(links, ns, k);
        }
        assert(links[n as int] == link_at(ns, k + 1));
        if self.current.is_none() {
            list.head = ops.next(n);
        }
        graph::remove(ops, n, self.current);
        assert(ops@ =~= remove_links(links, ns, k));
        list.nodes = Ghost(ns.remove(k + 1));
        proof {
            if k >= 0 {
                lemma_index_at(list@, k);
            }
            if list@.len() > 0 {
                assert(list@[0] == if k == -1 { ns[1] } else { ns[0] });
            }
        }
        Some(n)
    }

    /// Puts the object `val` in the place of the element after the cursor and
    /// returns `Ok` with the handle of that element, now unlinked. When there
    /// is no element after the cursor nothing changes and `val` comes back as
    /// `Err(val)`. The cursor does not move.
    ///
    /// An object whose link is already linked cannot take the place.
    pub fn replace_next_with(
        &self,
        list: &mut SinglyLinkedList,
        ops: &mut LinkOps,
        val: usize,
    ) -> (r: Result<usize, usize>)
        requires
            old(list).wf(old(ops)@),
            is_position(old(list)@, self@),
            val < old(ops)@.len(),
            after(old(list)@, self@) is Some ==> old(ops)@[val as int] is Unlinked,
        ensures
            final(list).wf(final(ops)@),
            after(old(list)@, self@) matches Some(n) ==> r == Ok::<usize, usize>(n)
                && final(list)@ == old(list)@.update(index_of(old(list)@, self@) + 1, val)
                && final(ops)@ == replace_links(old(ops)@, old(list)@, index_of(old(list)@, self@), val)
                && final(ops)@[n as int] is Unlinked,
            after(old(list)@, self@) is None ==> r == Err::<usize, usize>(val) && final(list)@ == old(list)@
                && final(ops)@ == old(ops)@,
            index_of(final(list)@, self@) == index_of(old(list)@, self@),
            same_outside(old(ops)@, final(ops)@, old(list)@.push(val)),
    {
        let ghost ns = list@;
        let ghost links = ops@;
        let ghost k = index_of(ns, self@);
        proof {
            lemma_index_of(ns, self@);
        }
        let next = self.next_of(list, ops);
        let n = match next {
            Some(n) => n,
            None => {
                assert(ops@ =~= links && same_outside(links, ops@, ns.push(val)));
                return Err(val);
            },
        };
        proof {
            lemma_replace(links, ns, k, val);
        }
        assert(links[n as int] == link_at(ns, k + 1));
        if self.current.is_none() {
            list.head = Some(val);
        } else {
            assert(ns[k] != n);
        }
        graph::replace_with(ops, n, self.current, val);
        assert(ops@ =~= replace_links(links, ns, k, val));
        list.nodes = Ghost(ns.update(k + 1, val));
        proof {
            if k >= 0 {
                lemma_index_at(list@, k);
            }
        }
        Ok(n)
    }

    /// Moves everything after the cursor into a new list, which it returns;
    /// at the null position that is the whole list. The cursor does not move.
    pub fn split_after(&self, list: &mut SinglyLinkedList, ops: &mut LinkOps) -> (r: SinglyLinkedList)
        requires
            old(list).wf(old(ops)@),
            is_position(old(list)@, self@),
        ensures
            final(list).wf(final(ops)@),
            r.wf(final(ops)@),
            final(list)@ == old(list)@.take(index_of(old(list)@, self@) + 1),
            r@ == old(list)@.skip(index_of(old(list)@, self@) + 1),
            final(ops)@ == split_links(old(ops)@, old(list)@, index_of(old(list)@, self@)),
            index_of(final(list)@, self@) == index_of(old(list)@, self@),
            same_outside(old(ops)@, final(ops)@, old(list)@),
    {
        let ghost ns = list@;
        let ghost links = ops@;
        let ghost k = index_of(ns, self@);
        proof {
            lemma_index_of(ns, self@);
        }
        if let Some(current) = self.current {
            proof {
                lemma_split(links, ns, k);
            }
            let head = ops.next(current);
            ops.set_next(current, None);
            assert(ops@ =~= split_links(links, ns, k));
            list.nodes = Ghost(ns.take(k + 1));
            let r = SinglyLinkedList { head, nodes: Ghost(ns.skip(k + 1)) };
            proof {
                lemma_index_at(list@, k);
                if k + 1 < ns.len() {
                    assert(r@[0] == ns[k + 1]);
                }
            }
            r
        } else {
            let r = SinglyLinkedList { head: list.head, nodes: Ghost(ns) };
            list.head = None;
            list.nodes = Ghost(Seq::empty());
            assert(ns.skip(0) =~= ns);
            assert(ns.take(0) =~= Seq::<usize>::empty());
            r
        }
    }

    /// Moves the elements of `other` in after the cursor, in their order; at
    /// the null position they come first. The cursor does not move.
    ///
    /// Unless the cursor is at the last element, `other` is walked to find its
    /// last element.
    pub fn splice_after(
        &self,
        list: &mut SinglyLinkedList,
        ops: &mut LinkOps,
        other: SinglyLinkedList,
    )
        requires
            old(list).wf(old(ops)@),
            other.wf(old(ops)@),
            disjoint(old(list)@, other@),
            is_position(old(list)@, self@),
        ensures
            final(list).wf(final(ops)@),
            final(list)@ == old(list)@.take(index_of(old(list)@, self@) + 1) + other@ + old(list)@.skip(
                index_of(old(list)@, self@) + 1,
            ),
            other@.len() > 0 ==> final(ops)@ == splice_links(old(ops)@, old(list)@, index_of(old(list)@, self@), other@),
            other@.len() == 0 ==> final(ops)@ == old(ops)@,
            index_of(final(list)@, self@) == index_of(old(list)@, self@),
            same_outside(old(ops)@, final(ops)@, old(list)@ + other@),
    {
        let ghost ns = list@;
        let ghost os = other@;
        let ghost links = ops@;
        let ghost k = index_of(ns, self@);
        proof {
            lemma_index_of(ns, self@);
        }
        let head = match other.head {
            Some(h) => h,
            None => {
                assert(ns.take(k + 1) + os + ns.skip(k + 1) =~= ns);
                assert(ops@ =~= links && same_outside(links, ops@, ns + os));
                return;
            },
        };
        proof {
            lemma_splice(links, ns, k, os);
            assert(os[0] == head);
        }
        let next = self.next_of(list, ops);
        if let Some(next) = next {
            let mut tail = head;
            let ghost mut j: int = 0;
            let mut step = ops.next(tail);
            while step.is_some()
                invariant
                    is_chain(links, os),
                    ops@ == links,
                    0 <= j < os.len(),
                    tail == os[j],
                    step == succ(links[tail as int]),
                decreases os.len() - j,
            {
                proof {
                    assert(links[os[j] as int] == link_at(os, j));
                    j = j + 1;
                }
                tail = step.unwrap();
                step = ops.next(tail);
            }
            assert(links[os[j] as int] == link_at(os, j));
            assert(j == os.len() - 1);
            graph::splice(ops, head, tail, self.current, Some(next));
            if self.current.is_none() {
                list.head = Some(head);
            }
        } else {
            if let Some(current) = self.current {
                ops.set_next(current, Some(head));
            } else {
                list.head = Some(head);
            }
        }
        assert(ops@ =~= splice_links(links, ns, k, os));
        let ghost nns = ns.take(k + 1) + os + ns.skip(k + 1);
        list.nodes = Ghost(nns);
        proof {
            if k >= 0 {
                assert(nns[k] == ns[k]);
                lemma_index_at(nns, k);
            }
            assert(nns[0] == if k >= 0 { ns[0] } else { os[0] });
        }
    }
}

} // verus!
