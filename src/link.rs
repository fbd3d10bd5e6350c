use vstd::prelude::*;

verus! {

/// What a link holds: the unlinked marker, the end of a chain, or the handle
/// of the next object in the chain.
#[derive(Clone, Copy, PartialEq, Eq, Structural, Debug)]
pub enum Next {
    Unlinked,
    End,
    Node(usize),
}

/// Link that allows an object to be inserted into a `SinglyLinkedList`.
pub struct Link {
    next: Next,
}

impl Link {
    pub closed spec fn view(&self) -> Next {
        self.next
    }

    pub open spec fn linked(&self) -> bool {
        !(self@ is Unlinked)
    }

    /// Creates a new, unlinked `Link`.
    pub fn new() -> (r: Link)
        ensures
            r@ == Next::Unlinked,
    {
        Link { next: Next::Unlinked }
    }

    /// A link holding `next`.
    pub(crate) fn with_next(next: Next) -> (r: Link)
        ensures
            r@ == next,
    {
        Link { next }
    }

    /// What the link holds.
    pub(crate) fn get_next(&self) -> (r: Next)
        ensures
            r == self@,
    {
        self.next
    }

    /// Checks whether the `Link` is linked into a `SinglyLinkedList`.
    pub fn is_linked(&self) -> (r: bool)
        ensures
            r == self.linked(),
    {
        !matches!(self.next, Next::Unlinked)
    }

    /// Forcibly marks the link as unlinked, outside the list's bookkeeping.
    ///
    /// Only meaningful after `fast_clear`, which forgets a chain without
    /// unlinking its members.
    pub fn force_unlink(&mut self)
        ensures
            final(self)@ == Next::Unlinked,
    {
        self.next = Next::Unlinked;
    }

    /// The state of the link as text: `"linked"` or `"unlinked"`.
    pub fn to_debug_string(&self) -> (r: String)
        ensures
            r@ == (if self.linked() { "linked"@ } else { "unlinked"@ }),
    {
        if self.is_linked() {
            String::from_str("linked")
        } else {
            String::from_str("unlinked")
        }
    }
}

impl Clone for Link {
    /// A clone is always a fresh, unlinked link: membership is never copied.
    fn clone(&self) -> (r: Link)
        ensures
            r@ == Next::Unlinked,
    {
        Link::new()
    }
}

impl Default for Link {
    fn default() -> (r: Link)
        ensures
            r@ == Next::Unlinked,
    {
        Link::new()
    }
}

/// The successor that a link names, if any.
pub open spec fn succ(l: Next) -> Option<usize> {
    match l {
        Next::Node(n) => Some(n),
        _ => None,
    }
}

/// The link state that names `next` as successor, or the end of a chain.
pub open spec fn next_to(next: Option<usize>) -> Next {
    match next {
        Some(n) => Next::Node(n),
        None => Next::End,
    }
}

/// Link operations needed by `SinglyLinkedList`, addressed by handle.
pub trait SinglyLinkedListOps {
    /// The state of every link, indexed by handle.
    spec fn links(&self) -> Seq<Next>;

    /// The successor recorded in the link of `ptr`.
    fn next(&self, ptr: usize) -> (r: Option<usize>)
        requires
            ptr < self.links().len(),
        ensures
            r == succ(self.links()[ptr as int]),
    ;

    /// Records `next` as the successor of `ptr`, which marks it linked.
    fn set_next(&mut self, ptr: usize, next: Option<usize>)
        requires
            ptr < old(self).links().len(),
        ensures
            final(self).links() == old(self).links().update(ptr as int, next_to(next)),
    ;
}

/// A table of links: one link field of a family of objects, one `Link` per
/// object handle.
pub struct LinkOps {
    links: Vec<Link>,
}

impl LinkOps {
    pub closed spec fn view(&self) -> Seq<Next> {
        self.links@.map_values(|l: Link| l@)
    }

    /// Creates a table of `n` unlinked links, for the handles `0..n`.
    pub fn new(n: usize) -> (r: LinkOps)
        ensures
            r@ == Seq::new(n as nat, |i: int| Next::Unlinked),
    {
        let mut links: Vec<Link> = Vec::new();
        let mut i: usize = 0;
        while i < n
            invariant
                i <= n,
                links@.len() == i,
                forall|j: int| 0 <= j < i ==> (#[trigger] links@[j])@ == Next::Unlinked,
            decreases n - i,
        {
            links.push(Link::new());
            i = i + 1;
        }
        let r = LinkOps { links };
        assert(r@ =~= Seq::new(n as nat, |i: int| Next::Unlinked));
        r
    }

    /// Adds an unlinked link for a new object and returns its handle.
    pub fn add(&mut self) -> (r: usize)
        requires
            old(self)@.len() < usize::MAX,
        ensures
            r == old(self)@.len(),
            final(self)@ == old(self)@.push(Next::Unlinked),
    {
        let r = self.links.len();
        self.links.push(Link::new());
        assert(self@ =~= old(self)@.push(Next::Unlinked));
        r
    }

    /// The number of handles in the table.
    pub fn len(&self) -> (r: usize)
        ensures
            r == self@.len(),
    {
        self.links.len()
    }

    /// The link of the object `ptr`.
    pub fn link(&self, ptr: usize) -> (r: &Link)
        requires
            ptr < self@.len(),
        ensures
            r@ == self@[ptr as int],
    {
        &self.links[ptr]
    }

    /// Checks whether the link of `ptr` is linked into a list.
    pub fn is_linked(&self, ptr: usize) -> (r: bool)
        requires
            ptr < self@.len(),
        ensures
            r == !(self@[ptr as int] is Unlinked),
    {
        self.links[ptr].is_linked()
    }

    /// Marks the link of `ptr` unlinked. Outside the list operations this is
    /// the manual reset that follows `fast_clear`.
    pub fn mark_unlinked(&mut self, ptr: usize)
        requires
            ptr < old(self)@.len(),
        ensures
            final(self)@ == old(self)@.update(ptr as int, Next::Unlinked),
    {
        self.links.set(ptr, Link::new());
        assert(self@ =~= old(self)@.update(ptr as int, Next::Unlinked));
    }
}

impl SinglyLinkedListOps for LinkOps {
    open spec fn links(&self) -> Seq<Next> {
        self@
    }

    fn next(&self, ptr: usize) -> (r: Option<usize>) {
        match self.links[ptr].get_next() {
            Next::Node(n) => Some(n),
            _ => None,
        }
    }

    fn set_next(&mut self, ptr: usize, next: Option<usize>) {
        let state = match next {
            Some(n) => Next::Node(n),
            None => Next::End,
        };
        self.links.set(ptr, Link::with_next(state));
        assert(self@ =~= old(self)@.update(ptr as int, next_to(next)));
    }
}

} // verus!
