//! Chains of handles: the mathematical model of a list, and how the
//! primitive rewrites act on it.
use vstd::prelude::*;
use crate::link::Next;

verus! {

/// The link that the chain `ns` gives to its element at index `i`.
pub open spec fn link_at(ns: Seq<usize>, i: int) -> Next {
    if i + 1 < ns.len() {
        Next::Node(ns[i + 1])
    } else {
        Next::End
    }
}

/// `ns` is a chain of distinct handles whose links `links` records, each
/// naming the next handle of `ns` and the last one the end.
pub open spec fn is_chain(links: Seq<Next>, ns: Seq<usize>) -> bool {
    &&& ns.no_duplicates()
    &&& forall|i: int|
        0 <= i < ns.len() ==> (#[trigger] ns[i]) < links.len() && links[ns[i] as int] == link_at(
            ns,
            i,
        )
}

/// The first handle of a chain.
pub open spec fn first(ns: Seq<usize>) -> Option<usize> {
    if ns.len() == 0 {
        None
    } else {
        Some(ns[0])
    }
}

/// Whether `cur` is a position in the chain `ns`: the null position, or one
/// of its handles.
pub open spec fn is_position(ns: Seq<usize>, cur: Option<usize>) -> bool {
    match cur {
        None => true,
        Some(x) => ns.contains(x),
    }
}

/// The index of the position `cur` in `ns`; the null position is `-1`.
pub open spec fn index_of(ns: Seq<usize>, cur: Option<usize>) -> int {
    match cur {
        None => -1,
        Some(x) => choose|i: int| 0 <= i < ns.len() && ns[i] == x,
    }
}

/// The position that follows `cur` in `ns`.
pub open spec fn after(ns: Seq<usize>, cur: Option<usize>) -> Option<usize> {
    let k = index_of(ns, cur);
    if k + 1 < ns.len() {
        Some(ns[k + 1])
    } else {
        None
    }
}

/// `b` differs from `a` at most in the links of the handles of `ns`.
pub open spec fn same_outside(a: Seq<Next>, b: Seq<Next>, ns: Seq<usize>) -> bool {
    &&& a.len() == b.len()
    &&& forall|j: int| 0 <= j < a.len() && !ns.contains(j as usize) ==> a[j] == #[trigger] b[j]
}

/// The index of a position of a chain lies in the chain and names it.
pub proof fn lemma_index_of(ns: Seq<usize>, cur: Option<usize>)
    requires
        ns.no_duplicates(),
        is_position(ns, cur),
    ensures
        -1 <= index_of(ns, cur) < ns.len(),
        cur matches Some(x) ==> 0 <= index_of(ns, cur) && ns[index_of(ns, cur)] == x,
        cur matches Some(x) ==> forall|i: int| 0 <= i < ns.len() && ns[i] == x ==> i == index_of(ns, cur),
{
    if let Some(x) = cur {
        assert(exists|i: int| 0 <= i < ns.len() && ns[i] == x);
    }
}

/// The index of an element of a chain is its place.
pub proof fn lemma_index_at(ns: Seq<usize>, k: int)
    requires
        ns.no_duplicates(),
        0 <= k < ns.len(),
    ensures
        index_of(ns, Some(ns[k])) == k,
{
    assert(ns.contains(ns[k]));
    lemma_index_of(ns, Some(ns[k]));
}

/// The members of a chain report linked.
pub proof fn lemma_chain_linked(links: Seq<Next>, ns: Seq<usize>, x: usize)
    requires
        is_chain(links, ns),
        ns.contains(x),
    ensures
        x < links.len(),
        !(links[x as int] is Unlinked),
{
    let i = choose|i: int| 0 <= i < ns.len() && ns[i] == x;
    assert(ns[i] == x);
}

/// Inserting `val` at index `k + 1` of a chain: the links after pointing the
/// element at `k` (if any) to `val` and `val` to its new successor.
pub open spec fn insert_links(links: Seq<Next>, ns: Seq<usize>, k: int, val: usize) -> Seq<Next> {
    let pointed = if k >= 0 {
        links.update(ns[k] as int, Next::Node(val))
    } else {
        links
    };
    pointed.update(val as int, link_at(ns.insert(k + 1, val), k + 1))
}

/// Removing the element at index `k + 1` of a chain: the links after pointing
/// the element at `k` (if any) past it and marking it unlinked.
pub open spec fn remove_links(links: Seq<Next>, ns: Seq<usize>, k: int) -> Seq<Next> {
    let pointed = if k >= 0 {
        links.update(ns[k] as int, link_at(ns, k + 1))
    } else {
        links
    };
    pointed.update(ns[k + 1] as int, Next::Unlinked)
}

/// Inserting an unlinked object keeps a chain, touching only its members and
/// the object.
pub proof fn lemma_insert(links: Seq<Next>, ns: Seq<usize>, k: int, val: usize)
    requires
        is_chain(links, ns),
        -1 <= k < ns.len(),
        val < links.len(),
        links[val as int] is Unlinked,
    ensures
        is_chain(insert_links(links, ns, k, val), ns.insert(k + 1, val)),
        same_outside(links, insert_links(links, ns, k, val), ns.push(val)),
{
    let nns = ns.insert(k + 1, val);
    let l2 = insert_links(links, ns, k, val);
    assert(!ns.contains(val)) by {
        if ns.contains(val) {
            lemma_chain_linked(links, ns, val);
        }
    }
    assert forall|i: int| 0 <= i < nns.len() implies (#[trigger] nns[i]) < l2.len()
        && l2[nns[i] as int] == link_at(nns, i) by {
        if i < k + 1 {
            assert(nns[i] == ns[i]);
            assert(ns.contains(ns[i]));
            if i == k {
                assert(link_at(nns, i) == Next::Node(val));
            } else {
                assert(ns[i] != ns[k]);
                assert(nns[i + 1] == ns[i + 1]);
            }
        } else if i > k + 1 {
            assert(nns[i] == ns[i - 1]);
            assert(ns.contains(ns[i - 1]));
            if k >= 0 {
                assert(ns[i - 1] != ns[k]);
            }
            if i + 1 < nns.len() {
                assert(nns[i + 1] == ns[i]);
            }
        }
    }
    assert(nns.no_duplicates()) by {
        assert forall|i: int, j: int| 0 <= i < j < nns.len() implies nns[i] != nns[j] by {
            if i == k + 1 {
                assert(ns.contains(nns[j])) by {
                    assert(nns[j] == ns[j - 1]);
                }
            } else if j == k + 1 {
                assert(ns.contains(nns[i])) by {
                    assert(nns[i] == ns[i]);
                }
            } else {
                let ii = if i < k + 1 { i } else { i - 1 };
                let jj = if j < k + 1 { j } else { j - 1 };
                assert(nns[i] == ns[ii] && nns[j] == ns[jj]);
            }
        }
    }
    assert forall|j: int| 0 <= j < links.len() && !ns.push(val).contains(j as usize)
        implies links[j] == #[trigger] l2[j] by {
        assert(ns.push(val)[ns.len() as int] == val);
        if k >= 0 {
            assert(ns.push(val)[k] == ns[k]);
        }
    }
}

/// Removing an element keeps a chain, touching only its members, and leaves
/// the element unlinked.
pub proof fn lemma_remove(links: Seq<Next>, ns: Seq<usize>, k: int)
    requires
        is_chain(links, ns),
        -1 <= k,
        k + 1 < ns.len(),
    ensures
        is_chain(remove_links(links, ns, k), ns.remove(k + 1)),
        same_outside(links, remove_links(links, ns, k), ns),
        remove_links(links, ns, k)[ns[k + 1] as int] is Unlinked,
{
    let nns = ns.remove(k + 1);
    let l2 = remove_links(links, ns, k);
    let n = ns[k + 1];
    assert(ns.contains(n));
    assert forall|i: int| 0 <= i < nns.len() implies (#[trigger] nns[i]) < l2.len()
        && l2[nns[i] as int] == link_at(nns, i) by {
        if i < k + 1 {
            assert(nns[i] == ns[i]);
            assert(ns.contains(ns[i]));
            assert(ns[i] != n);
            if i == k {
                if i + 1 < nns.len() {
                    assert(nns[i + 1] == ns[i + 2]);
                }
            } else {
                assert(ns[i] != ns[k]);
                assert(nns[i + 1] == ns[i + 1]);
            }
        } else {
            assert(nns[i] == ns[i + 1]);
            assert(ns.contains(ns[i + 1]));
            assert(ns[i + 1] != n);
            if k >= 0 {
                assert(ns[i + 1] != ns[k]);
            }
            if i + 1 < nns.len() {
                assert(nns[i + 1] == ns[i + 2]);
            }
        }
    }
    assert(nns.no_duplicates()) by {
        assert forall|i: int, j: int| 0 <= i < j < nns.len() implies nns[i] != nns[j] by {
            let ii = if i < k + 1 { i } else { i + 1 };
            let jj = if j < k + 1 { j } else { j + 1 };
            assert(nns[i] == ns[ii] && nns[j] == ns[jj]);
        }
    }
    assert forall|j: int| 0 <= j < links.len() && !ns.contains(j as usize)
        implies links[j] == #[trigger] l2[j] by {
        if k >= 0 {
            assert(ns.contains(ns[k]));
        }
    }
}

/// Replacing the element at index `k + 1` of a chain with `val`: the links
/// after pointing the element at `k` (if any) to `val`, `val` to the old
/// element's successor, and marking the old element unlinked.
pub open spec fn replace_links(links: Seq<Next>, ns: Seq<usize>, k: int, val: usize) -> Seq<Next> {
    let pointed = if k >= 0 {
        links.update(ns[k] as int, Next::Node(val))
    } else {
        links
    };
    pointed.update(val as int, link_at(ns, k + 1)).update(ns[k + 1] as int, Next::Unlinked)
}

/// Splicing the chain `os` in after index `k` of the chain `ns`: the links
/// after pointing the last of `os` to the element at `k + 1` (if any) and the
/// element at `k` (if any) to the first of `os`.
pub open spec fn splice_links(links: Seq<Next>, ns: Seq<usize>, k: int, os: Seq<usize>) -> Seq<Next> {
    let tail = if k + 1 < ns.len() {
        links.update(os.last() as int, Next::Node(ns[k + 1]))
    } else {
        links
    };
    if k >= 0 {
        tail.update(ns[k] as int, Next::Node(os[0]))
    } else {
        tail
    }
}

/// Splitting a chain after index `k`: the links after marking the element at
/// `k` (if any) the end.
pub open spec fn split_links(links: Seq<Next>, ns: Seq<usize>, k: int) -> Seq<Next> {
    if k >= 0 {
        links.update(ns[k] as int, Next::End)
    } else {
        links
    }
}

/// `a` and `b` share no handle.
pub open spec fn disjoint(a: Seq<usize>, b: Seq<usize>) -> bool {
    forall|x: usize| a.contains(x) ==> !b.contains(x)
}

/// Replacing an element with an unlinked object keeps a chain, touching only
/// its members and the object, and leaves the old element unlinked.
pub proof fn lemma_replace(links: Seq<Next>, ns: Seq<usize>, k: int, val: usize)
    requires
        is_chain(links, ns),
        -1 <= k,
        k + 1 < ns.len(),
        val < links.len(),
        links[val as int] is Unlinked,
    ensures
        is_chain(replace_links(links, ns, k, val), ns.update(k + 1, val)),
        same_outside(links, replace_links(links, ns, k, val), ns.push(val)),
        replace_links(links, ns, k, val)[ns[k + 1] as int] is Unlinked,
{
    let nns = ns.update(k + 1, val);
    let l2 = replace_links(links, ns, k, val);
    let n = ns[k + 1];
    assert(ns.contains(n));
    assert(!ns.contains(val)) by {
        if ns.contains(val) {
            lemma_chain_linked(links, ns, val);
        }
    }
    assert forall|i: int| 0 <= i < nns.len() implies (#[trigger] nns[i]) < l2.len()
        && l2[nns[i] as int] == link_at(nns, i) by {
        if i != k + 1 {
            assert(nns[i] == ns[i]);
            assert(ns.contains(ns[i]));
            assert(ns[i] != n);
            if k >= 0 && i != k {
                assert(ns[i] != ns[k]);
            }
        }
    }
    assert(nns.no_duplicates()) by {
        assert forall|i: int, j: int| 0 <= i < j < nns.len() implies nns[i] != nns[j] by {
            if i == k + 1 {
                assert(ns.contains(nns[j])) by {
                    assert(nns[j] == ns[j]);
                }
            } else if j == k + 1 {
                assert(ns.contains(nns[i])) by {
                    assert(nns[i] == ns[i]);
                }
            }
        }
    }
    assert forall|j: int| 0 <= j < links.len() && !ns.push(val).contains(j as usize)
        implies links[j] == #[trigger] l2[j] by {
        assert(ns.push(val)[ns.len() as int] == val);
        assert(ns.push(val)[k + 1] == n);
        if k >= 0 {
            assert(ns.push(val)[k] == ns[k]);
        }
    }
}

proof fn lemma_split_front(links: Seq<Next>, ns: Seq<usize>, k: int)
    requires
        is_chain(links, ns),
        0 <= k < ns.len(),
    ensures
        is_chain(links.update(ns[k] as int, Next::End), ns.take(k + 1)),
{
    let l2 = links.update(ns[k] as int, Next::End);
    let a = ns.take(k + 1);
    assert forall|i: int| 0 <= i < a.len() implies (#[trigger] a[i]) < l2.len()
        && l2[a[i] as int] == link_at(a, i) by {
        assert(a[i] == ns[i]);
        if i < k {
            assert(ns[i] != ns[k]);
            assert(a[i + 1] == ns[i + 1]);
        }
    }
    assert(a.no_duplicates()) by {
        assert forall|i: int, j: int| 0 <= i < j < a.len() implies a[i] != a[j] by {
            assert(a[i] == ns[i] && a[j] == ns[j]);
        }
    }
}

proof fn lemma_split_back(links: Seq<Next>, ns: Seq<usize>, k: int)
    requires
        is_chain(links, ns),
        0 <= k < ns.len(),
    ensures
        is_chain(links.update(ns[k] as int, Next::End), ns.skip(k + 1)),
{
    let l2 = links.update(ns[k] as int, Next::End);
    let b = ns.skip(k + 1);
    assert forall|i: int| 0 <= i < b.len() implies (#[trigger] b[i]) < l2.len()
        && l2[b[i] as int] == link_at(b, i) by {
        assert(b[i] == ns[i + k + 1]);
        assert(ns[i + k + 1] != ns[k]);
        if i + 1 < b.len() {
            assert(b[i + 1] == ns[i + k + 2]);
        }
    }
    assert(b.no_duplicates()) by {
        assert forall|i: int, j: int| 0 <= i < j < b.len() implies b[i] != b[j] by {
            assert(b[i] == ns[i + k + 1] && b[j] == ns[j + k + 1]);
        }
    }
}

/// Ending a chain after index `k` leaves two chains: the elements up to `k`
/// and those after it.
pub proof fn lemma_split(links: Seq<Next>, ns: Seq<usize>, k: int)
    requires
        is_chain(links, ns),
        0 <= k < ns.len(),
    ensures
        is_chain(links.update(ns[k] as int, Next::End), ns.take(k + 1)),
        is_chain(links.update(ns[k] as int, Next::End), ns.skip(k + 1)),
        same_outside(links, links.update(ns[k] as int, Next::End), ns),
{
    lemma_split_front(links, ns, k);
    lemma_split_back(links, ns, k);
    assert(ns.contains(ns[k]));
}

#[verifier::rlimit(40)]
proof fn lemma_splice_links(links: Seq<Next>, ns: Seq<usize>, k: int, os: Seq<usize>, nns: Seq<usize>)
    requires
        nns == ns.take(k + 1) + os + ns.skip(k + 1),
        is_chain(links, ns),
        is_chain(links, os),
        disjoint(ns, os),
        os.len() > 0,
        -1 <= k < ns.len(),
    ensures
        forall|i: int|
            0 <= i < nns.len() ==> (#[trigger] nns[i]) < splice_links(links, ns, k, os).len()
                && splice_links(links, ns, k, os)[nns[i] as int] == link_at(nns, i),
{
    let l2 = splice_links(links, ns, k, os);
    let t = os.last();
    let m = os.len();
    assert(os[m - 1] == t);
    assert(os.contains(t));
    assert(links[t as int] == Next::End);
    assert forall|i: int| 0 <= i < nns.len() implies (#[trigger] nns[i]) < l2.len()
        && l2[nns[i] as int] == link_at(nns, i) by {
        if i < k + 1 {
            assert(nns[i] == ns[i]);
            assert(ns.contains(ns[i]));
            assert(!os.contains(ns[i]));
            if i < k {
                assert(ns[i] != ns[k]);
                assert(nns[i + 1] == ns[i + 1]);
            } else {
                assert(nns[i + 1] == os[0]);
            }
        } else if i < k + 1 + m {
            assert(nns[i] == os[i - k - 1]);
            assert(os.contains(os[i - k - 1]));
            assert(!ns.contains(os[i - k - 1]));
            if k >= 0 {
                assert(ns.contains(ns[k]));
            }
            if i < k + m {
                assert(os[i - k - 1] != t);
                assert(nns[i + 1] == os[i - k]);
            } else if i + 1 < nns.len() {
                assert(nns[i + 1] == ns[k + 1]);
            }
        } else {
            let j = i - m;
            assert(nns[i] == ns[j]);
            assert(ns.contains(ns[j]));
            assert(!os.contains(ns[j]));
            if k >= 0 {
                assert(ns[j] != ns[k]);
            }
            if i + 1 < nns.len() {
                assert(nns[i + 1] == ns[j + 1]);
            }
        }
    }
}

proof fn lemma_splice_distinct(ns: Seq<usize>, k: int, os: Seq<usize>)
    requires
        ns.no_duplicates(),
        os.no_duplicates(),
        disjoint(ns, os),
        -1 <= k < ns.len(),
    ensures
        (ns.take(k + 1) + os + ns.skip(k + 1)).no_duplicates(),
{
    let nns = ns.take(k + 1) + os + ns.skip(k + 1);
    let m = os.len();
    assert forall|i: int, j: int| 0 <= i < j < nns.len() implies nns[i] != nns[j] by {
        let in_os_i = k + 1 <= i < k + 1 + m;
        let in_os_j = k + 1 <= j < k + 1 + m;
        let ii = if i < k + 1 { i } else if in_os_i { i - k - 1 } else { i - m };
        let jj = if j < k + 1 { j } else if in_os_j { j - k - 1 } else { j - m };
        if in_os_i {
            assert(nns[i] == os[ii]);
            assert(os.contains(os[ii]));
        } else {
            assert(nns[i] == ns[ii]);
            assert(ns.contains(ns[ii]));
        }
        if in_os_j {
            assert(nns[j] == os[jj]);
            assert(os.contains(os[jj]));
        } else {
            assert(nns[j] == ns[jj]);
            assert(ns.contains(ns[jj]));
        }
    }
}

/// Splicing a disjoint chain into a chain gives one chain, touching only the
/// members of the two.
#[verifier::rlimit(40)]
pub proof fn lemma_splice(links: Seq<Next>, ns: Seq<usize>, k: int, os: Seq<usize>)
    requires
        is_chain(links, ns),
        is_chain(links, os),
        disjoint(ns, os),
        os.len() > 0,
        -1 <= k < ns.len(),
    ensures
        is_chain(splice_links(links, ns, k, os), ns.take(k + 1) + os + ns.skip(k + 1)),
        same_outside(links, splice_links(links, ns, k, os), ns + os),
{
    lemma_splice_links(links, ns, k, os, ns.take(k + 1) + os + ns.skip(k + 1));
    lemma_splice_distinct(ns, k, os);
    let l2 = splice_links(links, ns, k, os);
    let m = os.len();
    assert forall|j: int| 0 <= j < links.len() && !(ns + os).contains(j as usize)
        implies links[j] == #[trigger] l2[j] by {
        assert((ns + os)[ns.len() + m - 1] == os[m - 1]);
        if k >= 0 {
            assert((ns + os)[k] == ns[k]);
        }
    }
}

} // verus!
