//! Laws that relate several list operations, stated over the views and link
//! effects that the operations' contracts give.
use vstd::prelude::*;
use crate::chain::{
    disjoint, first, insert_links, is_chain, lemma_chain_linked, remove_links, replace_links,
    same_outside, splice_links, split_links,
};
use crate::link::Next;

verus! {

/// The handles of a list after pushing each of `xs` to its front, in order.
pub open spec fn pushed_all(ns: Seq<usize>, xs: Seq<usize>) -> Seq<usize>
    decreases xs.len(),
{
    if xs.len() == 0 {
        ns
    } else {
        pushed_all(seq![xs[0]] + ns, xs.skip(1))
    }
}

/// The handles of a list after popping its front; an empty list stays empty.
pub open spec fn popped(ns: Seq<usize>) -> Seq<usize> {
    if ns.len() == 0 {
        ns
    } else {
        ns.skip(1)
    }
}

/// The handles of a list after popping its front `n` times.
pub open spec fn popped_n(ns: Seq<usize>, n: nat) -> Seq<usize>
    decreases n,
{
    if n == 0 {
        ns
    } else {
        popped_n(popped(ns), (n - 1) as nat)
    }
}

proof fn lemma_pushed_all(ns: Seq<usize>, xs: Seq<usize>)
    ensures
        pushed_all(ns, xs) == xs.reverse() + ns,
    decreases xs.len(),
{
    if xs.len() > 0 {
        lemma_pushed_all(seq![xs[0]] + ns, xs.skip(1));
        assert(xs.skip(1).reverse() + (seq![xs[0]] + ns) =~= xs.reverse() + ns);
    } else {
        assert(xs.reverse() + ns =~= ns);
    }
}

proof fn lemma_popped_n(ys: Seq<usize>, ns: Seq<usize>, n: nat)
    requires
        n <= ys.len(),
    ensures
        popped_n(ys + ns, n) == ys.skip(n as int) + ns,
    decreases n,
{
    if n == 0 {
        assert(ys.skip(0) =~= ys);
    } else {
        assert(popped(ys + ns) =~= ys.skip(1) + ns);
        lemma_popped_n(ys.skip(1), ns, (n - 1) as nat);
        assert(ys.skip(1).skip(n - 1) =~= ys.skip(n as int));
    }
}

/// Last in, first out: after pushing each of `xs` to the front of a list, in
/// order, the `i`-th pop returns the `i`-th of `xs` counted from the last,
/// and once all of them are popped the list holds what it held before.
pub proof fn law_last_in_first_out(ns: Seq<usize>, xs: Seq<usize>)
    ensures
        forall|i: nat|
            i < xs.len() ==> first(#[trigger] popped_n(pushed_all(ns, xs), i)) == Some(
                xs[xs.len() - 1 - i],
            ),
        popped_n(pushed_all(ns, xs), xs.len()) == ns,
{
    lemma_pushed_all(ns, xs);
    let ys = xs.reverse();
    assert forall|i: nat| i < xs.len() implies first(#[trigger] popped_n(pushed_all(ns, xs), i))
        == Some(xs[xs.len() - 1 - i]) by {
        lemma_popped_n(ys, ns, i);
        assert((ys.skip(i as int) + ns)[0] == ys[i as int]);
    }
    lemma_popped_n(ys, ns, xs.len());
    assert(ys.skip(xs.len() as int) + ns =~= ns);
}

/// Pushing an unlinked object to the front of a list and popping the front
/// again returns that object and restores the list and every link.
pub proof fn law_push_pop_round_trip(links: Seq<Next>, ns: Seq<usize>, x: usize)
    requires
        is_chain(links, ns),
        x < links.len(),
        links[x as int] is Unlinked,
    ensures
        first(seq![x] + ns) == Some(x),
        (seq![x] + ns).skip(1) == ns,
        remove_links(insert_links(links, ns, -1, x), seq![x] + ns, -1) == links,
{
    assert((seq![x] + ns).skip(1) =~= ns);
    assert(ns.insert(0, x) =~= seq![x] + ns);
    assert(remove_links(insert_links(links, ns, -1, x), seq![x] + ns, -1) =~= links);
}

/// Splitting a list after the position at index `k` and splicing the split-off
/// part back in after that same position restores the order and every link.
/// The two parts meet what splicing asks of them: both are chains, and they
/// share no handle.
pub proof fn law_split_then_splice(links: Seq<Next>, ns: Seq<usize>, k: int)
    requires
        is_chain(links, ns),
        -1 <= k < ns.len(),
    ensures
        is_chain(split_links(links, ns, k), ns.take(k + 1)),
        is_chain(split_links(links, ns, k), ns.skip(k + 1)),
        disjoint(ns.take(k + 1), ns.skip(k + 1)),
        ns.take(k + 1).take(k + 1) + ns.skip(k + 1) + ns.take(k + 1).skip(k + 1) == ns,
        ns.skip(k + 1).len() > 0 ==> splice_links(split_links(links, ns, k), ns.take(k + 1), k, ns.skip(k + 1))
            == links,
        ns.skip(k + 1).len() == 0 ==> split_links(links, ns, k) == links,
{
    let a = ns.take(k + 1);
    let b = ns.skip(k + 1);
    if k >= 0 {
        crate::chain::lemma_split(links, ns, k);
        assert(links[ns[k] as int] == crate::chain::link_at(ns, k));
        if b.len() > 0 {
            assert(b[0] == ns[k + 1]);
            assert(splice_links(split_links(links, ns, k), a, k, b) =~= links);
        } else {
            assert(split_links(links, ns, k) =~= links);
        }
    } else {
        assert(a =~= Seq::<usize>::empty());
        assert(b =~= ns);
        if ns.len() > 0 {
            assert(b[ns.len() - 1] == ns.last());
            assert(ns.contains(ns.last()));
            let t = ns.len() - 1;
            assert(links[ns[t] as int] == crate::chain::link_at(ns, t));
            assert(splice_links(links, a, k, b) =~= links);
        }
    }
    assert forall|x: usize| a.contains(x) implies !b.contains(x) by {
        let i = choose|i: int| 0 <= i < a.len() && a[i] == x;
        if b.contains(x) {
            let j = choose|j: int| 0 <= j < b.len() && b[j] == x;
            assert(ns[i] == ns[j + k + 1]);
        }
    }
    assert(a.take(k + 1) + b + a.skip(k + 1) =~= ns);
}

/// Every member of a list reports linked, so none can be inserted again
/// through the same link table.
pub proof fn law_member_linked(links: Seq<Next>, ns: Seq<usize>, x: usize)
    requires
        is_chain(links, ns),
        ns.contains(x),
    ensures
        !(links[x as int] is Unlinked),
{
    lemma_chain_linked(links, ns, x);
}

/// The lists of `lists`, all on the link table `links`, account for its
/// linked handles: each is a chain, no two share a handle, and every handle
/// that reports linked belongs to one of them.
pub open spec fn accounts_for(links: Seq<Next>, lists: Seq<Seq<usize>>) -> bool {
    &&& forall|i: int| 0 <= i < lists.len() ==> is_chain(links, #[trigger] lists[i])
    &&& forall|i: int, j: int|
        0 <= i < lists.len() && 0 <= j < lists.len() && i != j ==> disjoint(
            #[trigger] lists[i],
            #[trigger] lists[j],
        )
    &&& forall|x: usize|
        x < links.len() && !(#[trigger] links[x as int] is Unlinked) ==> exists|i: int|
            0 <= i < lists.len() && (#[trigger] lists[i]).contains(x)
}

/// Where lists account for their table, a handle reports linked exactly when
/// it belongs to one of them.
pub proof fn law_linked_iff_member(links: Seq<Next>, lists: Seq<Seq<usize>>, x: usize)
    requires
        accounts_for(links, lists),
        x < links.len(),
    ensures
        !(links[x as int] is Unlinked) <==> exists|i: int| 0 <= i < lists.len() && lists[i].contains(x),
{
    if exists|i: int| 0 <= i < lists.len() && lists[i].contains(x) {
        let i = choose|i: int| 0 <= i < lists.len() && lists[i].contains(x);
        assert(is_chain(links, lists[i]));
        lemma_chain_linked(links, lists[i], x);
    }
}

/// An edit confined to the links of `touched` leaves any list that shares no
/// handle with `touched` a chain, with its links unchanged.
pub proof fn law_untouched_list_kept(links: Seq<Next>, links2: Seq<Next>, touched: Seq<usize>, o: Seq<usize>)
    requires
        is_chain(links, o),
        disjoint(touched, o),
        same_outside(links, links2, touched),
    ensures
        is_chain(links2, o),
{
    assert forall|m: int| 0 <= m < o.len() implies (#[trigger] o[m]) < links2.len()
        && links2[o[m] as int] == crate::chain::link_at(o, m) by {
        assert(o.contains(o[m]));
    }
}

proof fn lemma_touched_disjoint(links: Seq<Next>, lists: Seq<Seq<usize>>, i: int, touched: Seq<usize>, j: int)
    requires
        accounts_for(links, lists),
        0 <= i < lists.len(),
        0 <= j < lists.len(),
        j != i,
        forall|x: usize| #[trigger] touched.contains(x) ==> x < links.len() && (lists[i].contains(x)
            || links[x as int] is Unlinked),
    ensures
        disjoint(touched, lists[j]),
{
    assert forall|x: usize| touched.contains(x) implies !lists[j].contains(x) by {
        if lists[j].contains(x) {
            assert(is_chain(links, lists[j]));
            lemma_chain_linked(links, lists[j], x);
            assert(disjoint(lists[i], lists[j]));
        }
    }
}

/// An edit of the list at index `i` keeps the lists accounting for their
/// table. The edit touches only the links of `touched`, which holds the old
/// members of that list and handles that were unlinked; afterwards the list
/// is the chain `ns2` of touched handles, and every touched handle that
/// reports linked belongs to it. Every edit of a list meets this with its
/// contract: an insertion touches the old members and the new object, a
/// removal or split the old members, a replacement the old members and the
/// new object.
pub proof fn law_edit_keeps_accounts(
    links: Seq<Next>,
    lists: Seq<Seq<usize>>,
    i: int,
    touched: Seq<usize>,
    links2: Seq<Next>,
    ns2: Seq<usize>,
)
    requires
        accounts_for(links, lists),
        0 <= i < lists.len(),
        forall|x: usize| #[trigger] touched.contains(x) ==> x < links.len() && (lists[i].contains(x)
            || links[x as int] is Unlinked),
        forall|x: usize| #[trigger] lists[i].contains(x) ==> touched.contains(x),
        same_outside(links, links2, touched),
        is_chain(links2, ns2),
        forall|x: usize| #[trigger] ns2.contains(x) ==> touched.contains(x),
        forall|x: usize| touched.contains(x) && !(links2[x as int] is Unlinked) ==> #[trigger] ns2.contains(x),
    ensures
        accounts_for(links2, lists.update(i, ns2)),
{
    lemma_edit_chains(links, lists, i, touched, links2, ns2);
    lemma_edit_disjoint(links, lists, i, touched, ns2);
    lemma_edit_covers(links, lists, i, touched, links2, ns2);
}

proof fn lemma_edit_chains(
    links: Seq<Next>,
    lists: Seq<Seq<usize>>,
    i: int,
    touched: Seq<usize>,
    links2: Seq<Next>,
    ns2: Seq<usize>,
)
    requires
        accounts_for(links, lists),
        0 <= i < lists.len(),
        forall|x: usize| #[trigger] touched.contains(x) ==> x < links.len() && (lists[i].contains(x)
            || links[x as int] is Unlinked),
        same_outside(links, links2, touched),
        is_chain(links2, ns2),
    ensures
        forall|j: int| 0 <= j < lists.len() ==> is_chain(links2, #[trigger] lists.update(i, ns2)[j]),
{
    let l2 = lists.update(i, ns2);
    assert forall|j: int| 0 <= j < l2.len() implies is_chain(links2, #[trigger] l2[j]) by {
        if j != i {
            lemma_touched_disjoint(links, lists, i, touched, j);
            assert(is_chain(links, lists[j]));
            law_untouched_list_kept(links, links2, touched, lists[j]);
        }
    }
}

proof fn lemma_edit_disjoint(
    links: Seq<Next>,
    lists: Seq<Seq<usize>>,
    i: int,
    touched: Seq<usize>,
    ns2: Seq<usize>,
)
    requires
        accounts_for(links, lists),
        0 <= i < lists.len(),
        forall|x: usize| #[trigger] touched.contains(x) ==> x < links.len() && (lists[i].contains(x)
            || links[x as int] is Unlinked),
        forall|x: usize| #[trigger] ns2.contains(x) ==> touched.contains(x),
    ensures
        forall|a: int, b: int|
            0 <= a < lists.len() && 0 <= b < lists.len() && a != b ==> disjoint(
                #[trigger] lists.update(i, ns2)[a],
                #[trigger] lists.update(i, ns2)[b],
            ),
{
    let l2 = lists.update(i, ns2);
    assert forall|a: int, b: int| 0 <= a < l2.len() && 0 <= b < l2.len() && a != b implies disjoint(
        #[trigger] l2[a],
        #[trigger] l2[b],
    ) by {
        if a == i {
            lemma_touched_disjoint(links, lists, i, touched, b);
        } else if b == i {
            lemma_touched_disjoint(links, lists, i, touched, a);
        } else {
            assert(disjoint(lists[a], lists[b]));
        }
    }
}

proof fn lemma_edit_covers(
    links: Seq<Next>,
    lists: Seq<Seq<usize>>,
    i: int,
    touched: Seq<usize>,
    links2: Seq<Next>,
    ns2: Seq<usize>,
)
    requires
        accounts_for(links, lists),
        0 <= i < lists.len(),
        forall|x: usize| #[trigger] lists[i].contains(x) ==> touched.contains(x),
        same_outside(links, links2, touched),
        forall|x: usize| touched.contains(x) && !(links2[x as int] is Unlinked) ==> #[trigger] ns2.contains(x),
    ensures
        forall|x: usize|
            x < links2.len() && !(#[trigger] links2[x as int] is Unlinked) ==> exists|j: int|
                0 <= j < lists.len() && (#[trigger] lists.update(i, ns2)[j]).contains(x),
{
    let l2 = lists.update(i, ns2);
    assert forall|x: usize| x < links2.len() && !(#[trigger] links2[x as int] is Unlinked) implies exists|j: int|
        0 <= j < l2.len() && (#[trigger] l2[j]).contains(x) by {
        if touched.contains(x) {
            assert(l2[i].contains(x));
        } else {
            assert(links[x as int] == links2[x as int]);
            assert(exists|j: int| 0 <= j < lists.len() && (#[trigger] lists[j]).contains(x));
            let j = choose|j: int| 0 <= j < lists.len() && (#[trigger] lists[j]).contains(x);
            assert(j != i);
            assert(l2[j] == lists[j]);
        }
    }
}

/// Inserting an unlinked object into one of the lists keeps the lists
/// accounting for their table; the object then reports linked.
pub proof fn law_insert_keeps_accounts(links: Seq<Next>, lists: Seq<Seq<usize>>, i: int, k: int, val: usize)
    requires
        accounts_for(links, lists),
        0 <= i < lists.len(),
        -1 <= k < lists[i].len(),
        val < links.len(),
        links[val as int] is Unlinked,
    ensures
        accounts_for(insert_links(links, lists[i], k, val), lists.update(i, lists[i].insert(k + 1, val))),
        !(insert_links(links, lists[i], k, val)[val as int] is Unlinked),
{
    let ns = lists[i];
    let ns2 = ns.insert(k + 1, val);
    let touched = ns.push(val);
    assert(is_chain(links, ns));
    crate::chain::lemma_insert(links, ns, k, val);
    assert forall|x: usize| #[trigger] touched.contains(x) implies x < links.len() && (lists[i].contains(x)
        || links[x as int] is Unlinked) by {
        let j = choose|j: int| 0 <= j < touched.len() && touched[j] == x;
        if j < ns.len() {
            assert(ns[j] == x);
            lemma_chain_linked(links, ns, x);
        }
    }
    assert forall|x: usize| #[trigger] lists[i].contains(x) implies touched.contains(x) by {
        let j = choose|j: int| 0 <= j < ns.len() && ns[j] == x;
        assert(touched[j] == x);
    }
    assert forall|x: usize| #[trigger] ns2.contains(x) implies touched.contains(x) by {
        let j = choose|j: int| 0 <= j < ns2.len() && ns2[j] == x;
        if j < k + 1 {
            assert(touched[j] == x);
        } else if j == k + 1 {
            assert(touched[ns.len() as int] == x);
        } else {
            assert(touched[j - 1] == x);
        }
    }
    assert forall|x: usize| touched.contains(x) && !(insert_links(links, ns, k, val)[x as int] is Unlinked)
        implies #[trigger] ns2.contains(x) by {
        let j = choose|j: int| 0 <= j < touched.len() && touched[j] == x;
        if j < ns.len() {
            if j < k + 1 {
                assert(ns2[j] == x);
            } else {
                assert(ns2[j + 1] == x);
            }
        } else {
            assert(ns2[k + 1] == x);
        }
    }
    law_edit_keeps_accounts(links, lists, i, touched, insert_links(links, ns, k, val), ns2);
    assert(ns2[k + 1] == val);
    lemma_chain_linked(insert_links(links, ns, k, val), ns2, val);
}

/// Removing the element after index `k` from one of the lists keeps the
/// lists accounting for their table; the removed object then reports
/// unlinked.
pub proof fn law_remove_keeps_accounts(links: Seq<Next>, lists: Seq<Seq<usize>>, i: int, k: int)
    requires
        accounts_for(links, lists),
        0 <= i < lists.len(),
        -1 <= k,
        k + 1 < lists[i].len(),
    ensures
        accounts_for(remove_links(links, lists[i], k), lists.update(i, lists[i].remove(k + 1))),
        remove_links(links, lists[i], k)[lists[i][k + 1] as int] is Unlinked,
{
    let ns = lists[i];
    let ns2 = ns.remove(k + 1);
    let l2 = remove_links(links, ns, k);
    assert(is_chain(links, ns));
    crate::chain::lemma_remove(links, ns, k);
    assert forall|x: usize| #[trigger] ns.contains(x) implies x < links.len() && (lists[i].contains(x)
        || links[x as int] is Unlinked) by {
        lemma_chain_linked(links, ns, x);
    }
    assert forall|x: usize| #[trigger] ns2.contains(x) implies ns.contains(x) by {
        let j = choose|j: int| 0 <= j < ns2.len() && ns2[j] == x;
        if j < k + 1 {
            assert(ns[j] == x);
        } else {
            assert(ns[j + 1] == x);
        }
    }
    assert forall|x: usize| ns.contains(x) && !(l2[x as int] is Unlinked) implies #[trigger] ns2.contains(x) by {
        let j = choose|j: int| 0 <= j < ns.len() && ns[j] == x;
        if j < k + 1 {
            assert(ns2[j] == x);
        } else if j > k + 1 {
            assert(ns2[j - 1] == x);
        }
    }
    law_edit_keeps_accounts(links, lists, i, ns, l2, ns2);
}

/// Replacing the element after index `k` of one of the lists with an unlinked
/// object keeps the lists accounting for their table; the displaced object
/// then reports unlinked and the new one linked.
pub proof fn law_replace_keeps_accounts(links: Seq<Next>, lists: Seq<Seq<usize>>, i: int, k: int, val: usize)
    requires
        accounts_for(links, lists),
        0 <= i < lists.len(),
        -1 <= k,
        k + 1 < lists[i].len(),
        val < links.len(),
        links[val as int] is Unlinked,
    ensures
        accounts_for(replace_links(links, lists[i], k, val), lists.update(i, lists[i].update(k + 1, val))),
        replace_links(links, lists[i], k, val)[lists[i][k + 1] as int] is Unlinked,
        !(replace_links(links, lists[i], k, val)[val as int] is Unlinked),
{
    let ns = lists[i];
    let ns2 = ns.update(k + 1, val);
    let touched = ns.push(val);
    let l2 = replace_links(links, ns, k, val);
    assert(is_chain(links, ns));
    crate::chain::lemma_replace(links, ns, k, val);
    assert forall|x: usize| #[trigger] touched.contains(x) implies x < links.len() && (lists[i].contains(x)
        || links[x as int] is Unlinked) by {
        let j = choose|j: int| 0 <= j < touched.len() && touched[j] == x;
        if j < ns.len() {
            assert(ns[j] == x);
            lemma_chain_linked(links, ns, x);
        }
    }
    assert forall|x: usize| #[trigger] lists[i].contains(x) implies touched.contains(x) by {
        let j = choose|j: int| 0 <= j < ns.len() && ns[j] == x;
        assert(touched[j] == x);
    }
    assert forall|x: usize| #[trigger] ns2.contains(x) implies touched.contains(x) by {
        let j = choose|j: int| 0 <= j < ns2.len() && ns2[j] == x;
        if j == k + 1 {
            assert(touched[ns.len() as int] == x);
        } else {
            assert(touched[j] == x);
        }
    }
    assert forall|x: usize| touched.contains(x) && !(l2[x as int] is Unlinked) implies #[trigger] ns2.contains(x) by {
        let j = choose|j: int| 0 <= j < touched.len() && touched[j] == x;
        if j < ns.len() && j != k + 1 {
            assert(ns2[j] == x);
        } else if j == ns.len() {
            assert(ns2[k + 1] == x);
        }
    }
    law_edit_keeps_accounts(links, lists, i, touched, l2, ns2);
    assert(ns2[k + 1] == val);
    lemma_chain_linked(l2, ns2, val);
}

/// Clearing one of the lists, as `clear` does, keeps the lists accounting for
/// their table: the links change only at its old members, which all report
/// unlinked afterwards, and the list is empty.
pub proof fn law_clear_keeps_accounts(links: Seq<Next>, lists: Seq<Seq<usize>>, i: int, links2: Seq<Next>)
    requires
        accounts_for(links, lists),
        0 <= i < lists.len(),
        same_outside(links, links2, lists[i]),
        forall|x: usize| lists[i].contains(x) ==> links2[x as int] is Unlinked,
    ensures
        accounts_for(links2, lists.update(i, Seq::<usize>::empty())),
{
    let ns = lists[i];
    assert(is_chain(links, ns));
    assert forall|x: usize| #[trigger] ns.contains(x) implies x < links.len() && (lists[i].contains(x)
        || links[x as int] is Unlinked) by {
        lemma_chain_linked(links, ns, x);
    }
    law_edit_keeps_accounts(links, lists, i, ns, links2, Seq::<usize>::empty());
}

} // verus!
