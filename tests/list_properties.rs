use intrusive_list::link::LinkOps;
use intrusive_list::list::SinglyLinkedList;

fn handles(l: &SinglyLinkedList, ops: &LinkOps) -> Vec<usize> {
    let mut out = Vec::new();
    let mut it = l.iter();
    while let Some(x) = it.next(l, ops) {
        out.push(x);
    }
    out
}

fn values(l: &SinglyLinkedList, ops: &LinkOps, vals: &[u32]) -> Vec<u32> {
    handles(l, ops).into_iter().map(|x| vals[x]).collect()
}

#[test]
fn insert_at_null_split_and_splice_scenario() {
    let vals = [0u32, 1, 2, 3, 4];
    let mut ops = LinkOps::new(vals.len());
    let mut l = SinglyLinkedList::new();
    let cur = l.cursor_mut();
    for h in [4usize, 3, 2, 1] {
        cur.insert_after(&mut l, &mut ops, h);
    }
    assert_eq!(values(&l, &ops, &vals), [1, 2, 3, 4]);

    let mut cur = l.front_mut(&ops);
    cur.move_next(&l, &ops);
    let rest = cur.split_after(&mut l, &mut ops);
    assert_eq!(values(&l, &ops, &vals), [1, 2]);
    assert_eq!(values(&rest, &ops, &vals), [3, 4]);

    let cur = l.front_mut(&ops);
    cur.splice_after(&mut l, &mut ops, rest);
    assert_eq!(values(&l, &ops, &vals), [1, 3, 4, 2]);
}

#[test]
fn replace_at_tail_hands_input_back() {
    let mut ops = LinkOps::new(4);
    let mut l = SinglyLinkedList::new();
    l.push_front(&mut ops, 2);
    l.push_front(&mut ops, 1);
    let mut cur = l.front_mut(&ops);
    cur.move_next(&l, &ops);
    assert_eq!(cur.get(), Some(2));
    assert_eq!(cur.replace_next_with(&mut l, &mut ops, 3), Err(3));
    assert_eq!(handles(&l, &ops), [1, 2]);
    assert!(!ops.is_linked(3));
}

#[test]
fn replace_at_null_replaces_first() {
    let mut ops = LinkOps::new(4);
    let mut l = SinglyLinkedList::new();
    l.push_front(&mut ops, 2);
    l.push_front(&mut ops, 1);
    let cur = l.cursor_mut();
    assert_eq!(cur.replace_next_with(&mut l, &mut ops, 3), Ok(1));
    assert_eq!(handles(&l, &ops), [3, 2]);
    assert!(!ops.is_linked(1));
    assert!(ops.is_linked(3));
}

#[test]
fn pushes_pop_last_in_first_out() {
    let mut ops = LinkOps::new(6);
    let mut l = SinglyLinkedList::new();
    l.push_front(&mut ops, 0);
    l.push_front(&mut ops, 1);
    assert_eq!(l.pop_front(&mut ops), Some(1));
    l.push_front(&mut ops, 2);
    l.push_front(&mut ops, 3);
    assert_eq!(l.pop_front(&mut ops), Some(3));
    assert_eq!(l.pop_front(&mut ops), Some(2));
    assert_eq!(l.pop_front(&mut ops), Some(0));
    assert_eq!(l.pop_front(&mut ops), None);
    assert!(l.is_empty());
}

#[test]
fn push_then_pop_restores_list() {
    let mut ops = LinkOps::new(4);
    let mut l = SinglyLinkedList::new();
    l.push_front(&mut ops, 1);
    l.push_front(&mut ops, 0);
    let before = handles(&l, &ops);
    l.push_front(&mut ops, 3);
    assert!(ops.is_linked(3));
    assert_eq!(l.pop_front(&mut ops), Some(3));
    assert!(!ops.is_linked(3));
    assert_eq!(handles(&l, &ops), before);
}

#[test]
fn split_then_splice_restores_order() {
    let mut ops = LinkOps::new(5);
    let mut l = SinglyLinkedList::new();
    for h in [4usize, 3, 2, 1, 0] {
        l.push_front(&mut ops, h);
    }
    for steps in 0..6 {
        let mut cur = l.cursor_mut();
        for _ in 0..steps {
            cur.move_next(&l, &ops);
        }
        let rest = cur.split_after(&mut l, &mut ops);
        cur.splice_after(&mut l, &mut ops, rest);
        assert_eq!(handles(&l, &ops), [0, 1, 2, 3, 4]);
    }
}

#[test]
fn clear_unlinks_and_fast_clear_does_not() {
    let mut ops = LinkOps::new(3);
    let mut l = SinglyLinkedList::new();
    l.push_front(&mut ops, 0);
    l.push_front(&mut ops, 1);
    l.clear(&mut ops);
    assert!(l.is_empty());
    assert!(!ops.is_linked(0));
    assert!(!ops.is_linked(1));

    l.push_front(&mut ops, 2);
    l.fast_clear();
    assert!(l.is_empty());
    assert!(ops.is_linked(2));
    ops.mark_unlinked(2);
    assert!(!ops.is_linked(2));
    l.push_front(&mut ops, 2);
    assert_eq!(handles(&l, &ops), [2]);
}

#[test]
fn one_object_in_two_lists_through_two_link_fields() {
    let mut field1 = LinkOps::new(2);
    let mut field2 = LinkOps::new(2);
    let mut l1 = SinglyLinkedList::new();
    let mut l2 = SinglyLinkedList::new();
    l1.push_front(&mut field1, 0);
    l2.push_front(&mut field2, 0);
    l2.push_front(&mut field2, 1);
    assert!(field1.is_linked(0) && field2.is_linked(0));
    assert!(!field1.is_linked(1));
    assert_eq!(l1.pop_front(&mut field1), Some(0));
    assert!(!field1.is_linked(0));
    assert!(field2.is_linked(0));
    assert_eq!(handles(&l2, &field2), [1, 0]);
}

#[test]
fn empty_list_edges() {
    let mut ops = LinkOps::new(1);
    let mut l = SinglyLinkedList::new();
    assert!(l.front(&ops).is_null());
    assert!(l.cursor().peek_next(&l, &ops).is_null());
    assert_eq!(l.cursor_mut().remove_next(&mut l, &mut ops), None);
    assert_eq!(l.pop_front(&mut ops), None);
    let rest = l.cursor_mut().split_after(&mut l, &mut ops);
    assert!(rest.is_empty());
    l.cursor_mut().splice_after(&mut l, &mut ops, SinglyLinkedList::new());
    assert!(l.is_empty());
    assert_eq!(handles(&l, &ops), Vec::<usize>::new());
    let mut it = l.take().into_iter();
    assert_eq!(it.next(&mut ops), None);
}

#[test]
fn splice_at_tail_and_in_middle() {
    let mut ops = LinkOps::new(6);
    let mut a = SinglyLinkedList::new();
    let mut b = SinglyLinkedList::new();
    a.push_front(&mut ops, 1);
    a.push_front(&mut ops, 0);
    b.push_front(&mut ops, 3);
    b.push_front(&mut ops, 2);
    let mut cur = a.front_mut(&ops);
    cur.move_next(&a, &ops);
    cur.splice_after(&mut a, &mut ops, b.take());
    assert_eq!(handles(&a, &ops), [0, 1, 2, 3]);
    b.push_front(&mut ops, 5);
    b.push_front(&mut ops, 4);
    a.front_mut(&ops).splice_after(&mut a, &mut ops, b.take());
    assert_eq!(handles(&a, &ops), [0, 4, 5, 1, 2, 3]);
    assert!(b.is_empty());
}
