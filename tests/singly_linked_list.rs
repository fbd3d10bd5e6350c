use intrusive_list::link::{Link, LinkOps};
use intrusive_list::list::SinglyLinkedList;
use std::rc::Rc;
use std::sync::Arc;

/// Objects with a value and two link fields, one link table per field.
struct Objs {
    values: Vec<u32>,
    link1: LinkOps,
    link2: LinkOps,
}

impl Objs {
    fn new() -> Objs {
        Objs { values: Vec::new(), link1: LinkOps::new(0), link2: LinkOps::new(0) }
    }

    fn make(&mut self, value: u32) -> usize {
        self.values.push(value);
        let h = self.link1.add();
        assert_eq!(self.link2.add(), h);
        h
    }
}

fn values(l: &SinglyLinkedList, ops: &LinkOps, vals: &[u32]) -> Vec<u32> {
    let mut out = Vec::new();
    let mut it = l.iter();
    while let Some(x) = it.next(l, ops) {
        out.push(vals[x]);
    }
    out
}

#[test]
fn test_link() {
    let mut o = Objs::new();
    let a = o.make(1);
    assert!(!o.link1.link(a).is_linked());
    assert!(!o.link2.link(a).is_linked());

    let mut b = SinglyLinkedList::default();
    assert!(b.is_empty());

    b.push_front(&mut o.link1, a);
    assert!(!b.is_empty());
    assert!(o.link1.link(a).is_linked());
    assert!(!o.link2.link(a).is_linked());
    assert_eq!(o.link1.link(a).to_debug_string(), "linked");
    assert_eq!(o.link2.link(a).to_debug_string(), "unlinked");

    assert_eq!(b.pop_front(&mut o.link1).unwrap(), a);
    assert!(b.is_empty());
    assert!(!o.link1.link(a).is_linked());
    assert!(!o.link2.link(a).is_linked());
}

#[test]
fn test_cursor() {
    let mut o = Objs::new();
    let a = o.make(1);
    let b = o.make(2);
    let c = o.make(3);
    let ops = &mut o.link1;

    let mut l = SinglyLinkedList::new();
    let mut cur = l.cursor_mut();
    assert!(cur.is_null());
    assert!(cur.get().is_none());
    assert!(cur.remove_next(&mut l, ops).is_none());
    assert_eq!(cur.replace_next_with(&mut l, ops, a).unwrap_err(), a);

    cur.insert_after(&mut l, ops, c);
    cur.insert_after(&mut l, ops, a);
    cur.move_next(&l, ops);
    cur.insert_after(&mut l, ops, b);
    cur.move_next(&l, ops);
    cur.move_next(&l, ops);
    assert!(cur.peek_next(&l, ops).is_null());
    cur.move_next(&l, ops);
    assert!(cur.is_null());

    cur.move_next(&l, ops);
    assert!(!cur.is_null());
    assert_eq!(cur.get().unwrap(), a);

    {
        let mut cur2 = cur.as_cursor();
        assert_eq!(cur2.get().unwrap(), a);
        assert_eq!(o.values[cur2.peek_next(&l, ops).get().unwrap()], 2);
        cur2.move_next(&l, ops);
        assert_eq!(o.values[cur2.get().unwrap()], 2);
        cur2.move_next(&l, ops);
        assert_eq!(cur2.get().unwrap(), c);
        cur2.move_next(&l, ops);
        assert!(cur2.is_null());
        assert!(cur2.clone().get().is_none());
    }
    assert_eq!(cur.get().unwrap(), a);

    assert_eq!(cur.remove_next(&mut l, ops).unwrap(), b);
    assert_eq!(cur.get().unwrap(), a);
    cur.insert_after(&mut l, ops, b);
    assert_eq!(cur.get().unwrap(), a);
    cur.move_next(&l, ops);
    assert_eq!(cur.get().unwrap(), b);
    assert_eq!(cur.remove_next(&mut l, ops).unwrap(), c);
    assert!(!ops.link(c).is_linked());
    assert!(ops.link(a).is_linked());
    assert_eq!(cur.get().unwrap(), b);
    cur.move_next(&l, ops);
    assert!(cur.is_null());
    assert_eq!(cur.replace_next_with(&mut l, ops, c).unwrap(), a);
    assert!(!ops.link(a).is_linked());
    assert!(ops.link(c).is_linked());
    assert!(cur.is_null());
    cur.move_next(&l, ops);
    assert_eq!(cur.get().unwrap(), c);
    assert_eq!(cur.replace_next_with(&mut l, ops, a).unwrap(), b);
    assert!(ops.link(a).is_linked());
    assert!(!ops.link(b).is_linked());
    assert!(ops.link(c).is_linked());
    assert_eq!(cur.get().unwrap(), c);
}

#[test]
fn test_split_splice() {
    let mut o = Objs::new();
    let mut l1 = SinglyLinkedList::new();
    let mut l2 = SinglyLinkedList::new();
    let mut l3 = SinglyLinkedList::new();

    let a = o.make(1);
    let b = o.make(2);
    let c = o.make(3);
    let d = o.make(4);
    let vals = o.values.clone();
    let ops = &mut o.link1;
    l1.cursor_mut().insert_after(&mut l1, ops, d);
    l1.cursor_mut().insert_after(&mut l1, ops, c);
    l1.cursor_mut().insert_after(&mut l1, ops, b);
    l1.cursor_mut().insert_after(&mut l1, ops, a);
    assert_eq!(values(&l1, ops, &vals), [1, 2, 3, 4]);
    assert_eq!(values(&l2, ops, &vals), []);
    assert_eq!(values(&l3, ops, &vals), []);
    {
        let mut cur = l1.front_mut(ops);
        cur.move_next(&l1, ops);
        l2 = cur.split_after(&mut l1, ops);
    }
    assert_eq!(values(&l1, ops, &vals), [1, 2]);
    assert_eq!(values(&l2, ops, &vals), [3, 4]);
    assert_eq!(values(&l3, ops, &vals), []);
    {
        let cur = l2.front_mut(ops);
        l3 = cur.split_after(&mut l2, ops);
    }
    assert_eq!(values(&l1, ops, &vals), [1, 2]);
    assert_eq!(values(&l2, ops, &vals), [3]);
    assert_eq!(values(&l3, ops, &vals), [4]);
    {
        let cur = l1.front_mut(ops);
        cur.splice_after(&mut l1, ops, l2.take());
    }
    assert_eq!(values(&l1, ops, &vals), [1, 3, 2]);
    assert_eq!(values(&l2, ops, &vals), []);
    assert_eq!(values(&l3, ops, &vals), [4]);
    {
        let cur = l1.cursor_mut();
        cur.splice_after(&mut l1, ops, l3.take());
    }
    assert_eq!(values(&l1, ops, &vals), [4, 1, 3, 2]);
    assert_eq!(values(&l2, ops, &vals), []);
    assert_eq!(values(&l3, ops, &vals), []);
    {
        let cur = l1.cursor_mut();
        l2 = cur.split_after(&mut l1, ops);
    }
    assert_eq!(values(&l1, ops, &vals), []);
    assert_eq!(values(&l2, ops, &vals), [4, 1, 3, 2]);
    assert_eq!(values(&l3, ops, &vals), []);
    {
        let mut cur = l2.front_mut(ops);
        cur.move_next(&l2, ops);
        l3 = cur.split_after(&mut l2, ops);
    }
    assert_eq!(values(&l1, ops, &vals), []);
    assert_eq!(values(&l2, ops, &vals), [4, 1]);
    assert_eq!(values(&l3, ops, &vals), [3, 2]);
    {
        let cur = l2.front_mut(ops);
        cur.splice_after(&mut l2, ops, l3.take());
    }
    assert_eq!(values(&l1, ops, &vals), []);
    assert_eq!(values(&l2, ops, &vals), [4, 3, 2, 1]);
    assert_eq!(values(&l3, ops, &vals), []);
    {
        let cur = l3.cursor_mut();
        cur.splice_after(&mut l3, ops, l2.take());
    }
    assert_eq!(values(&l1, ops, &vals), []);
    assert_eq!(values(&l2, ops, &vals), []);
    assert_eq!(values(&l3, ops, &vals), [4, 3, 2, 1]);
    {
        let mut cur = l3.front_mut(ops);
        cur.move_next(&l3, ops);
        l2 = cur.split_after(&mut l3, ops);
    }
    assert_eq!(values(&l1, ops, &vals), []);
    assert_eq!(values(&l2, ops, &vals), [2, 1]);
    assert_eq!(values(&l3, ops, &vals), [4, 3]);
    {
        let mut cur = l2.front_mut(ops);
        cur.move_next(&l2, ops);
        cur.splice_after(&mut l2, ops, l3.take());
    }
    assert_eq!(values(&l1, ops, &vals), []);
    assert_eq!(values(&l2, ops, &vals), [2, 1, 4, 3]);
    assert_eq!(values(&l3, ops, &vals), []);
}

#[test]
fn test_iter() {
    let mut o = Objs::new();
    let mut l = SinglyLinkedList::new();
    let a = o.make(1);
    let b = o.make(2);
    let c = o.make(3);
    let d = o.make(4);
    let vals = o.values.clone();
    let ops = &mut o.link1;
    l.cursor_mut().insert_after(&mut l, ops, d);
    l.cursor_mut().insert_after(&mut l, ops, c);
    l.cursor_mut().insert_after(&mut l, ops, b);
    l.cursor_mut().insert_after(&mut l, ops, a);

    assert_eq!(vals[l.front(ops).get().unwrap()], 1);
    assert_eq!(vals[l.cursor_from_ptr(b).get().unwrap()], 2);
    assert_eq!(vals[l.cursor_mut_from_ptr(c).get().unwrap()], 3);

    let mut v = Vec::new();
    let mut it = l.iter();
    while let Some(x) = it.next(&l, ops) {
        v.push(vals[x]);
    }
    assert_eq!(v, [1, 2, 3, 4]);
    let mut v = Vec::new();
    let mut it = l.iter().clone();
    while let Some(x) = it.next(&l, ops) {
        v.push(vals[x]);
    }
    assert_eq!(v, [1, 2, 3, 4]);
    assert_eq!(values(&l, ops, &vals), [1, 2, 3, 4]);

    assert_eq!(format!("{:?}", values(&l, ops, &vals)), "[1, 2, 3, 4]");

    let mut v = Vec::new();
    let mut it = l.take().into_iter();
    while let Some(x) = it.next(ops) {
        v.push(vals[x]);
    }
    assert_eq!(v, [1, 2, 3, 4]);
    assert!(l.is_empty());
    assert!(!ops.link(a).is_linked());
    assert!(!ops.link(b).is_linked());
    assert!(!ops.link(c).is_linked());
    assert!(!ops.link(d).is_linked());

    l.cursor_mut().insert_after(&mut l, ops, d);
    l.cursor_mut().insert_after(&mut l, ops, c);
    l.cursor_mut().insert_after(&mut l, ops, b);
    l.cursor_mut().insert_after(&mut l, ops, a);
    l.clear(ops);
    assert!(l.is_empty());
    assert!(!ops.link(a).is_linked());
    assert!(!ops.link(b).is_linked());
    assert!(!ops.link(c).is_linked());
    assert!(!ops.link(d).is_linked());
}

#[test]
fn test_multi_list() {
    let mut o = Objs::new();
    let mut l1 = SinglyLinkedList::new();
    let mut l2 = SinglyLinkedList::new();
    let a = o.make(1);
    let b = o.make(2);
    let c = o.make(3);
    let d = o.make(4);
    l1.cursor_mut().insert_after(&mut l1, &mut o.link1, d);
    l1.cursor_mut().insert_after(&mut l1, &mut o.link1, c);
    l1.cursor_mut().insert_after(&mut l1, &mut o.link1, b);
    l1.cursor_mut().insert_after(&mut l1, &mut o.link1, a);
    l2.cursor_mut().insert_after(&mut l2, &mut o.link2, a);
    l2.cursor_mut().insert_after(&mut l2, &mut o.link2, b);
    l2.cursor_mut().insert_after(&mut l2, &mut o.link2, c);
    l2.cursor_mut().insert_after(&mut l2, &mut o.link2, d);
    assert_eq!(values(&l1, &o.link1, &o.values), [1, 2, 3, 4]);
    assert_eq!(values(&l2, &o.link2, &o.values), [4, 3, 2, 1]);
}

#[test]
fn test_fast_clear() {
    let mut o = Objs::new();
    let mut l = SinglyLinkedList::new();
    let a = o.make(1);
    let b = o.make(2);
    let c = o.make(3);
    let ops = &mut o.link1;
    l.cursor_mut().insert_after(&mut l, ops, a);
    l.cursor_mut().insert_after(&mut l, ops, b);
    l.cursor_mut().insert_after(&mut l, ops, c);

    l.fast_clear();
    assert!(l.is_empty());
    assert!(ops.link(a).is_linked());
    assert!(ops.link(b).is_linked());
    assert!(ops.link(c).is_linked());
    ops.mark_unlinked(a);
    ops.mark_unlinked(b);
    ops.mark_unlinked(c);
    assert!(l.is_empty());
    assert!(!ops.link(a).is_linked());
    assert!(!ops.link(b).is_linked());
    assert!(!ops.link(c).is_linked());
}

#[test]
fn test_non_static() {
    let v = 5;
    let objs: Vec<&i32> = vec![&v, &v];
    let mut ops = LinkOps::new(objs.len());
    let a = 0;
    let b = 1;
    let mut l = SinglyLinkedList::new();
    l.cursor_mut().insert_after(&mut l, &mut ops, a);
    l.cursor_mut().insert_after(&mut l, &mut ops, b);
    assert_eq!(*objs[l.front(&ops).get().unwrap()], 5);
    assert_eq!(*objs[l.front(&ops).get().unwrap()], 5);
}

#[test]
fn test_clone_pointer_rc() {
    let a = Rc::new(5usize);
    let pointers = vec![a.clone()];
    let mut ops = LinkOps::new(pointers.len());
    let mut l = SinglyLinkedList::new();
    l.cursor_mut().insert_after(&mut l, &mut ops, 0);
    assert_eq!(2, Rc::strong_count(&a));

    let pointer = l.front(&ops).clone_pointer(&pointers).unwrap();
    assert_eq!(*pointer, 5);
    assert_eq!(3, Rc::strong_count(&a));

    l.clear(&mut ops);
    assert!(l.front(&ops).clone_pointer(&pointers).is_none());
}

#[test]
fn test_clone_pointer_arc() {
    let a = Arc::new(5usize);
    let pointers = vec![a.clone()];
    let mut ops = LinkOps::new(pointers.len());
    let mut l = SinglyLinkedList::new();
    l.cursor_mut().insert_after(&mut l, &mut ops, 0);
    assert_eq!(2, Arc::strong_count(&a));

    let pointer = l.front(&ops).clone_pointer(&pointers).unwrap();
    assert_eq!(*pointer, 5);
    assert_eq!(3, Arc::strong_count(&a));

    l.clear(&mut ops);
    assert!(l.front(&ops).clone_pointer(&pointers).is_none());
}

#[test]
fn link_clone_and_default_are_unlinked() {
    let mut o = Objs::new();
    let a = o.make(1);
    let mut l = SinglyLinkedList::new();
    l.push_front(&mut o.link1, a);
    let copy = o.link1.link(a).clone();
    assert!(o.link1.link(a).is_linked());
    assert!(!copy.is_linked());
    assert!(!Link::default().is_linked());
    let mut fresh = Link::new();
    fresh.force_unlink();
    assert_eq!(fresh.to_debug_string(), "unlinked");
}
