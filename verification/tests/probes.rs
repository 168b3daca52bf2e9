use circular_list::NodeA;
use std::cell::Cell;

#[test]
fn no_memory_leak() {
    let mut x: Box<i32> = Box::new(0);
    *x = 10;
    drop(x);
}

#[test]
fn yeah_memory_leak() {
    let x: &mut i32 = Box::leak(Box::new(0));
    *x = 10;
}

#[test]
fn ok_stacked_borrow() {
    let mut a: i32 = 10;
    {
        let b: &mut i32 = &mut a;
        let c: &mut i32 = &mut *b;

        *c += 5;
        *b += 20;
    }
    assert_eq!(a, 35);
}

#[test]
fn bad_stacked_borrow() {
    let a: Cell<i32> = Cell::new(10);
    {
        let b: &Cell<i32> = &a;
        let c: &Cell<i32> = &*b;

        b.set(b.get() + 5);
        c.set(c.get() + 20);
    }
    assert_eq!(a.get(), 35);
}

#[test]
fn handles_may_be_copied_and_used_in_any_order() {
    let (mut list, a) = NodeA::init(vec![10]).unwrap();
    let b = a;
    let c = b;
    let added = NodeA::add(&mut list, &b, 5, None);
    let more = NodeA::add(&mut list, &c, 20, None);
    assert_eq!(NodeA::tour(&list, &a), vec![10, 20, 5]);
    assert_eq!(list.get(&added).unwrap().prev, Some(more));
    assert_eq!(NodeA::tour(&list, &a).iter().sum::<i32>(), 35);
}
