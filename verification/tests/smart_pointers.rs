use iaas_core::cons_list::List::Cons;
use iaas_core::cons_list::List::Nil;
use std::cell::RefCell;
use std::rc::Rc;

#[test]
fn test_rc_counting() {
    let a = Rc::new(Cons(5, Rc::new(Nil)));
    assert_eq!(Rc::strong_count(&a), 1);

    let _b = Rc::clone(&a);
    assert_eq!(Rc::strong_count(&a), 2);

    {
        let _c = Rc::clone(&a);
        assert_eq!(Rc::strong_count(&a), 3);
    }

    assert_eq!(Rc::strong_count(&a), 2);
}

#[test]
fn test_refcell_mutation() {
    let x = RefCell::new(10);
    *x.borrow_mut() += 5;
    assert_eq!(*x.borrow(), 15);
}
