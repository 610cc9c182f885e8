use yuiui::id::{Id, IdStack};

#[test]
fn test_id_stack_push_pop_next() {
    let mut stack = IdStack::new();
    assert_eq!(stack.id(), Id::root());
    assert!(stack.id_path().is_empty());
    let a = stack.next();
    let b = stack.next();
    assert_eq!(a, Id::new(2));
    assert_eq!(b, Id::new(3));
    stack.push(a);
    stack.push(b);
    assert_eq!(stack.id(), b);
    assert_eq!(stack.id_path(), &[a, b]);
    stack.pop();
    assert_eq!(stack.id(), a);
    stack.pop();
    assert_eq!(stack.id(), Id::root());
}

#[test]
fn test_id_basics() {
    assert!(Id::root().is_root());
    assert!(!Id::new(5).is_root());
    assert_eq!(Id::new(5).get(), 5);
    assert_eq!(u32::from(Id::new(9)), 9);
    assert_eq!(Id::from_path(&[]), Id::root());
    assert_eq!(Id::from_path(&[Id::new(4), Id::new(6)]), Id::new(6));
    assert_eq!(Id::new(6).next(), Id::new(7));
}
