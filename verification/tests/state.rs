use yuiui::context::RenderContext;
use yuiui::id::{Id, IdStack};
use yuiui::state::{same_path, Atom};

#[test]
fn test_atom_subscribe_set_update() {
    let mut atom = Atom::new(1u32);
    assert_eq!(*atom.get(), 1);
    atom.subscribe(&[Id::new(2)], 1);
    atom.subscribe(&[Id::new(2), Id::new(3)], 0);
    atom.subscribe(&[Id::new(2)], 3);
    atom.subscribe(&[Id::new(2)], 2);
    let subscribers = atom.set(5);
    assert_eq!(*atom.get(), 5);
    assert_eq!(subscribers.len(), 2);
    assert_eq!(subscribers[0].id_path, vec![Id::new(2)]);
    assert_eq!(subscribers[0].level, 3);
    assert_eq!(subscribers[1].id_path, vec![Id::new(2), Id::new(3)]);
    assert_eq!(subscribers[1].level, 0);
    assert!(atom.set(6).is_empty());
    atom.subscribe(&[], 4);
    let subscribers = atom.update(|v| *v += 1);
    assert_eq!(*atom.get(), 7);
    assert_eq!(subscribers.len(), 1);
}

#[test]
fn test_render_context_use_atom() {
    let mut stack = IdStack::new();
    let id = stack.next();
    stack.push(id);
    let state = 42u8;
    let context = RenderContext { id_stack: &mut stack, state: &state, level: 2 };
    assert_eq!(context.id_path(), &[id]);
    assert_eq!(*context.state(), 42);
    let mut atom = Atom::new("x");
    assert_eq!(*context.use_atom(&mut atom), "x");
    let subscribers = atom.set("y");
    assert_eq!(subscribers.len(), 1);
    assert_eq!(subscribers[0].id_path, vec![id]);
    assert_eq!(subscribers[0].level, 2);
}

#[test]
fn test_same_path() {
    assert!(same_path(&[], &[]));
    assert!(same_path(&[Id::new(3)], &[Id::new(3)]));
    assert!(!same_path(&[Id::new(3)], &[Id::new(4)]));
    assert!(!same_path(&[Id::new(3)], &[Id::new(3), Id::new(4)]));
}
