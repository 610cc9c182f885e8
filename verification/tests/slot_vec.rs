use yuiui::slot_vec::{Slot, SlotVec};

#[test]
fn test_insert_and_remove() {
    let mut xs = SlotVec::new();

    assert_eq!(xs.next_slot_index(), 0);
    assert_eq!(xs.entries(), []);
    assert_eq!(xs.free_indexes(), []);
    assert_eq!(xs.slots(), []);

    assert_eq!(xs.insert("foo"), 0);
    assert_eq!(xs.next_slot_index(), 1);
    assert_eq!(xs.entries(), [(0, &"foo")]);
    assert_eq!(xs.free_indexes(), []);
    assert_eq!(xs.slots(), [Slot::filled(0)]);

    assert_eq!(xs.insert("bar"), 1);
    assert_eq!(xs.next_slot_index(), 2);
    assert_eq!(xs.entries(), [(0, &"foo"), (1, &"bar")]);
    assert_eq!(xs.free_indexes(), []);
    assert_eq!(xs.slots(), [Slot::filled(0), Slot::filled(1)]);

    assert_eq!(xs.insert("baz"), 2);
    assert_eq!(xs.next_slot_index(), 3);
    assert_eq!(xs.entries(), [(0, &"foo"), (1, &"bar"), (2, &"baz")]);
    assert_eq!(xs.free_indexes(), []);
    assert_eq!(xs.slots(), [Slot::filled(0), Slot::filled(1), Slot::filled(2)]);

    assert_eq!(xs.insert("qux"), 3);
    assert_eq!(xs.next_slot_index(), 4);
    assert_eq!(xs.entries(), [(0, &"foo"), (1, &"bar"), (2, &"baz"), (3, &"qux")]);
    assert_eq!(xs.free_indexes(), []);
    assert_eq!(xs.slots(), [Slot::filled(0), Slot::filled(1), Slot::filled(2), Slot::filled(3)]);

    assert_eq!(xs.insert("quux"), 4);
    assert_eq!(xs.next_slot_index(), 5);
    assert_eq!(xs.entries(), [(0, &"foo"), (1, &"bar"), (2, &"baz"), (3, &"qux"), (4, &"quux")]);
    assert_eq!(xs.free_indexes(), []);
    assert_eq!(xs.slots(), [Slot::filled(0), Slot::filled(1), Slot::filled(2), Slot::filled(3), Slot::filled(4)]);

    assert_eq!(xs.remove(3), "qux");
    assert_eq!(xs.next_slot_index(), 3);
    assert_eq!(xs.entries(), [(0, &"foo"), (1, &"bar"), (2, &"baz"), (4, &"quux")]);
    assert_eq!(xs.free_indexes(), [3]);
    assert_eq!(xs.slots(), [Slot::filled(0), Slot::filled(1), Slot::filled(2), Slot::free(0), Slot::filled(3)]);

    assert_eq!(xs.remove(1), "bar");
    assert_eq!(xs.next_slot_index(), 1);
    assert_eq!(xs.entries(), [(0, &"foo"), (4, &"quux"), (2, &"baz")]);
    assert_eq!(xs.free_indexes(), [3, 1]);
    assert_eq!(xs.slots(), [Slot::filled(0), Slot::free(1), Slot::filled(2), Slot::free(0), Slot::filled(1)]);

    assert_eq!(xs.remove(0), "foo");
    assert_eq!(xs.next_slot_index(), 0);
    assert_eq!(xs.entries(), [(2, &"baz"), (4, &"quux")]);
    assert_eq!(xs.free_indexes(), [3, 1, 0]);
    assert_eq!(xs.slots(), [Slot::free(2), Slot::free(1), Slot::filled(0), Slot::free(0), Slot::filled(1)]);

    assert_eq!(xs.remove(4), "quux");
    assert_eq!(xs.next_slot_index(), 1);
    assert_eq!(xs.entries(), [(2, &"baz")]);
    assert_eq!(xs.free_indexes(), [0, 1]);
    assert_eq!(xs.slots(), [Slot::free(0), Slot::free(1), Slot::filled(0)]);

    assert_eq!(xs.insert("corge"), 1);
    assert_eq!(xs.next_slot_index(), 0);
    assert_eq!(xs.entries(), [(2, &"baz"), (1, &"corge")]);
    assert_eq!(xs.free_indexes(), [0]);
    assert_eq!(xs.slots(), [Slot::free(0), Slot::filled(1), Slot::filled(0)]);

    assert_eq!(xs.remove(2), "baz");
    assert_eq!(xs.next_slot_index(), 0);
    assert_eq!(xs.entries(), [(1, &"corge")]);
    assert_eq!(xs.free_indexes(), [0]);
    assert_eq!(xs.slots(), [Slot::free(0), Slot::filled(0)]);

    assert_eq!(xs.remove(1), "corge");
    assert_eq!(xs.next_slot_index(), 0);
    assert_eq!(xs.entries(), []);
    assert_eq!(xs.free_indexes(), []);
    assert_eq!(xs.slots(), []);
}

#[test]
fn test_insert_at() {
    let mut xs = SlotVec::new();

    xs.insert_at(5, "foo");

    assert_eq!(xs.entries(), [(5, &"foo")]);
    assert_eq!(xs.free_indexes(), [0, 1, 2, 3, 4]);
    assert_eq!(xs.slots(), [Slot::free(0), Slot::free(1), Slot::free(2), Slot::free(3), Slot::free(4), Slot::filled(0)]);

    xs.insert_at(2, "bar");

    assert_eq!(xs.entries(), [(5, &"foo"), (2, &"bar")]);
    assert_eq!(xs.free_indexes(), [0, 1, 4, 3]);
    assert_eq!(xs.slots(), [Slot::free(0), Slot::free(1), Slot::filled(1), Slot::free(3), Slot::free(2), Slot::filled(0)]);

    xs.insert_at(0, "baz");

    assert_eq!(xs.entries(), [(5, &"foo"), (2, &"bar"), (0, &"baz")]);
    assert_eq!(xs.free_indexes(), [3, 1, 4]);
    assert_eq!(xs.slots(), [Slot::filled(2), Slot::free(1), Slot::filled(1), Slot::free(0), Slot::free(2), Slot::filled(0)]);

    xs.insert_at(1, "qux");

    assert_eq!(xs.entries(), [(5, &"foo"), (2, &"bar"), (0, &"baz"), (1, &"qux")]);
    assert_eq!(xs.free_indexes(), [3, 4]);
    assert_eq!(xs.slots(), [Slot::filled(2), Slot::filled(3), Slot::filled(1), Slot::free(0), Slot::free(1), Slot::filled(0)]);

    xs.insert_at(4, "quux");

    assert_eq!(xs.entries(), [(5, &"foo"), (2, &"bar"), (0, &"baz"), (1, &"qux"), (4, &"quux")]);
    assert_eq!(xs.free_indexes(), [3]);
    assert_eq!(xs.slots(), [Slot::filled(2), Slot::filled(3), Slot::filled(1), Slot::free(0), Slot::filled(4), Slot::filled(0)]);

    xs.insert_at(3, "corge");

    assert_eq!(xs.entries(), [(5, &"foo"), (2, &"bar"), (0, &"baz"), (1, &"qux"), (4, &"quux"), (3, &"corge")]);
    assert_eq!(xs.free_indexes(), []);
    assert_eq!(xs.slots(), [Slot::filled(2), Slot::filled(3), Slot::filled(1), Slot::filled(5), Slot::filled(4), Slot::filled(0)]);
}

#[test]
fn test_get() {
    let mut xs = SlotVec::new();
    let foo = xs.insert("foo");
    let bar = xs.insert("bar");
    let baz = xs.insert("baz");

    assert_eq!(xs.len(), 3);
    assert_eq!(xs.slot_size(), 3);

    assert_eq!(xs.get(foo), Some(&"foo"));
    assert_eq!(xs.get(bar), Some(&"bar"));
    assert_eq!(xs.get(baz), Some(&"baz"));
    assert_eq!(xs.get(baz + 1), None);

    assert_eq!(xs.get_mut(foo), Some(&mut "foo"));
    assert_eq!(xs.get_mut(bar), Some(&mut "bar"));
    assert_eq!(xs.get_mut(baz), Some(&mut "baz"));
    assert_eq!(xs.get_mut(baz + 1), None);

    assert_eq!(xs.has(foo), true);
    assert_eq!(xs.has(bar), true);
    assert_eq!(xs.has(baz), true);
    assert_eq!(xs.has(baz + 1), false);

    xs.remove(foo);
    xs.remove(bar);

    assert_eq!(xs.len(), 1);
    assert_eq!(xs.slot_size(), 3);

    assert_eq!(xs.get(foo), None);
    assert_eq!(xs.get(bar), None);
    assert_eq!(xs.get(baz), Some(&"baz"));
    assert_eq!(xs.get(baz + 1), None);

    assert_eq!(xs.get_mut(foo), None);
    assert_eq!(xs.get_mut(bar), None);
    assert_eq!(xs.get_mut(baz), Some(&mut "baz"));
    assert_eq!(xs.get_mut(baz + 1), None);

    assert_eq!(xs.has(foo), false);
    assert_eq!(xs.has(bar), false);
    assert_eq!(xs.has(baz), true);
    assert_eq!(xs.has(baz + 1), false);

    xs.clear();

    assert_eq!(xs.len(), 0);
    assert_eq!(xs.slot_size(), 0);

    assert_eq!(xs.get(foo), None);
    assert_eq!(xs.get(bar), None);
    assert_eq!(xs.get(baz), None);
    assert_eq!(xs.get(baz + 1), None);

    assert_eq!(xs.get_mut(foo), None);
    assert_eq!(xs.get_mut(bar), None);
    assert_eq!(xs.get_mut(baz), None);
    assert_eq!(xs.get_mut(baz + 1), None);

    assert_eq!(xs.has(foo), false);
    assert_eq!(xs.has(bar), false);
    assert_eq!(xs.has(baz), false);
    assert_eq!(xs.has(baz + 1), false);
}

#[test]
fn test_iterator() {
    let mut xs = SlotVec::new();
    let foo = xs.insert("foo");
    let bar = xs.insert("bar");
    let baz = xs.insert("baz");

    assert_eq!(xs.iter(), [&"foo", &"bar", &"baz"]);
    assert_eq!(xs.iter_mut(), [&mut "foo", &mut "bar", &mut "baz"]);
    assert_eq!(xs.entries(), [(foo, &"foo"), (bar, &"bar"), (baz, &"baz")]);
    assert_eq!(xs.entries_mut(), [(foo, &mut "foo"), (bar, &mut "bar"), (baz, &mut "baz")]);

    xs.remove(foo);

    assert_eq!(xs.iter(), [&"baz", &"bar"]);
    assert_eq!(xs.iter_mut(), [&mut "baz", &mut "bar"]);
    assert_eq!(xs.entries(), [(baz, &"baz"), (bar, &"bar")]);
    assert_eq!(xs.entries_mut(), [(baz, &mut "baz"), (bar, &mut "bar")]);

    xs.remove(baz);

    assert_eq!(xs.iter(), [&"bar"]);
    assert_eq!(xs.iter_mut(), [&mut "bar"]);
    assert_eq!(xs.entries(), [(bar, &"bar")]);
    assert_eq!(xs.entries_mut(), [(bar, &mut "bar")]);

    xs.remove(bar);

    assert_eq!(xs.iter(), &[] as &[&&str]);
    assert_eq!(xs.iter_mut(), &[] as &[&mut &str]);
    assert_eq!(xs.entries(), &[] as &[(usize, &&str)]);
    assert_eq!(xs.entries_mut(), &[] as &[(usize, &mut &str)]);
}

#[test]
fn test_reinsert_reuses_latest_freed_slot() {
    let mut xs = SlotVec::new();
    let a = xs.insert(10u32);
    let b = xs.insert(20u32);
    let c = xs.insert(30u32);
    assert_eq!(xs.remove(a), 10);
    assert_eq!(xs.remove(b), 20);
    assert_eq!(xs.next_slot_index(), b);
    assert_eq!(xs.insert(40), b);
    assert_eq!(xs.insert(50), a);
    assert_eq!(xs.get(c), Some(&30));
    assert_eq!(xs.len(), 3);
}

#[test]
fn test_remove_last_trims_trailing_free_slots() {
    let mut xs = SlotVec::new();
    let a = xs.insert('a');
    let b = xs.insert('b');
    let c = xs.insert('c');
    xs.remove(b);
    assert_eq!(xs.slot_size(), 3);
    xs.remove(c);
    assert_eq!(xs.slot_size(), 1);
    assert_eq!(xs.free_indexes(), []);
    assert_eq!(xs.get(a), Some(&'a'));
}

#[test]
fn test_write_through_mutable_views() {
    let mut xs = SlotVec::new();
    let a = xs.insert(1u64);
    let b = xs.insert(2u64);
    if let Some(v) = xs.get_mut(a) {
        *v = 7;
    }
    for (slot, v) in xs.entries_mut() {
        *v += slot as u64;
    }
    for v in xs.iter_mut() {
        *v *= 10;
    }
    assert_eq!(xs.get(a), Some(&70));
    assert_eq!(xs.get(b), Some(&30));
    let mut many = xs.get_many_mut(vec![b, a]);
    assert_eq!(many.len(), 2);
    assert_eq!(many[0].0, b);
    *many[1].1 = 5;
    assert_eq!(xs.get(a), Some(&5));
}

#[test]
fn test_insert_at_beyond_end_then_fill_gap() {
    let mut xs = SlotVec::new();
    xs.insert_at(3, "d");
    assert_eq!(xs.len(), 1);
    assert_eq!(xs.slot_size(), 4);
    assert_eq!(xs.next_slot_index(), 2);
    assert_eq!(xs.insert("c"), 2);
    assert_eq!(xs.insert("b"), 1);
    assert_eq!(xs.insert("a"), 0);
    assert_eq!(xs.insert("e"), 4);
    assert_eq!(xs.iter(), [&"d", &"c", &"b", &"a", &"e"]);
}
