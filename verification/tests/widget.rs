use yuiui::component_stack::ComponentTermination;
use yuiui::element::{ComponentElement, Hook, MemoizeElement};
use yuiui::event::{EventDestination, Lifecycle};
use yuiui::hlist::{HCons, HNil};
use yuiui::id::Id;
use yuiui::lifecycle;
use yuiui::render_loop::RenderFlow;
use yuiui::view_node::CommitMode;
use yuiui::widget::{Axis, Fill, Flex, Null, WidgetMeta};
use std::rc::Rc;

#[test]
fn test_keys_and_fill() {
    assert_eq!(Fill::new(0xff).key(), None);
    assert_eq!(Null.key(), None);
    assert_eq!(Fill::new(0xff).with_key(3).key(), Some(3));
    assert_eq!(Flex::row().with_key(7).key(), Some(7));
    assert!(Fill::new(1).should_update(&Fill::new(2)));
    assert!(!Fill::new(1).should_update(&Fill::new(1)));
    assert_eq!(Flex::row().direction(), Axis::Horizontal);
    assert_eq!(Flex::column().direction(), Axis::Vertical);
}

#[test]
fn test_lifecycle_maps() {
    assert!(matches!(Lifecycle::Update(2).map(|x| x * 10), Lifecycle::Update(20)));
    assert!(matches!(Lifecycle::<u8>::Mount.map(|x| x), Lifecycle::Mount));
    assert!(matches!(Lifecycle::<u8>::Remount.map(|x| x), Lifecycle::Remount));
    assert!(matches!(Lifecycle::<u8>::Unmount.map(|x| x), Lifecycle::Unmount));
    let w = lifecycle::Lifecycle::DidUpdate(4);
    assert!(matches!(w.map(|x| *x + 1), lifecycle::Lifecycle::DidUpdate(5)));
    let w = lifecycle::Lifecycle::WillUpdate(4);
    assert!(matches!(w.map(|x| *x * 2), lifecycle::Lifecycle::WillUpdate(8)));
    let w: lifecycle::Lifecycle<u8> = lifecycle::Lifecycle::WillMount;
    assert!(matches!(w.map(|x| *x), lifecycle::Lifecycle::WillMount));
    let w: lifecycle::Lifecycle<u8> = lifecycle::Lifecycle::DidUnmount;
    assert!(matches!(w.map(|x| *x), lifecycle::Lifecycle::DidUnmount));
}

#[test]
fn test_small_types() {
    assert!(CommitMode::Mount.is_propagable());
    assert!(CommitMode::Unmount.is_propagable());
    assert!(!CommitMode::Update.is_propagable());
    assert_ne!(RenderFlow::Suspend, RenderFlow::Done);
    let list = HCons { head: 1u8, tail: HCons { head: "two", tail: HNil } };
    assert_eq!(list.head, 1);
    assert_eq!(list.tail.head, "two");
    let _ = ComponentTermination::<u8>::new();
    let _ = ComponentElement::new(5u8);
    let _ = MemoizeElement::new(1u8, 2u8);
    let _ = Hook::new(3u8, Rc::new(4u8));
    match EventDestination::Unicast(vec![Id::new(2)]) {
        EventDestination::Unicast(path) => assert_eq!(path, vec![Id::new(2)]),
        EventDestination::Multicast(_) => panic!("unicast expected"),
    }
}
