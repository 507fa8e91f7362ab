use ruukh_vdom::component::{Component, Lifecycle, MessageSender, Render, RootParent, Status};

#[test]
fn state_dirty_round_trip_after_set_state() {
    let mut status = Status::new(0u32, MessageSender::new());
    status.set_state(1u32, &0u32);
    assert!(status.take_state_dirty());
    assert!(!status.take_state_dirty());
    assert_eq!(*status.state_as_ref(), 1u32);
}

#[test]
fn set_state_with_equal_value_stays_clean() {
    let mut status = Status::new(7u32, MessageSender::new());
    status.set_state(7u32, &7u32);
    assert!(!status.take_state_dirty());
    assert_eq!(status.react_requests(), 1);
}

#[test]
fn set_state_always_requests_a_react() {
    let mut status = Status::new(0u32, MessageSender::new());
    status.set_state(1u32, &0u32);
    status.set_state(2u32, &1u32);
    assert_eq!(status.react_requests(), 2);
}

#[test]
fn update_props_with_identical_props_is_clean() {
    let mut status = Status::new((), MessageSender::new());
    let mut current = 4u64;
    let prev = status.update_props(&mut current, 4u64);
    assert_eq!(prev, None);
    assert_eq!(current, 4u64);
    assert!(!status.take_props_dirty());
}

#[test]
fn update_props_with_differing_props_returns_previous() {
    let mut status = Status::new((), MessageSender::new());
    let mut current = 4u64;
    let prev = status.update_props(&mut current, 9u64);
    assert_eq!(prev, Some(4u64));
    assert_eq!(current, 9u64);
    assert!(status.take_props_dirty());
    assert!(!status.take_props_dirty());
}

#[test]
fn mark_and_take_flags() {
    let mut status = Status::new(0i32, MessageSender::new());
    assert!(!status.take_state_dirty());
    assert!(!status.take_props_dirty());
    status.mark_state_dirty();
    status.mark_props_dirty();
    assert!(status.take_state_dirty());
    assert!(status.take_props_dirty());
    assert!(!status.take_state_dirty());
    assert!(!status.take_props_dirty());
}

#[test]
fn state_as_mut_exposes_the_cell() {
    let mut status = Status::new(10u32, MessageSender::new());
    *status.state_as_mut() = 11u32;
    assert_eq!(*status.state_as_ref(), 11u32);
}

#[test]
fn do_react_counts_requests() {
    let mut status = Status::new((), MessageSender::new());
    assert_eq!(status.react_requests(), 0);
    status.do_react();
    status.do_react();
    assert_eq!(status.react_requests(), 2);
}

#[test]
fn root_parent_is_inert() {
    let mut root: RootParent = RootParent::init((), (), Status::new((), MessageSender::new()));
    assert_eq!(root.update((), ()), None);
    root.refresh_state();
    assert!(!root.take_state_dirty());
    assert!(!root.take_props_dirty());
    root.created();
    root.updated(());
    root.mounted();
    root.destroyed();
    assert_eq!(root.render().markup_string(), "");
}
