use pyri_state::channel::wrap_add;
use pyri_state::pattern::Pattern;
use pyri_state::storage::StateStorage;

#[test]
fn patterns_gate_values() {
    assert!(Pattern::Value(3).admits(3));
    assert!(!Pattern::Value(3).admits(4));
    assert!(Pattern::Any.admits(99));
    assert!(Pattern::Range(3, 8).admits(3));
    assert!(Pattern::Range(3, 8).admits(8));
    assert!(!Pattern::Range(3, 8).admits(9));
    assert!(!Pattern::Any.admits_side(None));
    assert!(Pattern::Any.admits_side(Some(0)));
}

#[test]
fn slot_storage_moves_pending_on_commit() {
    let mut s = StateStorage::slot_init(5);
    assert_eq!(s.get_current(), None);
    assert_eq!(s.get_next(), Some(5));
    s.commit();
    assert_eq!(s.get_current(), Some(5));
    s.set_next(None);
    assert_eq!(s.get_next(), None);
    s.commit();
    assert_eq!(s.get_current(), None);
}

#[test]
fn stack_storage_pops_on_disable() {
    let mut s = StateStorage::Stack { current: None, stack: Vec::new() };
    s.push(1);
    s.push(2);
    assert_eq!(s.get_next(), Some(2));
    s.set_next(Some(3));
    assert_eq!(s.get_next(), Some(3));
    s.set_next(None);
    assert_eq!(s.get_next(), Some(1));
    s.commit();
    assert_eq!(s.get_current(), Some(1));
    s.pop();
    assert_eq!(s.get_next(), None);
}

#[test]
fn wrap_add_wraps_around_the_tag_domain() {
    assert_eq!(wrap_add(2, 3), 5);
    assert_eq!(wrap_add(u64::MAX, 1), 0);
    assert_eq!(wrap_add(u64::MAX, 5), 4);
}
