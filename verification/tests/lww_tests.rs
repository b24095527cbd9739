use rga_core::LwwRegister;
use rga_core::OperationId;

fn id(replica_id: &str, lamport: u64) -> OperationId {
    OperationId::new(
        "session".to_string(),
        replica_id.to_string(),
        lamport,
        lamport,
    )
}

#[test]
fn empty_register_has_no_value() {
    let register = LwwRegister::<String>::new();

    assert_eq!(register.value(), None);
    assert_eq!(register.timestamp(), None);
}

#[test]
fn newer_write_wins() {
    let mut register = LwwRegister::new();

    assert!(register.set("old", id("a", 1)));
    assert!(register.set("new", id("a", 2)));

    assert_eq!(register.value(), Some(&"new"));
}

#[test]
fn older_write_is_ignored() {
    let mut register = LwwRegister::new();

    assert!(register.set("new", id("a", 2)));
    assert!(!register.set("old", id("a", 1)));

    assert_eq!(register.value(), Some(&"new"));
}

#[test]
fn merge_converges_to_same_value() {
    let mut left = LwwRegister::new();
    let mut right = LwwRegister::new();
    left.set("left", id("a", 1));
    right.set("right", id("b", 1));

    let mut left_first = left.clone();
    let mut right_first = right.clone();
    left_first.merge(&right);
    right_first.merge(&left);

    assert_eq!(left_first, right_first);
    assert_eq!(left_first.value(), Some(&"right"));
}

#[test]
fn merge_is_commutative_and_keeps_the_newest_write() {
    let mut a = LwwRegister::new();
    a.set("left", id("a", 4));
    let mut b = LwwRegister::new();
    b.set("right", id("b", 4));
    let mut x = a.clone();
    let mut y = b.clone();
    assert!(x.merge(&b));
    assert!(!y.merge(&a));
    assert_eq!(x, y);
    assert_eq!(x.timestamp(), Some(&id("b", 4)));
    assert!(!x.merge(&b));
    assert_eq!(x, y);

    let mut same = a.clone();
    assert!(!same.merge(&a));
    assert_eq!(same, a);
}

#[test]
fn merge_of_a_newer_write_with_the_same_value_changes_nothing_visible() {
    let mut a = LwwRegister::new();
    a.set("x", id("a", 1));
    let mut b = LwwRegister::new();
    b.set("x", id("a", 2));

    assert!(!a.merge(&b));
    assert_eq!(a.value(), Some(&"x"));
    assert_eq!(a.timestamp(), Some(&id("a", 2)));
    assert!(!a.merge(&b));
}
