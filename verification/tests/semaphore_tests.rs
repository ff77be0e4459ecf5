use threadkit::semaphore::Semaphore;

#[test]
fn new_semaphore_holds_its_permits() {
    let s = Semaphore::new(3);
    assert_eq!(s.count(), 3);
}

#[test]
fn wait_takes_a_permit_when_one_is_free() {
    let mut s = Semaphore::new(1);
    assert!(s.wait());
    assert_eq!(s.count(), 0);
}

#[test]
fn wait_on_zero_blocks_and_changes_nothing() {
    let mut s = Semaphore::new(0);
    assert!(!s.wait());
    assert_eq!(s.count(), 0);
}

#[test]
fn post_then_wait_restores_the_count() {
    let mut s = Semaphore::new(0);
    s.post();
    assert_eq!(s.count(), 1);
    assert!(s.wait());
    assert_eq!(s.count(), 0);
}

#[test]
fn permits_are_conserved_over_a_run() {
    // Start with 2; post, wait, wait, wait (blocked), post: 2 + 2 - 3 = 1.
    let mut s = Semaphore::new(2);
    s.post();
    assert!(s.wait());
    assert!(s.wait());
    assert!(s.wait());
    assert!(!s.wait());
    s.post();
    assert_eq!(s.count(), 1);
}

#[test]
fn parent_child_turns_alternate() {
    // The parent starts with the permit; the child waits.
    let mut parent = Semaphore::new(1);
    let mut child = Semaphore::new(0);
    let mut order = Vec::new();
    for _ in 0..3 {
        assert!(!child.wait());
        assert!(parent.wait());
        order.push("parent");
        child.post();
        assert!(!parent.wait());
        assert!(child.wait());
        order.push("child");
        parent.post();
    }
    assert_eq!(order, vec!["parent", "child", "parent", "child", "parent", "child"]);
}
