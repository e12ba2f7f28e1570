use wombat::connections::Connections;

#[test]
fn dispatch_delivers_one_copy_to_every_connection() {
    let mut reg = Connections::new();
    let (id1, mut rx1) = reg.add();
    let (id2, mut rx2) = reg.add();
    let (id3, mut rx3) = reg.add();
    assert_ne!(id1, id2);
    assert_ne!(id1, id3);
    assert_ne!(id2, id3);

    reg.dispatch_message("first");
    assert_eq!(rx1.try_next().unwrap(), Some("first".to_string()));
    assert_eq!(rx2.try_next().unwrap(), Some("first".to_string()));
    assert_eq!(rx3.try_next().unwrap(), Some("first".to_string()));
    assert!(rx1.try_next().is_err());
    assert!(rx2.try_next().is_err());
    assert!(rx3.try_next().is_err());
}

#[test]
fn removed_connection_receives_nothing_more_and_the_rest_exactly_once() {
    let mut reg = Connections::new();
    let (_id1, mut rx1) = reg.add();
    let (id2, mut rx2) = reg.add();
    let (_id3, mut rx3) = reg.add();

    reg.dispatch_message("before");
    reg.remove(id2);
    reg.dispatch_message("after");

    assert_eq!(rx1.try_next().unwrap(), Some("before".to_string()));
    assert_eq!(rx1.try_next().unwrap(), Some("after".to_string()));
    assert!(rx1.try_next().is_err());

    assert_eq!(rx2.try_next().unwrap(), Some("before".to_string()));
    // the sending half is gone: the queue ends instead of holding "after"
    assert_eq!(rx2.try_next().unwrap(), None);

    assert_eq!(rx3.try_next().unwrap(), Some("before".to_string()));
    assert_eq!(rx3.try_next().unwrap(), Some("after".to_string()));
    assert!(rx3.try_next().is_err());
}

#[test]
fn sequential_dispatches_arrive_in_issue_order() {
    let mut reg = Connections::new();
    let (_id, mut rx) = reg.add();
    reg.dispatch_message("one");
    reg.dispatch_message("two");
    reg.dispatch_message("three");
    assert_eq!(rx.try_next().unwrap(), Some("one".to_string()));
    assert_eq!(rx.try_next().unwrap(), Some("two".to_string()));
    assert_eq!(rx.try_next().unwrap(), Some("three".to_string()));
    assert!(rx.try_next().is_err());
}

#[test]
fn dispatch_to_empty_registry_is_a_no_op() {
    let mut reg = Connections::new();
    reg.dispatch_message("nobody hears this");
    assert_eq!(reg.minted(), 0);
}

#[test]
fn removing_an_unknown_id_changes_nothing() {
    let mut reg = Connections::new();
    let (id, mut rx) = reg.add();
    reg.remove(id.wrapping_add(1));
    reg.dispatch_message("still here");
    assert_eq!(rx.try_next().unwrap(), Some("still here".to_string()));
}

#[test]
fn identifiers_are_never_reused() {
    let mut reg = Connections::new();
    let (id1, _rx1) = reg.add();
    reg.remove(id1);
    let (id2, _rx2) = reg.add();
    assert_ne!(id1, id2);
    assert_eq!(reg.minted(), 2);
}
