use chat_relay::registry::AlreadyRegistered;
use chat_relay::registry::ClientId;
use chat_relay::registry::Registry;

fn id(n: u16) -> ClientId {
    ClientId { host: 0x7f00_0001, port: n }
}

#[test]
fn new_registry_is_empty() {
    let r = Registry::new();
    assert_eq!(r.len(), 0);
    assert!(!r.contains(id(1)));
    assert!(r.snapshot_others(id(1)).is_empty());
}

#[test]
fn register_adds_a_client_with_an_empty_queue() {
    let mut r = Registry::new();
    assert_eq!(r.register(id(1)), Ok(()));
    assert_eq!(r.len(), 1);
    assert!(r.contains(id(1)));
    assert_eq!(r.take_outbox(id(1)), Some(vec![]));
}

#[test]
fn register_twice_fails_and_changes_nothing() {
    let mut r = Registry::new();
    r.register(id(1)).unwrap();
    r.register(id(2)).unwrap();
    r.deliver_to_others(id(2), b"x");
    assert_eq!(r.register(id(1)), Err(AlreadyRegistered));
    assert_eq!(r.len(), 2);
    assert_eq!(r.snapshot_others(id(9)), vec![id(1), id(2)]);
    assert_eq!(r.take_outbox(id(1)), Some(b"x".to_vec()));
}

#[test]
fn identity_is_host_and_port() {
    let mut r = Registry::new();
    r.register(ClientId { host: 1, port: 80 }).unwrap();
    assert_eq!(r.register(ClientId { host: 2, port: 80 }), Ok(()));
    assert_eq!(r.register(ClientId { host: 1, port: 81 }), Ok(()));
    assert_eq!(r.register(ClientId { host: 1, port: 80 }), Err(AlreadyRegistered));
    assert_eq!(r.len(), 3);
}

#[test]
fn deregister_removes_the_client() {
    let mut r = Registry::new();
    r.register(id(1)).unwrap();
    r.register(id(2)).unwrap();
    r.register(id(3)).unwrap();
    assert!(r.deregister(id(2)));
    assert_eq!(r.len(), 2);
    assert!(!r.contains(id(2)));
    assert_eq!(r.snapshot_others(id(9)), vec![id(1), id(3)]);
}

#[test]
fn deregister_of_an_absent_client_is_a_no_op() {
    let mut r = Registry::new();
    assert!(!r.deregister(id(1)));
    r.register(id(1)).unwrap();
    r.register(id(2)).unwrap();
    r.deliver_to_others(id(1), b"queued");
    assert!(!r.deregister(id(7)));
    assert_eq!(r.len(), 2);
    assert_eq!(r.snapshot_others(id(7)), vec![id(1), id(2)]);
    assert_eq!(r.take_outbox(id(2)), Some(b"queued".to_vec()));
    assert_eq!(r.take_outbox(id(1)), Some(vec![]));
}

#[test]
fn deregister_twice_is_as_once() {
    let mut r = Registry::new();
    r.register(id(1)).unwrap();
    r.register(id(2)).unwrap();
    assert!(r.deregister(id(1)));
    assert!(!r.deregister(id(1)));
    assert_eq!(r.len(), 1);
    assert!(r.contains(id(2)));
    // The other operations go on as before.
    assert_eq!(r.register(id(3)), Ok(()));
    assert_eq!(r.deliver_to_others(id(3), b"z"), 1);
    assert_eq!(r.take_outbox(id(2)), Some(b"z".to_vec()));
    assert_eq!(r.register(id(1)), Ok(()));
    assert_eq!(r.len(), 3);
}

#[test]
fn deregister_drops_what_was_queued() {
    let mut r = Registry::new();
    r.register(id(1)).unwrap();
    r.register(id(2)).unwrap();
    r.deliver_to_others(id(1), b"lost");
    assert!(r.deregister(id(2)));
    assert_eq!(r.take_outbox(id(2)), None);
    r.register(id(2)).unwrap();
    assert_eq!(r.take_outbox(id(2)), Some(vec![]));
}

#[test]
fn snapshot_others_leaves_out_one_and_keeps_the_order() {
    let mut r = Registry::new();
    for n in [5, 3, 9, 1] {
        r.register(id(n)).unwrap();
    }
    assert_eq!(r.snapshot_others(id(3)), vec![id(5), id(9), id(1)]);
    assert_eq!(r.snapshot_others(id(5)), vec![id(3), id(9), id(1)]);
    assert_eq!(r.snapshot_others(id(1)), vec![id(5), id(3), id(9)]);
    assert_eq!(r.snapshot_others(id(2)), vec![id(5), id(3), id(9), id(1)]);
}

#[test]
fn deliver_reaches_everyone_but_the_sender() {
    let mut r = Registry::new();
    for n in [1, 2, 3] {
        r.register(id(n)).unwrap();
    }
    assert_eq!(r.deliver_to_others(id(1), b"abc"), 2);
    assert_eq!(r.take_outbox(id(1)), Some(vec![]));
    assert_eq!(r.take_outbox(id(2)), Some(b"abc".to_vec()));
    assert_eq!(r.take_outbox(id(3)), Some(b"abc".to_vec()));
}

#[test]
fn deliver_from_a_stranger_reaches_everyone() {
    let mut r = Registry::new();
    r.register(id(1)).unwrap();
    r.register(id(2)).unwrap();
    assert_eq!(r.deliver_to_others(id(9), b"q"), 2);
    assert_eq!(r.take_outbox(id(1)), Some(b"q".to_vec()));
    assert_eq!(r.take_outbox(id(2)), Some(b"q".to_vec()));
}

#[test]
fn deliver_to_an_empty_registry() {
    let mut r = Registry::new();
    assert_eq!(r.deliver_to_others(id(1), b"q"), 0);
    r.register(id(1)).unwrap();
    assert_eq!(r.deliver_to_others(id(1), b"q"), 0);
    assert_eq!(r.take_outbox(id(1)), Some(vec![]));
}

#[test]
fn queues_grow_in_order_and_are_emptied_by_taking() {
    let mut r = Registry::new();
    r.register(id(1)).unwrap();
    r.register(id(2)).unwrap();
    r.deliver_to_others(id(1), b"one,");
    r.deliver_to_others(id(1), b"two,");
    r.deliver_to_others(id(2), b"other");
    r.deliver_to_others(id(1), b"three");
    assert_eq!(r.take_outbox(id(2)), Some(b"one,two,three".to_vec()));
    assert_eq!(r.take_outbox(id(2)), Some(vec![]));
    assert_eq!(r.take_outbox(id(1)), Some(b"other".to_vec()));
    assert_eq!(r.len(), 2);
}

#[test]
fn take_outbox_of_an_absent_client() {
    let mut r = Registry::new();
    assert_eq!(r.take_outbox(id(1)), None);
    r.register(id(2)).unwrap();
    assert_eq!(r.take_outbox(id(1)), None);
    assert_eq!(r.len(), 1);
}
