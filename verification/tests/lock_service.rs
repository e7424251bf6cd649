use coord_core::lock::{LockRequest, LockServer};

fn req(name: &str, acquire: bool, key: usize) -> LockRequest {
    LockRequest { name: name.to_string(), acquire, key }
}

fn held_by_alice() -> LockServer {
    let mut server = LockServer::new();
    let outcomes = server.epoch(&vec![req("Alice", true, 0)]);
    assert!(outcomes[0].success);
    server
}

#[test]
fn acquire_free_key_granted() {
    let mut server = LockServer::new();
    let outcomes = server.epoch(&vec![req("Alice", true, 0)]);
    assert_eq!(outcomes.len(), 1);
    assert_eq!(outcomes[0].name, "Alice");
    assert!(outcomes[0].success);
    assert_eq!(outcomes[0].key, 0);
    assert_eq!(server.current_holder(0), Some(&"Alice".to_string()));
}

#[test]
fn acquire_held_key_refused() {
    let mut server = held_by_alice();
    let outcomes = server.epoch(&vec![req("Bob", true, 0)]);
    assert_eq!(outcomes.len(), 1);
    assert_eq!(outcomes[0].name, "Bob");
    assert!(!outcomes[0].success);
    assert_eq!(outcomes[0].key, 0);
    assert_eq!(server.current_holder(0), Some(&"Alice".to_string()));
}

#[test]
fn release_by_holder_granted() {
    let mut server = held_by_alice();
    let outcomes = server.epoch(&vec![req("Alice", false, 0)]);
    assert_eq!(outcomes.len(), 1);
    assert_eq!(outcomes[0].name, "Alice");
    assert!(outcomes[0].success);
    assert_eq!(outcomes[0].key, 0);
    assert_eq!(server.current_holder(0), None);
}

#[test]
fn release_by_other_refused() {
    let mut server = held_by_alice();
    let outcomes = server.epoch(&vec![req("Bob", false, 0)]);
    assert_eq!(outcomes.len(), 1);
    assert_eq!(outcomes[0].name, "Bob");
    assert!(!outcomes[0].success);
    assert_eq!(outcomes[0].key, 0);
    assert_eq!(server.current_holder(0), Some(&"Alice".to_string()));
}

#[test]
fn outcomes_read_the_previous_snapshot() {
    // Within one epoch every request is judged against the snapshot the
    // epoch started from, while the fold applies requests in order: Bob's
    // acquire is refused (the key was held when the epoch began) even though
    // Alice's earlier release has already freed it in the fold, which then
    // hands the key to Bob in the next snapshot.
    let mut server = held_by_alice();
    let outcomes = server.epoch(&vec![req("Alice", false, 0), req("Bob", true, 0)]);
    assert!(outcomes[0].success);
    assert!(!outcomes[1].success);
    assert_eq!(server.current_holder(0), Some(&"Bob".to_string()));
}

#[test]
fn keys_are_independent() {
    let mut server = LockServer::new();
    let outcomes = server.epoch(&vec![req("Alice", true, 0), req("Bob", true, 1)]);
    assert!(outcomes[0].success);
    assert!(outcomes[1].success);
    assert_eq!(server.current_holder(0), Some(&"Alice".to_string()));
    assert_eq!(server.current_holder(1), Some(&"Bob".to_string()));
    assert_eq!(server.current_holder(2), None);
}

#[test]
fn failed_requests_change_nothing() {
    let mut server = held_by_alice();
    // A release of a free key and an acquire of a held key are both refused
    // and both leave the table as it was.
    let outcomes = server.epoch(&vec![req("Bob", false, 5), req("Bob", true, 0)]);
    assert!(!outcomes[0].success);
    assert!(!outcomes[1].success);
    assert_eq!(server.current_holder(0), Some(&"Alice".to_string()));
    assert_eq!(server.current_holder(5), None);
}

#[test]
fn reacquire_after_release() {
    let mut server = held_by_alice();
    server.epoch(&vec![req("Alice", false, 0)]);
    let outcomes = server.epoch(&vec![req("Bob", true, 0)]);
    assert!(outcomes[0].success);
    assert_eq!(server.current_holder(0), Some(&"Bob".to_string()));
}

#[test]
fn racing_acquires_first_wins_in_state() {
    // Outcomes are judged against the pre-epoch snapshot, where key 0 is
    // free, so both racing acquires report success; the fold, however, hands
    // the key to the first acquire in arrival order and ignores the second,
    // so the state never admits two holders.
    let mut server = LockServer::new();
    let outcomes = server.epoch(&vec![req("Alice", true, 0), req("Bob", true, 0)]);
    assert!(outcomes[0].success);
    assert!(outcomes[1].success);
    assert_eq!(server.current_holder(0), Some(&"Alice".to_string()));
}

#[test]
fn identical_epochs_agree() {
    // Epoch determinism: the same starting snapshot and the same ordered
    // batch give the same outcomes and the same next snapshot.
    let batch = vec![req("Alice", true, 3), req("Bob", true, 3), req("Carol", false, 3)];
    let mut first = LockServer::new();
    let mut second = LockServer::new();
    let out1 = first.epoch(&batch);
    let out2 = second.epoch(&batch);
    assert_eq!(out1.len(), out2.len());
    for (a, b) in out1.iter().zip(out2.iter()) {
        assert_eq!(a.name, b.name);
        assert_eq!(a.success, b.success);
        assert_eq!(a.key, b.key);
    }
    assert_eq!(first.current_holder(3), second.current_holder(3));
}

#[test]
fn empty_epoch_is_a_no_op() {
    let mut server = held_by_alice();
    let outcomes = server.epoch(&vec![]);
    assert!(outcomes.is_empty());
    assert_eq!(server.current_holder(0), Some(&"Alice".to_string()));
}
