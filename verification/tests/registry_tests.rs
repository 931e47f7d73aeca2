use signal_broker::registry::{PeerRegistry, RegistryError};

fn id(s: &str) -> Vec<u8> {
    s.as_bytes().to_vec()
}

#[test]
fn register_then_lookup() {
    let mut reg = PeerRegistry::new();
    reg.register(id("a"), 1).unwrap();
    reg.register(id("b"), 2).unwrap();
    assert_eq!(reg.lookup_handle(&id("a")), Ok(1));
    assert_eq!(reg.lookup_handle(&id("b")), Ok(2));
    assert_eq!(reg.len(), 2);
}

#[test]
fn duplicate_registration_is_rejected() {
    let mut reg = PeerRegistry::new();
    reg.register(id("a"), 1).unwrap();
    assert_eq!(reg.register(id("a"), 9), Err(RegistryError::DuplicateId));
    // the original entry is untouched
    assert_eq!(reg.lookup_handle(&id("a")), Ok(1));
}

#[test]
fn lookup_of_absent_peer_is_unknown() {
    let reg = PeerRegistry::new();
    assert_eq!(reg.lookup_handle(&id("ghost")), Err(RegistryError::UnknownPeer));
}

#[test]
fn unregister_removes_and_tolerates_absence() {
    let mut reg = PeerRegistry::new();
    reg.register(id("a"), 1).unwrap();
    reg.register(id("b"), 2).unwrap();
    reg.unregister(&id("a"));
    assert_eq!(reg.lookup_handle(&id("a")), Err(RegistryError::UnknownPeer));
    assert_eq!(reg.len(), 1);
    // removing again, or removing a stranger, is a quiet no-op
    reg.unregister(&id("a"));
    reg.unregister(&id("ghost"));
    assert_eq!(reg.len(), 1);
    assert_eq!(reg.lookup_handle(&id("b")), Ok(2));
}

#[test]
fn connect_generates_fresh_identifiers() {
    let mut reg = PeerRegistry::new();
    let a = reg.connect(7).unwrap();
    let b = reg.connect(8).unwrap();
    assert_eq!(a.len(), 36);
    assert_eq!(b.len(), 36);
    assert_ne!(a, b);
    assert_eq!(reg.lookup_handle(&a), Ok(7));
    assert_eq!(reg.lookup_handle(&b), Ok(8));
}

#[test]
fn broadcast_targets_name_everyone_but_the_sender() {
    let mut reg = PeerRegistry::new();
    reg.register(id("a"), 1).unwrap();
    reg.register(id("b"), 2).unwrap();
    reg.register(id("c"), 3).unwrap();
    let targets = reg.broadcast_targets(&id("b"));
    let ids: Vec<Vec<u8>> = targets.iter().map(|e| e.id.clone()).collect();
    assert_eq!(ids, vec![id("a"), id("c")]);
}

#[test]
fn broadcast_survives_one_closed_recipient() {
    // Four peers; "dead" is first in registry order and its sink is closed.
    let mut reg = PeerRegistry::new();
    reg.register(id("dead"), 0).unwrap();
    reg.register(id("sender"), 1).unwrap();
    reg.register(id("x"), 2).unwrap();
    reg.register(id("y"), 3).unwrap();

    let targets = reg.broadcast_targets(&id("sender"));
    assert_eq!(targets.len(), 3);

    let mut delivered: Vec<Vec<u8>> = Vec::new();
    for t in &targets {
        let write_ok = t.handle != 0; // handle 0 stands for the closed sink
        if write_ok {
            delivered.push(t.id.clone());
        } else {
            // a failed write unregisters the peer and nothing else
            reg.unregister(&t.id);
        }
    }
    // the one dead recipient did not stop the other two deliveries
    assert_eq!(delivered, vec![id("x"), id("y")]);
    assert_eq!(reg.lookup_handle(&id("dead")), Err(RegistryError::UnknownPeer));
    assert_eq!(reg.lookup_handle(&id("x")), Ok(2));
    assert_eq!(reg.lookup_handle(&id("y")), Ok(3));
    assert_eq!(reg.lookup_handle(&id("sender")), Ok(1));
}
