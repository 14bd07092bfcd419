use snapstore::registry::{MessageResponse, SessionRegistry};

#[test]
fn sessions_get_distinct_ids_and_route_to_their_own_handle() {
    let mut reg: SessionRegistry<String> = SessionRegistry::new();
    let a = reg.connect(String::from("alice"));
    let b = reg.connect(String::from("bob"));
    assert_ne!(a, b);
    assert_eq!(reg.count(), 2);
    assert_eq!(reg.route(a), Some(&String::from("alice")));
    assert_eq!(reg.route(b), Some(&String::from("bob")));
}

#[test]
fn replies_to_a_closed_session_find_nothing() {
    let mut reg: SessionRegistry<MessageResponse> = SessionRegistry::new();
    let id = reg.connect(MessageResponse(String::from("hi")));
    assert!(reg.disconnect(id));
    assert!(reg.route(id).is_none());
    assert!(!reg.disconnect(id));
    assert_eq!(reg.count(), 0);
}

#[test]
fn ids_are_not_reused_after_disconnect() {
    let mut reg: SessionRegistry<u8> = SessionRegistry::new();
    let a = reg.connect(1);
    reg.disconnect(a);
    let b = reg.connect(2);
    assert_ne!(a, b);
    assert_eq!(reg.route(b), Some(&2));
}
