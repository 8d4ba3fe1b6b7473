use wes_sfu::codec::{
    encode_datagram, split_datagram, ADD_USER_TO_CLIENT_BYTE, DENY_CALL_BYTE, END_CALL_BYTE,
    HELLO_FROM_CLIENT_BYTE, HELLO_FROM_SERVER_BYTE, REMOVE_USER_FROM_CLIENT_BYTE,
    REQUEST_CALL_BYTE, REQUEST_CALL_STREAM_ID_BYTE, START_CALL_BYTE,
    USERNAME_ALREADY_TAKEN_BYTE,
};
use wes_sfu::relay::{RelayAction, RelayTable};
use wes_sfu::server::{OutFrame, Outgoing, ServerError, ServerState};

fn b(s: &str) -> Vec<u8> {
    s.as_bytes().to_vec()
}

fn assert_ctl(o: &Outgoing, conn: u64, cmd: u8, subject: Option<&str>) {
    assert_eq!(o.conn, conn);
    match &o.frame {
        OutFrame::Ctl { cmd: c, subject: s } => {
            assert_eq!(*c, cmd);
            assert_eq!(s.as_deref(), subject.map(|x| x.as_bytes()));
        }
        OutFrame::Sid { .. } => panic!("expected a control frame"),
    }
}

fn assert_sid(o: &Outgoing, conn: u64) -> u32 {
    assert_eq!(o.conn, conn);
    match &o.frame {
        OutFrame::Sid { sid } => *sid,
        OutFrame::Ctl { .. } => panic!("expected a stream-identifier frame"),
    }
}

/// Alice and Bob logged in on connections 0 and 1.
fn two_users() -> ServerState {
    let mut s = ServerState::new();
    let a = s.on_connect();
    let outs = s.handle_hello(a, b("Alice")).unwrap();
    assert_eq!(outs.len(), 1);
    assert_ctl(&outs[0], 0, HELLO_FROM_SERVER_BYTE, None);
    let bb = s.on_connect();
    let outs = s.handle_hello(bb, b("Bob")).unwrap();
    assert_eq!(outs.len(), 3);
    s
}

#[test]
fn two_user_login() {
    let mut s = ServerState::new();
    let a = s.on_connect();
    assert_eq!(a, 0);
    let outs = s.handle_hello(a, b("Alice")).unwrap();
    assert_eq!(outs.len(), 1);
    assert_ctl(&outs[0], 0, HELLO_FROM_SERVER_BYTE, None);

    let bob = s.on_connect();
    assert_eq!(bob, 1);
    let outs = s.handle_hello(bob, b("Bob")).unwrap();
    // Bob is greeted, Alice learns of Bob, Bob learns of Alice
    assert_eq!(outs.len(), 3);
    assert_ctl(&outs[0], 1, HELLO_FROM_SERVER_BYTE, None);
    assert_ctl(&outs[1], 0, ADD_USER_TO_CLIENT_BYTE, Some("Bob"));
    assert_ctl(&outs[2], 1, ADD_USER_TO_CLIENT_BYTE, Some("Alice"));
}

#[test]
fn username_collision() {
    let mut s = two_users();
    let charlie = s.on_connect();
    let outs = s.handle_hello(charlie, b("Alice")).unwrap();
    assert_eq!(outs.len(), 1);
    assert_ctl(&outs[0], charlie, USERNAME_ALREADY_TAKEN_BYTE, None);
    // the roster still holds exactly one Alice; Charlie stayed anonymous
    // and may log in under a free name
    assert!(s.is_name_registered(&b("Alice")));
    let outs = s.handle_hello(charlie, b("Charlie")).unwrap();
    assert_ctl(&outs[0], charlie, HELLO_FROM_SERVER_BYTE, None);
}

#[test]
fn hello_while_registered_is_protocol_error() {
    let mut s = two_users();
    assert_eq!(
        s.handle_hello(0, b("Alice2")),
        Err(ServerError::Protocol)
    );
    assert_eq!(
        s.on_frame(0, HELLO_FROM_CLIENT_BYTE, Some(b("Alice2"))),
        Err(ServerError::Protocol)
    );
}

#[test]
fn accept_flow_with_observer() {
    let mut s = two_users();
    let dave = s.on_connect();
    s.handle_hello(dave, b("Dave")).unwrap();

    // Alice rings Bob
    let outs = s.on_frame(0, REQUEST_CALL_BYTE, Some(b("Bob"))).unwrap();
    assert_eq!(outs.len(), 1);
    assert_ctl(&outs[0], 1, REQUEST_CALL_BYTE, Some("Alice"));

    // Bob accepts: both vanish for Dave, Alice hears START_CALL("Bob")
    let outs = s.handle_start_call(1, &b("Alice"), 11, 22).unwrap();
    assert_eq!(outs.len(), 3);
    assert_ctl(&outs[0], dave, REMOVE_USER_FROM_CLIENT_BYTE, Some("Bob"));
    assert_ctl(&outs[1], dave, REMOVE_USER_FROM_CLIENT_BYTE, Some("Alice"));
    assert_ctl(&outs[2], 0, START_CALL_BYTE, Some("Bob"));
    assert_eq!(s.active_call_count(), 1);
    assert!(s.user_busy(&b("Alice")));
    assert!(s.user_busy(&b("Bob")));
}

#[test]
fn sid_exchange_returns_own_sid() {
    let mut s = two_users();
    s.on_frame(0, REQUEST_CALL_BYTE, Some(b("Bob"))).unwrap();
    s.handle_start_call(1, &b("Alice"), 11, 22).unwrap();

    // Bob started the call, so Bob holds the caller identifier
    let outs = s.handle_sid_request(1, &b("Alice")).unwrap();
    assert_eq!(outs.len(), 1);
    let bob_sid = assert_sid(&outs[0], 1);
    assert_eq!(bob_sid, 11);

    let outs = s.handle_sid_request(0, &b("Bob")).unwrap();
    let alice_sid = assert_sid(&outs[0], 0);
    assert_eq!(alice_sid, 22);
    assert_ne!(bob_sid, alice_sid);
}

#[test]
fn sid_request_without_call_is_call_not_found() {
    let mut s = two_users();
    assert_eq!(
        s.handle_sid_request(0, &b("Bob")),
        Err(ServerError::CallNotFound)
    );
    assert_eq!(
        s.on_frame(0, REQUEST_CALL_STREAM_ID_BYTE, Some(b("Bob"))),
        Err(ServerError::CallNotFound)
    );
}

#[test]
fn sid_request_names_wrong_peer() {
    let mut s = two_users();
    let dave = s.on_connect();
    s.handle_hello(dave, b("Dave")).unwrap();
    s.handle_start_call(1, &b("Alice"), 11, 22).unwrap();
    assert_eq!(
        s.handle_sid_request(0, &b("Dave")),
        Err(ServerError::InvalidPeer)
    );
    // naming oneself is not naming the peer either
    assert_eq!(
        s.handle_sid_request(0, &b("Alice")),
        Err(ServerError::InvalidPeer)
    );
}

#[test]
fn route_to_unknown_user_fails() {
    let mut s = two_users();
    assert_eq!(
        s.on_frame(0, REQUEST_CALL_BYTE, Some(b("Zoe"))),
        Err(ServerError::InvalidUsername)
    );
    assert_eq!(
        s.on_frame(0, DENY_CALL_BYTE, Some(b("Zoe"))),
        Err(ServerError::InvalidUsername)
    );
}

#[test]
fn deny_routes_like_request() {
    let mut s = two_users();
    let outs = s.on_frame(1, DENY_CALL_BYTE, Some(b("Alice"))).unwrap();
    assert_eq!(outs.len(), 1);
    assert_ctl(&outs[0], 0, DENY_CALL_BYTE, Some("Bob"));
}

#[test]
fn start_call_rejections() {
    let mut s = two_users();
    let dave = s.on_connect();
    s.handle_hello(dave, b("Dave")).unwrap();
    // calling oneself is rejected on the server too
    assert_eq!(
        s.handle_start_call(0, &b("Alice"), 1, 2),
        Err(ServerError::InvalidPeer)
    );
    s.handle_start_call(1, &b("Alice"), 11, 22).unwrap();
    // a second call while busy, from either side, is rejected
    assert_eq!(
        s.handle_start_call(0, &b("Dave"), 33, 44),
        Err(ServerError::AlreadyInCall)
    );
    assert_eq!(
        s.handle_start_call(dave, &b("Bob"), 33, 44),
        Err(ServerError::AlreadyInCall)
    );
    assert_eq!(s.active_call_count(), 1);
}

#[test]
fn oversized_or_empty_hello_name_is_refused() {
    let mut s = ServerState::new();
    let c = s.on_connect();
    assert_eq!(s.handle_hello(c, vec![b'x'; 256]), Err(ServerError::Protocol));
    assert_eq!(s.handle_hello(c, Vec::new()), Err(ServerError::Protocol));
    // the connection is still anonymous and may try again
    let outs = s.handle_hello(c, b("Alice")).unwrap();
    assert_ctl(&outs[0], c, HELLO_FROM_SERVER_BYTE, None);
}

#[test]
fn missing_subject_and_unknown_command() {
    let mut s = two_users();
    assert_eq!(
        s.on_frame(0, REQUEST_CALL_BYTE, None),
        Err(ServerError::MissingSubject)
    );
    assert_eq!(s.on_frame(0, 200, None), Err(ServerError::Protocol));
}

#[test]
fn start_call_through_on_frame_mints_fresh_sids() {
    let mut s = two_users();
    let outs = s.on_frame(0, START_CALL_BYTE, Some(b("Bob"))).unwrap();
    assert_ctl(&outs[outs.len() - 1], 1, START_CALL_BYTE, Some("Alice"));
    assert_eq!(s.active_call_count(), 1);
    let alice_sid = assert_sid(&s.handle_sid_request(0, &b("Bob")).unwrap()[0], 0);
    let bob_sid = assert_sid(&s.handle_sid_request(1, &b("Alice")).unwrap()[0], 1);
    assert_ne!(alice_sid, bob_sid);
}

#[test]
fn disconnect_cleanup_mid_call() {
    let mut s = two_users();
    let dave = s.on_connect();
    s.handle_hello(dave, b("Dave")).unwrap();
    s.handle_start_call(1, &b("Alice"), 11, 22).unwrap();

    // Alice's connection closes mid-call
    let outs = s.on_disconnect(0);
    assert_eq!(outs.len(), 4);
    assert_ctl(&outs[0], 1, REMOVE_USER_FROM_CLIENT_BYTE, Some("Alice"));
    assert_ctl(&outs[1], dave, REMOVE_USER_FROM_CLIENT_BYTE, Some("Alice"));
    assert_ctl(&outs[2], 1, END_CALL_BYTE, None);
    // Bob returns to the advertisable roster, so Dave re-learns him
    assert_ctl(&outs[3], dave, ADD_USER_TO_CLIENT_BYTE, Some("Bob"));

    assert_eq!(s.active_call_count(), 0);
    assert!(!s.is_name_registered(&b("Alice")));
    assert!(s.is_name_registered(&b("Bob")));
    assert!(!s.user_busy(&b("Bob")));
}

#[test]
fn disconnect_of_idle_user() {
    let mut s = two_users();
    let outs = s.on_disconnect(1);
    assert_eq!(outs.len(), 1);
    assert_ctl(&outs[0], 0, REMOVE_USER_FROM_CLIENT_BYTE, Some("Bob"));
    assert!(!s.is_name_registered(&b("Bob")));
    assert_eq!(s.connection_count(), 1);
}

#[test]
fn anonymous_disconnect_is_silent() {
    let mut s = two_users();
    let anon = s.on_connect();
    let outs = s.on_disconnect(anon);
    assert!(outs.is_empty());
}

#[test]
fn media_relay_end_to_end() {
    let mut s = two_users();
    s.handle_start_call(1, &b("Alice"), 11, 22).unwrap();

    let mut relay = RelayTable::new();
    // first datagrams only register the source addresses
    assert!(matches!(
        relay.on_datagram(&s, 22, b("alice:5000")),
        RelayAction::Registered
    ));
    assert!(matches!(
        relay.on_datagram(&s, 11, b("bob:6000")),
        RelayAction::Registered
    ));
    // a later datagram from Alice lands at Bob's registered address
    match relay.on_datagram(&s, 22, b("alice:5000")) {
        RelayAction::Forward { addr } => assert_eq!(addr, b("bob:6000")),
        _ => panic!("expected a forward"),
    }
    // and the payload crosses unchanged, without the identifier prefix
    let wire = encode_datagram(22, &b("hello bob"));
    let (sid, payload) = split_datagram(&wire, wire.len()).unwrap();
    assert_eq!(sid, 22);
    assert_eq!(payload, b("hello bob"));
}

#[test]
fn relay_drops_unpaired_and_unknown_peers() {
    let mut s = two_users();
    let mut relay = RelayTable::new();
    // 99 belongs to no call: second sighting is dropped
    assert!(matches!(
        relay.on_datagram(&s, 99, b("x:1")),
        RelayAction::Registered
    ));
    assert!(matches!(relay.on_datagram(&s, 99, b("x:1")), RelayAction::Drop));
    // a paired identifier whose peer has not registered yet is dropped too
    s.handle_start_call(1, &b("Alice"), 11, 22).unwrap();
    assert!(matches!(
        relay.on_datagram(&s, 11, b("bob:6000")),
        RelayAction::Registered
    ));
    assert!(matches!(relay.on_datagram(&s, 11, b("bob:6000")), RelayAction::Drop));
}
