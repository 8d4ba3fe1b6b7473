use wes_sfu::client::{
    classify_hello_reply, media_byte_ends_call, parse_repl_line, trim_bytes, username_acceptable,
    ClientEffect, ClientError, ClientState, HelloOutcome, ReplCmd,
};
use wes_sfu::codec::{
    ADD_USER_TO_CLIENT_BYTE, DENY_CALL_BYTE, END_CALL_BYTE, HELLO_FROM_SERVER_BYTE,
    REMOVE_USER_FROM_CLIENT_BYTE, REQUEST_CALL_BYTE, START_CALL_BYTE,
    USERNAME_ALREADY_TAKEN_BYTE,
};
use wes_sfu::render::{
    ascii_frame_to_bytes, bytes_to_ascii_frame, merge_ascii_frames_side_by_side, pixel_glyph,
};

fn b(s: &str) -> Vec<u8> {
    s.as_bytes().to_vec()
}

#[test]
fn repl_line_parsing() {
    assert!(matches!(parse_repl_line(&b("l")), ReplCmd::ListUsers));
    assert!(matches!(parse_repl_line(&b("  l  ")), ReplCmd::ListUsers));
    assert!(matches!(parse_repl_line(&b("c")), ReplCmd::CallUsage));
    assert!(matches!(parse_repl_line(&b("c   ")), ReplCmd::CallUsage));
    assert!(matches!(parse_repl_line(&b("q")), ReplCmd::Quit));
    assert!(matches!(parse_repl_line(&b("")), ReplCmd::Unknown));
    assert!(matches!(parse_repl_line(&b("help")), ReplCmd::Unknown));
    match parse_repl_line(&b("c Bob")) {
        ReplCmd::CallUser { name } => assert_eq!(name, b("Bob")),
        _ => panic!("expected a call command"),
    }
    match parse_repl_line(&b("  c   Bob   extra words ")) {
        ReplCmd::CallUser { name } => assert_eq!(name, b("Bob")),
        _ => panic!("expected a call command"),
    }
}

#[test]
fn trim_bytes_edges() {
    assert_eq!(trim_bytes(&b("  hi \t")), b("hi"));
    assert_eq!(trim_bytes(&b("   ")), b(""));
    assert_eq!(trim_bytes(&b("x")), b("x"));
}

#[test]
fn calling_a_roster_user_sets_pending() {
    let mut c = ClientState::new(b("Alice"), false);
    c.on_server_frame(ADD_USER_TO_CLIENT_BYTE, Some(b("Bob"))).unwrap();
    let effects = c.on_repl_line(&b("c Bob"));
    assert_eq!(effects.len(), 2);
    assert!(matches!(&effects[0], ClientEffect::PrintCalling { name } if *name == b("Bob")));
    match &effects[1] {
        ClientEffect::SendCtl { cmd, subject } => {
            assert_eq!(*cmd, REQUEST_CALL_BYTE);
            assert_eq!(*subject, b("Bob"));
        }
        _ => panic!("expected a frame to send"),
    }
    assert_eq!(c.pending_callee, Some(b("Bob")));
}

#[test]
fn calling_self_or_unknown_only_prints() {
    let mut c = ClientState::new(b("Alice"), false);
    let effects = c.on_repl_line(&b("c Alice"));
    assert_eq!(effects.len(), 1);
    assert!(matches!(effects[0], ClientEffect::PrintCannotCallSelf));
    let effects = c.on_repl_line(&b("c Ghost"));
    assert_eq!(effects.len(), 1);
    assert!(matches!(&effects[0], ClientEffect::PrintNotAvailable { name } if *name == b("Ghost")));
    assert_eq!(c.pending_callee, None);
}

#[test]
fn roster_mirror_add_and_remove() {
    let mut c = ClientState::new(b("Alice"), false);
    c.on_server_frame(ADD_USER_TO_CLIENT_BYTE, Some(b("Bob"))).unwrap();
    c.on_server_frame(ADD_USER_TO_CLIENT_BYTE, Some(b("Dave"))).unwrap();
    assert!(c.roster_contains(&b("Bob")));
    c.on_server_frame(REMOVE_USER_FROM_CLIENT_BYTE, Some(b("Bob"))).unwrap();
    assert!(!c.roster_contains(&b("Bob")));
    assert!(c.roster_contains(&b("Dave")));
}

#[test]
fn incoming_call_prompts_then_accept() {
    let mut c = ClientState::new(b("Alice"), false);
    let effects = c.on_server_frame(REQUEST_CALL_BYTE, Some(b("Bob"))).unwrap();
    assert_eq!(effects.len(), 1);
    assert!(matches!(&effects[0], ClientEffect::PromptIncoming { from } if *from == b("Bob")));

    let effects = c.on_accept_decision(b("Bob"), true);
    assert_eq!(effects.len(), 2);
    match &effects[0] {
        ClientEffect::SendCtl { cmd, subject } => {
            assert_eq!(*cmd, START_CALL_BYTE);
            assert_eq!(*subject, b("Bob"));
        }
        _ => panic!("expected a frame to send"),
    }
    assert!(matches!(&effects[1], ClientEffect::EnterMedia { peer } if *peer == b("Bob")));
    assert_eq!(c.active_peer, Some(b("Bob")));
}

#[test]
fn incoming_call_denied() {
    let mut c = ClientState::new(b("Alice"), false);
    c.on_server_frame(REQUEST_CALL_BYTE, Some(b("Bob"))).unwrap();
    let effects = c.on_accept_decision(b("Bob"), false);
    assert_eq!(effects.len(), 1);
    match &effects[0] {
        ClientEffect::SendCtl { cmd, subject } => {
            assert_eq!(*cmd, DENY_CALL_BYTE);
            assert_eq!(*subject, b("Bob"));
        }
        _ => panic!("expected a frame to send"),
    }
    assert_eq!(c.active_peer, None);
}

#[test]
fn auto_accept_skips_the_prompt() {
    let mut c = ClientState::new(b("Alice"), true);
    let effects = c.on_server_frame(REQUEST_CALL_BYTE, Some(b("Bob"))).unwrap();
    assert_eq!(effects.len(), 2);
    assert!(matches!(&effects[0], ClientEffect::SendCtl { cmd, .. } if *cmd == START_CALL_BYTE));
    assert!(matches!(&effects[1], ClientEffect::EnterMedia { peer } if *peer == b("Bob")));
    assert_eq!(c.active_peer, Some(b("Bob")));
}

#[test]
fn deny_clears_only_matching_pending() {
    let mut c = ClientState::new(b("Alice"), false);
    c.on_server_frame(ADD_USER_TO_CLIENT_BYTE, Some(b("Bob"))).unwrap();
    c.on_repl_line(&b("c Bob"));
    assert_eq!(c.pending_callee, Some(b("Bob")));

    // a deny from someone else changes nothing
    let effects = c.on_server_frame(DENY_CALL_BYTE, Some(b("Eve"))).unwrap();
    assert!(effects.is_empty());
    assert_eq!(c.pending_callee, Some(b("Bob")));

    let effects = c.on_server_frame(DENY_CALL_BYTE, Some(b("Bob"))).unwrap();
    assert_eq!(effects.len(), 1);
    assert!(matches!(&effects[0], ClientEffect::NotifyDenied { by } if *by == b("Bob")));
    assert_eq!(c.pending_callee, None);
}

#[test]
fn remote_start_enters_media() {
    let mut c = ClientState::new(b("Alice"), false);
    let effects = c.on_server_frame(START_CALL_BYTE, Some(b("Bob"))).unwrap();
    assert_eq!(effects.len(), 1);
    assert!(matches!(&effects[0], ClientEffect::EnterMedia { peer } if *peer == b("Bob")));
    assert_eq!(c.active_peer, Some(b("Bob")));
}

#[test]
fn client_frame_errors() {
    let mut c = ClientState::new(b("Alice"), false);
    assert!(matches!(
        c.on_server_frame(ADD_USER_TO_CLIENT_BYTE, None),
        Err(ClientError::InvalidData)
    ));
    assert!(matches!(
        c.on_server_frame(200, None),
        Err(ClientError::ProtocolError)
    ));
}

#[test]
fn hello_reply_classification() {
    assert_eq!(classify_hello_reply(HELLO_FROM_SERVER_BYTE), HelloOutcome::Granted);
    assert_eq!(
        classify_hello_reply(USERNAME_ALREADY_TAKEN_BYTE),
        HelloOutcome::Taken
    );
    assert_eq!(classify_hello_reply(37), HelloOutcome::Unexpected);
}

#[test]
fn media_control_byte() {
    assert!(media_byte_ends_call(END_CALL_BYTE));
    assert!(!media_byte_ends_call(0));
}

#[test]
fn username_validation() {
    assert!(username_acceptable(&b("Alice")));
    assert!(!username_acceptable(&b("   ")));
    assert!(!username_acceptable(&b("")));
    assert!(username_acceptable(&vec![b'x'; 255]));
    assert!(!username_acceptable(&vec![b'x'; 256]));
}

#[test]
fn pixel_glyph_ramp() {
    assert_eq!(pixel_glyph(0), b' ');
    assert_eq!(pixel_glyph(100), b';'); // 100 * 11 / 255 = 4
    assert_eq!(pixel_glyph(255), b'@');
}

#[test]
fn pack_unpack_round_trip() {
    let frame = b(" .,:;+*?%S#@\n");
    let packed = ascii_frame_to_bytes(&frame);
    assert_eq!(packed.len(), (frame.len() + 1) / 2);
    let back = bytes_to_ascii_frame(&packed);
    // the odd glyph count pads with one space
    let mut expected = frame.clone();
    expected.push(b' ');
    assert_eq!(back, expected);

    let even = b("@@##\n.");
    assert_eq!(bytes_to_ascii_frame(&ascii_frame_to_bytes(&even)), even);
}

#[test]
fn pack_exact_bytes() {
    // ' ' packs as 0, '@' as 11: one byte 0x0b; '.' as 1, ',' as 2: 0x12
    assert_eq!(ascii_frame_to_bytes(&b(" @.,")), vec![0x0b, 0x12]);
}

#[test]
fn merge_without_border() {
    let merged = merge_ascii_frames_side_by_side(&b("ab\ncd\n"), &b("x\n"), false);
    assert_eq!(merged, b("ab x\ncd  \n"));
}

#[test]
fn merge_with_border() {
    let merged = merge_ascii_frames_side_by_side(&b("ab\n"), &b("x\n"), true);
    assert_eq!(merged, b("+--+-+\n|ab|x|\n+--+-+"));
}
