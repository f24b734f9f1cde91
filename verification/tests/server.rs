//! Registry, dispatcher and liveness tests.

use remote_hub::messages::{ClientMessage, Connect, Disconnect, GetSession, List};
use remote_hub::server::{
    DispatchError, FrameAction, FrameIn, RemoteServer, TickAction, ENCODER_TIMEOUT,
    HEARTBEAT_INTERVAL,
};

fn hub() -> RemoteServer {
    RemoteServer::default()
}

fn connect(hub: &mut RemoteServer, handle: u64, now: u64) -> u64 {
    hub.handle_connect(Connect { addr: handle }, now)
        .expect("a fresh identifier must be found")
}

#[test]
fn register_then_lookup_finds_the_handle() {
    let mut h = hub();
    let id = connect(&mut h, 77, 0);
    assert_eq!(h.handle_get_session(GetSession(id)), Some(77));
}

#[test]
fn register_assigns_distinct_ids() {
    let mut h = hub();
    let a = connect(&mut h, 1, 0);
    let b = connect(&mut h, 2, 0);
    let c = connect(&mut h, 3, 0);
    assert_ne!(a, b);
    assert_ne!(a, c);
    assert_ne!(b, c);
    let ids = h.handle_list(List);
    assert_eq!(ids.len(), 3);
    assert!(ids.contains(&a) && ids.contains(&b) && ids.contains(&c));
}

#[test]
fn try_register_rejects_collision() {
    let mut h = hub();
    assert!(h.try_register(5, 10, 0));
    assert!(!h.try_register(5, 11, 0));
    // the colliding attempt must not have overwritten the session
    assert_eq!(h.handle_get_session(GetSession(5)), Some(10));
}

#[test]
fn unregister_then_lookup_is_absent() {
    let mut h = hub();
    let id = connect(&mut h, 9, 0);
    assert_eq!(h.handle_disconnect(Disconnect { id }), None);
    assert_eq!(h.handle_get_session(GetSession(id)), None);
    assert!(!h.handle_list(List).contains(&id));
}

#[test]
fn unregister_unknown_is_a_noop() {
    let mut h = hub();
    assert_eq!(h.handle_disconnect(Disconnect { id: 999 }), None);
}

#[test]
fn dispatch_unknown_id_is_not_found() {
    let mut h = hub();
    let r = h.dispatch(
        999,
        ClientMessage { msg: b"x".to_vec(), tx: 1 },
    );
    assert!(matches!(r, Err(DispatchError::NotFound)));
}

#[test]
fn dispatch_sends_encoded_cmd_on_the_session_handle() {
    let mut h = hub();
    let id = connect(&mut h, 42, 0);
    let frame = h
        .dispatch(id, ClientMessage { msg: b"ping".to_vec(), tx: 7 })
        .expect("dispatch to a live idle session succeeds");
    assert_eq!(frame.handle, 42);
    assert_eq!(frame.bytes, b"{\"Cmd\":\"ping\"}".to_vec());
}

#[test]
fn second_dispatch_while_pending_is_busy() {
    let mut h = hub();
    let id = connect(&mut h, 42, 0);
    h.dispatch(id, ClientMessage { msg: b"a".to_vec(), tx: 1 })
        .unwrap();
    let r = h.dispatch(id, ClientMessage { msg: b"b".to_vec(), tx: 2 });
    assert!(matches!(r, Err(DispatchError::Busy)));
}

#[test]
fn reply_resolves_the_caller_exactly_once() {
    let mut h = hub();
    let id = connect(&mut h, 42, 0);
    h.dispatch(id, ClientMessage { msg: b"ping".to_vec(), tx: 7 })
        .unwrap();
    assert_eq!(h.resolve_pending(id, 4), Some((7, 4)));
    // the slot is now empty: a duplicate reply resolves nobody
    assert_eq!(h.resolve_pending(id, 4), None);
    // and the session is free for the next request
    assert!(h
        .dispatch(id, ClientMessage { msg: b"c".to_vec(), tx: 8 })
        .is_ok());
}

#[test]
fn orphaned_reply_is_dropped() {
    let mut h = hub();
    let id = connect(&mut h, 42, 0);
    assert_eq!(h.resolve_pending(id, 1), None);
    assert_eq!(h.resolve_pending(999, 1), None);
}

#[test]
fn cmdret_frame_resolves_pending_caller() {
    let mut h = hub();
    let id = connect(&mut h, 42, 0);
    h.dispatch(id, ClientMessage { msg: b"ping".to_vec(), tx: 7 })
        .unwrap();
    let act = h.handle_frame(id, FrameIn::Text(b"{\"CmdRet\":4}".to_vec()), 1);
    assert!(matches!(act, FrameAction::Resolve { caller: 7, value: 4 }));
}

#[test]
fn id_query_frame_is_answered_with_the_id() {
    let mut h = hub();
    let id = connect(&mut h, 42, 0);
    let act = h.handle_frame(id, FrameIn::Text(b"{\"ID\":null}".to_vec()), 1);
    match act {
        FrameAction::ReplyText(bytes) => {
            assert_eq!(bytes, format!("{{\"ID\":{}}}", id).into_bytes());
        }
        other => panic!("expected a reply, got {:?}", other),
    }
}

#[test]
fn malformed_text_frame_is_dropped_without_closing() {
    let mut h = hub();
    let id = connect(&mut h, 42, 0);
    let act = h.handle_frame(id, FrameIn::Text(b"/ID".to_vec()), 1);
    assert!(matches!(act, FrameAction::Ignore));
    // the session is still there
    assert_eq!(h.handle_get_session(GetSession(id)), Some(42));
}

#[test]
fn inbound_cmd_frame_is_ignored_by_the_hub() {
    let mut h = hub();
    let id = connect(&mut h, 42, 0);
    let act = h.handle_frame(id, FrameIn::Text(b"{\"Cmd\":\"x\"}".to_vec()), 1);
    assert!(matches!(act, FrameAction::Ignore));
}

#[test]
fn ping_is_answered_and_binary_echoed() {
    let mut h = hub();
    let id = connect(&mut h, 42, 0);
    match h.handle_frame(id, FrameIn::Ping(b"hb".to_vec()), 1) {
        FrameAction::Pong(body) => assert_eq!(body, b"hb".to_vec()),
        other => panic!("expected a pong, got {:?}", other),
    }
    match h.handle_frame(id, FrameIn::Binary(b"blob".to_vec()), 2) {
        FrameAction::EchoBinary(body) => assert_eq!(body, b"blob".to_vec()),
        other => panic!("expected an echo, got {:?}", other),
    }
}

#[test]
fn close_removes_session_and_cancels_pending() {
    let mut h = hub();
    let id = connect(&mut h, 42, 0);
    h.dispatch(id, ClientMessage { msg: b"x".to_vec(), tx: 7 })
        .unwrap();
    let act = h.handle_frame(id, FrameIn::Close, 1);
    assert!(matches!(act, FrameAction::Close { cancelled: Some(7) }));
    assert_eq!(h.handle_get_session(GetSession(id)), None);
}

#[test]
fn transport_error_stops_and_unregisters() {
    let mut h = hub();
    let id = connect(&mut h, 42, 0);
    let act = h.handle_frame(id, FrameIn::TransportError, 1);
    assert!(matches!(act, FrameAction::Stop { cancelled: None }));
    assert_eq!(h.handle_get_session(GetSession(id)), None);
}

#[test]
fn liveness_session_survives_until_the_timeout() {
    let mut h = hub();
    let id = connect(&mut h, 42, 100);
    // at the deadline itself the session lives and is pinged
    let act = h.liveness_tick(id, 100 + ENCODER_TIMEOUT);
    assert!(matches!(act, TickAction::Ping(42)));
    assert!(h.handle_list(List).contains(&id));
}

#[test]
fn liveness_timeout_removes_session_on_next_tick() {
    let mut h = hub();
    let id = connect(&mut h, 42, 100);
    // the first tick past the deadline, one interval later, reclaims it
    let act = h.liveness_tick(id, 100 + ENCODER_TIMEOUT + HEARTBEAT_INTERVAL);
    assert!(matches!(act, TickAction::TimedOut(None)));
    assert!(!h.handle_list(List).contains(&id));
    assert!(matches!(h.liveness_tick(id, 200), TickAction::Gone));
}

#[test]
fn pong_refreshes_liveness() {
    let mut h = hub();
    let id = connect(&mut h, 42, 100);
    h.handle_frame(id, FrameIn::Pong, 108);
    // silence measured from the pong, not from registration
    let act = h.liveness_tick(id, 112);
    assert!(matches!(act, TickAction::Ping(42)));
}
