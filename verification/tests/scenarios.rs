//! End-to-end scenarios: the hub and an agent talking over the wire format,
//! with the transport reduced to passing byte frames by hand.

use remote_hub::encoder::{agent_handle_text, execute_cmd};
use remote_hub::messages::{ClientMessage, Connect, GetSession, List};
use remote_hub::server::{
    DispatchError, FrameAction, FrameIn, RemoteServer, TickAction, ENCODER_TIMEOUT,
    HEARTBEAT_INTERVAL,
};

#[test]
fn dispatch_ping_and_reply_reaches_the_caller() {
    // agent connects, hub assigns an identifier
    let mut hub = RemoteServer::default();
    let id = hub
        .handle_connect(Connect { addr: 1 }, 0)
        .expect("registration succeeds");

    // caller dispatches "ping" and waits under token 55
    let frame = hub
        .dispatch(id, ClientMessage { msg: b"ping".to_vec(), tx: 55 })
        .expect("the session is live and idle");
    assert_eq!(frame.handle, 1);

    // the agent receives the command frame and answers it
    let reply = agent_handle_text(&frame.bytes).expect("a command is always answered");

    // the reply frame comes back on the same connection
    let act = hub.handle_frame(id, FrameIn::Text(reply), 1);
    match act {
        FrameAction::Resolve { caller, value } => {
            assert_eq!(caller, 55);
            assert_eq!(value, 4); // the stub returns the payload length
        }
        other => panic!("expected the caller resolved, got {:?}", other),
    }
}

#[test]
fn dispatch_to_unknown_id_is_not_found_immediately() {
    let mut hub = RemoteServer::default();
    let r = hub.dispatch(999, ClientMessage { msg: b"x".to_vec(), tx: 1 });
    assert!(matches!(r, Err(DispatchError::NotFound)));
    assert!(hub.handle_list(List).is_empty());
}

#[test]
fn silent_agent_disappears_and_pending_request_is_cancelled() {
    let mut hub = RemoteServer::default();
    let id = hub.handle_connect(Connect { addr: 1 }, 0).unwrap();
    hub.dispatch(id, ClientMessage { msg: b"x".to_vec(), tx: 9 })
        .unwrap();

    // the agent answers nothing; ticks pass until the timeout elapses
    let mut now: u64 = 0;
    loop {
        now += HEARTBEAT_INTERVAL;
        match hub.liveness_tick(id, now) {
            TickAction::Ping(_) => {
                assert!(now <= ENCODER_TIMEOUT, "removed no earlier than the timeout");
            }
            TickAction::TimedOut(cancelled) => {
                // the waiting caller learns its request died
                assert_eq!(cancelled, Some(9));
                assert!(now <= ENCODER_TIMEOUT + HEARTBEAT_INTERVAL);
                break;
            }
            TickAction::Gone => panic!("session vanished without a timeout"),
        }
    }
    assert!(!hub.handle_list(List).contains(&id));
    assert_eq!(hub.handle_get_session(GetSession(id)), None);
}

#[test]
fn agent_answers_every_cmd_with_one_cmdret() {
    let reply = agent_handle_text(&b"{\"Cmd\":\"ls -l\"}".to_vec()).unwrap();
    assert_eq!(reply, b"{\"CmdRet\":5}".to_vec());
}

#[test]
fn agent_drops_what_is_not_a_command() {
    assert_eq!(agent_handle_text(&b"{\"ID\":7}".to_vec()), None);
    assert_eq!(agent_handle_text(&b"{\"ID\":null}".to_vec()), None);
    assert_eq!(agent_handle_text(&b"{\"CmdRet\":3}".to_vec()), None);
    assert_eq!(agent_handle_text(&b"not json".to_vec()), None);
}

#[test]
fn execute_cmd_returns_the_payload_length() {
    assert_eq!(execute_cmd(&b"ping".to_vec()), 4);
    assert_eq!(execute_cmd(&Vec::new()), 0);
}

#[test]
fn agent_id_query_scenario() {
    // the agent asks for its identifier; the hub announces it
    let mut hub = RemoteServer::default();
    let id = hub.handle_connect(Connect { addr: 1 }, 0).unwrap();
    let act = hub.handle_frame(id, FrameIn::Text(b"{\"ID\":null}".to_vec()), 0);
    match act {
        FrameAction::ReplyText(frame) => {
            // and the agent accepts the announcement silently
            assert_eq!(agent_handle_text(&frame), None);
        }
        other => panic!("expected an announcement, got {:?}", other),
    }
}
