use chat_relay::codec::{parse_frame, ChatType};
use chat_relay::server::{ChatServer, Disconnect, Join, Message};
use chat_relay::session::{
    Frame, HeartbeatAction, SessionAction, SessionState, WsChatSession, CLIENT_TIMEOUT,
};

fn active_session(id: usize, room: &str, now: u64) -> WsChatSession {
    let mut s = WsChatSession::new(now, room.to_string());
    s.on_connect_ack(Some(id));
    s
}

/// Without the registry's acknowledgment a session never becomes
/// active.
#[test]
fn connect_ack_decides_activation() {
    let mut ok = WsChatSession::new(0, "main".to_string());
    assert!(ok.state == SessionState::Connecting);
    ok.on_connect_ack(Some(9));
    assert!(ok.state == SessionState::Active);
    assert_eq!(ok.id, 9);

    let mut lost = WsChatSession::new(0, "main".to_string());
    lost.on_connect_ack(None);
    assert!(lost.state == SessionState::Closed);
}

/// Probes and probe replies refresh the liveness stamp; a quiet peer is
/// probed again, a silent one is expired even though the transport
/// still looks open.
#[test]
fn heartbeat_expires_silent_peer() {
    let mut s = active_session(4, "main", 0);
    let act = s.heartbeat_tick(CLIENT_TIMEOUT);
    assert!(matches!(act, HeartbeatAction::Probe));
    assert!(s.state == SessionState::Active);
    let act = s.heartbeat_tick(CLIENT_TIMEOUT + 1);
    match act {
        HeartbeatAction::Expire(d) => assert_eq!(d.id, 4),
        HeartbeatAction::Probe => panic!("peer should have expired"),
    }
    assert!(s.state == SessionState::Closing);
    // the disconnect notice goes out exactly once
    let first = s.stopping();
    assert_eq!(first.map(|d| d.id), Some(4));
    assert!(s.state == SessionState::Closed);
    let second = s.stopping();
    assert!(second.is_none());
}

/// A pong moves the stamp forward, so the peer survives the next tick.
#[test]
fn pong_refreshes_liveness() {
    let mut s = active_session(4, "main", 0);
    let acts = s.on_frame(Frame::Pong(Vec::new()), 8);
    assert_eq!(acts.len(), 0);
    assert_eq!(s.hb, 8);
    assert!(matches!(s.heartbeat_tick(15), HeartbeatAction::Probe));
}

/// A ping is answered with its own payload.
#[test]
fn ping_is_answered() {
    let mut s = active_session(4, "main", 0);
    let acts = s.on_frame(Frame::Ping(vec![1, 2]), 3);
    assert_eq!(acts.len(), 1);
    match &acts[0] {
        SessionAction::Pong(p) => assert_eq!(p, &vec![1, 2]),
        _ => panic!("expected a pong"),
    }
}

/// Text that is not a well-formed frame is discarded: the session stays
/// active and nothing reaches the registry.
#[test]
fn malformed_text_is_discarded() {
    let mut s = active_session(4, "main", 0);
    let acts = s.on_frame(Frame::Text("this is not a frame".to_string()), 2);
    assert_eq!(acts.len(), 0);
    assert!(s.state == SessionState::Active);
    assert_eq!(s.room, "main");
}

/// Two sessions in one room: a TEXT frame from one reaches exactly the
/// other, re-stamped with the sender's identity, and one conversation
/// record is submitted.
#[test]
fn text_frame_relay_scenario() {
    let mut srv = ChatServer::new();
    let (a, _) = srv.connect();
    let (b, _) = srv.connect();
    srv.join(Join { id: a, name: "main".to_string() });
    srv.join(Join { id: b, name: "main".to_string() });

    let mut sa = active_session(a, "main", 0);
    let wire = "{\"chat_type\":\"TEXT\",\"value\":[\"hi\"],\"room_id\":\"main\",\"user_id\":\"u1\",\"id\":0}";
    let acts = sa.on_frame(Frame::Text(wire.to_string()), 1);
    assert_eq!(acts.len(), 2);

    let cm = match &acts[0] {
        SessionAction::Forward(cm) => cm,
        _ => panic!("expected a forward"),
    };
    match &acts[1] {
        SessionAction::Persist(c) => {
            assert_eq!(c.user_id, "u1");
            assert_eq!(c.room_id, "main");
            assert_eq!(c.message, "hi");
        },
        _ => panic!("expected a conversation record"),
    }

    let deliveries = srv.client_message(cm);
    assert_eq!(deliveries.len(), 1);
    assert_eq!(deliveries[0].target, b);

    let sb = active_session(b, "main", 0);
    let text = sb.handle_message(Message(deliveries[0].message.0.clone()));
    let got = parse_frame(text.as_str()).unwrap();
    assert!(got.chat_type == ChatType::TEXT);
    assert_eq!(got.value, vec!["hi".to_string()]);
    assert_eq!(got.id, a);
    assert_eq!(got.user_id, "u1");
}

/// A TYPING frame is forwarded but never persisted.
#[test]
fn typing_frame_is_forwarded_only() {
    let mut s = active_session(4, "main", 0);
    let wire = "{\"chat_type\":\"TYPING\",\"value\":[\"u\"],\"room_id\":\"main\",\"user_id\":\"u1\",\"id\":0}";
    let acts = s.on_frame(Frame::Text(wire.to_string()), 1);
    assert_eq!(acts.len(), 1);
    match &acts[0] {
        SessionAction::Forward(cm) => {
            assert_eq!(cm.id, 4);
            assert_eq!(cm.room, "main");
            let m = parse_frame(cm.msg.as_str()).unwrap();
            assert_eq!(m.id, 4);
            assert!(m.chat_type == ChatType::TYPING);
        },
        _ => panic!("expected a forward"),
    }
}

/// CONNECT and DISCONNECT kinds coming from a client are ignored.
#[test]
fn client_sent_control_kinds_are_ignored() {
    let mut s = active_session(4, "main", 0);
    let wire = "{\"chat_type\":\"CONNECT\",\"value\":[\"x\"],\"room_id\":\"main\",\"user_id\":\"u\",\"id\":0}";
    let acts = s.on_frame(Frame::Text(wire.to_string()), 1);
    assert_eq!(acts.len(), 0);
    assert!(s.state == SessionState::Active);
}

/// A close frame moves the session towards its end and asks the runtime
/// to close the connection.
#[test]
fn close_frame_closes() {
    let mut s = active_session(4, "main", 0);
    let acts = s.on_frame(Frame::Close, 1);
    assert_eq!(acts.len(), 1);
    assert!(matches!(acts[0], SessionAction::CloseConnection));
    assert!(s.state == SessionState::Closing);
    assert_eq!(s.stopping().map(|d| d.id), Some(4));
    assert!(s.stopping().is_none());
}

/// Heartbeat expiry, fed through the registry, removes the session and
/// notifies the survivors — the full timeout story.
#[test]
fn timeout_removes_from_registry() {
    let mut srv = ChatServer::new();
    let (a, _) = srv.connect();
    let (b, _) = srv.connect();
    let mut sa = active_session(a, "room1", 0);
    let act = sa.heartbeat_tick(CLIENT_TIMEOUT + 5);
    let d = match act {
        HeartbeatAction::Expire(d) => d,
        HeartbeatAction::Probe => panic!("peer should have expired"),
    };
    let notices = srv.disconnect(d);
    assert_eq!(notices.len(), 1);
    assert_eq!(notices[0].target, b);
    // a is gone from the registry
    let out = srv.client_message(&chat_relay::server::ClientMessage {
        id: 0,
        msg: "left?".to_string(),
        room: "room1".to_string(),
    });
    assert_eq!(out.len(), 1);
    assert_eq!(out[0].target, b);
    // and a racing disconnect from the protocol side is harmless
    let again = srv.disconnect(Disconnect { id: a });
    assert_eq!(again.len(), 0);
}
