use chat_relay::codec::{parse_frame, ChatType};
use chat_relay::server::{ChatServer, ClientMessage, Disconnect, Join, ListRooms};

/// Every identifier handed out by connect is fresh among live sessions.
#[test]
fn connect_assigns_unique_ids() {
    let mut srv = ChatServer::new();
    let (a, _) = srv.connect();
    let (b, _) = srv.connect();
    let (c, _) = srv.connect();
    assert_ne!(a, b);
    assert_ne!(a, c);
    assert_ne!(b, c);
    assert_ne!(a, 0);
    assert_ne!(b, 0);
    assert_ne!(c, 0);
}

/// A fresh connection lands in the default room and the whole room,
/// newcomer included, hears about it.
#[test]
fn connect_announces_to_default_room() {
    let mut srv = ChatServer::new();
    let (a, first) = srv.connect();
    assert_eq!(first.len(), 1);
    assert_eq!(first[0].target, a);
    assert_eq!(
        first[0].message.0,
        format!("{{\"chat_type\":\"CONNECT\",\"value\":[\"{a}\"],\"room_id\":\"room1\",\"user_id\":\"\",\"id\":{a}}}")
    );
    let (b, second) = srv.connect();
    let mut targets: Vec<usize> = second.iter().map(|d| d.target).collect();
    targets.sort();
    let mut expected = vec![a, b];
    expected.sort();
    assert_eq!(targets, expected);
    let parsed = parse_frame(second[0].message.0.as_str()).unwrap();
    assert!(parsed.chat_type == ChatType::CONNECT);
    assert_eq!(parsed.value, vec![format!("{b}")]);
    assert_eq!(parsed.id, b);
}

/// A broadcast reaches every other member exactly once and never the
/// sender.
#[test]
fn broadcast_skips_sender_and_hits_others_once() {
    let mut srv = ChatServer::new();
    let (a, _) = srv.connect();
    let (b, _) = srv.connect();
    let (c, _) = srv.connect();
    let out = srv.client_message(&ClientMessage {
        id: a,
        msg: "payload".to_string(),
        room: "room1".to_string(),
    });
    let mut targets: Vec<usize> = out.iter().map(|d| d.target).collect();
    targets.sort();
    let mut expected = vec![b, c];
    expected.sort();
    assert_eq!(targets, expected);
    for d in &out {
        assert_eq!(d.message.0, "payload");
    }
}

/// A broadcast into an unknown or empty room is a silent no-op.
#[test]
fn broadcast_into_unknown_room_delivers_nothing() {
    let mut srv = ChatServer::new();
    let (a, _) = srv.connect();
    let out = srv.client_message(&ClientMessage {
        id: a,
        msg: "x".to_string(),
        room: "nowhere".to_string(),
    });
    assert_eq!(out.len(), 0);
}

/// Disconnect removes the session, tells the remaining members once,
/// and a second disconnect of the same id does nothing at all.
#[test]
fn disconnect_is_idempotent() {
    let mut srv = ChatServer::new();
    let (a, _) = srv.connect();
    let (b, _) = srv.connect();
    let first = srv.disconnect(Disconnect { id: a });
    assert_eq!(first.len(), 1);
    assert_eq!(first[0].target, b);
    let parsed = parse_frame(first[0].message.0.as_str()).unwrap();
    assert!(parsed.chat_type == ChatType::DISCONNECT);
    assert_eq!(parsed.value, vec!["Someone disconnected!".to_string()]);
    let second = srv.disconnect(Disconnect { id: a });
    assert_eq!(second.len(), 0);
    let out = srv.client_message(&ClientMessage {
        id: 0,
        msg: "who is left".to_string(),
        room: "room1".to_string(),
    });
    assert_eq!(out.len(), 1);
    assert_eq!(out[0].target, b);
}

/// Join moves a session into exactly the named room: the old room's
/// remaining members hear a leave notice, the new room hears nothing.
#[test]
fn join_moves_membership() {
    let mut srv = ChatServer::new();
    let (a, _) = srv.connect();
    let (b, _) = srv.connect();
    let leave = srv.join(Join { id: a, name: "main".to_string() });
    assert_eq!(leave.len(), 1);
    assert_eq!(leave[0].target, b);
    // a now answers only in "main"
    let in_main = srv.client_message(&ClientMessage {
        id: 0,
        msg: "m".to_string(),
        room: "main".to_string(),
    });
    assert_eq!(in_main.len(), 1);
    assert_eq!(in_main[0].target, a);
    let in_room1 = srv.client_message(&ClientMessage {
        id: 0,
        msg: "r".to_string(),
        room: "room1".to_string(),
    });
    assert_eq!(in_room1.len(), 1);
    assert_eq!(in_room1[0].target, b);
}

/// The room list holds every room seen so far, each once.
#[test]
fn list_rooms_snapshot() {
    let mut srv = ChatServer::new();
    let (a, _) = srv.connect();
    srv.join(Join { id: a, name: "main".to_string() });
    let mut rooms = srv.list_rooms(ListRooms);
    rooms.sort();
    assert_eq!(rooms, vec!["main".to_string(), "room1".to_string()]);
}

/// A disconnected session is in no room any more; the survivors each
/// got exactly one leave notice.
#[test]
fn disconnect_clears_membership_everywhere() {
    let mut srv = ChatServer::new();
    let (a, _) = srv.connect();
    let (b, _) = srv.connect();
    let (c, _) = srv.connect();
    srv.join(Join { id: a, name: "main".to_string() });
    srv.join(Join { id: b, name: "main".to_string() });
    let notices = srv.disconnect(Disconnect { id: a });
    assert_eq!(notices.len(), 1);
    assert_eq!(notices[0].target, b);
    // a receives nothing anywhere any more
    for room in ["main", "room1"] {
        let out = srv.client_message(&ClientMessage {
            id: 0,
            msg: "ping".to_string(),
            room: room.to_string(),
        });
        assert!(out.iter().all(|d| d.target != a));
    }
    let out = srv.client_message(&ClientMessage {
        id: 0,
        msg: "ping".to_string(),
        room: "room1".to_string(),
    });
    assert_eq!(out.len(), 1);
    assert_eq!(out[0].target, c);
}
