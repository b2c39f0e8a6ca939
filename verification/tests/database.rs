use chat_relay::database::{
    assemble_room_responses, conversations_in_room, prepare_conversation, prepare_user, DbError,
};
use chat_relay::models::{Conversation, NewConversation, NewUser, Room, User};

fn user(id: &str, nick: &str, at: u64) -> User {
    User { id: id.to_string(), nickname: nick.to_string(), created_at: at }
}

fn conv(room: &str, msg: &str) -> Conversation {
    Conversation {
        id: None,
        message: msg.to_string(),
        user_id: "u1".to_string(),
        room_id: room.to_string(),
        created_at: 0,
    }
}

/// A taken username is refused; a free one yields the record to store.
#[test]
fn prepare_user_decides_on_duplicates() {
    let new = NewUser { username: "u1".to_string(), nickname: "ada".to_string() };
    assert!(matches!(prepare_user(new, true, 5), Err(DbError::DuplicateUser)));
    let new = NewUser { username: "u1".to_string(), nickname: "ada".to_string() };
    let stored = prepare_user(new, false, 5).unwrap();
    assert_eq!(stored.id, "u1");
    assert_eq!(stored.nickname, "ada");
    assert_eq!(stored.created_at, 5);
}

/// The sender is checked before the room; only then a record is formed.
#[test]
fn prepare_conversation_checks_in_order() {
    let make = || NewConversation {
        user_id: "u1".to_string(),
        room_id: "main".to_string(),
        message: "hi".to_string(),
    };
    assert!(matches!(prepare_conversation(make(), false, true, 3), Err(DbError::UserMissing)));
    assert!(matches!(prepare_conversation(make(), false, false, 3), Err(DbError::UserMissing)));
    assert!(matches!(prepare_conversation(make(), true, false, 3), Err(DbError::RoomMissing)));
    let rec = prepare_conversation(make(), true, true, 3).unwrap();
    assert!(rec.id.is_none());
    assert_eq!(rec.message, "hi");
    assert_eq!(rec.user_id, "u1");
    assert_eq!(rec.room_id, "main");
    assert_eq!(rec.created_at, 3);
}

/// Exactly the conversations of the asked room come back, in order.
#[test]
fn conversations_filter_by_room() {
    let all = vec![conv("main", "a"), conv("other", "b"), conv("main", "c")];
    let got = conversations_in_room(all, "main");
    let texts: Vec<&str> = got.iter().map(|c| c.message.as_str()).collect();
    assert_eq!(texts, vec!["a", "c"]);
    let none = conversations_in_room(vec![conv("main", "a")], "empty");
    assert_eq!(none.len(), 0);
}

/// Every room is answered with the records of its participants, in the
/// order the room lists them.
#[test]
fn rooms_are_joined_with_their_users() {
    let users = vec![user("u1", "ada", 1), user("u2", "joe", 2)];
    let rooms = vec![
        Room {
            id: "main".to_string(),
            last_message: "hi".to_string(),
            participant_ids: vec!["u2".to_string(), "u1".to_string()],
            created_at: 0,
        },
        Room {
            id: "side".to_string(),
            last_message: String::new(),
            participant_ids: vec!["u1".to_string()],
            created_at: 0,
        },
    ];
    let resp = assemble_room_responses(rooms, &users);
    assert_eq!(resp.len(), 2);
    assert_eq!(resp[0].room.id, "main");
    let nicks: Vec<&str> = resp[0].users.iter().map(|u| u.nickname.as_str()).collect();
    assert_eq!(nicks, vec!["joe", "ada"]);
    assert_eq!(resp[1].room.id, "side");
    assert_eq!(resp[1].users[0].id, "u1");
    assert_eq!(resp[1].users[0].created_at, 1);
}
