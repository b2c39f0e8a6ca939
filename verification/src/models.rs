//! Plain data shapes exchanged with the persistence gateway.
//!
//! The gateway itself (durable storage of users, rooms and conversation
//! history) is an external collaborator; the relay core only builds the
//! request values below and hands them over as fire-and-forget work.

use vstd::prelude::*;

verus! {

/// A stored user record. The store keys users by their username, and
/// creation time is carried as a whole number of time units.
#[derive(Clone)]
pub struct User {
    pub id: String,
    pub nickname: String,
    pub created_at: u64,
}

/// A stored room record: its name, the last message relayed in it, and
/// who participates.
#[derive(Clone)]
pub struct Room {
    pub id: String,
    pub last_message: String,
    pub participant_ids: Vec<String>,
    pub created_at: u64,
}

/// A stored conversation entry. `id` is the store's own identifier,
/// absent until the store assigns one.
#[derive(Clone)]
pub struct Conversation {
    pub id: Option<String>,
    pub message: String,
    pub user_id: String,
    pub room_id: String,
    pub created_at: u64,
}

/// One room together with the records of everyone in it.
pub struct RoomResponse {
    pub room: Room,
    pub users: Vec<User>,
}

/// What is needed to create a user record.
pub struct NewUser {
    pub username: String,
    pub nickname: String,
}

/// What is needed to append one conversation entry: who said what in
/// which room. Built by the session when it relays a `TEXT` frame.
pub struct NewConversation {
    pub user_id: String,
    pub room_id: String,
    pub message: String,
}

} // verus!
