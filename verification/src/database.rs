//! The pure half of the persistence gateway.
//!
//! The durable store itself — users, rooms and conversation history
//! behind network I/O — is an external collaborator the runtime talks
//! to. What is decided and computed around those calls lives here: which
//! error a store request gets, how a conversation record is formed, how
//! fetched rooms and users are joined into one directory answer.

use vstd::prelude::*;
use vstd::string::StringExecFns;

use crate::codec;
use crate::models::Conversation;
use crate::models::NewConversation;
use crate::models::NewUser;
use crate::models::Room;
use crate::models::RoomResponse;
use crate::models::User;

verus! {

/// Why the gateway refused a request.
#[derive(Clone, Copy, PartialEq, Eq, Structural, Debug)]
pub enum DbError {
    /// A user with that username already exists.
    DuplicateUser,
    /// The named user does not exist.
    UserMissing,
    /// The named room does not exist.
    RoomMissing,
}

/// Whether some stored user carries this username.
pub open spec fn has_user(users: Seq<User>, id: Seq<char>) -> bool {
    exists|k: int| 0 <= k < users.len() && (#[trigger] users[k]).id@ == id
}

/// No two stored users share a username (the store keys them by it).
pub open spec fn distinct_user_ids(users: Seq<User>) -> bool {
    forall|k1: int, k2: int|
        0 <= k1 < k2 < users.len() ==> (#[trigger] users[k1]).id@ != (#[trigger] users[k2]).id@
}

/// The creation decision for a user: refused exactly when the username
/// is taken, otherwise the record that should be stored at time `now`.
pub fn prepare_user(new: NewUser, username_taken: bool, now: u64) -> (r: Result<User, DbError>)
    ensures
        username_taken ==> r == Result::<User, DbError>::Err(DbError::DuplicateUser),
        !username_taken ==> r is Ok && r->Ok_0.id@ == new.username@ && r->Ok_0.nickname@
            == new.nickname@ && r->Ok_0.created_at == now,
{
    if username_taken {
        Err(DbError::DuplicateUser)
    } else {
        Ok(User { id: new.username, nickname: new.nickname, created_at: now })
    }
}

/// The append decision for a conversation: the sender must exist, then
/// the room must exist, and only then is a record formed — the message
/// text, sender and room taken from the request, stamped at `now` and
/// not yet holding a store identifier.
pub fn prepare_conversation(new: NewConversation, user_found: bool, room_found: bool, now: u64)
    -> (r: Result<Conversation, DbError>)
    ensures
        !user_found ==> r == Result::<Conversation, DbError>::Err(DbError::UserMissing),
        user_found && !room_found ==> r == Result::<Conversation, DbError>::Err(
            DbError::RoomMissing,
        ),
        user_found && room_found ==> r is Ok && r->Ok_0.id is None && r->Ok_0.message@
            == new.message@ && r->Ok_0.user_id@ == new.user_id@ && r->Ok_0.room_id@
            == new.room_id@ && r->Ok_0.created_at == now,
{
    if !user_found {
        Err(DbError::UserMissing)
    } else if !room_found {
        Err(DbError::RoomMissing)
    } else {
        Ok(Conversation {
            id: None,
            message: new.message,
            user_id: new.user_id,
            room_id: new.room_id,
            created_at: now,
        })
    }
}

/// Membership of a conversation in a room, as a predicate value.
pub open spec fn in_room(room_id: Seq<char>) -> spec_fn(Conversation) -> bool {
    |c: Conversation| c.room_id@ == room_id
}

/// Keep exactly the conversations held in the named room, in their
/// stored order.
#[verifier::loop_isolation(false)]
pub fn conversations_in_room(convs: Vec<Conversation>, room_id: &str) -> (r: Vec<Conversation>)
    ensures
        r@ == convs@.filter(in_room(room_id@)),
{
    let ghost pred = in_room(room_id@);
    let n = convs.len();
    let mut rest = convs;
    let mut out: Vec<Conversation> = Vec::new();
    let ghost all = rest@;
    let mut i: usize = 0;
    proof {
        reveal(Seq::filter);
        assert(all.take(0) =~= Seq::<Conversation>::empty());
        assert(all.take(0).filter(pred) =~= Seq::<Conversation>::empty());
    }
    while i < n
        invariant
            n == all.len(),
            i <= n,
            rest@ =~= all.skip(i as int),
            out@ == all.take(i as int).filter(pred),
        decreases n - i,
    {
        let c = rest.remove(0);
        proof {
            reveal(Seq::filter);
            assert(all.skip(i as int)[0] == all[i as int]);
            assert(all.skip(i as int).remove(0) =~= all.skip(i + 1));
            assert(all.take(i + 1).drop_last() =~= all.take(i as int));
            assert(all.take(i + 1).last() == all[i as int]);
        }
        if codec::str_eq(c.room_id.as_str(), room_id) {
            out.push(c);
        }
        proof {
            assert(out@ =~= all.take(i + 1).filter(pred));
        }
        i = i + 1;
    }
    proof {
        assert(all.take(n as int) =~= all);
    }
    out
}

/// An exact copy of a stored user record.
fn duplicate_user(u: &User) -> (r: User)
    ensures
        r.id@ == u.id@,
        r.nickname@ == u.nickname@,
        r.created_at == u.created_at,
{
    User { id: u.id.clone(), nickname: u.nickname.clone(), created_at: u.created_at }
}

/// The position of the user carrying this username, if any.
fn find_user_index(users: &Vec<User>, id: &str) -> (r: Option<usize>)
    ensures
        match r {
            Some(k) => k < users@.len() && users@[k as int].id@ == id@,
            None => !has_user(users@, id@),
        },
{
    let n = users.len();
    let mut k: usize = 0;
    while k < n
        invariant
            n == users@.len(),
            k <= n,
            forall|t: int| 0 <= t < k ==> (#[trigger] users@[t]).id@ != id@,
        decreases n - k,
    {
        if codec::str_eq(users[k].id.as_str(), id) {
            return Some(k);
        }
        k = k + 1;
    }
    None
}

/// The record stored under this username.
pub open spec fn stored_user(users: Seq<User>, id: Seq<char>) -> User
    recommends
        has_user(users, id),
{
    users[choose|k: int| 0 <= k < users.len() && (#[trigger] users[k]).id@ == id]
}

/// With distinct usernames, any record carrying the name is the stored
/// one.
proof fn lemma_stored_user(users: Seq<User>, k: int)
    requires
        distinct_user_ids(users),
        0 <= k < users.len(),
    ensures
        stored_user(users, users[k].id@) == users[k],
{
    let id = users[k].id@;
    assert(has_user(users, id));
    let k2 = choose|k2: int| 0 <= k2 < users.len() && (#[trigger] users[k2]).id@ == id;
    if k2 != k {
        if k2 < k {
            assert(users[k2].id@ != users[k].id@);
        } else {
            assert(users[k].id@ != users[k2].id@);
        }
    }
}

/// Join fetched rooms with fetched users: each room is answered with
/// its own record and, in the order the room lists its participants,
/// the record stored under each participant's name. The store keys
/// users by username, and every listed participant must be a known
/// user.
#[verifier::loop_isolation(false)]
pub fn assemble_room_responses(rooms: Vec<Room>, users: &Vec<User>) -> (r: Vec<RoomResponse>)
    requires
        distinct_user_ids(users@),
        forall|i: int, j: int|
            0 <= i < rooms@.len() && 0 <= j < (#[trigger] rooms@[i]).participant_ids@.len()
                ==> has_user(users@, (#[trigger] rooms@[i].participant_ids@[j])@),
    ensures
        r@.len() == rooms@.len(),
        forall|i: int| 0 <= i < r@.len() ==> (#[trigger] r@[i]).room == rooms@[i],
        forall|i: int|
            0 <= i < r@.len() ==> (#[trigger] r@[i]).users@.len()
                == rooms@[i].participant_ids@.len(),
        forall|i: int, j: int|
            0 <= i < r@.len() && 0 <= j < (#[trigger] r@[i]).users@.len() ==> {
                let u = #[trigger] r@[i].users@[j];
                let w = stored_user(users@, rooms@[i].participant_ids@[j]@);
                u.id@ == w.id@ && u.nickname@ == w.nickname@ && u.created_at == w.created_at
            },
{
    let n = rooms.len();
    let mut rest = rooms;
    let mut out: Vec<RoomResponse> = Vec::new();
    let ghost all = rest@;
    let mut i: usize = 0;
    while i < n
        invariant
            i <= n,
            rest@ =~= all.skip(i as int),
            out@.len() == i,
            forall|a: int| 0 <= a < i ==> (#[trigger] out@[a]).room == all[a],
            forall|a: int|
                0 <= a < i ==> (#[trigger] out@[a]).users@.len()
                    == all[a].participant_ids@.len(),
            forall|a: int, b: int|
                0 <= a < i && 0 <= b < (#[trigger] out@[a]).users@.len() ==> {
                    let u = #[trigger] out@[a].users@[b];
                    let w = stored_user(users@, all[a].participant_ids@[b]@);
                    u.id@ == w.id@ && u.nickname@ == w.nickname@ && u.created_at == w.created_at
                },
        decreases n - i,
    {
        let room = rest.remove(0);
        proof {
            assert(all.skip(i as int)[0] == all[i as int]);
            assert(all.skip(i as int).remove(0) =~= all.skip(i + 1));
            assert(room == all[i as int]);
        }
        let pn = room.participant_ids.len();
        let mut found: Vec<User> = Vec::new();
        let mut j: usize = 0;
        while j < pn
            invariant
                j <= pn,
                pn == room.participant_ids@.len(),
                room == all[i as int],
                i < all.len(),
                found@.len() == j,
                forall|b: int|
                    0 <= b < j ==> {
                        let u = #[trigger] found@[b];
                        let w = stored_user(users@, room.participant_ids@[b]@);
                        u.id@ == w.id@ && u.nickname@ == w.nickname@ && u.created_at
                            == w.created_at
                    },
            decreases pn - j,
        {
            let pid = &room.participant_ids[j];
            match find_user_index(users, pid.as_str()) {
                Some(k) => {
                    proof {
                        lemma_stored_user(users@, k as int);
                    }
                    let u = duplicate_user(&users[k]);
                    found.push(u);
                },
                None => {
                    proof {
                        assert(has_user(users@, room.participant_ids@[j as int]@));
                        assert(false);
                    }
                },
            }
            j = j + 1;
        }
        out.push(RoomResponse { room, users: found });
        i = i + 1;
    }
    out
}

} // verus!
