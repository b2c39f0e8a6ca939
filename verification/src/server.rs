//! The connection registry: the single owner of all room-membership state.
//!
//! Every operation is meant to be applied one at a time, in arrival order,
//! by whatever runtime drives the relay. An operation never performs
//! delivery itself: it returns the list of deliveries it decided on, one
//! `Delivery` per receiving session, and the runtime pushes each payload
//! to the matching connection. A failed push is the runtime's to drop;
//! nothing here depends on delivery succeeding.
//!
//! The registry's state is modelled by two pieces: a map from live session
//! id to the name of the one room the session is in, and the set of room
//! names seen so far (rooms are created on first use and never deleted).

use vstd::prelude::*;
use vstd::string::StringExecFns;

use crate::codec;
use crate::codec::ChatMessage;
use crate::codec::ChatType;
use crate::codec::FrameView;
use crate::codec::spec_num;

verus! {

/// A payload as it is handed to one session's connection.
pub struct Message(pub String);

/// One decided delivery: this payload goes to this session.
pub struct Delivery {
    pub target: usize,
    pub message: Message,
}

/// Request: a session is gone; forget it everywhere.
pub struct Disconnect {
    pub id: usize,
}

/// Request: broadcast `msg` in `room` to everyone but session `id`.
pub struct ClientMessage {
    pub id: usize,
    pub msg: String,
    pub room: String,
}

/// Request: a snapshot of the room names.
pub struct ListRooms;

/// Request: move session `id` into the room called `name`.
pub struct Join {
    pub id: usize,
    pub name: String,
}

/// One membership row: a live session and the room it is in.
struct MemberEntry {
    id: usize,
    room: String,
}

/// The registry's mathematical state.
pub ghost struct RegistryView {
    /// Which room each live session is in. A session id is live exactly
    /// when it is a key here, so membership in one room at a time is
    /// structural.
    pub live: Map<usize, Seq<char>>,
    /// Every room name seen so far, the default room included.
    pub rooms: Set<Seq<char>>,
    /// The identifier the next connection will receive.
    pub next_id: usize,
}

/// The sessions that are currently members of `room`.
pub open spec fn members_of(live: Map<usize, Seq<char>>, room: Seq<char>) -> Set<usize> {
    Set::new(|k: usize| live.contains_key(k) && live[k] == room)
}

/// What a correct fan-out of `payload` into `room` looks like: every
/// member but `skip` is hit exactly once, nobody else is hit, and each
/// delivery carries the payload unchanged.
pub open spec fn delivers_exactly(
    live: Map<usize, Seq<char>>,
    room: Seq<char>,
    payload: Seq<char>,
    skip: usize,
    ds: Seq<Delivery>,
) -> bool {
    &&& forall|p: int|
        0 <= p < ds.len() ==> members_of(live, room).contains((#[trigger] ds[p]).target) && ds[
            p
        ].target != skip && ds[p].message.0@ == payload
    &&& forall|p: int, q: int|
        0 <= p < q < ds.len() ==> (#[trigger] ds[p]).target != (#[trigger] ds[q]).target
    &&& forall|k: usize|
        #[trigger] members_of(live, room).contains(k) && k != skip ==> exists|p: int|
            0 <= p < ds.len() && (#[trigger] ds[p]).target == k
}

/// The membership map after a session disconnects.
pub open spec fn spec_disconnect(live: Map<usize, Seq<char>>, id: usize) -> Map<
    usize,
    Seq<char>,
> {
    live.remove(id)
}

/// The event broadcast into the default room when a session connects.
pub open spec fn connect_event(id: usize) -> FrameView {
    FrameView {
        kind: ChatType::CONNECT,
        value: seq![spec_num(id as int)],
        room_id: "room1"@,
        user_id: Seq::empty(),
        id: id,
    }
}

/// The event broadcast into a room when a session leaves it.
pub open spec fn disconnect_event(room: Seq<char>, id: usize) -> FrameView {
    FrameView {
        kind: ChatType::DISCONNECT,
        value: seq!["Someone disconnected!"@],
        room_id: room,
        user_id: Seq::empty(),
        id: id,
    }
}

/// The set of names a list of rooms holds.
spec fn room_names(rs: Seq<String>) -> Set<Seq<char>> {
    Set::new(|r: Seq<char>| exists|i: int| 0 <= i < rs.len() && rs[i]@ == r)
}

/// The membership map a list of rows represents.
spec fn member_map(s: Seq<MemberEntry>) -> Map<usize, Seq<char>>
    decreases s.len(),
{
    if s.len() == 0 {
        Map::empty()
    } else {
        member_map(s.drop_last()).insert(s.last().id, s.last().room@)
    }
}

/// No session id appears on two rows.
spec fn ids_distinct(s: Seq<MemberEntry>) -> bool {
    forall|i: int, j: int|
        0 <= i < j < s.len() ==> (#[trigger] s[i]).id != (#[trigger] s[j]).id
}

/// A row list and its membership map carry the same information.
proof fn lemma_member_map_props(s: Seq<MemberEntry>)
    ensures
        forall|k: usize|
            #[trigger] member_map(s).contains_key(k) <==> exists|i: int|
                0 <= i < s.len() && (#[trigger] s[i]).id == k,
        ids_distinct(s) ==> forall|i: int|
            0 <= i < s.len() ==> member_map(s)[(#[trigger] s[i]).id] == s[i].room@,
    decreases s.len(),
{
    if s.len() == 0 {
    } else {
        let pre = s.drop_last();
        lemma_member_map_props(pre);
        assert(member_map(s) == member_map(pre).insert(s.last().id, s.last().room@));
        assert forall|k: usize| #[trigger]
            member_map(s).contains_key(k) implies exists|i: int|
            0 <= i < s.len() && (#[trigger] s[i]).id == k by {
            if k == s.last().id {
                assert(s[s.len() - 1].id == k);
            } else {
                assert(member_map(pre).contains_key(k));
                let i = choose|i: int| 0 <= i < pre.len() && (#[trigger] pre[i]).id == k;
                assert(s[i] == pre[i]);
                assert(s[i].id == k);
            }
        }
        assert forall|k: usize|
            exists|i: int| 0 <= i < s.len() && (#[trigger] s[i]).id == k implies #[trigger]
            member_map(s).contains_key(k) by {
            let i = choose|i: int| 0 <= i < s.len() && (#[trigger] s[i]).id == k;
            if i < s.len() - 1 {
                assert(pre[i].id == k);
                assert(member_map(pre).contains_key(k) <==> exists|j: int|
                    0 <= j < pre.len() && (#[trigger] pre[j]).id == k);
                assert(member_map(pre).contains_key(k));
            } else {
                assert(k == s.last().id);
            }
        }
        if ids_distinct(s) {
            assert(ids_distinct(pre));
            assert forall|i: int|
                0 <= i < s.len() implies member_map(s)[(#[trigger] s[i]).id] == s[i].room@ by {
                if i < s.len() - 1 {
                    assert(pre[i].id == s[i].id && pre[i].room@ == s[i].room@);
                    assert(member_map(pre)[pre[i].id] == pre[i].room@);
                    assert(s[i].id != s.last().id);
                }
            }
        }
    }
}

/// Removing a row removes exactly that session from the map.
proof fn lemma_member_map_remove(s: Seq<MemberEntry>, i: int)
    requires
        ids_distinct(s),
        0 <= i < s.len(),
    ensures
        member_map(s.remove(i)) == member_map(s).remove(s[i].id),
    decreases s.len(),
{
    s.remove_ensures(i);
    lemma_member_map_props(s);
    lemma_member_map_props(s.drop_last());
    if i == s.len() - 1 {
        assert(s.remove(i) =~= s.drop_last());
        assert(!member_map(s.drop_last()).contains_key(s[i].id));
        assert(member_map(s.drop_last()) =~= member_map(s).remove(s[i].id));
    } else {
        let pre = s.drop_last();
        assert(ids_distinct(pre));
        lemma_member_map_remove(pre, i);
        assert(s.remove(i).drop_last() =~= pre.remove(i));
        assert(s.remove(i).last() == s.last());
        assert(member_map(s.remove(i)) == member_map(pre.remove(i)).insert(
            s.last().id,
            s.last().room@,
        ));
        assert(s[i].id != s.last().id);
        assert(member_map(pre).remove(s[i].id).insert(s.last().id, s.last().room@)
            =~= member_map(pre).insert(s.last().id, s.last().room@).remove(s[i].id));
    }
}

/// For every pair of rooms: nobody is a member of both. Membership is a
/// map from session to room, so one session is in exactly one room.
pub proof fn lemma_member_of_one_room(
    live: Map<usize, Seq<char>>,
    id: usize,
    r1: Seq<char>,
    r2: Seq<char>,
)
    requires
        members_of(live, r1).contains(id),
        members_of(live, r2).contains(id),
    ensures
        r1 == r2,
{
}

/// Disconnecting twice leaves the membership state exactly as one
/// disconnect does, and after the first the session is gone, so the
/// second finds nothing to announce: `disconnect` says a session that is
/// not live produces no deliveries at all.
pub proof fn lemma_disconnect_idempotent(live: Map<usize, Seq<char>>, id: usize)
    ensures
        spec_disconnect(spec_disconnect(live, id), id) == spec_disconnect(live, id),
        !spec_disconnect(live, id).contains_key(id),
{
    assert(live.remove(id).remove(id) =~= live.remove(id));
}

/// The registry itself. `members` has one row per live session; `rooms`
/// is every room name seen so far; `next_id` grows by one per connect,
/// which keeps identifiers unique among live sessions for as long as the
/// process runs.
pub struct ChatServer {
    next_id: usize,
    members: Vec<MemberEntry>,
    rooms: Vec<String>,
}

impl View for ChatServer {
    type V = RegistryView;

    closed spec fn view(&self) -> RegistryView {
        RegistryView {
            live: member_map(self.members@),
            rooms: room_names(self.rooms@),
            next_id: self.next_id,
        }
    }
}

impl ChatServer {
    /// The registry's internal invariant: rows have distinct, non-zero
    /// ids below `next_id` (zero is the "no sender" sentinel for
    /// broadcasts), every row's room is a known room name, the known
    /// names are distinct, and the default room exists.
    pub closed spec fn wf(&self) -> bool {
        &&& 1 <= self.next_id
        &&& ids_distinct(self.members@)
        &&& forall|i: int|
            0 <= i < self.members@.len() ==> 0 < (#[trigger] self.members@[i]).id
                < self.next_id
        &&& forall|i: int|
            0 <= i < self.members@.len() ==> room_names(self.rooms@).contains(
                (#[trigger] self.members@[i]).room@,
            )
        &&& forall|i: int, j: int|
            0 <= i < j < self.rooms@.len() ==> (#[trigger] self.rooms@[i])@ != (
            #[trigger] self.rooms@[j])@
        &&& room_names(self.rooms@).contains("room1"@)
    }

    /// A fresh registry: no sessions, only the default room.
    pub fn new() -> (s: ChatServer)
        ensures
            s.wf(),
            s@.live == Map::<usize, Seq<char>>::empty(),
            s@.rooms == Set::empty().insert("room1"@),
            s@.next_id == 1,
    {
        let rooms = vec![String::from_str("room1")];
        let s = ChatServer { next_id: 1, members: Vec::new(), rooms };
        proof {
            assert(s.rooms@[0]@ == "room1"@);
            assert(room_names(s.rooms@) =~= Set::empty().insert("room1"@));
            assert(member_map(s.members@) =~= Map::<usize, Seq<char>>::empty());
        }
        s
    }

    /// The row holding `id`, if the session is live.
    fn find_member(&self, id: usize) -> (r: Option<usize>)
        ensures
            match r {
                Some(i) => i < self.members@.len() && self.members@[i as int].id == id,
                None => forall|i: int|
                    0 <= i < self.members@.len() ==> (#[trigger] self.members@[i]).id != id,
            },
    {
        let n = self.members.len();
        let mut i: usize = 0;
        while i < n
            invariant
                n == self.members@.len(),
                i <= n,
                forall|k: int| 0 <= k < i ==> (#[trigger] self.members@[k]).id != id,
            decreases n - i,
        {
            if self.members[i].id == id {
                return Some(i);
            }
            i = i + 1;
        }
        None
    }

    /// Whether `name` is already a known room.
    fn room_known(&self, name: &str) -> (r: bool)
        ensures
            r == room_names(self.rooms@).contains(name@),
    {
        let n = self.rooms.len();
        let mut i: usize = 0;
        while i < n
            invariant
                n == self.rooms@.len(),
                i <= n,
                forall|k: int| 0 <= k < i ==> (#[trigger] self.rooms@[k])@ != name@,
            decreases n - i,
        {
            if codec::str_eq(self.rooms[i].as_str(), name) {
                return true;
            }
            i = i + 1;
        }
        false
    }

    /// Fan `message` out to every member of `room` except `skip_id`:
    /// each such member receives it exactly once, nobody else receives
    /// anything. An unknown or empty room yields no deliveries.
    fn send_message(&self, room: &str, message: &str, skip_id: usize) -> (out: Vec<Delivery>)
        requires
            self.wf(),
        ensures
            delivers_exactly(self@.live, room@, message@, skip_id, out@),
    {
        proof {
            lemma_member_map_props(self.members@);
        }
        let mut out: Vec<Delivery> = Vec::new();
        let n = self.members.len();
        let mut i: usize = 0;
        while i < n
            invariant
                self.wf(),
                n == self.members@.len(),
                i <= n,
                forall|p: int|
                    0 <= p < out@.len() ==> exists|j: int|
                        0 <= j < i && (#[trigger] out@[p]).target == self.members@[j].id
                            && self.members@[j].room@ == room@,
                forall|p: int|
                    0 <= p < out@.len() ==> (#[trigger] out@[p]).target != skip_id && out@[
                        p
                    ].message.0@ == message@,
                forall|j: int|
                    0 <= j < i && (#[trigger] self.members@[j]).room@ == room@
                        && self.members@[j].id != skip_id ==> exists|p: int|
                        0 <= p < out@.len() && (#[trigger] out@[p]).target
                            == self.members@[j].id,
                forall|p: int, q: int|
                    0 <= p < q < out@.len() ==> (#[trigger] out@[p]).target != (
                    #[trigger] out@[q]).target,
            decreases n - i,
        {
            let e = &self.members[i];
            if e.id != skip_id && codec::str_eq(e.room.as_str(), room) {
                proof {
                    assert forall|p: int| 0 <= p < out@.len() implies (#[trigger] out@[p]).target
                        != self.members@[i as int].id by {
                        let j = choose|j: int|
                            0 <= j < i && (#[trigger] out@[p]).target == self.members@[j].id
                                && self.members@[j].room@ == room@;
                        assert(self.members@[j].id != self.members@[i as int].id);
                    }
                }
                let ghost prev = out@;
                out.push(Delivery { target: e.id, message: Message(String::from_str(message)) });
                proof {
                    assert(out@[out@.len() - 1].target == self.members@[i as int].id);
                    assert(forall|p: int| 0 <= p < prev.len() ==> out@[p] == prev[p]);
                    assert forall|p: int, q: int|
                        0 <= p < q < out@.len() implies (#[trigger] out@[p]).target != (
                    #[trigger] out@[q]).target by {
                        if q == out@.len() - 1 {
                            assert(prev[p].target != self.members@[i as int].id);
                        }
                    }
                    assert forall|p: int|
                        0 <= p < out@.len() implies exists|j: int|
                        0 <= j < i + 1 && (#[trigger] out@[p]).target == self.members@[j].id
                            && self.members@[j].room@ == room@ by {
                        if p < prev.len() {
                            assert(out@[p] == prev[p]);
                            let j = choose|j: int|
                                0 <= j < i && (#[trigger] prev[p]).target == self.members@[j].id
                                    && self.members@[j].room@ == room@;
                            assert(0 <= j < i + 1 && out@[p].target == self.members@[j].id
                                && self.members@[j].room@ == room@);
                        } else {
                            assert(out@[p].target == self.members@[i as int].id
                                && self.members@[i as int].room@ == room@);
                        }
                    }
                    assert forall|j: int|
                        0 <= j < i + 1 && (#[trigger] self.members@[j]).room@ == room@
                            && self.members@[j].id != skip_id implies exists|p: int|
                        0 <= p < out@.len() && (#[trigger] out@[p]).target
                            == self.members@[j].id by {
                        if j == i {
                            assert(out@[out@.len() - 1].target == self.members@[j].id);
                        } else {
                            let p = choose|p: int|
                                0 <= p < prev.len() && (#[trigger] prev[p]).target
                                    == self.members@[j].id;
                            assert(out@[p] == prev[p]);
                            assert(out@[p].target == self.members@[j].id);
                        }
                    }
                }
            } else {
                proof {
                    assert forall|j: int|
                        0 <= j < i + 1 && (#[trigger] self.members@[j]).room@ == room@
                            && self.members@[j].id != skip_id implies exists|p: int|
                        0 <= p < out@.len() && (#[trigger] out@[p]).target
                            == self.members@[j].id by {
                        assert(j != i);
                    }
                    assert forall|p: int|
                        0 <= p < out@.len() implies exists|j: int|
                        0 <= j < i + 1 && (#[trigger] out@[p]).target == self.members@[j].id
                            && self.members@[j].room@ == room@ by {
                        let j = choose|j: int|
                            0 <= j < i && (#[trigger] out@[p]).target == self.members@[j].id
                                && self.members@[j].room@ == room@;
                        assert(0 <= j < i + 1 && out@[p].target == self.members@[j].id
                            && self.members@[j].room@ == room@);
                    }
                }
            }
            i = i + 1;
        }
        proof {
            assert forall|k: usize| #[trigger]
                members_of(self@.live, room@).contains(k) && k != skip_id implies exists|p: int|
                0 <= p < out@.len() && (#[trigger] out@[p]).target == k by {
                let j = choose|j: int|
                    0 <= j < self.members@.len() && (#[trigger] self.members@[j]).id == k;
                assert(member_map(self.members@)[self.members@[j].id] == self.members@[j].room@);
                assert(self.members@[j].room@ == room@);
            }
            assert forall|p: int| 0 <= p < out@.len() implies members_of(self@.live,
                room@,
            ).contains((#[trigger] out@[p]).target) by {
                let j = choose|j: int|
                    0 <= j < self.members@.len() && (#[trigger] out@[p]).target
                        == self.members@[j].id && self.members@[j].room@ == room@;
                assert(member_map(self.members@).contains_key(self.members@[j].id));
                assert(member_map(self.members@)[self.members@[j].id] == self.members@[j].room@);
            }
        }
        out
    }

    /// Connect: allocate a fresh identifier — never one that is live —
    /// put the new session in the default room, and announce the arrival
    /// to the whole room, the newcomer included (the sentinel `0` skips
    /// nobody).
    pub fn connect(&mut self) -> (res: (usize, Vec<Delivery>))
        requires
            old(self).wf(),
            old(self)@.next_id < usize::MAX,
        ensures
            final(self).wf(),
            !old(self)@.live.contains_key(res.0),
            res.0 == old(self)@.next_id,
            res.0 != 0,
            final(self)@.live == old(self)@.live.insert(res.0, "room1"@),
            final(self)@.rooms == old(self)@.rooms,
            final(self)@.next_id == old(self)@.next_id + 1,
            delivers_exactly(
                final(self)@.live,
                "room1"@,
                codec::spec_encode(connect_event(res.0)),
                0,
                res.1@,
            ),
    {
        proof {
            lemma_member_map_props(self.members@);
        }
        let id = self.next_id;
        self.next_id = self.next_id + 1;
        let entry = MemberEntry { id, room: String::from_str("room1") };
        self.members.push(entry);
        proof {
            assert(self.members@.drop_last() =~= old(self).members@);
            assert(member_map(self.members@) == member_map(old(self).members@).insert(
                id,
                "room1"@,
            ));
        }
        let ev = ChatMessage {
            chat_type: ChatType::CONNECT,
            value: vec![codec::usize_to_string(id)],
            room_id: String::from_str("room1"),
            user_id: String::new(),
            id,
        };
        proof {
            assert(ev@.value =~= connect_event(id).value);
            assert(ev@ =~~= connect_event(id));
        }
        let payload = codec::encode_frame(&ev);
        let out = self.send_message("room1", payload.as_str(), 0);
        (id, out)
    }

    /// Disconnect: forget the session everywhere and tell the remaining
    /// members of its room that it left. Disconnecting a session that is
    /// not live changes nothing and announces nothing, so the operation
    /// is idempotent.
    pub fn disconnect(&mut self, msg: Disconnect) -> (out: Vec<Delivery>)
        requires
            old(self).wf(),
        ensures
            final(self).wf(),
            final(self)@.live == spec_disconnect(old(self)@.live, msg.id),
            final(self)@.rooms == old(self)@.rooms,
            final(self)@.next_id == old(self)@.next_id,
            old(self)@.live.contains_key(msg.id) ==> delivers_exactly(
                final(self)@.live,
                old(self)@.live[msg.id],
                codec::spec_encode(disconnect_event(old(self)@.live[msg.id], msg.id)),
                0,
                out@,
            ),
            !old(self)@.live.contains_key(msg.id) ==> out@ == Seq::<Delivery>::empty(),
    {
        proof {
            lemma_member_map_props(self.members@);
        }
        match self.find_member(msg.id) {
            None => {
                proof {
                    assert(!member_map(self.members@).contains_key(msg.id));
                    assert(member_map(self.members@).remove(msg.id) =~= member_map(
                        self.members@,
                    ));
                }
                Vec::new()
            },
            Some(idx) => {
                let room = self.members[idx].room.clone();
                proof {
                    old(self).members@.remove_ensures(idx as int);
                    lemma_member_map_remove(old(self).members@, idx as int);
                }
                self.members.remove(idx);
                let ev = ChatMessage {
                    chat_type: ChatType::DISCONNECT,
                    value: vec![String::from_str("Someone disconnected!")],
                    room_id: room.clone(),
                    user_id: String::new(),
                    id: msg.id,
                };
                proof {
                    assert(ev@.value =~= disconnect_event(room@, msg.id).value);
                    assert(ev@ =~~= disconnect_event(room@, msg.id));
                }
                let payload = codec::encode_frame(&ev);
                let out = self.send_message(room.as_str(), payload.as_str(), 0);
                out
            },
        }
    }

    /// Join: move the session out of its current room — announcing the
    /// departure to that room's remaining members — and into the room
    /// called `name`, creating the room on first use. By design no
    /// arrival notice is broadcast into the new room; only the old room
    /// learns of the move.
    pub fn join(&mut self, msg: Join) -> (out: Vec<Delivery>)
        requires
            old(self).wf(),
            old(self)@.live.contains_key(msg.id),
        ensures
            final(self).wf(),
            final(self)@.live == old(self)@.live.insert(msg.id, msg.name@),
            final(self)@.rooms == old(self)@.rooms.insert(msg.name@),
            final(self)@.next_id == old(self)@.next_id,
            delivers_exactly(
                old(self)@.live.remove(msg.id),
                old(self)@.live[msg.id],
                codec::spec_encode(disconnect_event(old(self)@.live[msg.id], msg.id)),
                0,
                out@,
            ),
    {
        proof {
            lemma_member_map_props(self.members@);
        }
        let idx = match self.find_member(msg.id) {
            Some(i) => i,
            None => {
                proof {
                    assert(false);
                }
                0
            },
        };
        let old_room = self.members[idx].room.clone();
        proof {
            old(self).members@.remove_ensures(idx as int);
            lemma_member_map_remove(old(self).members@, idx as int);
        }
        self.members.remove(idx);
        let ev = ChatMessage {
            chat_type: ChatType::DISCONNECT,
            value: vec![String::from_str("Someone disconnected!")],
            room_id: old_room.clone(),
            user_id: String::new(),
            id: msg.id,
        };
        proof {
            assert(ev@.value =~= disconnect_event(old_room@, msg.id).value);
            assert(ev@ =~~= disconnect_event(old_room@, msg.id));
        }
        let payload = codec::encode_frame(&ev);
        let out = self.send_message(old_room.as_str(), payload.as_str(), 0);
        let ghost removed = self.members@;
        self.members.push(MemberEntry { id: msg.id, room: msg.name.clone() });
        proof {
            assert(self.members@.drop_last() =~= removed);
            assert(member_map(self.members@) == member_map(removed).insert(msg.id, msg.name@));
            assert(member_map(removed).insert(msg.id, msg.name@) =~= member_map(
                old(self).members@,
            ).insert(msg.id, msg.name@));
        }
        if !self.room_known(msg.name.as_str()) {
            let ghost rs = self.rooms@;
            self.rooms.push(msg.name);
            proof {
                assert forall|r: Seq<char>| room_names(self.rooms@).contains(r) implies
                    room_names(rs).insert(msg.name@).contains(r) by {
                    let i = choose|i: int| 0 <= i < self.rooms@.len() && (#[trigger] self.rooms@[
                        i
                    ])@ == r;
                    if i < rs.len() {
                        assert(rs[i]@ == r);
                    }
                }
                assert forall|r: Seq<char>| room_names(rs).insert(msg.name@).contains(r) implies
                    room_names(self.rooms@).contains(r) by {
                    if r == msg.name@ {
                        assert(self.rooms@[self.rooms@.len() - 1]@ == r);
                    } else {
                        let i = choose|i: int| 0 <= i < rs.len() && (#[trigger] rs[i])@ == r;
                        assert(self.rooms@[i]@ == r);
                    }
                }
                assert(room_names(self.rooms@) =~= room_names(rs).insert(msg.name@));
            }
        } else {
            proof {
                assert(room_names(self.rooms@) =~= room_names(self.rooms@).insert(msg.name@));
            }
        }
        out
    }

    /// Broadcast a client payload in a room on behalf of a session:
    /// everyone currently in the room receives it except the sender.
    pub fn client_message(&self, msg: &ClientMessage) -> (out: Vec<Delivery>)
        requires
            self.wf(),
        ensures
            delivers_exactly(self@.live, msg.room@, msg.msg@, msg.id, out@),
    {
        self.send_message(msg.room.as_str(), msg.msg.as_str(), msg.id)
    }

    /// A snapshot of the known room names, each exactly once; the order
    /// carries no meaning.
    pub fn list_rooms(&self, _msg: ListRooms) -> (out: Vec<String>)
        requires
            self.wf(),
        ensures
            forall|i: int| 0 <= i < out@.len() ==> self@.rooms.contains((#[trigger] out@[i])@),
            forall|r: Seq<char>|
                self@.rooms.contains(r) ==> exists|i: int|
                    0 <= i < out@.len() && (#[trigger] out@[i])@ == r,
            forall|i: int, j: int|
                0 <= i < j < out@.len() ==> (#[trigger] out@[i])@ != (#[trigger] out@[j])@,
    {
        let n = self.rooms.len();
        let mut out: Vec<String> = Vec::new();
        let mut i: usize = 0;
        while i < n
            invariant
                self.wf(),
                n == self.rooms@.len(),
                i <= n,
                out@.len() == i,
                forall|k: int| 0 <= k < i ==> (#[trigger] out@[k])@ == self.rooms@[k]@,
            decreases n - i,
        {
            out.push(self.rooms[i].clone());
            i = i + 1;
        }
        proof {
            assert forall|r: Seq<char>| self@.rooms.contains(r) implies exists|i: int|
                0 <= i < out@.len() && (#[trigger] out@[i])@ == r by {
                let k = choose|k: int| 0 <= k < self.rooms@.len() && (#[trigger] self.rooms@[k])@
                    == r;
                assert(out@[k]@ == r);
            }
            assert forall|i: int| 0 <= i < out@.len() implies self@.rooms.contains(
                (#[trigger] out@[i])@,
            ) by {
                assert(self.rooms@[i]@ == out@[i]@);
            }
        }
        out
    }
}

} // verus!
