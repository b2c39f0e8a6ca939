//! The per-connection session protocol.
//!
//! A session is driven by its runtime: the runtime feeds it connection
//! events (frames, the registry's connect acknowledgment, heartbeat timer
//! ticks) and carries out the actions the session decides on (send a
//! control frame, hand an operation to the registry, submit a
//! conversation record, close the connection).
//!
//! Lifecycle: `Connecting` until the registry acknowledges the connect
//! and hands out an identity, then `Active`; a close frame, a protocol
//! violation or a heartbeat timeout moves it to `Closing`, and `stopping`
//! — which announces the disconnect to the registry exactly once — to
//! `Closed`. Time is abstract: the runtime passes a monotone clock
//! reading in whole time units to every call that needs one.

use vstd::prelude::*;
use vstd::string::StringExecFns;

use crate::codec;
use crate::codec::ChatMessage;
use crate::codec::ChatType;
use crate::codec::FrameView;
use crate::models::NewConversation;
use crate::server::ClientMessage;
use crate::server::Disconnect;
use crate::server::Message;

verus! {

/// How often, in time units, a liveness probe is sent.
pub const HEARTBEAT_INTERVAL: u64 = 5;

/// How long, in time units, a session may stay silent before it is
/// considered dead: two missed probes.
pub const CLIENT_TIMEOUT: u64 = 10;

/// Where a session is in its lifecycle.
#[derive(Clone, Copy, PartialEq, Eq, Structural, Debug)]
pub enum SessionState {
    Connecting,
    Active,
    Closing,
    Closed,
}

/// One inbound connection event, as plain data.
pub enum Frame {
    Ping(Vec<u8>),
    Pong(Vec<u8>),
    Text(String),
    Binary(Vec<u8>),
    Close,
    Continuation,
    Nop,
}

/// What the session asks its runtime to do.
pub enum SessionAction {
    /// Answer a probe with this payload.
    Pong(Vec<u8>),
    /// Hand this broadcast request to the registry.
    Forward(ClientMessage),
    /// Submit this conversation record to the persistence gateway as
    /// detached work; its outcome never reaches the broadcast path.
    Persist(NewConversation),
    /// Send a close frame and stop reading.
    CloseConnection,
    /// Stop reading without a close frame.
    Stop,
}

/// What a heartbeat tick decided.
pub enum HeartbeatAction {
    /// The peer is recent enough: probe it again.
    Probe,
    /// The peer stayed silent past the timeout: hand the registry this
    /// disconnect and close the connection.
    Expire(Disconnect),
}

/// All the strings of a value list, concatenated in order.
pub open spec fn spec_concat(vs: Seq<Seq<char>>) -> Seq<char>
    decreases vs.len(),
{
    if vs.len() == 0 {
        Seq::empty()
    } else {
        spec_concat(vs.drop_last()) + vs.last()
    }
}

/// A frame as it is relayed: the client's text with the sender field
/// overwritten by the session's own identity.
pub open spec fn restamp(m: FrameView, id: usize) -> FrameView {
    FrameView { id, ..m }
}

/// The action that forwards frame `m` for broadcast on behalf of the
/// session `id` currently in `room`: the registry is asked to fan the
/// re-stamped frame's text out in that room, skipping the sender.
pub open spec fn is_forward(a: SessionAction, id: usize, room: Seq<char>, m: FrameView) -> bool {
    match a {
        SessionAction::Forward(cm) => cm.id == id && cm.room@ == room && cm.msg@
            == codec::spec_encode(restamp(m, id)),
        _ => false,
    }
}

/// The action that submits frame `m` as a conversation record: who the
/// client said sent it, the room it names, and its strings joined into
/// one message.
pub open spec fn is_persist(a: SessionAction, m: FrameView) -> bool {
    match a {
        SessionAction::Persist(c) => c.user_id@ == m.user_id && c.room_id@ == m.room_id
            && c.message@ == spec_concat(m.value),
        _ => false,
    }
}

/// Join all strings of a value list into one.
fn join_values(vs: &Vec<String>) -> (r: String)
    ensures
        r@ == spec_concat(vs.deep_view()),
{
    let mut out = String::new();
    let n = vs.len();
    let mut i: usize = 0;
    proof {
        assert(vs.deep_view().take(0) =~= Seq::<Seq<char>>::empty());
    }
    while i < n
        invariant
            n == vs@.len(),
            i <= n,
            vs.deep_view().len() == n,
            forall|k: int| 0 <= k < n ==> vs.deep_view()[k] == vs@[k]@,
            out@ == spec_concat(vs.deep_view().take(i as int)),
        decreases n - i,
    {
        out.append(vs[i].as_str());
        proof {
            assert(vs.deep_view().take(i + 1).drop_last() =~= vs.deep_view().take(i as int));
            assert(vs.deep_view().take(i + 1).last() == vs@[i as int]@);
        }
        i = i + 1;
    }
    proof {
        assert(vs.deep_view().take(n as int) =~= vs.deep_view());
    }
    out
}

/// One client connection's protocol state.
pub struct WsChatSession {
    /// The identity the registry assigned, or zero before `Active`.
    pub id: usize,
    /// When the peer last showed life.
    pub hb: u64,
    /// The room this session forwards its broadcasts into.
    pub room: String,
    /// An optional display name; carried, never interpreted here.
    pub name: Option<String>,
    /// Lifecycle position.
    pub state: SessionState,
}

impl WsChatSession {
    /// A session for a connection accepted at time `now`, about to ask
    /// the registry for an identity.
    pub fn new(now: u64, room: String) -> (s: WsChatSession)
        ensures
            s.id == 0,
            s.hb == now,
            s.room@ == room@,
            s.name is None,
            s.state == SessionState::Connecting,
    {
        WsChatSession { id: 0, hb: now, room, name: None, state: SessionState::Connecting }
    }

    /// The registry's answer to the connect request. With an identity
    /// the session becomes `Active`; without one the connection is lost
    /// for good — fatal to this session alone.
    pub fn on_connect_ack(&mut self, ack: Option<usize>)
        requires
            old(self).state == SessionState::Connecting,
        ensures
            final(self).hb == old(self).hb,
            final(self).room@ == old(self).room@,
            final(self).name == old(self).name,
            ack is Some ==> final(self).state == SessionState::Active && final(self).id == ack->0,
            ack is None ==> final(self).state == SessionState::Closed && final(self).id
                == old(self).id,
    {
        match ack {
            Some(id) => {
                self.id = id;
                self.state = SessionState::Active;
            },
            None => {
                self.state = SessionState::Closed;
            },
        }
    }

    /// One heartbeat timer tick at time `now`. A peer silent for longer
    /// than the timeout is expired: the registry is told to drop it and
    /// the connection is closed, no matter how alive the transport
    /// looks. Otherwise a probe goes out.
    pub fn heartbeat_tick(&mut self, now: u64) -> (act: HeartbeatAction)
        requires
            old(self).state == SessionState::Active,
            old(self).hb <= now,
        ensures
            final(self).id == old(self).id,
            final(self).hb == old(self).hb,
            final(self).room@ == old(self).room@,
            final(self).name == old(self).name,
            now - old(self).hb > CLIENT_TIMEOUT ==> act == HeartbeatAction::Expire(
                Disconnect { id: old(self).id },
            ) && final(self).state == SessionState::Closing,
            now - old(self).hb <= CLIENT_TIMEOUT ==> act == HeartbeatAction::Probe
                && final(self).state == SessionState::Active,
    {
        if now - self.hb > CLIENT_TIMEOUT {
            self.state = SessionState::Closing;
            HeartbeatAction::Expire(Disconnect { id: self.id })
        } else {
            HeartbeatAction::Probe
        }
    }

    /// One inbound frame at time `now`.
    ///
    /// Probes and probe replies only refresh the liveness stamp. A text
    /// frame is parsed as a chat frame; text that does not parse is
    /// discarded — the session stays `Active` and nothing is forwarded.
    /// A parsed `TYPING` frame is re-stamped with this session's
    /// identity and forwarded for broadcast in this session's room,
    /// excluding this session; a `TEXT` frame is forwarded the same way
    /// and additionally submitted as a conversation record. Other kinds
    /// from a client are ignored. A close frame or an unsupported
    /// continuation moves the session to `Closing`. Binary frames are
    /// discarded.
    pub fn on_frame(&mut self, frame: Frame, now: u64) -> (acts: Vec<SessionAction>)
        requires
            old(self).state == SessionState::Active,
        ensures
            final(self).id == old(self).id,
            final(self).room@ == old(self).room@,
            final(self).name == old(self).name,
            frame matches Frame::Ping(p) ==> final(self).hb == now && final(self).state
                == SessionState::Active && acts@ == seq![SessionAction::Pong(p)],
            frame matches Frame::Pong(_) ==> final(self).hb == now && final(self).state
                == SessionState::Active && acts@ == Seq::<SessionAction>::empty(),
            frame matches Frame::Text(t) ==> final(self).hb == now && final(self).state
                == SessionState::Active && {
                let parsed = codec::sp_frame(t@);
                &&& parsed is None ==> acts@ == Seq::<SessionAction>::empty()
                &&& parsed is Some ==> {
                    let m = parsed->0;
                    &&& m.kind == ChatType::TYPING ==> acts@.len() == 1 && is_forward(
                        acts@[0],
                        old(self).id,
                        old(self).room@,
                        m,
                    )
                    &&& m.kind == ChatType::TEXT ==> acts@.len() == 2 && is_forward(
                        acts@[0],
                        old(self).id,
                        old(self).room@,
                        m,
                    ) && is_persist(acts@[1], m)
                    &&& m.kind == ChatType::CONNECT || m.kind == ChatType::DISCONNECT
                        ==> acts@ == Seq::<SessionAction>::empty()
                }
            },
            frame matches Frame::Binary(_) ==> *final(self) == *old(self) && acts@ == Seq::<
                SessionAction,
            >::empty(),
            frame is Close ==> final(self).hb == old(self).hb && final(self).state
                == SessionState::Closing && acts@ == seq![SessionAction::CloseConnection],
            frame is Continuation ==> final(self).hb == old(self).hb && final(self).state
                == SessionState::Closing && acts@ == seq![SessionAction::Stop],
            frame is Nop ==> *final(self) == *old(self) && acts@ == Seq::<SessionAction>::empty(),
    {
        match frame {
            Frame::Ping(p) => {
                self.hb = now;
                vec![SessionAction::Pong(p)]
            },
            Frame::Pong(_) => {
                self.hb = now;
                Vec::new()
            },
            Frame::Text(t) => {
                self.hb = now;
                match codec::parse_frame(t.as_str()) {
                    None => Vec::new(),
                    Some(msg) => {
                        let ghost m = codec::sp_frame(t@)->0;
                        match msg.chat_type {
                            ChatType::TYPING => {
                                let ChatMessage { chat_type, value, room_id, user_id, id: _ } =
                                    msg;
                                let restamped = ChatMessage {
                                    chat_type,
                                    value,
                                    room_id,
                                    user_id,
                                    id: self.id,
                                };
                                proof {
                                    assert(restamped@ =~~= restamp(m, self.id));
                                }
                                let enc = codec::encode_frame(&restamped);
                                let fwd = SessionAction::Forward(
                                    ClientMessage {
                                        id: self.id,
                                        msg: enc,
                                        room: self.room.clone(),
                                    },
                                );
                                vec![fwd]
                            },
                            ChatType::TEXT => {
                                let conv = NewConversation {
                                    user_id: msg.user_id.clone(),
                                    room_id: msg.room_id.clone(),
                                    message: join_values(&msg.value),
                                };
                                let ChatMessage { chat_type, value, room_id, user_id, id: _ } =
                                    msg;
                                let restamped = ChatMessage {
                                    chat_type,
                                    value,
                                    room_id,
                                    user_id,
                                    id: self.id,
                                };
                                proof {
                                    assert(restamped@ =~~= restamp(m, self.id));
                                }
                                let enc = codec::encode_frame(&restamped);
                                let fwd = SessionAction::Forward(
                                    ClientMessage {
                                        id: self.id,
                                        msg: enc,
                                        room: self.room.clone(),
                                    },
                                );
                                vec![fwd, SessionAction::Persist(conv)]
                            },
                            ChatType::CONNECT => Vec::new(),
                            ChatType::DISCONNECT => Vec::new(),
                        }
                    },
                }
            },
            Frame::Binary(_) => Vec::new(),
            Frame::Close => {
                self.state = SessionState::Closing;
                vec![SessionAction::CloseConnection]
            },
            Frame::Continuation => {
                self.state = SessionState::Closing;
                vec![SessionAction::Stop]
            },
            Frame::Nop => Vec::new(),
        }
    }

    /// The connection is going away (the peer closed, the transport
    /// failed, or the heartbeat expired it). The first call hands back
    /// the registry's disconnect notice and the session is `Closed`;
    /// any later call hands back nothing, so the notice goes out exactly
    /// once per session.
    pub fn stopping(&mut self) -> (r: Option<Disconnect>)
        ensures
            final(self).id == old(self).id,
            final(self).hb == old(self).hb,
            final(self).room@ == old(self).room@,
            final(self).name == old(self).name,
            final(self).state == SessionState::Closed,
            old(self).state != SessionState::Closed ==> r == Some(
                Disconnect { id: old(self).id },
            ),
            old(self).state == SessionState::Closed ==> r is None,
    {
        if matches!(self.state, SessionState::Closed) {
            None
        } else {
            self.state = SessionState::Closed;
            Some(Disconnect { id: self.id })
        }
    }

    /// A payload the registry fanned out to this session: it goes to
    /// the connection exactly as it arrived.
    pub fn handle_message(&self, msg: Message) -> (r: String)
        ensures
            r@ == msg.0@,
    {
        msg.0
    }
}

} // verus!
