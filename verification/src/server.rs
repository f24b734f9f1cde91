//! The hub: the registry mapping identifiers to live sessions, the
//! dispatcher that correlates one outbound command with one inbound reply,
//! and the liveness decisions that reclaim dead sessions.
//!
//! The transport runs outside the library and is reduced to plain values: a
//! connection is the integer token under which the shell reaches it, a
//! waiting caller is the token of its one-shot reply slot, and time is a
//! tick count handed in by the caller. Every operation returns the action
//! the shell must perform (send a frame, resolve a caller, stop a
//! connection), so the decisions proved here are the only decisions.

use vstd::prelude::*;

use std::collections::HashMap;

use crate::codec::{encode, encode_spec};
use crate::messages::{ClientMessage, Connect, Disconnect, EncoderMessage, EncoderMessageType,
    GetSession, List, MessageView};

verus! {

broadcast use vstd::std_specs::hash::group_hash_axioms;

/// Ticks between two liveness pings to one agent.
pub const HEARTBEAT_INTERVAL: u64 = 5;

/// Silence longer than this declares an agent's connection dead.
pub const ENCODER_TIMEOUT: u64 = 10;

/// The hub-side record of one connected agent.
#[derive(Clone, Copy, Debug)]
pub struct Session {
    /// Token under which the shell reaches this agent's connection.
    pub handle: u64,
    /// Tick of the last liveness signal from this agent.
    pub last_seen: u64,
    /// The caller waiting on this agent's reply, at most one at a time.
    pub pending: Option<u64>,
}

/// Why a dispatch did not return a value.
#[derive(Clone, Copy, Debug, PartialEq, Eq)]
pub enum DispatchError {
    /// The identifier is not registered; nothing was sent.
    NotFound,
    /// The session already has a caller waiting; nothing was sent.
    Busy,
    /// The connection ended while the caller was waiting.
    Cancelled,
    /// The bounded wait on the reply elapsed.
    Timeout,
}

/// A frame the hub tells the shell to send to one connection.
#[derive(Debug)]
pub struct OutboundFrame {
    /// Token of the connection to send on.
    pub handle: u64,
    /// Text-frame bytes.
    pub bytes: Vec<u8>,
}

/// One inbound transport event on an agent's connection.
#[derive(Debug)]
pub enum FrameIn {
    /// A ping frame with its body; answered with a pong.
    Ping(Vec<u8>),
    /// A pong frame: a liveness signal.
    Pong,
    /// A text frame: one envelope.
    Text(Vec<u8>),
    /// A binary frame; echoed back.
    Binary(Vec<u8>),
    /// The remote side closed the connection.
    Close,
    /// A frame kind the hub does not handle; the connection stops.
    Other,
    /// The transport reported an error; the connection stops.
    TransportError,
}

/// What the shell must do after the hub handled an inbound frame.
#[derive(Debug)]
pub enum FrameAction {
    /// Nothing to do.
    Ignore,
    /// Answer with a pong carrying the same body.
    Pong(Vec<u8>),
    /// Send this text frame back on the same connection.
    ReplyText(Vec<u8>),
    /// Echo this binary frame.
    EchoBinary(Vec<u8>),
    /// Hand `value` to the caller waiting under `caller`, exactly once.
    Resolve { caller: u64, value: i32 },
    /// Echo the close, then stop the connection; the session is removed and
    /// the caller in `cancelled`, if any, must learn its request died.
    Close { cancelled: Option<u64> },
    /// Stop the connection; the session is removed and the caller in
    /// `cancelled`, if any, must learn its request died.
    Stop { cancelled: Option<u64> },
}

/// What the shell must do on one liveness tick for one session.
#[derive(Debug)]
pub enum TickAction {
    /// The session is alive: send a ping on this connection token.
    Ping(u64),
    /// The session exceeded the timeout and was removed; the caller in the
    /// payload, if any, must learn its request died.
    TimedOut(Option<u64>),
    /// No such session: the tick loop should stop.
    Gone,
}

// ---------------------------------------------------------------------
// The registry's transitions, as functions on its mathematical state
// ---------------------------------------------------------------------

/// Registration inserts a fresh session with no pending caller.
pub open spec fn register_spec(m: Map<u64, Session>, id: u64, handle: u64, now: u64) -> Map<
    u64,
    Session,
> {
    m.insert(id, Session { handle, last_seen: now, pending: None })
}

/// Removal of an identifier; absent identifiers are a no-op.
pub open spec fn unregister_spec(m: Map<u64, Session>, id: u64) -> Map<u64, Session> {
    m.remove(id)
}

/// The session registered under `id`, if any.
pub open spec fn lookup_spec(m: Map<u64, Session>, id: u64) -> Option<Session> {
    if m.contains_key(id) {
        Some(m[id])
    } else {
        None
    }
}

/// The caller waiting on `id`, if the session exists and one waits.
pub open spec fn pending_of(m: Map<u64, Session>, id: u64) -> Option<u64> {
    if m.contains_key(id) {
        m[id].pending
    } else {
        None
    }
}

/// A dispatch to `id` goes out when the session exists and no caller waits.
pub open spec fn dispatch_ok(m: Map<u64, Session>, id: u64) -> bool {
    m.contains_key(id) && m[id].pending is None
}

/// A successful dispatch parks the caller in the session's pending slot.
pub open spec fn dispatch_map(m: Map<u64, Session>, id: u64, caller: u64) -> Map<u64, Session> {
    if dispatch_ok(m, id) {
        m.insert(
            id,
            Session { handle: m[id].handle, last_seen: m[id].last_seen, pending: Some(caller) },
        )
    } else {
        m
    }
}

/// A delivered reply clears the pending slot; anything else is unchanged.
pub open spec fn deliver_map(m: Map<u64, Session>, id: u64) -> Map<u64, Session> {
    if m.contains_key(id) && m[id].pending is Some {
        m.insert(
            id,
            Session { handle: m[id].handle, last_seen: m[id].last_seen, pending: None },
        )
    } else {
        m
    }
}

/// Who receives a reply carrying `value` on `id`: the one pending caller, or
/// nobody when none waits (an orphaned reply is dropped).
pub open spec fn deliver_result(m: Map<u64, Session>, id: u64, value: i32) -> Option<(u64, i32)> {
    match pending_of(m, id) {
        Some(caller) => Some((caller, value)),
        None => None,
    }
}

/// A liveness signal refreshes the session's last-seen tick.
pub open spec fn touch_spec(m: Map<u64, Session>, id: u64, now: u64) -> Map<u64, Session> {
    if m.contains_key(id) {
        m.insert(
            id,
            Session { handle: m[id].handle, last_seen: now, pending: m[id].pending },
        )
    } else {
        m
    }
}

/// Whether a session has been silent beyond the timeout at tick `now`.
pub open spec fn timed_out(s: Session, now: u64) -> bool {
    now > s.last_seen + ENCODER_TIMEOUT
}

// ---------------------------------------------------------------------
// The registry
// ---------------------------------------------------------------------

/// The single authority owning the identifier-to-session map. All
/// registration, lookup, removal, listing, dispatch and liveness decisions
/// go through it; its view is the mathematical map of live sessions.
pub struct RemoteServer {
    pub sessions: HashMap<u64, Session>,
}

impl View for RemoteServer {
    type V = Map<u64, Session>;

    open spec fn view(&self) -> Map<u64, Session> {
        self.sessions@
    }
}

/// Relies on rand::random: draws one uniformly random machine word. Nothing
/// is promised of the value; registration checks freshness itself.
#[verifier::external_body]
fn random_id() -> u64 {
    rand::random::<u64>()
}

impl Default for RemoteServer {
    /// An empty registry.
    fn default() -> (s: Self)
        ensures
            s@ == Map::<u64, Session>::empty(),
    {
        RemoteServer { sessions: HashMap::new() }
    }
}

impl RemoteServer {
    /// Registers `handle` under the candidate identifier `id`, unless `id`
    /// is already taken: a colliding candidate is rejected, never
    /// overwritten.
    pub fn try_register(&mut self, id: u64, handle: u64, now: u64) -> (ok: bool)
        ensures
            ok <==> !old(self)@.contains_key(id),
            ok ==> final(self)@ == register_spec(old(self)@, id, handle, now),
            !ok ==> final(self)@ == old(self)@,
    {
        if self.sessions.contains_key(&id) {
            false
        } else {
            self.sessions.insert(id, Session { handle, last_seen: now, pending: None });
            true
        }
    }

    /// An agent connected: allocate a fresh random identifier, register the
    /// connection under it, and return it. A drawn identifier that is
    /// already in use is rejected and redrawn; after too many collisions
    /// (never seen over a 64-bit space) the connection is refused and the
    /// registry left unchanged.
    pub fn handle_connect(&mut self, msg: Connect, now: u64) -> (r: Option<u64>)
        ensures
            match r {
                Some(id) => !old(self)@.contains_key(id) && final(self)@ == register_spec(
                    old(self)@,
                    id,
                    msg.addr,
                    now,
                ),
                None => final(self)@ == old(self)@,
            },
    {
        let mut attempts: usize = 0;
        while attempts < 16
            invariant
                self@ == old(self)@,
            decreases 16 - attempts,
        {
            let id = random_id();
            if self.try_register(id, msg.addr, now) {
                return Some(id);
            }
            attempts = attempts + 1;
        }
        None
    }

    /// An agent's connection is gone: drop its session. Removing an absent
    /// identifier is a no-op. Returns the caller that was waiting on the
    /// session, if any: its request must be cancelled, exactly once.
    pub fn handle_disconnect(&mut self, msg: Disconnect) -> (cancelled: Option<u64>)
        ensures
            final(self)@ == unregister_spec(old(self)@, msg.id),
            cancelled == pending_of(old(self)@, msg.id),
    {
        match self.sessions.remove(&msg.id) {
            Some(s) => s.pending,
            None => None,
        }
    }

    /// The connection token registered under an identifier, for pushing a
    /// command to that agent. Valid only until the session is removed.
    pub fn handle_get_session(&self, msg: GetSession) -> (r: Option<u64>)
        ensures
            r == match lookup_spec(self@, msg.0) {
                Some(s) => Some(s.handle),
                None => None::<u64>,
            },
    {
        match self.sessions.get(&msg.0) {
            Some(s) => Some(s.handle),
            None => None,
        }
    }

    /// The dispatcher: sends `msg.msg` as a command to the agent registered
    /// under `target` and parks the caller token `msg.tx` in the session's
    /// pending slot. An unknown target is `NotFound` and a session with a
    /// caller already waiting is `Busy`; in both cases nothing is sent and
    /// nothing changes. The returned frame carries the encoded command for
    /// the session's connection token.
    pub fn dispatch(&mut self, target: u64, msg: ClientMessage) -> (r: Result<
        OutboundFrame,
        DispatchError,
    >)
        ensures
            final(self)@ == dispatch_map(old(self)@, target, msg.tx),
            r is Ok <==> dispatch_ok(old(self)@, target),
            match r {
                Ok(f) => f.handle == old(self)@[target].handle && f.bytes@ == encode_spec(
                    MessageView::Cmd(msg.msg@),
                ),
                Err(e) => final(self)@ == old(self)@ && if old(self)@.contains_key(target) {
                    e == DispatchError::Busy && old(self)@[target].pending is Some
                } else {
                    e == DispatchError::NotFound
                },
            },
    {
        let s = match self.sessions.get(&target) {
            Some(s) => *s,
            None => {
                return Err(DispatchError::NotFound);
            },
        };
        if s.pending.is_some() {
            return Err(DispatchError::Busy);
        }
        self.sessions.insert(
            target,
            Session { handle: s.handle, last_seen: s.last_seen, pending: Some(msg.tx) },
        );
        let frame = encode(&EncoderMessage(EncoderMessageType::Cmd(msg.msg)));
        Ok(OutboundFrame { handle: s.handle, bytes: frame })
    }

    /// A reply carrying `value` arrived on `id`'s connection: hand it to
    /// the one caller waiting there and clear the slot. With nobody waiting
    /// (an orphaned reply) or no such session, nothing changes and nobody
    /// is resolved, so no caller can be resolved twice.
    pub fn resolve_pending(&mut self, id: u64, value: i32) -> (r: Option<(u64, i32)>)
        ensures
            final(self)@ == deliver_map(old(self)@, id),
            r == deliver_result(old(self)@, id, value),
    {
        let s = match self.sessions.get(&id) {
            Some(s) => *s,
            None => {
                return None;
            },
        };
        match s.pending {
            Some(caller) => {
                self.sessions.insert(
                    id,
                    Session { handle: s.handle, last_seen: s.last_seen, pending: None },
                );
                Some((caller, value))
            },
            None => None,
        }
    }

    /// A liveness signal from `id` at tick `now`.
    pub fn touch(&mut self, id: u64, now: u64)
        ensures
            final(self)@ == touch_spec(old(self)@, id, now),
    {
        let s = match self.sessions.get(&id) {
            Some(s) => *s,
            None => {
                return ;
            },
        };
        self.sessions.insert(
            id,
            Session { handle: s.handle, last_seen: now, pending: s.pending },
        );
    }

    /// A snapshot of the registered identifiers, each exactly once, in no
    /// meaningful order.
    pub fn handle_list(&self, _msg: List) -> (ids: Vec<u64>)
        ensures
            ids@.no_duplicates(),
            forall|id: u64| #[trigger] ids@.contains(id) <==> self@.contains_key(id),
    {
        let mut ids: Vec<u64> = Vec::new();
        for k in it: self.sessions.keys()
            invariant
                ids@.len() == it.index(),
                it.seq().no_duplicates(),
                it.seq().unref().to_set() == self@.dom(),
                forall|j: int| 0 <= j < ids@.len() ==> ids@[j] == *it.seq()[j],
                ids@.no_duplicates(),
                forall|id: u64| #[trigger] ids@.contains(id) ==> self@.contains_key(id),
                forall|id: u64| #[trigger]
                    self@.contains_key(id) ==> ids@.contains(id) || exists|j: int|
                        it.index() <= j < it.seq().len() && *(#[trigger] it.seq()[j]) == id,
        {
            proof {
                let ks = it.seq();
                let i = it.index();
                assert(forall|id: u64| #[trigger]
                    ks.unref().to_set().contains(id) <==> ks.unref().contains(id));
                assert forall|id: u64| #[trigger]
                    self@.contains_key(id) implies ids@.push(*k).contains(id) || exists|j: int|
                    i + 1 <= j < ks.len() && *(#[trigger] ks[j]) == id by {
                    if ids@.contains(id) {
                        let j = choose|j: int| 0 <= j < ids@.len() && ids@[j] == id;
                        assert(ids@.push(*k)[j] == id);
                        assert(ids@.push(*k).contains(id));
                    } else {
                        let j = choose|j: int| i <= j < ks.len() && *ks[j] == id;
                        if j == i {
                            assert(ids@.push(*k)[ids@.len() as int] == *k);
                            assert(ids@.push(*k).contains(id));
                        }
                    }
                }
                assert(ids@.push(*k).no_duplicates()) by {
                    if ids@.contains(*k) {
                        let j = choose|j: int| 0 <= j < ids@.len() && ids@[j] == *k;
                        assert(ks[j] == ks[i]);
                    }
                }
                assert forall|id: u64| #[trigger]
                    ids@.push(*k).contains(id) implies self@.contains_key(id) by {
                    if !ids@.contains(id) {
                        assert(id == *k);
                        assert(ks.unref()[i] == id);
                        assert(ks.unref().contains(id));
                        assert(self@.dom().contains(id));
                    }
                }
            }
            ids.push(*k);
        }
        proof {
            assert forall|id: u64| self@.contains_key(id) implies ids@.contains(id) by {}
        }
        ids
    }

    /// One liveness tick for `id` at tick `now`: a session silent for
    /// longer than the timeout is removed, exactly then; otherwise the
    /// agent is pinged. The decision is taken at the tick, so a dead
    /// session outlives its timeout by at most one tick interval.
    pub fn liveness_tick(&mut self, id: u64, now: u64) -> (act: TickAction)
        ensures
            ({
                let m = old(self)@;
                if !m.contains_key(id) {
                    final(self)@ == m && act == TickAction::Gone
                } else if timed_out(m[id], now) {
                    final(self)@ == unregister_spec(m, id) && act == (TickAction::TimedOut(
                        m[id].pending,
                    ))
                } else {
                    final(self)@ == m && act == (TickAction::Ping(m[id].handle))
                }
            }),
    {
        let s = match self.sessions.get(&id) {
            Some(s) => *s,
            None => {
                return TickAction::Gone;
            },
        };
        if now > s.last_seen && now - s.last_seen > ENCODER_TIMEOUT {
            self.sessions.remove(&id);
            TickAction::TimedOut(s.pending)
        } else {
            TickAction::Ping(s.handle)
        }
    }
}

// ---------------------------------------------------------------------
// Inbound frame handling
// ---------------------------------------------------------------------

/// How the registry changes on one inbound text frame: only a decoded reply
/// moves it (clearing the pending slot); everything else leaves it alone.
pub open spec fn text_map(m: Map<u64, Session>, id: u64, t: Seq<u8>) -> Map<u64, Session> {
    match crate::codec::decode_spec(t) {
        Some(MessageView::CmdRet(v)) => deliver_map(m, id),
        _ => m,
    }
}

/// The action owed for one inbound text frame: an identifier query or
/// announcement is answered with this session's identifier; a reply resolves
/// the pending caller, if one waits, and an orphaned reply is dropped; an
/// inbound command is not the hub's to execute and is dropped; a frame that
/// is no canonical envelope is a protocol error, dropped without ending the
/// connection.
pub open spec fn text_action_ok(
    m: Map<u64, Session>,
    id: u64,
    t: Seq<u8>,
    act: FrameAction,
) -> bool {
    match crate::codec::decode_spec(t) {
        Some(MessageView::ID(_)) => act matches FrameAction::ReplyText(r) && r@ == encode_spec(
            MessageView::ID(Some(id)),
        ),
        Some(MessageView::CmdRet(v)) => match deliver_result(m, id, v) {
            Some(cv) => act matches FrameAction::Resolve { caller, value } && caller == cv.0
                && value == cv.1,
            None => act is Ignore,
        },
        Some(MessageView::Cmd(_)) => act is Ignore,
        None => act is Ignore,
    }
}

impl RemoteServer {
    /// Routes one inbound transport event on `id`'s connection: ping and
    /// pong refresh liveness, a text frame is decoded and answered as
    /// `text_action_ok` owes, a binary frame is echoed, and close, an
    /// unhandled frame kind or a transport error end the session — removing
    /// it exactly once and surfacing the cancelled caller, if one waited.
    pub fn handle_frame(&mut self, id: u64, frame: FrameIn, now: u64) -> (act: FrameAction)
        ensures
            match frame {
                FrameIn::Ping(data) => final(self)@ == touch_spec(old(self)@, id, now) && (
                act matches FrameAction::Pong(d) && d@ == data@),
                FrameIn::Pong => final(self)@ == touch_spec(old(self)@, id, now)
                    && act is Ignore,
                FrameIn::Text(t) => final(self)@ == text_map(old(self)@, id, t@)
                    && text_action_ok(old(self)@, id, t@, act),
                FrameIn::Binary(b) => final(self)@ == old(self)@ && (
                act matches FrameAction::EchoBinary(d) && d@ == b@),
                FrameIn::Close => final(self)@ == unregister_spec(old(self)@, id) && (
                act matches FrameAction::Close { cancelled } && cancelled == pending_of(
                    old(self)@,
                    id,
                )),
                FrameIn::Other => final(self)@ == unregister_spec(old(self)@, id) && (
                act matches FrameAction::Stop { cancelled } && cancelled == pending_of(
                    old(self)@,
                    id,
                )),
                FrameIn::TransportError => final(self)@ == unregister_spec(old(self)@, id) && (
                act matches FrameAction::Stop { cancelled } && cancelled == pending_of(
                    old(self)@,
                    id,
                )),
            },
    {
        match frame {
            FrameIn::Ping(data) => {
                self.touch(id, now);
                FrameAction::Pong(data)
            },
            FrameIn::Pong => {
                self.touch(id, now);
                FrameAction::Ignore
            },
            FrameIn::Text(t) => {
                match crate::codec::decode(&t) {
                    Some(msg) => match msg.0 {
                        EncoderMessageType::ID(_) => FrameAction::ReplyText(
                            encode(&EncoderMessage(EncoderMessageType::ID(Some(id)))),
                        ),
                        EncoderMessageType::CmdRet(v) => match self.resolve_pending(id, v) {
                            Some(cv) => FrameAction::Resolve { caller: cv.0, value: cv.1 },
                            None => FrameAction::Ignore,
                        },
                        EncoderMessageType::Cmd(_) => FrameAction::Ignore,
                    },
                    None => FrameAction::Ignore,
                }
            },
            FrameIn::Binary(b) => FrameAction::EchoBinary(b),
            FrameIn::Close => {
                let cancelled = self.handle_disconnect(Disconnect { id });
                FrameAction::Close { cancelled }
            },
            FrameIn::Other => {
                let cancelled = self.handle_disconnect(Disconnect { id });
                FrameAction::Stop { cancelled }
            },
            FrameIn::TransportError => {
                let cancelled = self.handle_disconnect(Disconnect { id });
                FrameAction::Stop { cancelled }
            },
        }
    }
}

// ---------------------------------------------------------------------
// Laws of the registry and the dispatcher
// ---------------------------------------------------------------------

/// Law: a registration is observable at once. Looking the identifier up in
/// the registry it was just registered in finds a session carrying exactly
/// the registered connection token, a fresh liveness stamp and no pending
/// caller.
pub proof fn lemma_register_then_lookup(m: Map<u64, Session>, id: u64, handle: u64, now: u64)
    ensures
        lookup_spec(register_spec(m, id, handle, now), id) == (Some(
            Session { handle, last_seen: now, pending: None },
        )),
{
}

/// Law: no later dispatch, delivery or liveness signal changes which
/// connection a registered identifier reaches; only removal does.
pub proof fn lemma_handle_stable(
    m: Map<u64, Session>,
    id: u64,
    target: u64,
    caller: u64,
    now: u64,
)
    requires
        m.contains_key(id),
    ensures
        dispatch_map(m, target, caller).contains_key(id) && dispatch_map(
            m,
            target,
            caller,
        )[id].handle == m[id].handle,
        deliver_map(m, target).contains_key(id) && deliver_map(m, target)[id].handle
            == m[id].handle,
        touch_spec(m, target, now).contains_key(id) && touch_spec(m, target, now)[id].handle
            == m[id].handle,
{
}

/// Law: removal is final. Looking an identifier up right after removing it
/// finds nothing, whatever else the registry holds — and no reply can reach
/// a caller through the removed session any more, so a request is cancelled
/// or fulfilled, never both.
pub proof fn lemma_unregister_then_lookup(m: Map<u64, Session>, id: u64, value: i32)
    ensures
        lookup_spec(unregister_spec(m, id), id) is None,
        deliver_result(unregister_spec(m, id), id, value) is None,
{
}

/// Law: one dispatched request is answered exactly once. After a dispatch
/// parks `caller` on a live, idle session, the first reply resolves exactly
/// `(caller, value)`, and a second reply finds nobody waiting.
pub proof fn lemma_correlation(m: Map<u64, Session>, id: u64, caller: u64, value: i32, again: i32)
    requires
        dispatch_ok(m, id),
    ensures
        deliver_result(dispatch_map(m, id, caller), id, value) == (Some((caller, value))),
        deliver_result(deliver_map(dispatch_map(m, id, caller), id), id, again) is None,
{
}

/// Law: liveness detection is tight. A session is never declared dead at or
/// before its deadline (its last liveness signal plus the timeout), and the
/// first tick past the deadline declares it dead — so, with ticks one
/// interval apart, a dead session outlives its deadline by at most one
/// interval.
pub proof fn lemma_liveness_window(s: Session, tick: u64, next_tick: u64)
    requires
        tick <= s.last_seen + ENCODER_TIMEOUT,
        next_tick <= tick + HEARTBEAT_INTERVAL,
    ensures
        !timed_out(s, tick),
        next_tick > s.last_seen + ENCODER_TIMEOUT ==> timed_out(s, next_tick) && next_tick
            <= s.last_seen + ENCODER_TIMEOUT + HEARTBEAT_INTERVAL,
{
}

} // verus!
