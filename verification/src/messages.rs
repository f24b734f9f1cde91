//! The message types of the hub: the wire envelope exchanged with agents,
//! and the request types consumed by the registry.

use vstd::prelude::*;

verus! {

/// The three wire message kinds exchanged between the hub and an agent.
#[derive(Debug, Clone)]
pub enum EncoderMessageType {
    /// A command dispatched by the hub to an agent; the payload is the
    /// command text as bytes.
    Cmd(Vec<u8>),
    /// The agent's reply to a dispatched command.
    CmdRet(i32),
    /// Identifier query (when the identifier is absent) or announcement
    /// (when it is present).
    ID(Option<u64>),
}

/// One wire message: an `EncoderMessageType` as it travels in a text frame.
#[derive(Debug, Clone)]
pub struct EncoderMessage(pub EncoderMessageType);

/// The mathematical value of an `EncoderMessageType`: the payload of a
/// command is abstracted to its byte sequence.
pub enum MessageView {
    Cmd(Seq<u8>),
    CmdRet(i32),
    ID(Option<u64>),
}

impl View for EncoderMessageType {
    type V = MessageView;

    open spec fn view(&self) -> MessageView {
        match self {
            EncoderMessageType::Cmd(p) => MessageView::Cmd(p@),
            EncoderMessageType::CmdRet(v) => MessageView::CmdRet(*v),
            EncoderMessageType::ID(id) => MessageView::ID(*id),
        }
    }
}

impl View for EncoderMessage {
    type V = MessageView;

    open spec fn view(&self) -> MessageView {
        self.0@
    }
}

/// An agent connects: `addr` is the token under which the hub can reach the
/// agent's outbound connection. The hub answers with the fresh identifier.
pub struct Connect {
    pub addr: u64,
}

/// An agent's connection has gone away: remove its session.
pub struct Disconnect {
    pub id: u64,
}

/// A caller's request for one agent: the command payload, and the token of
/// the one-shot slot on which the caller waits for the agent's reply.
pub struct ClientMessage {
    /// Command payload, the bytes of the command text.
    pub msg: Vec<u8>,
    /// Token of the caller's reply slot.
    pub tx: u64,
}

/// Request for the identifiers of all connected agents.
pub struct List;

/// Request for the connection token of one agent, by identifier.
pub struct GetSession(pub u64);

} // verus!
