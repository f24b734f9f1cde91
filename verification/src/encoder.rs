//! The agent's protocol behaviour: an agent answers every command it
//! receives with exactly one reply, and may query the hub for its own
//! identifier. Executing a command is a stub — it returns the payload's
//! length — since real execution is outside the protocol.

use vstd::prelude::*;

use crate::codec::{decode, decode_spec, encode, encode_spec, lemma_decode_encode};
use crate::messages::{EncoderMessage, EncoderMessageType, MessageView};
use crate::server::{deliver_map, deliver_result, dispatch_map, dispatch_ok, Session};

verus! {

/// The stub's return value for a command: the payload's length, capped at
/// the largest value a reply can carry.
pub open spec fn cmd_return_value(p: Seq<u8>) -> i32 {
    if p.len() <= 0x7fff_ffff {
        p.len() as i32
    } else {
        0x7fff_ffff
    }
}

/// Executes one command at the agent: the stub returns the payload's
/// length.
pub fn execute_cmd(cmd: &Vec<u8>) -> (r: i32)
    ensures
        r == cmd_return_value(cmd@),
{
    if cmd.len() <= 0x7fff_ffff {
        cmd.len() as i32
    } else {
        0x7fff_ffff
    }
}

/// The frame an agent owes for one inbound text frame: exactly one reply
/// for a command, nothing for anything else (an identifier announcement is
/// only noted; a reply or a bare query arriving at an agent is invalid and
/// dropped; so is a frame that is no canonical envelope).
pub open spec fn agent_reply_spec(t: Seq<u8>) -> Option<Seq<u8>> {
    match decode_spec(t) {
        Some(MessageView::Cmd(p)) => Some(encode_spec(MessageView::CmdRet(cmd_return_value(p)))),
        _ => None,
    }
}

/// Handles one text frame at the agent, returning the frame to send back,
/// if one is owed.
pub fn agent_handle_text(text: &Vec<u8>) -> (reply: Option<Vec<u8>>)
    ensures
        ({
            match agent_reply_spec(text@) {
                Some(rs) => reply matches Some(r) && r@ == rs,
                None => reply is None,
            }
        }),
{
    match decode(text) {
        Some(msg) => match msg.0 {
            EncoderMessageType::Cmd(p) => {
                let value = execute_cmd(&p);
                Some(encode(&EncoderMessage(EncoderMessageType::CmdRet(value))))
            },
            _ => None,
        },
        None => None,
    }
}

/// Law: the whole conversation around one dispatched command. With session
/// `id` live and idle, the hub's dispatch of payload `p` for `caller`
/// produces the command frame; the agent answers exactly that frame with
/// exactly one reply frame; the hub decodes that reply back to the stub's
/// value for `p`; and delivering it resolves exactly `caller` with that
/// value, exactly once — a second reply finds the slot empty.
pub proof fn lemma_command_round_trip(m: Map<u64, Session>, id: u64, caller: u64, p: Seq<u8>)
    requires
        dispatch_ok(m, id),
    ensures
        ({
            let wire_cmd = encode_spec(MessageView::Cmd(p));
            let v = cmd_return_value(p);
            let m1 = dispatch_map(m, id, caller);
            &&& agent_reply_spec(wire_cmd) == (Some(encode_spec(MessageView::CmdRet(v))))
            &&& decode_spec(encode_spec(MessageView::CmdRet(v))) == (Some(MessageView::CmdRet(v)))
            &&& deliver_result(m1, id, v) == (Some((caller, v)))
            &&& deliver_result(deliver_map(m1, id), id, v) is None
        }),
{
    lemma_decode_encode(MessageView::Cmd(p));
    lemma_decode_encode(MessageView::CmdRet(cmd_return_value(p)));
}

} // verus!
