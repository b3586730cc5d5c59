//! The echo node: it answers the handshake and sends every text back.

use vstd::prelude::*;
use crate::model::{reply_to, Msg};
use crate::node::{Body, Message};
use crate::payload::{Payload, PayloadView};

verus! {

/// A node that echoes.
#[derive(Debug)]
pub struct EchoNode {
    id: usize,
}

/// What the echo node answers `input` with when its next free id is `id`:
/// `InitOk` to `Init`, the same text to `Echo`, and nothing to anything else.
pub open spec fn echo_reply(id: usize, input: Msg) -> Option<Msg> {
    match input.body.payload {
        PayloadView::Init { .. } => Some(reply_to(input, id as nat, PayloadView::InitOk)),
        PayloadView::Echo { echo } => Some(
            reply_to(input, id as nat, PayloadView::EchoOk { echo }),
        ),
        _ => None,
    }
}

impl EchoNode {
    /// A node that has sent nothing yet.
    pub fn new() -> (node: EchoNode)
        ensures
            node.next_id() == 0,
    {
        EchoNode { id: 0 }
    }

    /// The id that the next reply of this node gets.
    pub closed spec fn next_id(&self) -> usize {
        self.id
    }

    /// The id that the next reply of this node gets.
    #[verifier::when_used_as_spec(next_id)]
    pub fn id(&self) -> (id: usize)
        ensures
            id == self.next_id(),
    {
        self.id
    }

    /// Handles `input`: returns the reply, if the node has one, and moves on
    /// to the next id if it has.
    pub fn step(&mut self, input: Message<Payload>) -> (reply: Option<Message<Payload>>)
        requires
            old(self).next_id() < usize::MAX,
        ensures
            match reply {
                Some(m) => echo_reply(old(self).next_id(), input@) == Some(m@)
                    && final(self).next_id() == old(self).next_id() + 1,
                None => echo_reply(old(self).next_id(), input@) is None && final(self).next_id()
                    == old(self).next_id(),
            },
    {
        let Message { src, dest, body } = input;
        let Body { id: request, in_reply_to: _, payload } = body;
        let payload = match payload {
            Payload::Init { .. } => Payload::InitOk,
            Payload::Echo { echo } => Payload::EchoOk { echo },
            _ => {
                return None;
            },
        };
        let reply = Message {
            src: dest,
            dest: src,
            body: Body { id: Some(self.id), in_reply_to: request, payload },
        };
        self.id = self.id + 1;
        Some(reply)
    }
}

} // verus!
