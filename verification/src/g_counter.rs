//! The counter node: so far it answers the handshake and nothing else.

use vstd::prelude::*;
use crate::model::{reply_to, Msg};
use crate::node::{Body, Message};
use crate::payload::{Payload, PayloadView};

verus! {

/// A node that will count.
#[derive(Debug)]
pub struct CounterNode {
    id: usize,
}

/// What the counter node answers `input` with when its next free id is `id`:
/// `InitOk` to `Init`, and nothing to anything else.
pub open spec fn counter_reply(id: usize, input: Msg) -> Option<Msg> {
    match input.body.payload {
        PayloadView::Init { .. } => Some(reply_to(input, id as nat, PayloadView::InitOk)),
        _ => None,
    }
}

impl CounterNode {
    /// A node that has sent nothing yet.
    pub fn new() -> (node: CounterNode)
        ensures
            node.next_id() == 0,
    {
        CounterNode { id: 0 }
    }

    /// The id that the next reply of this node gets.
    pub closed spec fn next_id(&self) -> usize {
        self.id
    }

    /// The id that the next reply of this node gets.
    #[verifier::when_used_as_spec(next_id)]
    pub fn id(&self) -> (id: usize)
        ensures
            id == self.next_id(),
    {
        self.id
    }

    /// Handles `input`: returns the reply, if the node has one, and moves on
    /// to the next id if it has.
    pub fn step(&mut self, input: Message<Payload>) -> (reply: Option<Message<Payload>>)
        requires
            old(self).next_id() < usize::MAX,
        ensures
            match reply {
                Some(m) => counter_reply(old(self).next_id(), input@) == Some(m@)
                    && final(self).next_id() == old(self).next_id() + 1,
                None => counter_reply(old(self).next_id(), input@) is None
                    && final(self).next_id() == old(self).next_id(),
            },
    {
        let Message { src, dest, body } = input;
        let Body { id: request, in_reply_to: _, payload } = body;
        match payload {
            Payload::Init { .. } => {
                let reply = Message {
                    src: dest,
                    dest: src,
                    body: Body { id: Some(self.id), in_reply_to: request, payload: Payload::InitOk },
                };
                self.id = self.id + 1;
                Some(reply)
            },
            _ => None,
        }
    }
}

} // verus!
