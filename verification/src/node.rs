//! The envelope that every node kind exchanges: source, destination and a body
//! that carries the correlation ids and the payload.

use vstd::prelude::*;

verus! {

/// An envelope: who sent it, whom it is for, and what it says.
#[derive(Debug, Clone, PartialEq, Eq)]
pub struct Message<Payload> {
    pub src: String,
    pub dest: String,
    pub body: Body<Payload>,
}

/// The inner record of an envelope.
///
/// `id` numbers a message of its sender; `in_reply_to` repeats the `id` of the
/// request that is answered and is absent in a fresh request.
#[derive(Debug, Clone, PartialEq, Eq)]
pub struct Body<Payload> {
    pub id: Option<usize>,
    pub in_reply_to: Option<usize>,
    pub payload: Payload,
}

/// The mathematical value of a [`Body`].
pub struct BodyView<P> {
    pub id: Option<usize>,
    pub in_reply_to: Option<usize>,
    pub payload: P,
}

/// The mathematical value of a [`Message`].
pub struct MessageView<P> {
    pub src: Seq<char>,
    pub dest: Seq<char>,
    pub body: BodyView<P>,
}

impl<Payload: View> View for Body<Payload> {
    type V = BodyView<Payload::V>;

    open spec fn view(&self) -> BodyView<Payload::V> {
        BodyView { id: self.id, in_reply_to: self.in_reply_to, payload: self.payload@ }
    }
}

impl<Payload: View> View for Message<Payload> {
    type V = MessageView<Payload::V>;

    open spec fn view(&self) -> MessageView<Payload::V> {
        MessageView { src: self.src@, dest: self.dest@, body: self.body@ }
    }
}

/// The views of a sequence of messages, in order.
pub open spec fn messages_view<P: View>(v: Seq<Message<P>>) -> Seq<MessageView<P::V>> {
    Seq::new(v.len(), |i: int| v[i]@)
}

} // verus!
