//! The broadcast node: a replica of the cluster's set of values.

use vstd::prelude::*;
use crate::error::ProtocolViolation;
use crate::ident::{generate_id, is_uuid_text};
use crate::ids::{contains_value, copy_values, neighbors_in, others_of};
use crate::model::{
    backoff, broadcast_to, deadline_after, fan_out, fan_out_pending, has_ids, initial_state,
    rearmed, reply_to, retry_pass, retry_spec, settles, step_spec, still_waits, unsettled, valid,
    Id, Msg, NodeState, PendingView,
};
use crate::node::{messages_view, Body, Message};
use crate::payload::{Payload, PayloadView};
use crate::validity::{
    lemma_others_len, lemma_retry_pass_len, lemma_retry_valid, lemma_step_valid,
};

verus! {

/// A `Broadcast` that was sent to a neighbour and is not acknowledged yet.
#[derive(Debug, Clone, PartialEq, Eq)]
pub struct Pending {
    pub peer: String,
    pub value: usize,
    /// The id of the latest send.
    pub msg_id: usize,
    /// The ids of the sends before it, oldest first.
    pub earlier: Vec<usize>,
    pub attempts: usize,
    pub deadline: u64,
}

impl View for Pending {
    type V = PendingView;

    open spec fn view(&self) -> PendingView {
        PendingView {
            peer: self.peer@,
            value: self.value,
            msg_id: self.msg_id,
            earlier: self.earlier@,
            attempts: self.attempts,
            deadline: self.deadline,
        }
    }
}

/// The views of a sequence of waiting sends, in order.
pub open spec fn pending_view(v: Seq<Pending>) -> Seq<PendingView> {
    Seq::new(v.len(), |i: int| v[i]@)
}

/// A node that stores every value broadcast to it and passes new ones on.
#[derive(Debug)]
pub struct BroadcastNode {
    id: usize,
    node_id: Option<String>,
    node_ids: Vec<String>,
    neighbors: Vec<String>,
    messages: Vec<usize>,
    pending: Vec<Pending>,
}

impl View for BroadcastNode {
    type V = NodeState;

    closed spec fn view(&self) -> NodeState {
        NodeState {
            next_id: self.id as nat,
            node_id: self.node_id.deep_view(),
            node_ids: self.node_ids.deep_view(),
            neighbors: self.neighbors.deep_view(),
            messages: self.messages@,
            pending: pending_view(self.pending@),
        }
    }
}

/// How long a send waits for its acknowledgment after `attempts` repeats.
pub fn backoff_for(attempts: usize) -> (delay: u64)
    ensures
        delay == backoff(attempts),
{
    if attempts == 0 {
        100
    } else if attempts == 1 {
        200
    } else if attempts == 2 {
        400
    } else if attempts == 3 {
        800
    } else if attempts == 4 {
        1600
    } else {
        3200
    }
}

/// The time from which a send made at `now`, after `attempts` repeats, is due
/// again.
pub fn deadline_for(now: u64, attempts: usize) -> (deadline: u64)
    ensures
        deadline == deadline_after(now, attempts),
{
    let delay = backoff_for(attempts);
    if now > u64::MAX - delay {
        u64::MAX
    } else {
        now + delay
    }
}

/// The reply to a message from `src` to `dest` with the id `request`.
fn reply(src: String, dest: String, request: Option<usize>, id: usize, payload: Payload) -> (m:
    Message<Payload>)
    ensures
        m@.src == dest@,
        m@.dest == src@,
        m@.body.id == Some(id),
        m@.body.in_reply_to == request,
        m@.body.payload == payload@,
{
    Message { src: dest, dest: src, body: Body { id: Some(id), in_reply_to: request, payload } }
}

/// Sends `value` from `me` to each of `targets` and notes each send as waiting.
fn send_on(
    me: &String,
    targets: &Vec<String>,
    value: usize,
    first_id: usize,
    now: u64,
    out: &mut Vec<Message<Payload>>,
    pending: &mut Vec<Pending>,
)
    requires
        first_id + targets.len() <= usize::MAX,
    ensures
        messages_view(final(out)@) == messages_view(old(out)@) + fan_out(
            me@,
            targets.deep_view(),
            value,
            first_id as nat,
        ),
        pending_view(final(pending)@) == pending_view(old(pending)@) + fan_out_pending(
            targets.deep_view(),
            value,
            first_id as nat,
            now,
        ),
{
    let ghost to = targets.deep_view();
    let ghost sent = fan_out(me@, to, value, first_id as nat);
    let ghost noted = fan_out_pending(to, value, first_id as nat, now);
    let mut k: usize = 0;
    assert(messages_view(out@) =~= messages_view(old(out)@) + sent.take(0));
    assert(pending_view(pending@) =~= pending_view(old(pending)@) + noted.take(0));
    while k < targets.len()
        invariant
            k <= targets.len(),
            first_id + targets.len() <= usize::MAX,
            to == targets.deep_view(),
            sent == fan_out(me@, to, value, first_id as nat),
            noted == fan_out_pending(to, value, first_id as nat, now),
            messages_view(out@) == messages_view(old(out)@) + sent.take(k as int),
            pending_view(pending@) == pending_view(old(pending)@) + noted.take(k as int),
        decreases targets.len() - k,
    {
        let ghost out_before = messages_view(out@);
        let ghost pending_before = pending_view(pending@);
        let id = first_id + k;
        let m = Message {
            src: me.clone(),
            dest: targets[k].clone(),
            body: Body { id: Some(id), in_reply_to: None, payload: Payload::Broadcast { message: value } },
        };
        let e = Pending {
            peer: targets[k].clone(),
            value,
            msg_id: id,
            earlier: Vec::new(),
            attempts: 0,
            deadline: deadline_for(now, 0),
        };
        assert(m@ == sent[k as int]);
        assert(e@ == noted[k as int]);
        out.push(m);
        pending.push(e);
        assert(messages_view(out@) =~= out_before.push(sent[k as int]));
        assert(pending_view(pending@) =~= pending_before.push(noted[k as int]));
        assert(sent.take(k + 1) =~= sent.take(k as int).push(sent[k as int]));
        assert(noted.take(k + 1) =~= noted.take(k as int).push(noted[k as int]));
        assert(messages_view(out@) =~= messages_view(old(out)@) + sent.take(k + 1));
        assert(pending_view(pending@) =~= pending_view(old(pending)@) + noted.take(k + 1));
        k += 1;
    }
    assert(sent.take(targets.len() as int) =~= sent);
    assert(noted.take(targets.len() as int) =~= noted);
}

/// `pending` without the sends that an acknowledgment from `peer` in reply to
/// `in_reply_to` settles.
fn settle(pending: &Vec<Pending>, peer: &String, in_reply_to: Option<usize>) -> (kept: Vec<Pending>)
    ensures
        pending_view(kept@) == unsettled(pending_view(pending@), peer@, in_reply_to),
{
    let ghost all = pending_view(pending@);
    let ghost keep = still_waits(peer@, in_reply_to);
    let mut kept: Vec<Pending> = Vec::new();
    let mut i: usize = 0;
    proof {
        reveal(Seq::filter);
        assert(all.take(0) =~= Seq::<PendingView>::empty());
        assert(pending_view(kept@) =~= Seq::<PendingView>::empty());
    }
    while i < pending.len()
        invariant
            i <= pending.len(),
            all == pending_view(pending@),
            keep == still_waits(peer@, in_reply_to),
            pending_view(kept@) == all.take(i as int).filter(keep),
        decreases pending.len() - i,
    {
        let ghost before = pending_view(kept@);
        proof {
            assert(all.take(i + 1) =~= all.take(i as int).push(all[i as int]));
            all.take(i as int).lemma_filter_push(all[i as int], keep);
        }
        let e = &pending[i];
        let acknowledged = match in_reply_to {
            Some(id) => (id == e.msg_id || contains_value(&e.earlier, id)) && e.peer == *peer,
            None => false,
        };
        assert(acknowledged == settles(all[i as int], peer@, in_reply_to));
        if !acknowledged {
            kept.push(
                Pending {
                    peer: e.peer.clone(),
                    value: e.value,
                    msg_id: e.msg_id,
                    earlier: copy_values(&e.earlier),
                    attempts: e.attempts,
                    deadline: e.deadline,
                },
            );
            assert(pending_view(kept@) =~= before.push(all[i as int]));
        }
        i += 1;
    }
    assert(all.take(pending.len() as int) =~= all);
    kept
}

impl BroadcastNode {
    /// A node that has received nothing yet.
    pub fn new() -> (node: BroadcastNode)
        ensures
            node@ == initial_state(),
    {
        let node = BroadcastNode {
            id: 0,
            node_id: None,
            node_ids: Vec::new(),
            neighbors: Vec::new(),
            messages: Vec::new(),
            pending: Vec::new(),
        };
        assert(node@.node_ids =~= Seq::<Id>::empty());
        assert(node@.neighbors =~= Seq::<Id>::empty());
        assert(node@.pending =~= Seq::<PendingView>::empty());
        node
    }

    /// The values that the node has seen, each once, in order of arrival.
    pub fn messages(&self) -> (values: &Vec<usize>)
        ensures
            values@ == self@.messages,
    {
        &self.messages
    }

    /// The neighbours that the node sends new values to.
    pub fn neighbors(&self) -> (ids: &Vec<String>)
        ensures
            ids.deep_view() == self@.neighbors,
    {
        &self.neighbors
    }

    /// The members of the cluster, as `Init` named them.
    pub fn node_ids(&self) -> (ids: &Vec<String>)
        ensures
            ids.deep_view() == self@.node_ids,
    {
        &self.node_ids
    }

    /// This node's id; none before `Init`.
    pub fn node_id(&self) -> (id: Option<&String>)
        ensures
            match id {
                Some(id) => self@.node_id == Some(id@),
                None => self@.node_id is None,
            },
    {
        match &self.node_id {
            Some(id) => Some(id),
            None => None,
        }
    }

    /// The sends that wait for an acknowledgment.
    pub fn pending(&self) -> (entries: &Vec<Pending>)
        ensures
            pending_view(entries@) == self@.pending,
    {
        &self.pending
    }

    /// The id that the next message from this node gets.
    pub fn next_id(&self) -> (id: usize)
        ensures
            id == self@.next_id,
    {
        self.id
    }

    /// Whether the node has its identity.
    pub fn is_ready(&self) -> (ready: bool)
        ensures
            ready == self@.node_id is Some,
    {
        self.node_id.is_some()
    }

    /// Whether the node can hand out `count` more ids.
    pub fn has_ids(&self, count: usize) -> (enough: bool)
        ensures
            enough == has_ids(self@, count as nat),
    {
        count <= usize::MAX - self.id
    }

    /// Handles `input` at time `now`; `generated` is the identifier that a
    /// `Generate` request is answered with.
    ///
    /// The node ends in the state, and returns the messages or the refusal,
    /// that [`step_spec`] gives. A refused message leaves the node as it was.
    pub fn handle(&mut self, input: Message<Payload>, now: u64, generated: String) -> (result:
        Result<Vec<Message<Payload>>, ProtocolViolation>)
        requires
            valid(old(self)@),
            has_ids(old(self)@, old(self)@.neighbors.len() + 1),
        ensures
            valid(final(self)@),
            final(self)@ == step_spec(old(self)@, input@, now, generated@).state,
            match result {
                Ok(out) => step_spec(old(self)@, input@, now, generated@).result == Ok::<
                    Seq<Msg>,
                    ProtocolViolation,
                >(messages_view(out@)),
                Err(e) => step_spec(old(self)@, input@, now, generated@).result == Err::<
                    Seq<Msg>,
                    ProtocolViolation,
                >(e),
            },
    {
        let ghost before = self@;
        let ghost msg = input@;
        let ghost want = step_spec(before, msg, now, generated@);
        proof {
            lemma_others_len(before.neighbors, msg.src);
            lemma_step_valid(before, msg, now, generated@);
        }
        let Message { src, dest, body } = input;
        let Body { id: request, in_reply_to, payload } = body;
        let id = self.id;
        let mut out: Vec<Message<Payload>> = Vec::new();
        if self.node_id.is_none() {
            match payload {
                Payload::Init { node_id, node_ids } => {
                    self.node_id = Some(node_id);
                    self.node_ids = node_ids;
                    self.id = id + 1;
                    let m = reply(src, dest, request, id, Payload::InitOk);
                    out.push(m);
                    assert(messages_view(out@) =~= seq![reply_to(msg, before.next_id, PayloadView::InitOk)]);
                    assert(self@ =~= want.state);
                    Ok(out)
                },
                _ => {
                    assert(self@ =~= want.state);
                    Err(ProtocolViolation::NotInitialized)
                },
            }
        } else {
            match payload {
                Payload::Init { .. } => {
                    self.id = id + 1;
                    out.push(reply(src, dest, request, id, Payload::InitOk));
                    assert(messages_view(out@) =~= seq![reply_to(msg, before.next_id, PayloadView::InitOk)]);
                    assert(self@ =~= want.state);
                    Ok(out)
                },
                Payload::Echo { echo } => {
                    self.id = id + 1;
                    let ghost text = echo@;
                    out.push(reply(src, dest, request, id, Payload::EchoOk { echo }));
                    assert(messages_view(out@) =~= seq![
                        reply_to(msg, before.next_id, PayloadView::EchoOk { echo: text }),
                    ]);
                    assert(self@ =~= want.state);
                    Ok(out)
                },
                Payload::Generate => {
                    self.id = id + 1;
                    let ghost text = generated@;
                    out.push(reply(src, dest, request, id, Payload::GenerateOk { id: generated }));
                    assert(messages_view(out@) =~= seq![
                        reply_to(msg, before.next_id, PayloadView::GenerateOk { id: text }),
                    ]);
                    assert(self@ =~= want.state);
                    Ok(out)
                },
                Payload::Topology { topology } => {
                    let found = match &self.node_id {
                        Some(me) => neighbors_in(&topology, me),
                        None => Vec::new(),
                    };
                    self.neighbors = found;
                    self.id = id + 1;
                    out.push(reply(src, dest, request, id, Payload::TopologyOk));
                    assert(messages_view(out@) =~= seq![
                        reply_to(msg, before.next_id, PayloadView::TopologyOk),
                    ]);
                    assert(self@ =~= want.state);
                    Ok(out)
                },
                Payload::Read => {
                    let values = copy_values(&self.messages);
                    self.id = id + 1;
                    out.push(reply(src, dest, request, id, Payload::ReadOk { messages: values }));
                    assert(messages_view(out@) =~= seq![
                        reply_to(msg, before.next_id, PayloadView::ReadOk { messages: before.messages }),
                    ]);
                    assert(self@ =~= want.state);
                    Ok(out)
                },
                Payload::Broadcast { message } => {
                    if contains_value(&self.messages, message) {
                        self.id = id + 1;
                        out.push(reply(src, dest, request, id, Payload::BroadcastOk));
                        assert(messages_view(out@) =~= seq![
                            reply_to(msg, before.next_id, PayloadView::BroadcastOk),
                        ]);
                        assert(self@ =~= want.state);
                        Ok(out)
                    } else {
                        let targets = others_of(&self.neighbors, &src);
                        let me = match &self.node_id {
                            Some(me) => me.clone(),
                            None => String::new(),
                        };
                        out.push(reply(src, dest, request, id, Payload::BroadcastOk));
                        assert(messages_view(out@) =~= seq![
                            reply_to(msg, before.next_id, PayloadView::BroadcastOk),
                        ]);
                        self.messages.push(message);
                        send_on(&me, &targets, message, id + 1, now, &mut out, &mut self.pending);
                        self.id = id + 1 + targets.len();
                        assert(self@ =~= want.state);
                        Ok(out)
                    }
                },
                Payload::BroadcastOk => {
                    let kept = settle(&self.pending, &src, in_reply_to);
                    self.pending = kept;
                    assert(messages_view(out@) =~= Seq::<Msg>::empty());
                    assert(self@ =~= want.state);
                    Ok(out)
                },
                _ => {
                    assert(self@ =~= want.state);
                    Err(ProtocolViolation::UnexpectedReply)
                },
            }
        }
    }

    /// Sends again, at time `now`, every value whose acknowledgment is overdue.
    ///
    /// The node ends in the state, and returns the messages, that
    /// [`retry_spec`] gives: one `Broadcast` for each waiting send whose
    /// deadline has come, in the order of the table, each with a fresh id and a
    /// new deadline.
    pub fn retry(&mut self, now: u64) -> (sent: Vec<Message<Payload>>)
        requires
            valid(old(self)@),
            has_ids(old(self)@, old(self)@.pending.len()),
        ensures
            valid(final(self)@),
            final(self)@ == retry_spec(old(self)@, now).0,
            messages_view(sent@) == retry_spec(old(self)@, now).1,
    {
        let ghost before = self@;
        proof {
            if before.node_id is Some {
                lemma_retry_pass_len(before.pending, before.node_id->0, before.next_id, now);
            }
            lemma_retry_valid(before, now);
        }
        let mut sent: Vec<Message<Payload>> = Vec::new();
        let me = match &self.node_id {
            Some(me) => me.clone(),
            None => {
                assert(messages_view(sent@) =~= Seq::<Msg>::empty());
                return sent;
            },
        };
        let ghost all = before.pending;
        let first_id = self.id;
        let mut kept: Vec<Pending> = Vec::new();
        let mut i: usize = 0;
        assert(all.take(0) =~= Seq::<PendingView>::empty());
        assert(pending_view(kept@) =~= Seq::<PendingView>::empty());
        assert(messages_view(sent@) =~= Seq::<Msg>::empty());
        while i < self.pending.len()
            invariant
                i <= self.pending.len(),
                all == pending_view(self.pending@),
                first_id + all.len() <= usize::MAX,
                sent.len() <= i,
                pending_view(kept@) == retry_pass(all.take(i as int), me@, first_id as nat, now).pending,
                messages_view(sent@) == retry_pass(all.take(i as int), me@, first_id as nat, now).sent,
            decreases self.pending.len() - i,
        {
            let ghost kept_before = pending_view(kept@);
            let ghost sent_before = messages_view(sent@);
            assert(all.take(i + 1).drop_last() =~= all.take(i as int));
            assert(all.take(i + 1).last() == all[i as int]);
            let e = &self.pending[i];
            assert(e@ == all[i as int]);
            if e.deadline <= now {
                let id = first_id + sent.len();
                let attempts = if e.attempts == usize::MAX {
                    e.attempts
                } else {
                    e.attempts + 1
                };
                let m = Message {
                    src: me.clone(),
                    dest: e.peer.clone(),
                    body: Body {
                        id: Some(id),
                        in_reply_to: None,
                        payload: Payload::Broadcast { message: e.value },
                    },
                };
                let mut earlier = copy_values(&e.earlier);
                earlier.push(e.msg_id);
                let again = Pending {
                    peer: e.peer.clone(),
                    value: e.value,
                    msg_id: id,
                    earlier,
                    attempts,
                    deadline: deadline_for(now, attempts),
                };
                assert(m@ == broadcast_to(me@, all[i as int].peer, all[i as int].value, id as nat));
                assert(again@ == rearmed(all[i as int], id as nat, now));
                sent.push(m);
                kept.push(again);
                assert(messages_view(sent@) =~= sent_before.push(
                    broadcast_to(me@, all[i as int].peer, all[i as int].value, id as nat),
                ));
                assert(pending_view(kept@) =~= kept_before.push(rearmed(all[i as int], id as nat, now)));
            } else {
                let same = Pending {
                    peer: e.peer.clone(),
                    value: e.value,
                    msg_id: e.msg_id,
                    earlier: copy_values(&e.earlier),
                    attempts: e.attempts,
                    deadline: e.deadline,
                };
                kept.push(same);
                assert(pending_view(kept@) =~= kept_before.push(all[i as int]));
            }
            i += 1;
        }
        assert(all.take(self.pending.len() as int) =~= all);
        self.id = first_id + sent.len();
        self.pending = kept;
        assert(self@ =~= retry_spec(before, now).0);
        sent
    }

    /// Handles `input` at time `now`.
    ///
    /// A `Generate` request is answered with a new random identifier; the node
    /// then does what [`BroadcastNode::handle`] does with that identifier. For
    /// every other payload the outcome does not depend on an identifier.
    pub fn step(&mut self, input: Message<Payload>, now: u64) -> (result: Result<
        Vec<Message<Payload>>,
        ProtocolViolation,
    >)
        requires
            valid(old(self)@),
            has_ids(old(self)@, old(self)@.neighbors.len() + 1),
        ensures
            valid(final(self)@),
            exists|generated: Id|
                {
                    &&& input@.body.payload is Generate ==> is_uuid_text(generated)
                    &&& final(self)@ == (#[trigger] step_spec(
                        old(self)@,
                        input@,
                        now,
                        generated,
                    )).state
                    &&& match result {
                        Ok(out) => step_spec(old(self)@, input@, now, generated).result == Ok::<
                            Seq<Msg>,
                            ProtocolViolation,
                        >(messages_view(out@)),
                        Err(e) => step_spec(old(self)@, input@, now, generated).result == Err::<
                            Seq<Msg>,
                            ProtocolViolation,
                        >(e),
                    }
                },
    {
        let generated = match &input.body.payload {
            Payload::Generate => generate_id(),
            _ => String::new(),
        };
        let ghost g = generated@;
        let ghost before = self@;
        let result = self.handle(input, now, generated);
        assert(self@ == step_spec(before, input@, now, g).state);
        result
    }
}

} // verus!
