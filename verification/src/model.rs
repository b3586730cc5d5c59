//! The broadcast node as a mathematical state machine.
//!
//! [`step_spec`] says what one inbound message does to the state and which
//! messages leave; [`retry_spec`] says the same of one pass over the sends that
//! no neighbour has acknowledged yet. The executable node is proved against
//! these two functions, and the laws of the protocol are proved about them.

use vstd::prelude::*;
use crate::error::ProtocolViolation;
use crate::node::{BodyView, MessageView};
use crate::payload::PayloadView;

verus! {

/// A node id as a mathematical value.
pub type Id = Seq<char>;

/// A message of the protocol as a mathematical value.
pub type Msg = MessageView<PayloadView>;

/// A `Broadcast` that was sent to a neighbour and is not acknowledged yet.
pub struct PendingView {
    pub peer: Id,
    pub value: usize,
    /// The id of the latest send.
    pub msg_id: usize,
    /// The ids of the sends before it, oldest first.
    pub earlier: Seq<usize>,
    /// How often the value was sent again.
    pub attempts: usize,
    /// The time from which the value is sent again.
    pub deadline: u64,
}

/// Everything a node knows.
pub struct NodeState {
    /// The id that the next message from this node gets.
    pub next_id: nat,
    /// This node's id; `None` until `Init` arrives.
    pub node_id: Option<Id>,
    /// The members of the cluster.
    pub node_ids: Seq<Id>,
    /// The neighbours that this node sends new values to.
    pub neighbors: Seq<Id>,
    /// The values seen so far, each once, in order of arrival.
    pub messages: Seq<usize>,
    /// The sends that wait for an acknowledgment.
    pub pending: Seq<PendingView>,
}

/// What one inbound message leads to.
pub struct Outcome {
    pub state: NodeState,
    pub result: Result<Seq<Msg>, ProtocolViolation>,
}

/// The state of a node that has received nothing.
pub open spec fn initial_state() -> NodeState {
    NodeState {
        next_id: 0,
        node_id: None,
        node_ids: Seq::empty(),
        neighbors: Seq::empty(),
        messages: Seq::empty(),
        pending: Seq::empty(),
    }
}

/// How long a send waits for its acknowledgment after `attempts` repeats:
/// the wait doubles with every repeat and stays at 3200 from the fifth on.
pub open spec fn backoff(attempts: usize) -> u64 {
    if attempts == 0 {
        100
    } else if attempts == 1 {
        200
    } else if attempts == 2 {
        400
    } else if attempts == 3 {
        800
    } else if attempts == 4 {
        1600
    } else {
        3200
    }
}

/// The time from which a send made at `now`, after `attempts` repeats, is due
/// again. It stops at the largest time there is.
pub open spec fn deadline_after(now: u64, attempts: usize) -> u64 {
    if now + backoff(attempts) > u64::MAX {
        u64::MAX
    } else {
        (now + backoff(attempts)) as u64
    }
}

/// One more attempt, counted up to the largest count there is.
pub open spec fn next_attempt(attempts: usize) -> usize {
    if attempts == usize::MAX {
        attempts
    } else {
        (attempts + 1) as usize
    }
}

/// The members of `s`, each once, in the order of their first occurrence.
pub open spec fn distinct(s: Seq<Id>) -> Seq<Id>
    decreases s.len(),
{
    if s.len() == 0 {
        Seq::empty()
    } else {
        let d = distinct(s.drop_last());
        if d.contains(s.last()) {
            d
        } else {
            d.push(s.last())
        }
    }
}

/// The neighbours that `topology` lists for `me`, each once; none where `me`
/// has no entry.
pub open spec fn neighbors_of(topology: Map<Id, Seq<Id>>, me: Id) -> Seq<Id> {
    if topology.contains_key(me) {
        distinct(topology[me])
    } else {
        Seq::empty()
    }
}

/// Whether a node is another than `sender`.
pub open spec fn other_than(sender: Id) -> spec_fn(Id) -> bool {
    |n: Id| n != sender
}

/// `neighbors` without `sender`, in order.
pub open spec fn others(neighbors: Seq<Id>, sender: Id) -> Seq<Id> {
    neighbors.filter(other_than(sender))
}

/// Whether one of the sends of `e` went out under the id `id`.
pub open spec fn sent_under(e: PendingView, id: usize) -> bool {
    e.msg_id == id || e.earlier.contains(id)
}

/// Whether an acknowledgment from `peer` in reply to `in_reply_to` settles
/// `e`: whether it comes from the peer of `e` and replies to one of its sends.
pub open spec fn settles(e: PendingView, peer: Id, in_reply_to: Option<usize>) -> bool {
    e.peer == peer && in_reply_to is Some && sent_under(e, in_reply_to->0)
}

/// `pending` without the sends that the acknowledgment settles.
pub open spec fn unsettled(pending: Seq<PendingView>, peer: Id, in_reply_to: Option<usize>) -> Seq<
    PendingView,
> {
    pending.filter(still_waits(peer, in_reply_to))
}

/// Whether an acknowledgment from `peer` in reply to `in_reply_to` leaves a
/// send waiting.
pub open spec fn still_waits(peer: Id, in_reply_to: Option<usize>) -> spec_fn(PendingView) -> bool {
    |e: PendingView| !settles(e, peer, in_reply_to)
}

/// The reply to `input` that carries `payload` and the id `id`.
pub open spec fn reply_to(input: Msg, id: nat, payload: PayloadView) -> Msg {
    MessageView {
        src: input.dest,
        dest: input.src,
        body: BodyView { id: Some(id as usize), in_reply_to: input.body.id, payload },
    }
}

/// The `Broadcast` of `value` from `me` to `peer` with the id `id`.
pub open spec fn broadcast_to(me: Id, peer: Id, value: usize, id: nat) -> Msg {
    MessageView {
        src: me,
        dest: peer,
        body: BodyView {
            id: Some(id as usize),
            in_reply_to: None,
            payload: PayloadView::Broadcast { message: value },
        },
    }
}

/// One `Broadcast` of `value` to each of `targets`, with ids from `first_id` on.
pub open spec fn fan_out(me: Id, targets: Seq<Id>, value: usize, first_id: nat) -> Seq<Msg> {
    Seq::new(targets.len(), |k: int| broadcast_to(me, targets[k], value, (first_id + k) as nat))
}

/// The sends that [`fan_out`] makes, as entries that wait for their
/// acknowledgment.
pub open spec fn fan_out_pending(targets: Seq<Id>, value: usize, first_id: nat, now: u64) -> Seq<
    PendingView,
> {
    Seq::new(
        targets.len(),
        |k: int|
            PendingView {
                peer: targets[k],
                value,
                msg_id: (first_id + k) as usize,
                earlier: Seq::empty(),
                attempts: 0,
                deadline: deadline_after(now, 0),
            },
    )
}

/// `s` after it has handed out `count` ids.
pub open spec fn advance(s: NodeState, count: nat) -> NodeState {
    NodeState { next_id: s.next_id + count, ..s }
}

/// `s` after `input` was answered with the one reply `payload`.
pub open spec fn answered(s: NodeState, input: Msg, payload: PayloadView) -> Outcome {
    Outcome { state: advance(s, 1), result: Ok(seq![reply_to(input, s.next_id, payload)]) }
}

/// `s` after `input` was refused.
pub open spec fn refused(s: NodeState, violation: ProtocolViolation) -> Outcome {
    Outcome { state: s, result: Err(violation) }
}

/// What a node in state `s` does with `input` at time `now`. `generated` is
/// the identifier that a `Generate` request would be answered with.
///
/// A node without identity accepts `Init` alone. A node with identity answers
/// every request with one reply; a new broadcast value is stored and sent on
/// to every neighbour but the sender, a known one is only acknowledged. An
/// acknowledgment settles the waiting send that it replies to, whichever of
/// the repeats of that send it answers, and is not answered itself. Every
/// other reply is refused.
pub open spec fn step_spec(s: NodeState, input: Msg, now: u64, generated: Id) -> Outcome {
    match s.node_id {
        None => match input.body.payload {
            PayloadView::Init { node_id, node_ids } => answered(
                NodeState { node_id: Some(node_id), node_ids, ..s },
                input,
                PayloadView::InitOk,
            ),
            _ => refused(s, ProtocolViolation::NotInitialized),
        },
        Some(me) => match input.body.payload {
            PayloadView::Init { .. } => answered(s, input, PayloadView::InitOk),
            PayloadView::Echo { echo } => answered(s, input, PayloadView::EchoOk { echo }),
            PayloadView::Generate => answered(s, input, PayloadView::GenerateOk { id: generated }),
            PayloadView::Topology { topology } => answered(
                NodeState { neighbors: neighbors_of(topology, me), ..s },
                input,
                PayloadView::TopologyOk,
            ),
            PayloadView::Read => answered(s, input, PayloadView::ReadOk { messages: s.messages }),
            PayloadView::Broadcast { message } => if s.messages.contains(message) {
                answered(s, input, PayloadView::BroadcastOk)
            } else {
                let targets = others(s.neighbors, input.src);
                Outcome {
                    state: NodeState {
                        next_id: s.next_id + 1 + targets.len(),
                        messages: s.messages.push(message),
                        pending: s.pending + fan_out_pending(targets, message, s.next_id + 1, now),
                        ..s
                    },
                    result: Ok(
                        seq![reply_to(input, s.next_id, PayloadView::BroadcastOk)] + fan_out(
                            me,
                            targets,
                            message,
                            s.next_id + 1,
                        ),
                    ),
                }
            },
            PayloadView::BroadcastOk => Outcome {
                state: NodeState {
                    pending: unsettled(s.pending, input.src, input.body.in_reply_to),
                    ..s
                },
                result: Ok(Seq::empty()),
            },
            _ => refused(s, ProtocolViolation::UnexpectedReply),
        },
    }
}

/// The entry `e` after it was sent again at `now` with the id `id`.
pub open spec fn rearmed(e: PendingView, id: nat, now: u64) -> PendingView {
    PendingView {
        msg_id: id as usize,
        earlier: e.earlier.push(e.msg_id),
        attempts: next_attempt(e.attempts),
        deadline: deadline_after(now, next_attempt(e.attempts)),
        ..e
    }
}

/// What one pass over the waiting sends leads to.
pub struct Retry {
    pub pending: Seq<PendingView>,
    pub sent: Seq<Msg>,
}

/// One pass over `pending` at time `now`: every entry whose deadline has come
/// is sent again from `me` and armed anew, the others stay as they are. The
/// sends get the ids from `first_id` on, in the order of the entries.
pub open spec fn retry_pass(pending: Seq<PendingView>, me: Id, first_id: nat, now: u64) -> Retry
    decreases pending.len(),
{
    if pending.len() == 0 {
        Retry { pending: Seq::empty(), sent: Seq::empty() }
    } else {
        let before = retry_pass(pending.drop_last(), me, first_id, now);
        let e = pending.last();
        if e.deadline <= now {
            let id = first_id + before.sent.len();
            Retry {
                pending: before.pending.push(rearmed(e, id, now)),
                sent: before.sent.push(broadcast_to(me, e.peer, e.value, id)),
            }
        } else {
            Retry { pending: before.pending.push(e), sent: before.sent }
        }
    }
}

/// What a node in state `s` sends again at time `now`, and its state after.
pub open spec fn retry_spec(s: NodeState, now: u64) -> (NodeState, Seq<Msg>) {
    match s.node_id {
        None => (s, Seq::empty()),
        Some(me) => {
            let pass = retry_pass(s.pending, me, s.next_id, now);
            (
                NodeState { next_id: s.next_id + pass.sent.len(), pending: pass.pending, ..s },
                pass.sent,
            )
        },
    }
}

/// Whether `s` can hand out `count` more ids.
pub open spec fn has_ids(s: NodeState, count: nat) -> bool {
    s.next_id + count <= usize::MAX
}

/// What holds of every state that a node can reach.
pub open spec fn valid(s: NodeState) -> bool {
    &&& s.messages.no_duplicates()
    &&& s.neighbors.no_duplicates()
    &&& s.next_id <= usize::MAX
    &&& forall|i: int|
        0 <= i < s.pending.len() ==> s.messages.contains((#[trigger] s.pending[i]).value)
    &&& forall|i: int, id: usize|
        0 <= i < s.pending.len() && #[trigger] sent_under(s.pending[i], id) ==> id < s.next_id
    &&& s.node_id is None ==> s.neighbors.len() == 0 && s.messages.len() == 0 && s.pending.len()
        == 0
}

} // verus!
