//! Laws of the broadcast node, proved about its state machine.

use vstd::prelude::*;
use crate::error::ProtocolViolation;
use crate::model::{reply_to, retry_pass, retry_spec, step_spec, Id, Msg, NodeState, PendingView};
use crate::payload::PayloadView;

verus! {

/// Something that happens to a node.
pub enum Event {
    /// A message arrives. `generated` is the identifier that the node would
    /// answer a `Generate` request with.
    Deliver { input: Msg, now: u64, generated: Id },
    /// The node looks through its waiting sends.
    Tick { now: u64 },
}

/// A state together with the messages that were sent on the way to it.
pub struct Trace {
    pub state: NodeState,
    pub sent: Seq<Msg>,
}

/// The state after one event, and what the node sends because of it. A
/// refused message changes nothing and sends nothing.
pub open spec fn apply(s: NodeState, e: Event) -> Trace {
    match e {
        Event::Deliver { input, now, generated } => {
            let outcome = step_spec(s, input, now, generated);
            match outcome.result {
                Ok(out) => Trace { state: outcome.state, sent: out },
                Err(_) => Trace { state: outcome.state, sent: Seq::empty() },
            }
        },
        Event::Tick { now } => Trace { state: retry_spec(s, now).0, sent: retry_spec(s, now).1 },
    }
}

/// The state after a sequence of events, and everything the node sent
/// meanwhile, in order.
pub open spec fn run(s: NodeState, events: Seq<Event>) -> Trace
    decreases events.len(),
{
    if events.len() == 0 {
        Trace { state: s, sent: Seq::empty() }
    } else {
        let before = run(s, events.drop_last());
        let last = apply(before.state, events.last());
        Trace { state: last.state, sent: before.sent + last.sent }
    }
}

/// Whether `e` delivers a `Broadcast` of `value`.
pub open spec fn delivers(e: Event, value: usize) -> bool {
    e matches Event::Deliver { input, .. } && input.body.payload == (PayloadView::Broadcast {
        message: value,
    })
}

/// The values that the events broadcast to the node.
pub open spec fn broadcast_values(events: Seq<Event>) -> Set<usize> {
    Set::new(|v: usize| exists|i: int| 0 <= i < events.len() && delivers(#[trigger] events[i], v))
}

/// One event at a node that has its identity adds to the store the value
/// that the event broadcasts, if it does, and nothing else; the node keeps
/// its identity.
pub proof fn law_store_after_event(s: NodeState, e: Event)
    requires
        s.node_id is Some,
    ensures
        apply(s, e).state.node_id == s.node_id,
        forall|v: usize|
            #![trigger apply(s, e).state.messages.contains(v)]
            apply(s, e).state.messages.contains(v) <==> s.messages.contains(v) || delivers(e, v),
{
    let after = apply(s, e).state;
    assert forall|v: usize| #![trigger after.messages.contains(v)] after.messages.contains(v) <==> s.messages.contains(v) || delivers(
        e,
        v,
    ) by {
        if let Event::Deliver { input, now, generated } = e {
            if let PayloadView::Broadcast { message } = input.body.payload {
                if !s.messages.contains(message) {
                    assert(after.messages == s.messages.push(message));
                    assert(after.messages[s.messages.len() as int] == message);
                    if s.messages.contains(v) {
                        let i = choose|i: int| 0 <= i < s.messages.len() && s.messages[i] == v;
                        assert(after.messages[i] == v);
                    }
                    if after.messages.contains(v) {
                        let i = choose|i: int| 0 <= i < after.messages.len() && after.messages[i]
                            == v;
                        if i < s.messages.len() {
                            assert(s.messages[i] == v);
                        }
                    }
                }
            }
        }
    }
}

/// Whatever is delivered to a node that has its identity, in whatever order
/// and however often, its store ends up holding what it held before and the
/// values that were broadcast to it, and nothing else.
pub proof fn law_store_is_union(s: NodeState, events: Seq<Event>)
    requires
        s.node_id is Some,
    ensures
        run(s, events).state.node_id == s.node_id,
        run(s, events).state.messages.to_set() == s.messages.to_set().union(
            broadcast_values(events),
        ),
    decreases events.len(),
{
    let end = run(s, events).state;
    if events.len() == 0 {
        assert(end.messages.to_set() =~= s.messages.to_set().union(broadcast_values(events)));
    } else {
        let rest = events.drop_last();
        let mid = run(s, rest).state;
        law_store_is_union(s, rest);
        law_store_after_event(mid, events.last());
        assert forall|v: usize|
            end.messages.to_set().contains(v) <==> s.messages.to_set().union(
                broadcast_values(events),
            ).contains(v) by {
            assert(mid.messages.to_set().contains(v) <==> mid.messages.contains(v));
            assert(end.messages.to_set().contains(v) <==> end.messages.contains(v));
            assert(end == apply(mid, events.last()).state);
            assert(apply(mid, events.last()).state.messages.contains(v) <==> mid.messages.contains(v)
                || delivers(events.last(), v));
            assert(s.messages.to_set().contains(v) <==> s.messages.contains(v));
            if broadcast_values(rest).contains(v) {
                let i = choose|i: int| 0 <= i < rest.len() && delivers(#[trigger] rest[i], v);
                assert(delivers(events[i], v));
            }
            if delivers(events.last(), v) {
                assert(delivers(events[events.len() - 1], v));
            }
            if broadcast_values(events).contains(v) {
                let i = choose|i: int| 0 <= i < events.len() && delivers(#[trigger] events[i], v);
                if i < rest.len() {
                    assert(delivers(rest[i], v));
                }
            }
        }
        assert(end.messages.to_set() =~= s.messages.to_set().union(broadcast_values(events)));
    }
}

/// Two sequences of events that broadcast the same values leave the same
/// store, whatever their order and their repetitions.
pub proof fn law_store_order_independent(s: NodeState, first: Seq<Event>, second: Seq<Event>)
    requires
        s.node_id is Some,
        broadcast_values(first) == broadcast_values(second),
    ensures
        run(s, first).state.messages.to_set() == run(s, second).state.messages.to_set(),
{
    law_store_is_union(s, first);
    law_store_is_union(s, second);
}

/// A `Read` is answered with exactly the store, and leaves it as it is.
pub proof fn law_read_returns_store(s: NodeState, input: Msg, now: u64, generated: Id)
    requires
        s.node_id is Some,
        input.body.payload is Read,
    ensures
        step_spec(s, input, now, generated).result == Ok::<Seq<Msg>, ProtocolViolation>(
            seq![reply_to(input, s.next_id, PayloadView::ReadOk { messages: s.messages })],
        ),
        step_spec(s, input, now, generated).state == (NodeState { next_id: s.next_id + 1, ..s }),
{
}

/// A `Read` after any events returns, as a set, what the store held before
/// and the values that were broadcast since.
pub proof fn law_read_after_broadcasts(
    s: NodeState,
    events: Seq<Event>,
    input: Msg,
    now: u64,
    generated: Id,
)
    requires
        s.node_id is Some,
        input.body.payload is Read,
    ensures
        step_spec(run(s, events).state, input, now, generated).result matches Ok(out)
            && out.len() == 1 && (out[0].body.payload matches PayloadView::ReadOk { messages }
            && messages.to_set() == s.messages.to_set().union(broadcast_values(events))),
{
    law_store_is_union(s, events);
    law_read_returns_store(run(s, events).state, input, now, generated);
}

/// Two `Read`s with nothing but reads between them return the same values.
pub proof fn law_read_twice(
    s: NodeState,
    first: Msg,
    second: Msg,
    now1: u64,
    now2: u64,
    g1: Id,
    g2: Id,
)
    requires
        s.node_id is Some,
        first.body.payload is Read,
        second.body.payload is Read,
    ensures
        ({
            let one = step_spec(s, first, now1, g1);
            let two = step_spec(one.state, second, now2, g2);
            &&& one.result matches Ok(a) && two.result matches Ok(b) && a.len() == 1 && b.len()
                == 1 && a[0].body.payload == b[0].body.payload
            &&& two.state.messages == s.messages
        }),
{
}

/// A `Broadcast` of a value that the node knows already is acknowledged and
/// nothing more: one reply, no message to a neighbour, no new waiting send,
/// the store as it was.
pub proof fn law_duplicate_broadcast(s: NodeState, input: Msg, now: u64, generated: Id)
    requires
        s.node_id is Some,
        input.body.payload matches PayloadView::Broadcast { message } && s.messages.contains(
            message,
        ),
    ensures
        step_spec(s, input, now, generated).result == Ok::<Seq<Msg>, ProtocolViolation>(
            seq![reply_to(input, s.next_id, PayloadView::BroadcastOk)],
        ),
        step_spec(s, input, now, generated).state == (NodeState { next_id: s.next_id + 1, ..s }),
{
}

/// The second of two `Broadcast`s of one value is only acknowledged,
/// whoever sent the two.
pub proof fn law_second_broadcast_not_sent_on(
    s: NodeState,
    first: Msg,
    second: Msg,
    now1: u64,
    now2: u64,
    g1: Id,
    g2: Id,
)
    requires
        s.node_id is Some,
        first.body.payload is Broadcast,
        second.body.payload == first.body.payload,
    ensures
        ({
            let one = step_spec(s, first, now1, g1);
            let two = step_spec(one.state, second, now2, g2);
            &&& two.result == Ok::<Seq<Msg>, ProtocolViolation>(
                seq![reply_to(second, one.state.next_id, PayloadView::BroadcastOk)],
            )
            &&& two.state.pending == one.state.pending
            &&& two.state.messages == one.state.messages
        }),
{
    let one = step_spec(s, first, now1, g1);
    let v = first.body.payload->Broadcast_message;
    if !s.messages.contains(v) {
        assert(one.state.messages[s.messages.len() as int] == v);
    }
    law_duplicate_broadcast(one.state, second, now2, g2);
}

/// Whether `sent` carries the ids from `first` on, one after the other.
pub open spec fn numbered_from(sent: Seq<Msg>, first: nat) -> bool {
    forall|k: int| 0 <= k < sent.len() ==> (#[trigger] sent[k]).body.id == Some((first + k) as usize)
}

/// The reply to a request repeats the request's id and goes back to where
/// the request came from; the messages sent on to neighbours reply to
/// nothing. Every message gets the next free id, and a refusal changes
/// nothing.
pub proof fn law_reply_correlates(s: NodeState, input: Msg, now: u64, generated: Id)
    ensures
        match step_spec(s, input, now, generated).result {
            Ok(out) => {
                &&& step_spec(s, input, now, generated).state.next_id == s.next_id + out.len()
                &&& numbered_from(out, s.next_id)
                &&& input.body.payload is BroadcastOk ==> out.len() == 0
                &&& !(input.body.payload is BroadcastOk) ==> out.len() >= 1
                    && out[0].body.in_reply_to == input.body.id && out[0].dest == input.src
                    && out[0].src == input.dest
                &&& forall|k: int| 1 <= k < out.len() ==> (#[trigger] out[k]).body.in_reply_to is None
            },
            Err(_) => step_spec(s, input, now, generated).state == s,
        },
{
}

/// The messages that a pass over the waiting sends makes get the next free
/// ids, in order, and reply to nothing.
pub proof fn law_retry_numbered(s: NodeState, now: u64)
    ensures
        retry_spec(s, now).0.next_id == s.next_id + retry_spec(s, now).1.len(),
        numbered_from(retry_spec(s, now).1, s.next_id),
        forall|k: int|
            0 <= k < retry_spec(s, now).1.len() ==> (#[trigger] retry_spec(
                s,
                now,
            ).1[k]).body.in_reply_to is None,
{
    if let Some(me) = s.node_id {
        lemma_numbered_pass(s.pending, me, s.next_id, now);
    }
}

/// The messages of one pass are numbered from `first_id` on.
proof fn lemma_numbered_pass(pending: Seq<PendingView>, me: Id, first_id: nat, now: u64)
    ensures
        numbered_from(retry_pass(pending, me, first_id, now).sent, first_id),
        forall|k: int|
            0 <= k < retry_pass(pending, me, first_id, now).sent.len() ==> (#[trigger] retry_pass(
                pending,
                me,
                first_id,
                now,
            ).sent[k]).body.in_reply_to is None,
    decreases pending.len(),
{
    if pending.len() > 0 {
        lemma_numbered_pass(pending.drop_last(), me, first_id, now);
        let before = retry_pass(pending.drop_last(), me, first_id, now);
        let pass = retry_pass(pending, me, first_id, now);
        assert forall|k: int| 0 <= k < before.sent.len() implies pass.sent[k] == before.sent[k] by {}
    }
}

/// Over the whole life of a node the messages it sends carry the ids from
/// its first free id on, one after the other.
pub proof fn law_run_numbered(s: NodeState, events: Seq<Event>)
    ensures
        run(s, events).state.next_id == s.next_id + run(s, events).sent.len(),
        numbered_from(run(s, events).sent, s.next_id),
    decreases events.len(),
{
    if events.len() > 0 {
        let before = run(s, events.drop_last());
        law_run_numbered(s, events.drop_last());
        let last = apply(before.state, events.last());
        match events.last() {
            Event::Deliver { input, now, generated } => {
                law_reply_correlates(before.state, input, now, generated);
            },
            Event::Tick { now } => {
                law_retry_numbered(before.state, now);
            },
        }
        assert(numbered_from(last.sent, before.state.next_id));
        let all = run(s, events).sent;
        assert forall|k: int| 0 <= k < all.len() implies (#[trigger] all[k]).body.id == Some(
            (s.next_id + k) as usize,
        ) by {
            if k < before.sent.len() {
                assert(all[k] == before.sent[k]);
            } else {
                assert(all[k] == last.sent[k - before.sent.len()]);
            }
        }
    }
}

/// As long as the ids last, every message that a node sends has an id, and
/// a later message has a larger id than an earlier one.
pub proof fn law_ids_increase(s: NodeState, events: Seq<Event>)
    requires
        run(s, events).state.next_id <= usize::MAX + 1,
    ensures
        forall|i: int, j: int|
            0 <= i < j < run(s, events).sent.len() ==> {
                &&& (#[trigger] run(s, events).sent[i]).body.id matches Some(a)
                &&& (#[trigger] run(s, events).sent[j]).body.id matches Some(b)
                &&& a < b
            },
{
    law_run_numbered(s, events);
}

} // verus!
