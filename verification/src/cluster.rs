//! Several broadcast nodes and the messages between them.
//!
//! The network may lose, repeat and reorder messages: everything that a node
//! has sent stays deliverable for ever, and nothing has to be delivered.

use vstd::prelude::*;
use crate::laws::{apply, Event, Trace};
use crate::model::{
    broadcast_to, fan_out, fan_out_pending, others, retry_pass, sent_under, settles, unsettled, valid, Id, Msg,
    NodeState, PendingView,
};
use crate::payload::PayloadView;
use crate::validity::{
    lemma_others_contains, lemma_retry_pass, lemma_retry_valid, lemma_step_valid,
    lemma_unsettled_ok,
};

verus! {

/// The nodes of a cluster and every message that one of them has sent.
pub struct Cluster {
    pub nodes: Map<Id, NodeState>,
    pub net: Set<Msg>,
}

/// Something that happens in a cluster.
pub enum Action {
    /// A client sends `input` to a node.
    Request { input: Msg, now: u64, generated: Id },
    /// The network delivers a message that a node has sent.
    Deliver { message: Msg, now: u64, generated: Id },
    /// The node `at` looks through its waiting sends.
    Tick { at: Id, now: u64 },
}

/// The node that `action` happens at.
pub open spec fn place(action: Action) -> Id {
    match action {
        Action::Request { input, .. } => input.dest,
        Action::Deliver { message, .. } => message.dest,
        Action::Tick { at, .. } => at,
    }
}

/// What `action` is to the node it happens at.
pub open spec fn event_of(action: Action) -> Event {
    match action {
        Action::Request { input, now, generated } => Event::Deliver { input, now, generated },
        Action::Deliver { message, now, generated } => Event::Deliver {
            input: message,
            now,
            generated,
        },
        Action::Tick { at, now } => Event::Tick { now },
    }
}

/// Whether `action` can happen in `c`: it happens at a node of the cluster
/// whose ids last; a request comes from outside the cluster and a delivered
/// message from the network; and neither is an `Init` or a `Topology`, which
/// set a cluster up before it runs.
pub open spec fn enabled(c: Cluster, action: Action) -> bool {
    &&& c.nodes.contains_key(place(action))
    &&& apply(c.nodes[place(action)], event_of(action)).state.next_id <= usize::MAX
    &&& match action {
        Action::Request { input, .. } => !c.nodes.contains_key(input.src) && !(input.body.payload
            is Init) && !(input.body.payload is Topology),
        Action::Deliver { message, .. } => c.net.contains(message) && !(message.body.payload
            is Init) && !(message.body.payload is Topology),
        Action::Tick { .. } => true,
    }
}

/// The cluster after `action`: the node it happens at takes its step, and
/// what the node sends joins the network.
pub open spec fn next(c: Cluster, action: Action) -> Cluster {
    let at = place(action);
    let trace = apply(c.nodes[at], event_of(action));
    Cluster { nodes: c.nodes.insert(at, trace.state), net: c.net.union(trace.sent.to_set()) }
}

/// Whether the node `s` waits for `peer` to acknowledge `value`.
pub open spec fn waits_for(s: NodeState, peer: Id, value: usize) -> bool {
    exists|i: int|
        0 <= i < s.pending.len() && (#[trigger] s.pending[i]).peer == peer && s.pending[i].value
            == value
}

/// Whether every value that a node holds is held by each of its neighbours
/// too, or waits for that neighbour's acknowledgment.
pub open spec fn covered(c: Cluster) -> bool {
    forall|a: Id, n: Id, v: usize|
        #![trigger c.nodes[a].neighbors.contains(n), c.nodes[a].messages.contains(v)]
        c.nodes.contains_key(a) && c.nodes.contains_key(n) && c.nodes[a].neighbors.contains(n)
            && c.nodes[a].messages.contains(v) ==> c.nodes[n].messages.contains(v) || waits_for(
            c.nodes[a],
            n,
            v,
        )
}

/// Whether no node of `c` waits for an acknowledgment.
pub open spec fn quiet(c: Cluster) -> bool {
    forall|a: Id| c.nodes.contains_key(a) ==> (#[trigger] c.nodes[a]).pending.len() == 0
}

/// Whether `path` leads from node to node of `c`, each the neighbour of the
/// one before.
pub open spec fn connects(c: Cluster, path: Seq<Id>) -> bool {
    &&& path.len() > 0
    &&& forall|i: int| 0 <= i < path.len() ==> c.nodes.contains_key(#[trigger] path[i])
    &&& forall|i: int|
        0 <= i < path.len() - 1 ==> c.nodes[path[i]].neighbors.contains(#[trigger] path[i + 1])
}

/// Where every value is covered and no send waits, a value that a node holds
/// is held by every node that a path of neighbours leads to.
pub proof fn lemma_quiet_reach(c: Cluster, path: Seq<Id>, value: usize)
    requires
        covered(c),
        quiet(c),
        connects(c, path),
        c.nodes[path[0]].messages.contains(value),
    ensures
        c.nodes[path.last()].messages.contains(value),
    decreases path.len(),
{
    if path.len() > 1 {
        let shorter = path.drop_last();
        assert forall|i: int| 0 <= i < shorter.len() - 1 implies c.nodes[shorter[i]].neighbors.contains(
            #[trigger] shorter[i + 1],
        ) by {
            assert(shorter[i + 1] == path[i + 1]);
        }
        assert(shorter[0] == path[0]);
        lemma_quiet_reach(c, shorter, value);
        let a = path[path.len() - 2];
        let n = path[path.len() - 2 + 1];
        assert(shorter.last() == a);
        assert(c.nodes[a].neighbors.contains(n));
        assert(c.nodes[a].messages.contains(value));
        assert(c.nodes[a].pending.len() == 0);
        assert(!waits_for(c.nodes[a], n, value));
    }
}

/// Whether `e` is a send that the step from `s` to `t` has made: its id is
/// one of the step's ids, and the message with that id is its `Broadcast`.
pub open spec fn fresh_send(s: NodeState, t: Trace, e: PendingView, me: Id) -> bool {
    &&& s.next_id <= e.msg_id < s.next_id + t.sent.len()
    &&& t.sent[e.msg_id - s.next_id] == broadcast_to(me, e.peer, e.value, e.msg_id as nat)
}

/// Whether `e` takes up a waiting send of `s`: the same value for the same
/// peer, with the latest id of that send among its earlier ids.
pub open spec fn takes_up(s: NodeState, e: PendingView) -> bool {
    exists|j: int|
        0 <= j < s.pending.len() && e.peer == (#[trigger] s.pending[j]).peer && e.value
            == s.pending[j].value && e.earlier == s.pending[j].earlier.push(s.pending[j].msg_id)
}

/// Whether `event` is an acknowledgment from `peer` that settles a send of
/// `value` that `s` waits for.
pub open spec fn settled_by(s: NodeState, event: Event, peer: Id, value: usize) -> bool {
    event matches Event::Deliver { input, .. } && input.body.payload is BroadcastOk && input.src
        == peer && input.body.in_reply_to is Some && exists|i: int|
        0 <= i < s.pending.len() && (#[trigger] s.pending[i]).peer == peer && s.pending[i].value
            == value && sent_under(s.pending[i], input.body.in_reply_to->0)
}

/// Whether `event` can happen at a running node with the id `me`.
pub open spec fn fits(s: NodeState, me: Id, event: Event) -> bool {
    &&& valid(s)
    &&& s.node_id == Some(me)
    &&& apply(s, event).state.next_id <= usize::MAX
    &&& event matches Event::Deliver { input, .. } ==> input.dest == me && !(input.body.payload
        is Init) && !(input.body.payload is Topology)
}

/// What one event does to a running node, as far as the cluster cares.
pub open spec fn step_facts(s: NodeState, me: Id, event: Event) -> bool {
    let t = apply(s, event);
    &&& valid(t.state)
    &&& t.state.node_id == s.node_id
    &&& t.state.neighbors == s.neighbors
    &&& t.state.next_id == s.next_id + t.sent.len()
    &&& forall|v: usize| s.messages.contains(v) ==> #[trigger] t.state.messages.contains(v)
    &&& forall|k: int|
        0 <= k < t.sent.len() ==> (#[trigger] t.sent[k]).body.id == Some(
            (s.next_id + k) as usize,
        ) && t.sent[k].src == me
    &&& forall|k: int|
        0 <= k < t.sent.len() ==> ((#[trigger] t.sent[k]).body.payload matches PayloadView::Broadcast {
            message,
        } ==> t.state.messages.contains(message))
    &&& forall|i: int|
        0 <= i < t.state.pending.len() ==> s.pending.contains(#[trigger] t.state.pending[i]) || (
        fresh_send(s, t, t.state.pending[i], me) && (t.state.pending[i].earlier.len() == 0
            || takes_up(s, t.state.pending[i])))
    &&& forall|k: int|
        0 <= k < t.sent.len() && (#[trigger] t.sent[k]).body.payload is BroadcastOk ==> {
            &&& event matches Event::Deliver { input, .. }
            &&& input.body.payload matches PayloadView::Broadcast { message }
            &&& t.state.messages.contains(message)
            &&& t.sent[k].dest == input.src
            &&& t.sent[k].body.in_reply_to == input.body.id
        }
    &&& forall|n: Id, v: usize|
        waits_for(s, n, v) ==> #[trigger] waits_for(t.state, n, v) || settled_by(
            s,
            event,
            n,
            v,
        )
    &&& forall|v: usize|
        #[trigger] t.state.messages.contains(v) && !s.messages.contains(v) ==> {
            &&& event matches Event::Deliver { input, .. }
            &&& input.body.payload == (PayloadView::Broadcast { message: v })
            &&& forall|n: Id|
                s.neighbors.contains(n) && n != input.src ==> #[trigger] waits_for(
                    t.state,
                    n,
                    v,
                )
        }
}

/// [`step_facts`] for a pass over the waiting sends.
proof fn lemma_tick_facts(s: NodeState, me: Id, now: u64)
    requires
        fits(s, me, Event::Tick { now }),
    ensures
        step_facts(s, me, Event::Tick { now }),
{
    let event = Event::Tick { now };
    let t = apply(s, event);
    lemma_retry_valid(s, now);
    lemma_retry_pass(s.pending, me, s.next_id, now);
    let pass = retry_pass(s.pending, me, s.next_id, now);
    assert(t.sent == pass.sent);
    assert(t.state.pending == pass.pending);
    assert(t.state.messages == s.messages);
    assert forall|k: int| 0 <= k < t.sent.len() implies (#[trigger] t.sent[k]).body.id
        == Some((s.next_id + k) as usize) && t.sent[k].src == me && !(t.sent[k].body.payload
        is BroadcastOk) by {
        assert(pass.sent[k].body.payload is Broadcast);
    }
    assert forall|k: int| 0 <= k < t.sent.len() implies ((
    #[trigger] t.sent[k]).body.payload matches PayloadView::Broadcast { message }
        ==> t.state.messages.contains(message)) by {
        lemma_retry_sent(s.pending, me, s.next_id, now, k);
        let i = choose|i: int|
            0 <= i < s.pending.len() && pass.sent[k] == broadcast_to(
                me,
                s.pending[i].peer,
                s.pending[i].value,
                (s.next_id + k) as nat,
            );
        assert(s.messages.contains(s.pending[i].value));
    }
    assert forall|i: int| 0 <= i < t.state.pending.len() implies s.pending.contains(
        #[trigger] t.state.pending[i],
    ) || fresh_send(s, t, t.state.pending[i], me) by {
        if s.pending[i].deadline > now {
            assert(pass.pending[i] == s.pending[i]);
        } else {
            let e = pass.pending[i];
            assert(s.next_id <= e.msg_id < s.next_id + pass.sent.len());
        }
    }
    assert forall|n: Id, v: usize| waits_for(s, n, v) implies #[trigger] waits_for(
        t.state,
        n,
        v,
    ) || settled_by(s, event, n, v) by {
        let i = choose|i: int|
            0 <= i < s.pending.len() && (#[trigger] s.pending[i]).peer == n
                && s.pending[i].value == v;
        if s.pending[i].deadline > now {
            assert(pass.pending[i] == s.pending[i]);
        } else {
            assert(pass.pending[i].peer == n && pass.pending[i].value == v);
        }
        assert(t.state.pending[i].peer == n && t.state.pending[i].value == v);
    }
}

/// [`step_facts`] for a `Broadcast`.
proof fn lemma_broadcast_facts(s: NodeState, me: Id, input: Msg, now: u64, generated: Id)
    requires
        fits(s, me, Event::Deliver { input, now, generated }),
        input.body.payload is Broadcast,
    ensures
        step_facts(s, me, Event::Deliver { input, now, generated }),
{
    let event = Event::Deliver { input, now, generated };
    let t = apply(s, event);
    let message = input.body.payload->Broadcast_message;
    lemma_step_valid(s, input, now, generated);
    if !s.messages.contains(message) {
        let targets = others(s.neighbors, input.src);
        let noted = fan_out_pending(targets, message, s.next_id + 1, now);
        let sent = fan_out(me, targets, message, s.next_id + 1);
        assert(t.state.messages[s.messages.len() as int] == message);
        assert forall|v: usize| s.messages.contains(v) implies #[trigger] t.state.messages.contains(
            v,
        ) by {
            let i = choose|i: int| 0 <= i < s.messages.len() && s.messages[i] == v;
            assert(t.state.messages[i] == v);
        }
        assert forall|i: int| 0 <= i < t.state.pending.len() implies s.pending.contains(
            #[trigger] t.state.pending[i],
        ) || fresh_send(s, t, t.state.pending[i], me) by {
            if i < s.pending.len() {
                assert(t.state.pending[i] == s.pending[i]);
            } else {
                let k = i - s.pending.len();
                assert(t.state.pending[i] == noted[k]);
                assert(t.sent[k + 1] == sent[k]);
            }
        }
        assert forall|k: int| 0 <= k < t.sent.len() implies ((
        #[trigger] t.sent[k]).body.payload matches PayloadView::Broadcast {
            message,
        } ==> t.state.messages.contains(message)) by {
            if k > 0 {
                assert(t.sent[k] == sent[k - 1]);
            }
        }
        assert forall|k: int| 0 <= k < t.sent.len() implies (
        #[trigger] t.sent[k]).body.id == Some((s.next_id + k) as usize)
            && t.sent[k].src == me by {
            if k > 0 {
                assert(t.sent[k] == sent[k - 1]);
            }
        }
        assert forall|k: int|
            0 <= k < t.sent.len() && (#[trigger] t.sent[k]).body.payload
                is BroadcastOk implies k == 0 by {
            if k > 0 {
                assert(t.sent[k] == sent[k - 1]);
            }
        }
        assert forall|n: Id, v: usize| waits_for(s, n, v) implies #[trigger] waits_for(
            t.state,
            n,
            v,
        ) by {
            let i = choose|i: int|
                0 <= i < s.pending.len() && (#[trigger] s.pending[i]).peer == n
                    && s.pending[i].value == v;
            assert(t.state.pending[i] == s.pending[i]);
        }
        assert forall|v: usize| #[trigger]
            t.state.messages.contains(v) && !s.messages.contains(v) implies v
            == message && forall|n: Id|
            s.neighbors.contains(n) && n != input.src ==> #[trigger] waits_for(
                t.state,
                n,
                v,
            ) by {
            let i = choose|i: int|
                0 <= i < t.state.messages.len() && t.state.messages[i] == v;
            if i < s.messages.len() {
                assert(s.messages[i] == v);
            }
            assert forall|n: Id|
                s.neighbors.contains(n) && n != input.src implies #[trigger] waits_for(
                t.state,
                n,
                v,
            ) by {
                lemma_others_contains(s.neighbors, input.src, n);
                let k = choose|k: int| 0 <= k < targets.len() && targets[k] == n;
                assert(t.state.pending[s.pending.len() + k] == noted[k]);
            }
        }
    }
}

/// [`step_facts`] for an acknowledgment.
proof fn lemma_ack_facts(s: NodeState, me: Id, input: Msg, now: u64, generated: Id)
    requires
        fits(s, me, Event::Deliver { input, now, generated }),
        input.body.payload is BroadcastOk,
    ensures
        step_facts(s, me, Event::Deliver { input, now, generated }),
{
    let event = Event::Deliver { input, now, generated };
    let t = apply(s, event);
    lemma_step_valid(s, input, now, generated);
    lemma_unsettled_ok(
        s.pending,
        input.src,
        input.body.in_reply_to,
        s.next_id,
        s.messages,
    );
    let kept = unsettled(s.pending, input.src, input.body.in_reply_to);
    assert forall|i: int| 0 <= i < t.state.pending.len() implies s.pending.contains(
        #[trigger] t.state.pending[i],
    ) by {
        assert(kept.contains(kept[i]));
    }
    assert forall|n: Id, v: usize| waits_for(s, n, v) implies #[trigger] waits_for(
        t.state,
        n,
        v,
    ) || settled_by(s, event, n, v) by {
        let i = choose|i: int|
            0 <= i < s.pending.len() && (#[trigger] s.pending[i]).peer == n
                && s.pending[i].value == v;
        let e = s.pending[i];
        if settles(e, input.src, input.body.in_reply_to) {
            assert(settled_by(s, event, n, v));
        } else {
            assert(s.pending.contains(e));
            assert(kept.contains(e));
            let j = choose|j: int| 0 <= j < kept.len() && kept[j] == e;
            assert(t.state.pending[j].peer == n && t.state.pending[j].value == v);
        }
    }
}

/// [`step_facts`] for every other message.
proof fn lemma_plain_facts(s: NodeState, me: Id, input: Msg, now: u64, generated: Id)
    requires
        fits(s, me, Event::Deliver { input, now, generated }),
        !(input.body.payload is Broadcast),
        !(input.body.payload is BroadcastOk),
    ensures
        step_facts(s, me, Event::Deliver { input, now, generated }),
{
    let event = Event::Deliver { input, now, generated };
    let t = apply(s, event);
    lemma_step_valid(s, input, now, generated);
    assert(t.state.pending == s.pending);
    assert(t.state.messages == s.messages);
    assert forall|n: Id, v: usize| waits_for(s, n, v) implies #[trigger] waits_for(
        t.state,
        n,
        v,
    ) by {
        let i = choose|i: int|
            0 <= i < s.pending.len() && (#[trigger] s.pending[i]).peer == n && s.pending[i].value
                == v;
        assert(t.state.pending[i] == s.pending[i]);
    }
    assert forall|i: int| 0 <= i < t.state.pending.len() implies s.pending.contains(
        #[trigger] t.state.pending[i],
    ) by {
        assert(t.state.pending[i] == s.pending[i]);
    }
}

/// Every event that fits a running node has [`step_facts`].
pub proof fn lemma_node_step(s: NodeState, me: Id, event: Event)
    requires
        fits(s, me, event),
    ensures
        step_facts(s, me, event),
{
    match event {
        Event::Tick { now } => {
            lemma_tick_facts(s, me, now);
        },
        Event::Deliver { input, now, generated } => {
            if input.body.payload is Broadcast {
                lemma_broadcast_facts(s, me, input, now, generated);
            } else if input.body.payload is BroadcastOk {
                lemma_ack_facts(s, me, input, now, generated);
            } else {
                lemma_plain_facts(s, me, input, now, generated);
            }
        },
    }
}

/// Every message of a pass is the `Broadcast` of one of the waiting sends.
pub proof fn lemma_retry_sent(pending: Seq<PendingView>, me: Id, first_id: nat, now: u64, k: int)
    requires
        0 <= k < retry_pass(pending, me, first_id, now).sent.len(),
    ensures
        exists|i: int|
            0 <= i < pending.len() && retry_pass(pending, me, first_id, now).sent[k]
                == broadcast_to(
                me,
                (#[trigger] pending[i]).peer,
                pending[i].value,
                (first_id + k) as nat,
            ),
    decreases pending.len(),
{
    if pending.len() > 0 {
        let rest = pending.drop_last();
        let before = retry_pass(rest, me, first_id, now);
        if k < before.sent.len() {
            lemma_retry_sent(rest, me, first_id, now, k);
            let i = choose|i: int|
                0 <= i < rest.len() && before.sent[k] == broadcast_to(
                    me,
                    (#[trigger] rest[i]).peer,
                    rest[i].value,
                    (first_id + k) as nat,
                );
            assert(pending[i] == rest[i]);
        } else {
            assert(pending[pending.len() - 1] == pending.last());
        }
    }
}

} // verus!
