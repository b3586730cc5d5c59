//! Every value reaches every node that a path of neighbours leads to.
//!
//! What is proved here holds of every state that a cluster can reach, however
//! the network treats its messages: a node stops waiting for a neighbour only
//! when the neighbour holds the value. So wherever no send is left waiting,
//! each value is held along every path of neighbours.

use vstd::prelude::*;
use crate::cluster::{
    connects, covered, enabled, event_of, fits, fresh_send, lemma_node_step, lemma_quiet_reach,
    next, place, quiet, settled_by, step_facts, takes_up, waits_for, Action, Cluster,
};
use crate::error::ProtocolViolation;
use crate::laws::apply;
use crate::model::{
    broadcast_to, reply_to, retry_pass, retry_spec, sent_under, settles, step_spec, valid, Id, Msg,
    NodeState, PendingView,
};
use crate::payload::PayloadView;
use crate::validity::{lemma_retry_pass, lemma_unsettled_ok};

verus! {

/// Whether every node of `c` runs under its own id and is in a valid state.
pub open spec fn nodes_sound(c: Cluster) -> bool {
    forall|a: Id|
        c.nodes.contains_key(a) ==> (#[trigger] c.nodes[a]).node_id == Some(a) && valid(c.nodes[a])
}

/// Whether every message of the network comes from a node, carries an id
/// that the node has used, and, where it is a `Broadcast`, a value that the
/// node holds.
pub open spec fn net_sound(c: Cluster) -> bool {
    forall|m: Msg| #[trigger]
        c.net.contains(m) ==> {
            &&& c.nodes.contains_key(m.src)
            &&& m.body.id matches Some(k) && k < c.nodes[m.src].next_id
            &&& m.body.payload matches PayloadView::Broadcast { message }
                ==> c.nodes[m.src].messages.contains(message)
        }
}

/// Whether `r` is a `Broadcast` that `m` acknowledges and whose value the
/// sender of `m` holds.
pub open spec fn answers(c: Cluster, m: Msg, r: Msg) -> bool {
    &&& c.net.contains(r)
    &&& r.src == m.dest
    &&& r.body.id == m.body.in_reply_to
    &&& r.body.payload matches PayloadView::Broadcast { message }
        && c.nodes[m.src].messages.contains(message)
}

/// Whether every acknowledgment from node to node answers a `Broadcast` of
/// the network whose value the acknowledging node holds.
pub open spec fn acks_sound(c: Cluster) -> bool {
    forall|m: Msg| #[trigger]
        c.net.contains(m) && c.nodes.contains_key(m.dest) && m.body.payload is BroadcastOk
            ==> exists|r: Msg| #[trigger] answers(c, m, r)
}

/// Whether every message that carries an id of a waiting send is a
/// `Broadcast` of that send.
pub open spec fn pending_sound(c: Cluster) -> bool {
    forall|a: Id, i: int, r: Msg|
        #![trigger c.nodes[a].pending[i], c.net.contains(r)]
        c.nodes.contains_key(a) && 0 <= i < c.nodes[a].pending.len() && c.net.contains(r) && r.src
            == a && r.body.id is Some && sent_under(c.nodes[a].pending[i], r.body.id->0) ==> r
            == broadcast_to(
            a,
            c.nodes[a].pending[i].peer,
            c.nodes[a].pending[i].value,
            r.body.id->0 as nat,
        )
}

/// What holds of every state that a cluster can reach.
pub open spec fn sound(c: Cluster) -> bool {
    &&& nodes_sound(c)
    &&& net_sound(c)
    &&& acks_sound(c)
    &&& pending_sound(c)
    &&& covered(c)
}

/// A cluster of nodes that are set up, hold no value yet and have sent
/// nothing is sound.
pub proof fn law_sound_start(nodes: Map<Id, NodeState>)
    requires
        forall|a: Id|
            nodes.contains_key(a) ==> (#[trigger] nodes[a]).node_id == Some(a) && valid(nodes[a])
                && nodes[a].messages.len() == 0,
    ensures
        sound(Cluster { nodes, net: Set::empty() }),
{
    let c = Cluster { nodes, net: Set::empty() };
    assert forall|a: Id, n: Id, v: usize|
        #![trigger c.nodes[a].neighbors.contains(n), c.nodes[a].messages.contains(v)]
        c.nodes.contains_key(a) && c.nodes.contains_key(n) && c.nodes[a].neighbors.contains(n)
            && c.nodes[a].messages.contains(v) implies c.nodes[n].messages.contains(v) || waits_for(
        c.nodes[a],
        n,
        v,
    ) by {
        assert(nodes[a].messages.len() == 0);
    }
}

/// In a sound cluster the action takes place at a running node.
proof fn lemma_fits(c: Cluster, action: Action)
    requires
        sound(c),
        enabled(c, action),
    ensures
        fits(c.nodes[place(action)], place(action), event_of(action)),
        step_facts(c.nodes[place(action)], place(action), event_of(action)),
{
    let at = place(action);
    assert(c.nodes[at].node_id == Some(at));
    lemma_node_step(c.nodes[at], at, event_of(action));
}

/// Whatever happens in a sound cluster, its nodes stay sound.
proof fn lemma_nodes_next(c: Cluster, action: Action)
    requires
        sound(c),
        enabled(c, action),
    ensures
        nodes_sound(next(c, action)),
{
    lemma_fits(c, action);
    let d = next(c, action);
    assert forall|a: Id| d.nodes.contains_key(a) implies (#[trigger] d.nodes[a]).node_id == Some(a)
        && valid(d.nodes[a]) by {
        if a != place(action) {
            assert(d.nodes[a] == c.nodes[a]);
        }
    }
}

/// Whatever happens in a sound cluster, its network stays sound.
proof fn lemma_net_next(c: Cluster, action: Action)
    requires
        sound(c),
        enabled(c, action),
    ensures
        net_sound(next(c, action)),
{
    lemma_fits(c, action);
    let at = place(action);
    let s = c.nodes[at];
    let t = apply(s, event_of(action));
    let d = next(c, action);
    assert forall|m: Msg| #[trigger] d.net.contains(m) implies {
        &&& d.nodes.contains_key(m.src)
        &&& m.body.id matches Some(k) && k < d.nodes[m.src].next_id
        &&& m.body.payload matches PayloadView::Broadcast { message }
            ==> d.nodes[m.src].messages.contains(message)
    } by {
        if c.net.contains(m) {
            if m.src != at {
                assert(d.nodes[m.src] == c.nodes[m.src]);
            } else {
                if let PayloadView::Broadcast { message } = m.body.payload {
                    assert(s.messages.contains(message));
                    assert(t.state.messages.contains(message));
                }
            }
        } else {
            assert(t.sent.to_set().contains(m));
            let k = choose|k: int| 0 <= k < t.sent.len() && t.sent[k] == m;
            assert(t.sent[k].src == at);
        }
    }
}

/// Whatever happens in a sound cluster, its acknowledgments stay sound.
proof fn lemma_acks_next(c: Cluster, action: Action)
    requires
        sound(c),
        enabled(c, action),
    ensures
        acks_sound(next(c, action)),
{
    lemma_fits(c, action);
    let at = place(action);
    let s = c.nodes[at];
    let t = apply(s, event_of(action));
    let d = next(c, action);
    assert forall|m: Msg| #[trigger]
        d.net.contains(m) && d.nodes.contains_key(m.dest) && m.body.payload
            is BroadcastOk implies exists|r: Msg| #[trigger] answers(d, m, r) by {
        if c.net.contains(m) {
            let r = choose|r: Msg| #[trigger] answers(c, m, r);
            let v = r.body.payload->Broadcast_message;
            if m.src == at {
                assert(s.messages.contains(v));
                assert(t.state.messages.contains(v));
            } else {
                assert(d.nodes[m.src] == c.nodes[m.src]);
            }
            assert(answers(d, m, r));
        } else {
            assert(t.sent.to_set().contains(m));
            let k = choose|k: int| 0 <= k < t.sent.len() && t.sent[k] == m;
            assert(t.sent[k].src == at);
            assert(t.sent[k].body.payload is BroadcastOk);
            match action {
                Action::Request { input, .. } => {
                    assert(m.dest == input.src);
                },
                Action::Deliver { message, .. } => {
                    assert(c.net.contains(message));
                    assert(answers(d, m, message));
                },
                Action::Tick { .. } => {},
            }
        }
    }
}

/// Whatever happens in a sound cluster, its waiting sends stay sound.
proof fn lemma_pending_next(c: Cluster, action: Action)
    requires
        sound(c),
        enabled(c, action),
    ensures
        pending_sound(next(c, action)),
{
    lemma_fits(c, action);
    let at = place(action);
    let s = c.nodes[at];
    let t = apply(s, event_of(action));
    let d = next(c, action);
    assert forall|a: Id, i: int, r: Msg|
        #![trigger d.nodes[a].pending[i], d.net.contains(r)]
        d.nodes.contains_key(a) && 0 <= i < d.nodes[a].pending.len() && d.net.contains(r) && r.src
            == a && r.body.id is Some && sent_under(
            d.nodes[a].pending[i],
            r.body.id->0,
        ) implies r == broadcast_to(
        a,
        d.nodes[a].pending[i].peer,
        d.nodes[a].pending[i].value,
        r.body.id->0 as nat,
    ) by {
        let e = d.nodes[a].pending[i];
        let id = r.body.id->0;
        if a != at {
            assert(d.nodes[a] == c.nodes[a]);
            if !c.net.contains(r) {
                assert(t.sent.to_set().contains(r));
                let k = choose|k: int| 0 <= k < t.sent.len() && t.sent[k] == r;
                assert(t.sent[k].src == at);
            }
            assert(c.nodes[a].pending[i] == e && c.net.contains(r));
        } else {
            assert(e == t.state.pending[i]);
            if s.pending.contains(e) {
                let j = choose|j: int| 0 <= j < s.pending.len() && s.pending[j] == e;
                assert(sent_under(s.pending[j], id));
                if !c.net.contains(r) {
                    assert(t.sent.to_set().contains(r));
                    let k = choose|k: int| 0 <= k < t.sent.len() && t.sent[k] == r;
                    assert(t.sent[k].body.id == Some((s.next_id + k) as usize));
                }
                assert(c.nodes[a].pending[j] == e && c.net.contains(r));
            } else {
                assert(fresh_send(s, t, e, at));
                if id == e.msg_id {
                    if c.net.contains(r) {
                        assert(r.body.id matches Some(k) && k < s.next_id);
                    } else {
                        assert(t.sent.to_set().contains(r));
                        let k = choose|k: int| 0 <= k < t.sent.len() && t.sent[k] == r;
                        assert(t.sent[k].body.id == Some((s.next_id + k) as usize));
                        assert(k == e.msg_id - s.next_id);
                    }
                } else {
                    assert(e.earlier.contains(id));
                    assert(takes_up(s, e));
                    let j = choose|j: int|
                        0 <= j < s.pending.len() && e.peer == (#[trigger] s.pending[j]).peer
                            && e.value == s.pending[j].value && e.earlier
                            == s.pending[j].earlier.push(s.pending[j].msg_id);
                    let k = choose|k: int| 0 <= k < e.earlier.len() && e.earlier[k] == id;
                    if k < s.pending[j].earlier.len() {
                        assert(s.pending[j].earlier[k] == id);
                    }
                    assert(sent_under(s.pending[j], id));
                    if !c.net.contains(r) {
                        assert(t.sent.to_set().contains(r));
                        let m = choose|m: int| 0 <= m < t.sent.len() && t.sent[m] == r;
                        assert(t.sent[m].body.id == Some((s.next_id + m) as usize));
                    }
                    assert(c.nodes[a].pending[j] == s.pending[j] && c.net.contains(r));
                }
            }
        }
    }
}

/// Whatever happens in a sound cluster, every value stays covered.
proof fn lemma_covered_next(c: Cluster, action: Action)
    requires
        sound(c),
        enabled(c, action),
    ensures
        covered(next(c, action)),
{
    lemma_fits(c, action);
    let at = place(action);
    let s = c.nodes[at];
    let event = event_of(action);
    let t = apply(s, event);
    let d = next(c, action);
    assert forall|a: Id, n: Id, v: usize|
        #![trigger d.nodes[a].neighbors.contains(n), d.nodes[a].messages.contains(v)]
        d.nodes.contains_key(a) && d.nodes.contains_key(n) && d.nodes[a].neighbors.contains(n)
            && d.nodes[a].messages.contains(v) implies d.nodes[n].messages.contains(v) || waits_for(
        d.nodes[a],
        n,
        v,
    ) by {
        assert(c.nodes[n].messages.contains(v) ==> d.nodes[n].messages.contains(v)) by {
            if n == at {
                if s.messages.contains(v) {
                    assert(t.state.messages.contains(v));
                }
            } else {
                assert(d.nodes[n] == c.nodes[n]);
            }
        }
        if a != at {
            assert(d.nodes[a] == c.nodes[a]);
            assert(c.nodes[a].neighbors.contains(n) && c.nodes[a].messages.contains(v));
        } else if s.messages.contains(v) {
            assert(c.nodes[a].neighbors.contains(n) && c.nodes[a].messages.contains(v));
            if !c.nodes[n].messages.contains(v) {
                assert(waits_for(s, n, v));
                assert(waits_for(t.state, n, v) || settled_by(s, event, n, v));
                if !waits_for(t.state, n, v) {
                    let input = event->Deliver_input;
                    let i = choose|i: int|
                        0 <= i < s.pending.len() && (#[trigger] s.pending[i]).peer == n
                            && s.pending[i].value == v && sent_under(
                            s.pending[i],
                            input.body.in_reply_to->0,
                        );
                    assert(action is Deliver);
                    assert(c.net.contains(input));
                    let r = choose|r: Msg| #[trigger] answers(c, input, r);
                    assert(c.nodes[at].pending[i] == s.pending[i] && c.net.contains(r));
                    assert(r == broadcast_to(at, n, v, input.body.in_reply_to->0 as nat));
                }
            }
        } else {
            assert(t.state.messages.contains(v) && !s.messages.contains(v));
            let input = event->Deliver_input;
            if n == input.src {
                assert(action is Deliver);
                assert(c.net.contains(input));
            } else {
                assert(s.neighbors.contains(n));
                assert(waits_for(t.state, n, v));
            }
        }
    }
}

/// Whatever happens in a sound cluster leaves it sound.
pub proof fn law_sound_next(c: Cluster, action: Action)
    requires
        sound(c),
        enabled(c, action),
    ensures
        sound(next(c, action)),
{
    lemma_nodes_next(c, action);
    lemma_net_next(c, action);
    lemma_acks_next(c, action);
    lemma_pending_next(c, action);
    lemma_covered_next(c, action);
}

/// The cluster after `actions`, one after the other. An action that cannot
/// happen changes nothing.
pub open spec fn run_cluster(c: Cluster, actions: Seq<Action>) -> Cluster
    decreases actions.len(),
{
    if actions.len() == 0 {
        c
    } else {
        let before = run_cluster(c, actions.drop_last());
        if enabled(before, actions.last()) {
            next(before, actions.last())
        } else {
            before
        }
    }
}

/// Whatever happens in a sound cluster, however often, leaves it sound.
pub proof fn law_sound_run(c: Cluster, actions: Seq<Action>)
    requires
        sound(c),
    ensures
        sound(run_cluster(c, actions)),
    decreases actions.len(),
{
    if actions.len() > 0 {
        law_sound_run(c, actions.drop_last());
        let before = run_cluster(c, actions.drop_last());
        if enabled(before, actions.last()) {
            law_sound_next(before, actions.last());
        }
    }
}

/// Whatever has happened in a cluster that started sound, with messages
/// lost, repeated and delivered in any order: once no send waits for its
/// acknowledgment any more, a value that one node holds is held by every
/// node that a path of neighbours leads to from it.
pub proof fn law_convergence(start: Cluster, actions: Seq<Action>, path: Seq<Id>, value: usize)
    requires
        sound(start),
        quiet(run_cluster(start, actions)),
        connects(run_cluster(start, actions), path),
        run_cluster(start, actions).nodes[path[0]].messages.contains(value),
    ensures
        run_cluster(start, actions).nodes[path.last()].messages.contains(value),
{
    law_sound_run(start, actions);
    lemma_quiet_reach(run_cluster(start, actions), path, value);
}

/// As long as a send waits, every pass that comes at or after its deadline
/// sends its value to its peer again, under a new id, and keeps it waiting.
pub proof fn law_retry_resends(s: NodeState, me: Id, now: u64, i: int)
    requires
        s.node_id == Some(me),
        retry_spec(s, now).0.next_id <= usize::MAX,
        0 <= i < s.pending.len(),
        s.pending[i].deadline <= now,
    ensures
        ({
            let after = retry_spec(s, now).0;
            let sent = retry_spec(s, now).1;
            let e = after.pending[i];
            &&& after.pending.len() == s.pending.len()
            &&& e.peer == s.pending[i].peer
            &&& e.value == s.pending[i].value
            &&& e.earlier == s.pending[i].earlier.push(s.pending[i].msg_id)
            &&& s.next_id <= e.msg_id < after.next_id
            &&& sent[e.msg_id - s.next_id] == broadcast_to(me, e.peer, e.value, e.msg_id as nat)
        }),
{
    lemma_retry_pass(s.pending, me, s.next_id, now);
    let pass = retry_pass(s.pending, me, s.next_id, now);
    assert(retry_spec(s, now).0.pending[i] == pass.pending[i]);
}

/// A peer that answers settles the send: when the peer handles any of the
/// `Broadcast`s of a waiting send, the latest or an earlier one, it holds the
/// value afterwards and replies with an acknowledgment, and when the sender
/// handles that acknowledgment, the send waits no more.
pub proof fn law_answer_settles(
    sender: NodeState,
    peer: NodeState,
    i: int,
    id: usize,
    now: u64,
    later: u64,
    g1: Id,
    g2: Id,
)
    requires
        valid(sender),
        sender.node_id is Some,
        peer.node_id is Some,
        0 <= i < sender.pending.len(),
        sent_under(sender.pending[i], id),
    ensures
        ({
            let e = sender.pending[i];
            let send = broadcast_to(sender.node_id->0, e.peer, e.value, id as nat);
            let ack = reply_to(send, peer.next_id, PayloadView::BroadcastOk);
            let there = step_spec(peer, send, now, g1);
            let back = step_spec(sender, ack, later, g2);
            &&& there.state.messages.contains(e.value)
            &&& there.result matches Ok(out) && out.len() >= 1 && out[0] == ack
            &&& back.result == Ok::<Seq<Msg>, ProtocolViolation>(Seq::empty())
            &&& !back.state.pending.contains(e)
            &&& forall|x: PendingView|
                back.state.pending.contains(x) ==> sender.pending.contains(x)
        }),
{
    let e = sender.pending[i];
    let send = broadcast_to(sender.node_id->0, e.peer, e.value, id as nat);
    let ack = reply_to(send, peer.next_id, PayloadView::BroadcastOk);
    let there = step_spec(peer, send, now, g1);
    if !peer.messages.contains(e.value) {
        assert(there.state.messages[peer.messages.len() as int] == e.value);
    }
    assert(settles(e, ack.src, ack.body.in_reply_to));
    lemma_unsettled_ok(
        sender.pending,
        ack.src,
        ack.body.in_reply_to,
        sender.next_id,
        sender.messages,
    );
}

} // verus!
