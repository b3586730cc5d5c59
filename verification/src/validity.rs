//! What holds of every state that a broadcast node can reach, and why each
//! step keeps it so.

use vstd::prelude::*;
use crate::model::{
    broadcast_to, distinct, fan_out_pending, neighbors_of, other_than, others, retry_pass,
    retry_spec, sent_under, settles, step_spec, still_waits, unsettled, valid, Id, Msg, NodeState, PendingView,
};
use crate::payload::PayloadView;

verus! {

/// `distinct` keeps each member once.
pub proof fn lemma_distinct_no_duplicates(s: Seq<Id>)
    ensures
        distinct(s).no_duplicates(),
        forall|x: Id| distinct(s).contains(x) <==> s.contains(x),
    decreases s.len(),
{
    if s.len() > 0 {
        let rest = s.drop_last();
        lemma_distinct_no_duplicates(rest);
        let d = distinct(rest);
        assert forall|x: Id| distinct(s).contains(x) <==> s.contains(x) by {
            if s.contains(x) {
                let i = choose|i: int| 0 <= i < s.len() && s[i] == x;
                if i < s.len() - 1 {
                    assert(rest[i] == x);
                    assert(rest.contains(x));
                    assert(d.contains(x));
                    let j = choose|j: int| 0 <= j < d.len() && d[j] == x;
                    assert(distinct(s)[j] == x);
                } else if !d.contains(x) {
                    assert(distinct(s)[d.len() as int] == x);
                }
            }
            if distinct(s).contains(x) {
                let j = choose|j: int| 0 <= j < distinct(s).len() && distinct(s)[j] == x;
                if j < d.len() {
                    assert(d[j] == x);
                    assert(d.contains(x));
                    assert(rest.contains(x));
                    let i = choose|i: int| 0 <= i < rest.len() && rest[i] == x;
                    assert(s[i] == x);
                } else {
                    assert(s[s.len() - 1] == x);
                }
            }
        }
    }
}

/// The neighbours that a topology gives a node hold no node twice.
pub proof fn lemma_neighbors_of_no_duplicates(topology: Map<Id, Seq<Id>>, me: Id)
    ensures
        neighbors_of(topology, me).no_duplicates(),
{
    if topology.contains_key(me) {
        lemma_distinct_no_duplicates(topology[me]);
    }
}

/// The neighbours but the sender are no more than the neighbours.
pub proof fn lemma_others_len(neighbors: Seq<Id>, sender: Id)
    ensures
        others(neighbors, sender).len() <= neighbors.len(),
{
    neighbors.lemma_filter_len(other_than(sender));
}

/// The neighbours but the sender are just that.
pub proof fn lemma_others_contains(neighbors: Seq<Id>, sender: Id, n: Id)
    ensures
        others(neighbors, sender).contains(n) <==> neighbors.contains(n) && n != sender,
{
    let keep = other_than(sender);
    if neighbors.contains(n) && n != sender {
        let i = choose|i: int| 0 <= i < neighbors.len() && neighbors[i] == n;
        neighbors.lemma_filter_contains(keep, i);
    }
    if others(neighbors, sender).contains(n) {
        neighbors.lemma_filter_contains_rev(keep, n);
        let i = choose|i: int|
            0 <= i < neighbors.filter(keep).len() && neighbors.filter(keep)[i] == n;
        neighbors.lemma_filter_pred(keep, i);
    }
}

/// What the waiting sends of a valid state have in common.
pub open spec fn pending_ok(pending: Seq<PendingView>, next_id: nat, messages: Seq<usize>) -> bool {
    &&& forall|i: int| 0 <= i < pending.len() ==> messages.contains((#[trigger] pending[i]).value)
    &&& forall|i: int, id: usize|
        0 <= i < pending.len() && #[trigger] sent_under(pending[i], id) ==> id < next_id
}

/// Settling an acknowledgment leaves exactly the sends that it does not
/// settle.
pub proof fn lemma_unsettled_ok(
    pending: Seq<PendingView>,
    peer: Id,
    in_reply_to: Option<usize>,
    next_id: nat,
    messages: Seq<usize>,
)
    requires
        pending_ok(pending, next_id, messages),
    ensures
        pending_ok(unsettled(pending, peer, in_reply_to), next_id, messages),
        forall|e: PendingView|
            unsettled(pending, peer, in_reply_to).contains(e) <==> pending.contains(e) && !settles(
                e,
                peer,
                in_reply_to,
            ),
    decreases pending.len(),
{
    reveal(Seq::filter);
    let keep = still_waits(peer, in_reply_to);
    let kept = pending.filter(keep);
    if pending.len() > 0 {
        let rest = pending.drop_last();
        let last = pending.last();
        assert forall|i: int| 0 <= i < rest.len() implies rest[i] == pending[i] by {}
        assert(pending_ok(rest, next_id, messages)) by {
            assert forall|i: int, id: usize|
                0 <= i < rest.len() && #[trigger] sent_under(rest[i], id) implies id < next_id by {
                assert(sent_under(pending[i], id));
            }
            assert forall|i: int| 0 <= i < rest.len() implies messages.contains(
                (#[trigger] rest[i]).value,
            ) by {
                assert(messages.contains(pending[i].value));
            }
        }
        lemma_unsettled_ok(rest, peer, in_reply_to, next_id, messages);
        let sub = rest.filter(keep);
        assert forall|e: PendingView| kept.contains(e) <==> pending.contains(e) && keep(e) by {
            if kept.contains(e) {
                let j = choose|j: int| 0 <= j < kept.len() && kept[j] == e;
                if j < sub.len() {
                    assert(sub[j] == e);
                    assert(sub.contains(e));
                    assert(rest.contains(e));
                    let i = choose|i: int| 0 <= i < rest.len() && rest[i] == e;
                    assert(pending[i] == e);
                } else {
                    assert(pending[pending.len() - 1] == e);
                }
            }
            if pending.contains(e) && keep(e) {
                let i = choose|i: int| 0 <= i < pending.len() && pending[i] == e;
                if i < rest.len() {
                    assert(rest[i] == e);
                    assert(rest.contains(e) && !settles(e, peer, in_reply_to));
                    assert(sub.contains(e));
                    let j = choose|j: int| 0 <= j < sub.len() && sub[j] == e;
                    assert(kept[j] == e);
                } else {
                    assert(kept[kept.len() - 1] == e);
                }
            }
        }
        assert forall|i: int| 0 <= i < kept.len() implies messages.contains(
            (#[trigger] kept[i]).value,
        ) by {
            assert(kept.contains(kept[i]));
            let k = choose|k: int| 0 <= k < pending.len() && pending[k] == kept[i];
            assert(messages.contains(pending[k].value));
        }
        assert forall|i: int, id: usize|
            0 <= i < kept.len() && #[trigger] sent_under(kept[i], id) implies id < next_id by {
            assert(kept.contains(kept[i]));
            let k = choose|k: int| 0 <= k < pending.len() && pending[k] == kept[i];
            assert(sent_under(pending[k], id));
        }
    } else {
        assert(kept =~= pending);
    }
}

/// One pass keeps every waiting send and sends at most one message for each.
pub proof fn lemma_retry_pass_len(pending: Seq<PendingView>, me: Id, first_id: nat, now: u64)
    ensures
        retry_pass(pending, me, first_id, now).pending.len() == pending.len(),
        retry_pass(pending, me, first_id, now).sent.len() <= pending.len(),
    decreases pending.len(),
{
    if pending.len() > 0 {
        lemma_retry_pass_len(pending.drop_last(), me, first_id, now);
    }
}

/// What one pass over the waiting sends does to each of them.
pub proof fn lemma_retry_pass(pending: Seq<PendingView>, me: Id, first_id: nat, now: u64)
    requires
        first_id + retry_pass(pending, me, first_id, now).sent.len() <= usize::MAX,
    ensures
        retry_pass(pending, me, first_id, now).pending.len() == pending.len(),
        retry_pass(pending, me, first_id, now).sent.len() <= pending.len(),
        forall|k: int|
            0 <= k < pending.len() && pending[k].deadline > now ==> #[trigger] retry_pass(
                pending,
                me,
                first_id,
                now,
            ).pending[k] == pending[k],
        forall|k: int|
            0 <= k < pending.len() && pending[k].deadline <= now ==> {
                let e = #[trigger] retry_pass(pending, me, first_id, now).pending[k];
                &&& e.peer == pending[k].peer
                &&& e.value == pending[k].value
                &&& e.earlier == pending[k].earlier.push(pending[k].msg_id)
                &&& first_id <= e.msg_id < first_id + retry_pass(pending, me, first_id, now).sent.len()
                &&& e.deadline > now || now == u64::MAX
            },
        forall|k: int, l: int|
            0 <= k < l < pending.len() && pending[k].deadline <= now && pending[l].deadline <= now
                ==> #[trigger] retry_pass(pending, me, first_id, now).pending[k].msg_id
                < #[trigger] retry_pass(pending, me, first_id, now).pending[l].msg_id,
        forall|k: int|
            0 <= k < pending.len() && pending[k].deadline <= now ==> {
                let e = #[trigger] retry_pass(pending, me, first_id, now).pending[k];
                retry_pass(pending, me, first_id, now).sent[e.msg_id - first_id] == broadcast_to(
                    me,
                    e.peer,
                    e.value,
                    e.msg_id as nat,
                )
            },
        forall|k: int|
            0 <= k < retry_pass(pending, me, first_id, now).sent.len() ==> {
                let m = #[trigger] retry_pass(pending, me, first_id, now).sent[k];
                &&& m.body.id == Some((first_id + k) as usize)
                &&& m.body.in_reply_to is None
                &&& m.src == me
                &&& m.body.payload is Broadcast
            },
    decreases pending.len(),
{
    if pending.len() > 0 {
        let rest = pending.drop_last();
        lemma_retry_pass(rest, me, first_id, now);
        let before = retry_pass(rest, me, first_id, now);
        let pass = retry_pass(pending, me, first_id, now);
        assert forall|k: int| 0 <= k < rest.len() implies rest[k] == pending[k] by {}
        assert forall|k: int| 0 <= k < rest.len() implies pass.pending[k] == before.pending[k] by {}
        assert forall|k: int| 0 <= k < before.sent.len() implies pass.sent[k] == before.sent[k] by {}
    }
}

/// Handling a message keeps a valid state valid, as long as the ids last.
pub proof fn lemma_step_valid(s: NodeState, input: Msg, now: u64, generated: Id)
    requires
        valid(s),
        step_spec(s, input, now, generated).state.next_id <= usize::MAX,
    ensures
        valid(step_spec(s, input, now, generated).state),
{
    let after = step_spec(s, input, now, generated).state;
    assert(pending_ok(s.pending, s.next_id, s.messages));
    match s.node_id {
        None => {},
        Some(me) => match input.body.payload {
            PayloadView::Topology { topology } => {
                lemma_neighbors_of_no_duplicates(topology, me);
                lemma_pending_later(s.pending, s.next_id, after.next_id, s.messages);
            },
            PayloadView::Broadcast { message } => {
                if !s.messages.contains(message) {
                    let targets = others(s.neighbors, input.src);
                    let noted = fan_out_pending(targets, message, s.next_id + 1, now);
                    assert(after.messages.no_duplicates());
                    assert(after.messages[s.messages.len() as int] == message);
                    assert forall|i: int| 0 <= i < after.pending.len() implies after.messages.contains(
                        (#[trigger] after.pending[i]).value,
                    ) by {
                        if i < s.pending.len() {
                            assert(after.pending[i] == s.pending[i]);
                            assert(s.messages.contains(s.pending[i].value));
                            let j = choose|j: int|
                                0 <= j < s.messages.len() && s.messages[j] == s.pending[i].value;
                            assert(after.messages[j] == s.pending[i].value);
                        } else {
                            assert(after.pending[i] == noted[i - s.pending.len()]);
                        }
                    }
                    assert forall|i: int, id: usize|
                        0 <= i < after.pending.len() && #[trigger] sent_under(
                            after.pending[i],
                            id,
                        ) implies id < after.next_id by {
                        if i < s.pending.len() {
                            assert(after.pending[i] == s.pending[i]);
                            assert(sent_under(s.pending[i], id));
                        } else {
                            assert(after.pending[i] == noted[i - s.pending.len()]);
                        }
                    }
                } else {
                    lemma_pending_later(s.pending, s.next_id, after.next_id, s.messages);
                }
            },
            PayloadView::BroadcastOk => {
                lemma_unsettled_ok(
                    s.pending,
                    input.src,
                    input.body.in_reply_to,
                    s.next_id,
                    s.messages,
                );
            },
            _ => {
                lemma_pending_later(s.pending, s.next_id, after.next_id, s.messages);
            },
        },
    }
}

/// What holds of the waiting sends under one next id holds under a later.
pub proof fn lemma_pending_later(
    pending: Seq<PendingView>,
    next_id: nat,
    later: nat,
    messages: Seq<usize>,
)
    requires
        pending_ok(pending, next_id, messages),
        next_id <= later,
    ensures
        pending_ok(pending, later, messages),
{
    assert forall|i: int, id: usize|
        0 <= i < pending.len() && #[trigger] sent_under(pending[i], id) implies id < later by {
        assert(id < next_id);
    }
}

/// Sending the overdue values again keeps a valid state valid, as long as the
/// ids last.
pub proof fn lemma_retry_valid(s: NodeState, now: u64)
    requires
        valid(s),
        retry_spec(s, now).0.next_id <= usize::MAX,
    ensures
        valid(retry_spec(s, now).0),
{
    match s.node_id {
        None => {},
        Some(me) => {
            lemma_retry_pass(s.pending, me, s.next_id, now);
            let pass = retry_pass(s.pending, me, s.next_id, now);
            let after = retry_spec(s, now).0;
            assert forall|i: int| 0 <= i < after.pending.len() implies after.messages.contains(
                (#[trigger] after.pending[i]).value,
            ) by {
                assert(after.pending[i] == pass.pending[i]);
                assert(s.messages.contains(s.pending[i].value));
                if s.pending[i].deadline > now {
                    assert(pass.pending[i] == s.pending[i]);
                }
            }
            assert forall|i: int, id: usize|
                0 <= i < after.pending.len() && #[trigger] sent_under(
                    after.pending[i],
                    id,
                ) implies id < after.next_id by {
                assert(after.pending[i] == pass.pending[i]);
                if s.pending[i].deadline > now {
                    assert(pass.pending[i] == s.pending[i]);
                    assert(sent_under(s.pending[i], id));
                } else {
                    let e = pass.pending[i];
                    if id != e.msg_id {
                        assert(e.earlier == s.pending[i].earlier.push(s.pending[i].msg_id));
                        let k = choose|k: int| 0 <= k < e.earlier.len() && e.earlier[k] == id;
                        if k < s.pending[i].earlier.len() {
                            assert(s.pending[i].earlier[k] == id);
                        }
                        assert(sent_under(s.pending[i], id));
                    }
                }
            }
        },
    }
}

} // verus!
