//! Reading back what was written gives the message that was written.

use vstd::prelude::*;
use crate::json::JsonView;
use crate::model::{Id, Msg};

use crate::payload::PayloadView;
use crate::wire::{
    body_json, body_of, id_at, id_json, ids_json, ids_of, message_json, message_of, number_of,
    payload_members, payload_of, topology_json, topology_of, values_json, values_of,
};

verus! {

/// What the names of the format are made of.
pub proof fn lemma_names()
    ensures
        "src"@.len() == 3,
        "dest"@.len() == 4,
        "body"@.len() == 4 && "body"@[0] == 'b',
        "dest"@[0] == 'd',
        "type"@.len() == 4 && "type"@[0] == 't',
        "msg_id"@.len() == 6 && "msg_id"@[0] == 'm' && "msg_id"@[1] == 's',
        "in_reply_to"@.len() == 11,
        "node_id"@.len() == 7 && "node_id"@[0] == 'n',
        "node_ids"@.len() == 8 && "node_ids"@[0] == 'n',
        "echo"@.len() == 4 && "echo"@[0] == 'e',
        "id"@.len() == 2,
        "message"@.len() == 7 && "message"@[0] == 'm',
        "messages"@.len() == 8 && "messages"@[0] == 'm',
        "topology"@.len() == 8 && "topology"@[0] == 't',
        "init"@.len() == 4 && "init"@[0] == 'i',
        "init_ok"@.len() == 7 && "init_ok"@[0] == 'i',
        "echo_ok"@.len() == 7 && "echo_ok"@[0] == 'e',
        "generate"@.len() == 8 && "generate"@[0] == 'g',
        "generate_ok"@.len() == 11 && "generate_ok"@[0] == 'g',
        "broadcast"@.len() == 9,
        "broadcast_ok"@.len() == 12,
        "read"@.len() == 4 && "read"@[0] == 'r',
        "read_ok"@.len() == 7 && "read_ok"@[0] == 'r',
        "topology_ok"@.len() == 11 && "topology_ok"@[0] == 't',
{
    reveal_strlit("src");
    reveal_strlit("dest");
    reveal_strlit("body");
    reveal_strlit("type");
    reveal_strlit("msg_id");
    reveal_strlit("in_reply_to");
    reveal_strlit("node_id");
    reveal_strlit("node_ids");
    reveal_strlit("echo");
    reveal_strlit("id");
    reveal_strlit("message");
    reveal_strlit("messages");
    reveal_strlit("topology");
    reveal_strlit("init");
    reveal_strlit("init_ok");
    reveal_strlit("echo_ok");
    reveal_strlit("generate");
    reveal_strlit("generate_ok");
    reveal_strlit("broadcast");
    reveal_strlit("broadcast_ok");
    reveal_strlit("read");
    reveal_strlit("read_ok");
    reveal_strlit("topology_ok");
}

/// A list of node ids is read back as it was written.
pub proof fn law_ids_round_trip(ids: Seq<Id>)
    ensures
        ids_of(ids_json(ids)) == Some(ids),
{
    let items = ids_json(ids)->Array_0;
    assert(Seq::new(items.len(), |i: int| items[i]->Str_0) =~= ids);
}

/// A list of values is read back as it was written.
pub proof fn law_values_round_trip(values: Seq<usize>)
    ensures
        values_of(values_json(values)) == Some(values),
{
    let items = values_json(values)->Array_0;
    assert(Seq::new(items.len(), |i: int| number_of(items[i])->0) =~= values);
}

/// An adjacency is read back as it was written.
pub proof fn law_topology_round_trip(topology: Map<Id, Seq<Id>>)
    ensures
        topology_of(topology_json(topology)) == Some(topology),
{
    let m = topology_json(topology)->Object_0;
    assert forall|k: Id| m.contains_key(k) implies ids_of(#[trigger] m[k]) is Some by {
        law_ids_round_trip(topology[k]);
    }
    let back = Map::new(|k: Id| m.contains_key(k), |k: Id| ids_of(m[k])->0);
    assert forall|k: Id| back.contains_key(k) implies back[k] == topology[k] by {
        law_ids_round_trip(topology[k]);
    }
    assert(back =~= topology);
}

/// A payload is read back from its members as it was written, also where
/// the body's two ids stand beside them.
pub proof fn law_payload_round_trip(p: PayloadView, id: JsonView, in_reply_to: JsonView)
    ensures
        payload_of(payload_members(p)) == Some(p),
        payload_of(payload_members(p).insert("msg_id"@, id).insert("in_reply_to"@, in_reply_to))
            == Some(p),
{
    lemma_names();
    match p {
        PayloadView::Init { node_id, node_ids } => {
            law_ids_round_trip(node_ids);
        },
        PayloadView::ReadOk { messages } => {
            law_values_round_trip(messages);
        },
        PayloadView::Topology { topology } => {
            law_topology_round_trip(topology);
        },
        _ => {},
    }
}

/// Every message is read back from its JSON value as it was written.
pub proof fn law_message_round_trip(m: Msg)
    ensures
        message_of(message_json(m)) == Some(m),
{
    lemma_names();
    law_payload_round_trip(m.body.payload, id_json(m.body.id), id_json(m.body.in_reply_to));
    let members = body_json(m.body)->Object_0;
    assert(id_at(members, "msg_id"@) == Some(m.body.id));
    assert(id_at(members, "in_reply_to"@) == Some(m.body.in_reply_to));
    assert(body_of(body_json(m.body)) == Some(m.body));
}

} // verus!
