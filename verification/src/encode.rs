//! Writing a message as a JSON value.

use vstd::prelude::*;
use crate::json::{
    lemma_items, lemma_items_view, members_view, members_writable, put, Json, JsonView, Member,
};

use crate::node::Message;
use crate::payload::{topology_view, Payload};
use crate::wire::{id_json, ids_json, message_json, payload_members, topology_json, values_json};

verus! {

/// An id or its absence, as JSON.
pub fn id_to_json(id: Option<usize>) -> (j: Json)
    ensures
        j@ == id_json(id),
        j.writable(),
{
    match id {
        Some(n) => Json::Number(Some(n as u64)),
        None => Json::Null,
    }
}

/// A list of node ids, as JSON.
pub fn ids_to_json(ids: &Vec<String>) -> (j: Json)
    ensures
        j@ == ids_json(ids.deep_view()),
        j.writable(),
{
    let mut items: Vec<Json> = Vec::new();
    let mut i: usize = 0;
    while i < ids.len()
        invariant
            i <= ids.len(),
            items.len() == i,
            forall|k: int| 0 <= k < i ==> #[trigger] items@[k]@ == JsonView::Str(ids@[k]@),
            forall|k: int| 0 <= k < i ==> (#[trigger] items@[k]).writable(),
        decreases ids.len() - i,
    {
        items.push(Json::Str(ids[i].clone()));
        i += 1;
    }
    proof {
        lemma_items_view(items@);
        lemma_items(items@);
        assert(Json::Array(items)@->Array_0 =~= ids_json(ids.deep_view())->Array_0);
    }
    Json::Array(items)
}

/// A list of values, as JSON.
pub fn values_to_json(values: &Vec<usize>) -> (j: Json)
    ensures
        j@ == values_json(values@),
        j.writable(),
{
    let mut items: Vec<Json> = Vec::new();
    let mut i: usize = 0;
    while i < values.len()
        invariant
            i <= values.len(),
            items.len() == i,
            forall|k: int|
                0 <= k < i ==> #[trigger] items@[k]@ == JsonView::Number(Some(values@[k] as u64)),
            forall|k: int| 0 <= k < i ==> (#[trigger] items@[k]).writable(),
        decreases values.len() - i,
    {
        items.push(Json::Number(Some(values[i] as u64)));
        i += 1;
    }
    proof {
        lemma_items_view(items@);
        lemma_items(items@);
        assert(Json::Array(items)@->Array_0 =~= values_json(values@)->Array_0);
    }
    Json::Array(items)
}

/// An adjacency, as JSON.
pub fn topology_to_json(topology: &Vec<(String, Vec<String>)>) -> (j: Json)
    ensures
        j@ == topology_json(topology_view(topology@)),
        j.writable(),
{
    let ghost all = topology@;
    let mut members: Vec<Member> = Vec::new();
    let mut i: usize = 0;
    assert(all.take(0) =~= Seq::<(String, Vec<String>)>::empty());
    assert(members_view(members@) =~= topology_json(topology_view(all.take(0)))->Object_0);
    while i < topology.len()
        invariant
            i <= topology.len(),
            all == topology@,
            members_view(members@) == topology_json(topology_view(all.take(i as int)))->Object_0,
            members_writable(members@),
        decreases topology.len() - i,
    {
        let ghost before = members_view(members@);
        let ghost seen = topology_view(all.take(i as int));
        assert(all.take(i + 1).drop_last() =~= all.take(i as int));
        assert(all.take(i + 1).last() == all[i as int]);
        let neighbors = ids_to_json(&topology[i].1);
        put(&mut members, topology[i].0.as_str(), neighbors);
        assert(members_view(members@) =~= topology_json(
            seen.insert(all[i as int].0@, all[i as int].1.deep_view()),
        )->Object_0);
        i += 1;
    }
    assert(all.take(topology.len() as int) =~= all);
    Json::Object(members)
}

impl Payload {
    /// The tag and the fields of the payload, as members of a body.
    pub fn to_members(&self) -> (members: Vec<Member>)
        ensures
            members_view(members@) == payload_members(self@),
            members_writable(members@),
    {
        let mut members: Vec<Member> = Vec::new();
        assert(members_view(members@) =~= Map::<Seq<char>, JsonView>::empty());
        match self {
            Payload::Init { node_id, node_ids } => {
                put(&mut members, "type", Json::Str("init".to_owned()));
                put(&mut members, "node_id", Json::Str(node_id.clone()));
                put(&mut members, "node_ids", ids_to_json(node_ids));
            },
            Payload::InitOk => {
                put(&mut members, "type", Json::Str("init_ok".to_owned()));
            },
            Payload::Echo { echo } => {
                put(&mut members, "type", Json::Str("echo".to_owned()));
                put(&mut members, "echo", Json::Str(echo.clone()));
            },
            Payload::EchoOk { echo } => {
                put(&mut members, "type", Json::Str("echo_ok".to_owned()));
                put(&mut members, "echo", Json::Str(echo.clone()));
            },
            Payload::Generate => {
                put(&mut members, "type", Json::Str("generate".to_owned()));
            },
            Payload::GenerateOk { id } => {
                put(&mut members, "type", Json::Str("generate_ok".to_owned()));
                put(&mut members, "id", Json::Str(id.clone()));
            },
            Payload::Broadcast { message } => {
                put(&mut members, "type", Json::Str("broadcast".to_owned()));
                put(&mut members, "message", Json::Number(Some(*message as u64)));
            },
            Payload::BroadcastOk => {
                put(&mut members, "type", Json::Str("broadcast_ok".to_owned()));
            },
            Payload::Read => {
                put(&mut members, "type", Json::Str("read".to_owned()));
            },
            Payload::ReadOk { messages } => {
                put(&mut members, "type", Json::Str("read_ok".to_owned()));
                put(&mut members, "messages", values_to_json(messages));
            },
            Payload::Topology { topology } => {
                put(&mut members, "type", Json::Str("topology".to_owned()));
                put(&mut members, "topology", topology_to_json(topology));
            },
            Payload::TopologyOk => {
                put(&mut members, "type", Json::Str("topology_ok".to_owned()));
            },
        }
        members
    }
}

impl Message<Payload> {
    /// The message as a JSON value of the wire format.
    pub fn to_json(&self) -> (j: Json)
        ensures
            j@ == message_json(self@),
            j.writable(),
    {
        let mut body = self.body.payload.to_members();
        put(&mut body, "msg_id", id_to_json(self.body.id));
        put(&mut body, "in_reply_to", id_to_json(self.body.in_reply_to));
        let mut members: Vec<Member> = Vec::new();
        assert(members_view(members@) =~= Map::<Seq<char>, JsonView>::empty());
        put(&mut members, "src", Json::Str(self.src.clone()));
        put(&mut members, "dest", Json::Str(self.dest.clone()));
        put(&mut members, "body", Json::Object(body));
        Json::Object(members)
    }
}

} // verus!
