//! The wire format of an envelope, as a relation between messages and JSON
//! values.
//!
//! An envelope is an object with `src`, `dest` and `body`. The body holds
//! `msg_id` and `in_reply_to`, each a number or `null`, the tag of the payload
//! under `type`, and beside them the fields of that payload.

use vstd::prelude::*;
use crate::json::JsonView;
use crate::model::{Id, Msg};
use crate::node::{BodyView, MessageView};
use crate::payload::PayloadView;

verus! {

/// The members of a JSON object.
pub type Members = Map<Seq<char>, JsonView>;

/// The tag that stands for the kind of `p`.
pub open spec fn tag_of(p: PayloadView) -> Seq<char> {
    match p {
        PayloadView::Init { .. } => "init"@,
        PayloadView::InitOk => "init_ok"@,
        PayloadView::Echo { .. } => "echo"@,
        PayloadView::EchoOk { .. } => "echo_ok"@,
        PayloadView::Generate => "generate"@,
        PayloadView::GenerateOk { .. } => "generate_ok"@,
        PayloadView::Broadcast { .. } => "broadcast"@,
        PayloadView::BroadcastOk => "broadcast_ok"@,
        PayloadView::Read => "read"@,
        PayloadView::ReadOk { .. } => "read_ok"@,
        PayloadView::Topology { .. } => "topology"@,
        PayloadView::TopologyOk => "topology_ok"@,
    }
}

/// An id or its absence, as JSON.
pub open spec fn id_json(id: Option<usize>) -> JsonView {
    match id {
        Some(n) => JsonView::Number(Some(n as u64)),
        None => JsonView::Null,
    }
}

/// A list of node ids, as JSON.
pub open spec fn ids_json(ids: Seq<Id>) -> JsonView {
    JsonView::Array(Seq::new(ids.len(), |i: int| JsonView::Str(ids[i])))
}

/// A list of values, as JSON.
pub open spec fn values_json(values: Seq<usize>) -> JsonView {
    JsonView::Array(Seq::new(values.len(), |i: int| JsonView::Number(Some(values[i] as u64))))
}

/// An adjacency, as JSON.
pub open spec fn topology_json(topology: Map<Id, Seq<Id>>) -> JsonView {
    JsonView::Object(
        Map::new(|k: Id| topology.contains_key(k), |k: Id| ids_json(topology[k])),
    )
}

/// The tag and the fields of `p`, as members of the body.
pub open spec fn payload_members(p: PayloadView) -> Members {
    let tagged = Map::<Seq<char>, JsonView>::empty().insert("type"@, JsonView::Str(tag_of(p)));
    match p {
        PayloadView::Init { node_id, node_ids } => tagged.insert(
            "node_id"@,
            JsonView::Str(node_id),
        ).insert("node_ids"@, ids_json(node_ids)),
        PayloadView::Echo { echo } => tagged.insert("echo"@, JsonView::Str(echo)),
        PayloadView::EchoOk { echo } => tagged.insert("echo"@, JsonView::Str(echo)),
        PayloadView::GenerateOk { id } => tagged.insert("id"@, JsonView::Str(id)),
        PayloadView::Broadcast { message } => tagged.insert(
            "message"@,
            JsonView::Number(Some(message as u64)),
        ),
        PayloadView::ReadOk { messages } => tagged.insert("messages"@, values_json(messages)),
        PayloadView::Topology { topology } => tagged.insert("topology"@, topology_json(topology)),
        _ => tagged,
    }
}

/// A body, as JSON.
pub open spec fn body_json(b: BodyView<PayloadView>) -> JsonView {
    JsonView::Object(
        payload_members(b.payload).insert("msg_id"@, id_json(b.id)).insert(
            "in_reply_to"@,
            id_json(b.in_reply_to),
        ),
    )
}

/// An envelope, as JSON.
pub open spec fn message_json(m: Msg) -> JsonView {
    JsonView::Object(
        Map::<Seq<char>, JsonView>::empty().insert("src"@, JsonView::Str(m.src)).insert(
            "dest"@,
            JsonView::Str(m.dest),
        ).insert("body"@, body_json(m.body)),
    )
}

/// The text under `key`, where there is one.
pub open spec fn text_at(m: Members, key: Seq<char>) -> Option<Seq<char>> {
    if m.contains_key(key) && m[key] is Str {
        Some(m[key]->Str_0)
    } else {
        None
    }
}

/// The number that `j` is, where it is one that fits.
pub open spec fn number_of(j: JsonView) -> Option<usize> {
    match j {
        JsonView::Number(Some(n)) => if n <= usize::MAX {
            Some(n as usize)
        } else {
            None
        },
        _ => None,
    }
}

/// The number under `key`, where there is one that fits.
pub open spec fn number_at(m: Members, key: Seq<char>) -> Option<usize> {
    if m.contains_key(key) {
        number_of(m[key])
    } else {
        None
    }
}

/// The id under `key`: absent where the key is missing or holds `null`, a
/// number where it holds one that fits, and no id at all (the outer `None`)
/// where it holds anything else.
pub open spec fn id_at(m: Members, key: Seq<char>) -> Option<Option<usize>> {
    if !m.contains_key(key) || m[key] is Null {
        Some(None)
    } else {
        match number_of(m[key]) {
            Some(n) => Some(Some(n)),
            None => None,
        }
    }
}

/// The node ids that `j` lists, where it is an array of texts.
pub open spec fn ids_of(j: JsonView) -> Option<Seq<Id>> {
    match j {
        JsonView::Array(items) => if forall|i: int| 0 <= i < items.len() ==> items[i] is Str {
            Some(Seq::new(items.len(), |i: int| items[i]->Str_0))
        } else {
            None
        },
        _ => None,
    }
}

/// The node ids under `key`.
pub open spec fn ids_at(m: Members, key: Seq<char>) -> Option<Seq<Id>> {
    if m.contains_key(key) {
        ids_of(m[key])
    } else {
        None
    }
}

/// The values that `j` lists, where it is an array of numbers that fit.
pub open spec fn values_of(j: JsonView) -> Option<Seq<usize>> {
    match j {
        JsonView::Array(items) => if forall|i: int|
            0 <= i < items.len() ==> number_of(#[trigger] items[i]) is Some {
            Some(Seq::new(items.len(), |i: int| number_of(items[i])->0))
        } else {
            None
        },
        _ => None,
    }
}

/// The adjacency that `j` holds, where it is an object of arrays of texts.
pub open spec fn topology_of(j: JsonView) -> Option<Map<Id, Seq<Id>>> {
    match j {
        JsonView::Object(m) => if forall|k: Id| m.contains_key(k) ==> ids_of(#[trigger] m[k]) is Some {
            Some(Map::new(|k: Id| m.contains_key(k), |k: Id| ids_of(m[k])->0))
        } else {
            None
        },
        _ => None,
    }
}

/// The payload that the members of a body hold: the kind that the text under
/// `type` names, with its fields. There is none where the tag is missing or
/// unknown, or where a field of the kind is missing or of another type.
pub open spec fn payload_of(m: Members) -> Option<PayloadView> {
    match text_at(m, "type"@) {
        None => None,
        Some(tag) => if tag == "init"@ {
            match (text_at(m, "node_id"@), ids_at(m, "node_ids"@)) {
                (Some(node_id), Some(node_ids)) => Some(PayloadView::Init { node_id, node_ids }),
                _ => None,
            }
        } else if tag == "init_ok"@ {
            Some(PayloadView::InitOk)
        } else if tag == "echo"@ {
            match text_at(m, "echo"@) {
                Some(echo) => Some(PayloadView::Echo { echo }),
                None => None,
            }
        } else if tag == "echo_ok"@ {
            match text_at(m, "echo"@) {
                Some(echo) => Some(PayloadView::EchoOk { echo }),
                None => None,
            }
        } else if tag == "generate"@ {
            Some(PayloadView::Generate)
        } else if tag == "generate_ok"@ {
            match text_at(m, "id"@) {
                Some(id) => Some(PayloadView::GenerateOk { id }),
                None => None,
            }
        } else if tag == "broadcast"@ {
            match number_at(m, "message"@) {
                Some(message) => Some(PayloadView::Broadcast { message }),
                None => None,
            }
        } else if tag == "broadcast_ok"@ {
            Some(PayloadView::BroadcastOk)
        } else if tag == "read"@ {
            Some(PayloadView::Read)
        } else if tag == "read_ok"@ {
            if m.contains_key("messages"@) {
                match values_of(m["messages"@]) {
                    Some(messages) => Some(PayloadView::ReadOk { messages }),
                    None => None,
                }
            } else {
                None
            }
        } else if tag == "topology"@ {
            if m.contains_key("topology"@) {
                match topology_of(m["topology"@]) {
                    Some(topology) => Some(PayloadView::Topology { topology }),
                    None => None,
                }
            } else {
                None
            }
        } else if tag == "topology_ok"@ {
            Some(PayloadView::TopologyOk)
        } else {
            None
        },
    }
}

/// The body that `j` holds, where it is a well-formed one.
pub open spec fn body_of(j: JsonView) -> Option<BodyView<PayloadView>> {
    match j {
        JsonView::Object(m) => match (id_at(m, "msg_id"@), id_at(m, "in_reply_to"@), payload_of(m)) {
            (Some(id), Some(in_reply_to), Some(payload)) => Some(
                BodyView { id, in_reply_to, payload },
            ),
            _ => None,
        },
        _ => None,
    }
}

/// The envelope that `j` holds, where it is a well-formed one: an object with
/// a text under `src`, a text under `dest` and a well-formed body under
/// `body`. Members that the format does not name are passed over.
pub open spec fn message_of(j: JsonView) -> Option<Msg> {
    match j {
        JsonView::Object(m) => if m.contains_key("body"@) {
            match (text_at(m, "src"@), text_at(m, "dest"@), body_of(m["body"@])) {
                (Some(src), Some(dest), Some(body)) => Some(MessageView { src, dest, body }),
                _ => None,
            }
        } else {
            None
        },
        _ => None,
    }
}

} // verus!
