//! Reading a message from a JSON value.

use vstd::prelude::*;
use crate::error::DecodeError;
use crate::json::{
    items_view, lemma_items_view, lemma_members_keys, lookup, members_view, Json, JsonView, Member,
};
use crate::model::Id;
use crate::node::{Body, Message};
use crate::payload::{topology_view, Payload};
use crate::wire::{
    id_at, ids_at, ids_of, message_of, number_at, number_of, payload_of, text_at, topology_of,
    values_of,
};

verus! {

/// Whether `text` reads `name`.
fn reads(text: &String, name: &str) -> (same: bool)
    ensures
        same == (text@ == name@),
{
    let name = name.to_owned();
    *text == name
}

/// The text under `key`, where there is one.
pub fn text_in(members: &Vec<Member>, key: &str) -> (text: Option<String>)
    ensures
        text.deep_view() == text_at(members_view(members@), key@),
{
    match lookup(members, key) {
        Some(Json::Str(s)) => Some(s.clone()),
        _ => None,
    }
}

/// The number that `j` is, where it is one that fits.
pub fn number_from(j: &Json) -> (n: Option<usize>)
    ensures
        n == number_of(j@),
{
    match j {
        Json::Number(Some(n)) => if *n <= usize::MAX as u64 {
            Some(*n as usize)
        } else {
            None
        },
        _ => None,
    }
}

/// The number under `key`, where there is one that fits.
pub fn number_in(members: &Vec<Member>, key: &str) -> (n: Option<usize>)
    ensures
        n == number_at(members_view(members@), key@),
{
    match lookup(members, key) {
        Some(j) => number_from(j),
        None => None,
    }
}

/// The id under `key`; the outer `None` where the key holds something that
/// is neither `null` nor a number that fits.
pub fn id_in(members: &Vec<Member>, key: &str) -> (id: Option<Option<usize>>)
    ensures
        id == id_at(members_view(members@), key@),
{
    match lookup(members, key) {
        None => Some(None),
        Some(Json::Null) => Some(None),
        Some(j) => match number_from(j) {
            Some(n) => Some(Some(n)),
            None => None,
        },
    }
}

/// The node ids that `j` lists, where it is an array of texts.
pub fn ids_from(j: &Json) -> (ids: Option<Vec<String>>)
    ensures
        match ids {
            Some(v) => ids_of(j@) == Some(v.deep_view()),
            None => ids_of(j@) is None,
        },
{
    match j {
        Json::Array(items) => {
            proof {
                lemma_items_view(items@);
            }
            let mut ids: Vec<String> = Vec::new();
            let mut i: usize = 0;
            while i < items.len()
                invariant
                    i <= items.len(),
                    ids.len() == i,
                    j@ == JsonView::Array(items_view(items@)),
                    forall|k: int|
                        0 <= k < items.len() ==> #[trigger] items_view(items@)[k]
                            == items@[k]@,
                    items_view(items@).len() == items.len(),
                    forall|k: int|
                        0 <= k < i ==> #[trigger] items@[k]@ == JsonView::Str(ids@[k]@),
                decreases items.len() - i,
            {
                match &items[i] {
                    Json::Str(s) => {
                        assert(items@[i as int]@ == JsonView::Str(s@));
                        ids.push(s.clone());
                    },
                    _ => {
                        assert(!(items_view(items@)[i as int] is Str));
                        return None;
                    },
                }
                i += 1;
            }
            assert forall|k: int| 0 <= k < items.len() implies items_view(
                items@,
            )[k] is Str by {
                assert(items@[k]@ == JsonView::Str(ids@[k]@));
            }
            assert(ids.deep_view() =~= ids_of(j@)->0);
            Some(ids)
        },
        _ => None,
    }
}

/// The node ids under `key`.
pub fn ids_in(members: &Vec<Member>, key: &str) -> (ids: Option<Vec<String>>)
    ensures
        match ids {
            Some(v) => ids_at(members_view(members@), key@) == Some(v.deep_view()),
            None => ids_at(members_view(members@), key@) is None,
        },
{
    match lookup(members, key) {
        Some(j) => ids_from(j),
        None => None,
    }
}

/// The values that `j` lists, where it is an array of numbers that fit.
pub fn values_from(j: &Json) -> (values: Option<Vec<usize>>)
    ensures
        match values {
            Some(v) => values_of(j@) == Some(v@),
            None => values_of(j@) is None,
        },
{
    match j {
        Json::Array(items) => {
            proof {
                lemma_items_view(items@);
            }
            let mut values: Vec<usize> = Vec::new();
            let mut i: usize = 0;
            while i < items.len()
                invariant
                    i <= items.len(),
                    values.len() == i,
                    j@ == JsonView::Array(items_view(items@)),
                    forall|k: int|
                        0 <= k < items.len() ==> #[trigger] items_view(items@)[k]
                            == items@[k]@,
                    items_view(items@).len() == items.len(),
                    forall|k: int|
                        0 <= k < i ==> number_of(items@[k]@) == Some(#[trigger] values@[k]),
                decreases items.len() - i,
            {
                match number_from(&items[i]) {
                    Some(n) => {
                        values.push(n);
                    },
                    None => {
                        assert(number_of(items_view(items@)[i as int]) is None);
                        return None;
                    },
                }
                i += 1;
            }
            assert forall|k: int| 0 <= k < items.len() implies number_of(
                #[trigger] items_view(items@)[k],
            ) is Some by {
                assert(number_of(items@[k]@) == Some(values@[k]));
            }
            assert(values@ =~= values_of(j@)->0);
            Some(values)
        },
        _ => None,
    }
}

/// The adjacency that `j` holds, where it is an object of arrays of texts.
pub fn topology_from(j: &Json) -> (topology: Option<Vec<(String, Vec<String>)>>)
    ensures
        match topology {
            Some(t) => topology_of(j@) == Some(topology_view(t@)),
            None => topology_of(j@) is None,
        },
{
    match j {
        Json::Object(members) => {
            let ghost all = members@;
            let ghost whole = members_view(all);
            let mut entries: Vec<(String, Vec<String>)> = Vec::new();
            let mut i: usize = 0;
            assert(all.take(0) =~= Seq::<Member>::empty());
            assert(topology_view(entries@) =~= Map::new(
                |k: Id| members_view(all.take(0)).contains_key(k),
                |k: Id| ids_of(whole[k])->0,
            ));
            while i < members.len()
                invariant
                    i <= members.len(),
                    all == members@,
                    whole == members_view(all),
                    j@ == JsonView::Object(whole),
                    forall|k: Id|
                        members_view(all.take(i as int)).contains_key(k) ==> whole.contains_key(k)
                            && ids_of(#[trigger] whole[k]) is Some,
                    topology_view(entries@) == Map::new(
                        |k: Id| members_view(all.take(i as int)).contains_key(k),
                        |k: Id| ids_of(whole[k])->0,
                    ),
                decreases members.len() - i,
            {
                let ghost seen = members_view(all.take(i as int));
                let ghost key = all[i as int].key@;
                proof {
                    assert(all.take(i + 1).drop_last() =~= all.take(i as int));
                    assert(all.take(i + 1).last() == all[i as int]);
                    assert(members_view(all.take(i + 1)) == seen.insert(key, all[i as int].value@));
                }
                let ids = match lookup(members, members[i].key.as_str()) {
                    Some(value) => ids_from(value),
                    None => None,
                };
                match ids {
                    Some(ids) => {
                        let ghost before = entries@;
                        let entry = (members[i].key.clone(), ids);
                        entries.push(entry);
                        proof {
                            assert(entries@.drop_last() =~= before);
                            assert(topology_view(entries@) == topology_view(before).insert(
                                key,
                                entry.1.deep_view(),
                            ));
                            assert(topology_view(entries@) =~= Map::new(
                                |k: Id| members_view(all.take(i + 1)).contains_key(k),
                                |k: Id| ids_of(whole[k])->0,
                            ));
                        }
                    },
                    None => {
                        proof {
                            lemma_members_keys(all, i as int);
                        }
                        return None;
                    },
                }
                i += 1;
            }
            proof {
                assert(all.take(members.len() as int) =~= all);
                assert(topology_view(entries@) =~= topology_of(j@)->0);
            }
            Some(entries)
        },
        _ => None,
    }
}

impl Payload {
    /// The payload that the members of a body hold.
    pub fn from_members(members: &Vec<Member>) -> (payload: Option<Payload>)
        ensures
            match payload {
                Some(p) => payload_of(members_view(members@)) == Some(p@),
                None => payload_of(members_view(members@)) is None,
            },
    {
        let tag = match text_in(members, "type") {
            Some(tag) => tag,
            None => {
                return None;
            },
        };
        if reads(&tag, "init") {
            match (text_in(members, "node_id"), ids_in(members, "node_ids")) {
                (Some(node_id), Some(node_ids)) => Some(Payload::Init { node_id, node_ids }),
                _ => None,
            }
        } else if reads(&tag, "init_ok") {
            Some(Payload::InitOk)
        } else if reads(&tag, "echo") {
            match text_in(members, "echo") {
                Some(echo) => Some(Payload::Echo { echo }),
                None => None,
            }
        } else if reads(&tag, "echo_ok") {
            match text_in(members, "echo") {
                Some(echo) => Some(Payload::EchoOk { echo }),
                None => None,
            }
        } else if reads(&tag, "generate") {
            Some(Payload::Generate)
        } else if reads(&tag, "generate_ok") {
            match text_in(members, "id") {
                Some(id) => Some(Payload::GenerateOk { id }),
                None => None,
            }
        } else if reads(&tag, "broadcast") {
            match number_in(members, "message") {
                Some(message) => Some(Payload::Broadcast { message }),
                None => None,
            }
        } else if reads(&tag, "broadcast_ok") {
            Some(Payload::BroadcastOk)
        } else if reads(&tag, "read") {
            Some(Payload::Read)
        } else if reads(&tag, "read_ok") {
            match lookup(members, "messages") {
                Some(j) => match values_from(j) {
                    Some(messages) => Some(Payload::ReadOk { messages }),
                    None => None,
                },
                None => None,
            }
        } else if reads(&tag, "topology") {
            match lookup(members, "topology") {
                Some(j) => match topology_from(j) {
                    Some(topology) => Some(Payload::Topology { topology }),
                    None => None,
                },
                None => None,
            }
        } else if reads(&tag, "topology_ok") {
            Some(Payload::TopologyOk)
        } else {
            None
        }
    }
}

impl Message<Payload> {
    /// The message that `j` holds in the wire format.
    ///
    /// Fails exactly where `j` is no well-formed envelope: where it is no
    /// object, where `src`, `dest` or `body` is missing or of another type,
    /// where an id is neither a number that fits nor `null`, where the tag of
    /// the payload is missing or unknown, or where a field of the payload is
    /// missing or of another type.
    pub fn from_json(j: &Json) -> (message: Result<Message<Payload>, DecodeError>)
        ensures
            match message {
                Ok(m) => message_of(j@) == Some(m@),
                Err(_) => message_of(j@) is None,
            },
    {
        let members = match j {
            Json::Object(members) => members,
            _ => {
                return Err(DecodeError::Malformed);
            },
        };
        let body = match lookup(members, "body") {
            Some(Json::Object(body)) => body,
            _ => {
                return Err(DecodeError::Malformed);
            },
        };
        match (
            text_in(members, "src"),
            text_in(members, "dest"),
            id_in(body, "msg_id"),
            id_in(body, "in_reply_to"),
            Payload::from_members(body),
        ) {
            (Some(src), Some(dest), Some(id), Some(in_reply_to), Some(payload)) => Ok(
                Message { src, dest, body: Body { id, in_reply_to, payload } },
            ),
            _ => Err(DecodeError::Malformed),
        }
    }
}

} // verus!
