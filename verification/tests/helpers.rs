use gossip::decode::{id_in, ids_from, ids_in, number_from, number_in, text_in, topology_from, values_from};
use gossip::encode::{id_to_json, ids_to_json, topology_to_json, values_to_json};
use gossip::ids::{contains_id, contains_value, copy_values, distinct_ids, neighbors_in, others_of};
use gossip::json::{lookup, put, Json, Member};
use gossip::payload::Payload;

fn ids(names: &[&str]) -> Vec<String> {
    names.iter().map(|s| s.to_string()).collect()
}

fn member(key: &str, value: Json) -> Member {
    Member { key: key.to_string(), value }
}

fn text(s: &str) -> Json {
    Json::Str(s.to_string())
}

#[test]
fn membership_in_lists() {
    assert!(contains_value(&vec![3, 1, 2], 1));
    assert!(!contains_value(&vec![3, 1, 2], 4));
    assert!(!contains_value(&vec![], 0));
    assert!(contains_id(&ids(&["a", "b"]), &"b".to_string()));
    assert!(!contains_id(&ids(&["a", "b"]), &"c".to_string()));
    assert_eq!(copy_values(&vec![5, 5, 6]), vec![5, 5, 6]);
}

#[test]
fn distinct_ids_keeps_the_first_of_each() {
    assert_eq!(distinct_ids(&ids(&["b", "a", "b", "c", "a"])), ids(&["b", "a", "c"]));
    assert_eq!(distinct_ids(&ids(&[])), ids(&[]));
}

#[test]
fn neighbours_are_those_of_the_nodes_last_entry() {
    let topology = vec![
        ("n1".to_string(), ids(&["n2"])),
        ("n2".to_string(), ids(&["n1", "n3", "n1"])),
        ("n1".to_string(), ids(&["n3", "n3", "n2"])),
    ];
    assert_eq!(neighbors_in(&topology, &"n1".to_string()), ids(&["n3", "n2"]));
    assert_eq!(neighbors_in(&topology, &"n2".to_string()), ids(&["n1", "n3"]));
    assert_eq!(neighbors_in(&topology, &"n9".to_string()), ids(&[]));
}

#[test]
fn others_of_leaves_the_sender_out() {
    assert_eq!(others_of(&ids(&["a", "b", "c"]), &"b".to_string()), ids(&["a", "c"]));
    assert_eq!(others_of(&ids(&["a", "b", "c"]), &"z".to_string()), ids(&["a", "b", "c"]));
    assert_eq!(others_of(&ids(&["a"]), &"a".to_string()), ids(&[]));
}

#[test]
fn put_and_lookup_go_by_the_last_member_of_a_key() {
    let mut members = Vec::new();
    assert_eq!(lookup(&members, "k"), None);
    put(&mut members, "k", Json::Number(Some(1)));
    put(&mut members, "other", Json::Null);
    put(&mut members, "k", Json::Number(Some(2)));
    assert_eq!(members.len(), 3);
    assert_eq!(lookup(&members, "k"), Some(&Json::Number(Some(2))));
    assert_eq!(lookup(&members, "other"), Some(&Json::Null));
    assert_eq!(lookup(&members, "K"), None);
}

#[test]
fn values_are_written_as_json() {
    assert_eq!(id_to_json(None), Json::Null);
    assert_eq!(id_to_json(Some(7)), Json::Number(Some(7)));
    assert_eq!(ids_to_json(&ids(&["a", "b"])), Json::Array(vec![text("a"), text("b")]));
    assert_eq!(values_to_json(&vec![2, 1]), Json::Array(vec![Json::Number(Some(2)), Json::Number(Some(1))]));
    assert_eq!(
        topology_to_json(&vec![("a".to_string(), ids(&["b"])), ("b".to_string(), ids(&[]))]),
        Json::Object(vec![
            member("a", Json::Array(vec![text("b")])),
            member("b", Json::Array(vec![])),
        ])
    );
    assert_eq!(
        Payload::Broadcast { message: 9 }.to_members(),
        vec![member("type", text("broadcast")), member("message", Json::Number(Some(9)))]
    );
}

#[test]
fn values_are_read_from_json() {
    let members = vec![
        member("t", text("x")),
        member("n", Json::Number(Some(5))),
        member("z", Json::Null),
        member("f", Json::Number(None)),
        member("l", Json::Array(vec![text("a"), text("b")])),
    ];
    assert_eq!(text_in(&members, "t"), Some("x".to_string()));
    assert_eq!(text_in(&members, "n"), None);
    assert_eq!(text_in(&members, "missing"), None);
    assert_eq!(number_in(&members, "n"), Some(5));
    assert_eq!(number_in(&members, "t"), None);
    assert_eq!(number_in(&members, "f"), None);
    assert_eq!(number_in(&members, "missing"), None);
    assert_eq!(id_in(&members, "n"), Some(Some(5)));
    assert_eq!(id_in(&members, "z"), Some(None));
    assert_eq!(id_in(&members, "missing"), Some(None));
    assert_eq!(id_in(&members, "t"), None);
    assert_eq!(id_in(&members, "f"), None);
    assert_eq!(ids_in(&members, "l"), Some(ids(&["a", "b"])));
    assert_eq!(ids_in(&members, "t"), None);
    assert_eq!(ids_in(&members, "missing"), None);
    assert_eq!(number_from(&Json::Number(Some(0))), Some(0));
    assert_eq!(number_from(&Json::Bool(true)), None);
    assert_eq!(ids_from(&Json::Array(vec![])), Some(vec![]));
    assert_eq!(ids_from(&Json::Array(vec![text("a"), Json::Null])), None);
    assert_eq!(ids_from(&Json::Null), None);
    assert_eq!(values_from(&Json::Array(vec![Json::Number(Some(1)), Json::Number(Some(2))])), Some(vec![1, 2]));
    assert_eq!(values_from(&Json::Array(vec![Json::Number(Some(1)), Json::Number(None)])), None);
    assert_eq!(values_from(&text("x")), None);
}

#[test]
fn a_topology_is_read_by_the_last_member_of_each_key() {
    let j = Json::Object(vec![
        member("a", Json::Null),
        member("b", Json::Array(vec![text("a")])),
        member("a", Json::Array(vec![text("b"), text("c")])),
    ]);
    let topology = topology_from(&j).unwrap();
    assert_eq!(neighbors_in(&topology, &"a".to_string()), ids(&["b", "c"]));
    assert_eq!(neighbors_in(&topology, &"b".to_string()), ids(&["a"]));
    let bad = Json::Object(vec![member("a", Json::Array(vec![text("b")])), member("a", Json::Null)]);
    assert_eq!(topology_from(&bad), None);
    assert_eq!(topology_from(&Json::Array(vec![])), None);
    assert_eq!(Payload::from_members(&vec![member("type", text("read"))]), Some(Payload::Read));
    assert_eq!(Payload::from_members(&vec![member("type", text("nope"))]), None);
    assert_eq!(Payload::from_members(&vec![]), None);
}
