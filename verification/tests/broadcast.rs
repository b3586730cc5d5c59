use gossip::broadcast::{backoff_for, deadline_for, BroadcastNode, Pending};
use gossip::codec::{decode, encode};
use gossip::error::ProtocolViolation;
use gossip::node::{Body, Message};
use gossip::payload::Payload;

fn msg(src: &str, dest: &str, id: Option<usize>, in_reply_to: Option<usize>, payload: Payload) -> Message<Payload> {
    Message {
        src: src.to_string(),
        dest: dest.to_string(),
        body: Body { id, in_reply_to, payload },
    }
}

fn init(node: &mut BroadcastNode, me: &str, all: &[&str]) {
    let out = node
        .step(
            msg(
                "c0",
                me,
                Some(1),
                None,
                Payload::Init {
                    node_id: me.to_string(),
                    node_ids: all.iter().map(|s| s.to_string()).collect(),
                },
            ),
            0,
        )
        .unwrap();
    assert_eq!(out.len(), 1);
    assert_eq!(out[0].body.payload, Payload::InitOk);
}

fn topology(node: &mut BroadcastNode, me: &str, edges: &[(&str, &[&str])]) {
    let topology = edges
        .iter()
        .map(|(n, ns)| (n.to_string(), ns.iter().map(|s| s.to_string()).collect()))
        .collect();
    let out = node.step(msg("c0", me, Some(2), None, Payload::Topology { topology }), 0).unwrap();
    assert_eq!(out.len(), 1);
    assert_eq!(out[0].body.payload, Payload::TopologyOk);
}

fn ready(me: &str, neighbors: &[&str]) -> BroadcastNode {
    let mut node = BroadcastNode::new();
    init(&mut node, me, &[me]);
    topology(&mut node, me, &[(me, neighbors)]);
    node
}

fn read(node: &mut BroadcastNode, me: &str) -> Vec<usize> {
    let out = node.step(msg("c9", me, Some(99), None, Payload::Read), 0).unwrap();
    assert_eq!(out.len(), 1);
    match &out[0].body.payload {
        Payload::ReadOk { messages } => messages.clone(),
        other => panic!("not a read_ok: {:?}", other),
    }
}

#[test]
fn a_new_node_knows_nothing() {
    let node = BroadcastNode::new();
    assert!(!node.is_ready());
    assert_eq!(node.next_id(), 0);
    assert!(node.messages().is_empty());
    assert!(node.neighbors().is_empty());
    assert!(node.pending().is_empty());
    assert!(node.has_ids(usize::MAX));
    assert_eq!(node.node_id(), None);
    assert!(node.node_ids().is_empty());
}

#[test]
fn init_gives_the_node_its_id_and_the_members() {
    let mut node = BroadcastNode::new();
    init(&mut node, "n2", &["n1", "n2", "n3"]);
    assert_eq!(node.node_id(), Some(&"n2".to_string()));
    assert_eq!(node.node_ids(), &vec!["n1".to_string(), "n2".to_string(), "n3".to_string()]);
    assert!(node.is_ready());
}

#[test]
fn init_from_the_wire_is_answered_with_init_ok() {
    let input = decode(
        r#"{"src":"c1","dest":"n1","body":{"msg_id":1,"type":"init","node_id":"n1","node_ids":["n1"]}}"#,
    )
    .unwrap();
    let mut node = BroadcastNode::new();
    let out = node.step(input, 0).unwrap();
    assert_eq!(out, vec![msg("n1", "c1", Some(0), Some(1), Payload::InitOk)]);
    assert!(node.is_ready());
    let got: serde_json::Value = serde_json::from_str(&encode(&out[0]).unwrap()).unwrap();
    let want: serde_json::Value = serde_json::from_str(
        r#"{"src":"n1","dest":"c1","body":{"msg_id":0,"in_reply_to":1,"type":"init_ok"}}"#,
    )
    .unwrap();
    assert_eq!(got, want);
}

#[test]
fn broadcast_then_read_returns_the_value() {
    let mut node = BroadcastNode::new();
    init(&mut node, "n1", &["n1"]);
    let input =
        decode(r#"{"src":"c1","dest":"n1","body":{"msg_id":2,"type":"broadcast","message":42}}"#).unwrap();
    let out = node.step(input, 0).unwrap();
    assert_eq!(out, vec![msg("n1", "c1", Some(1), Some(2), Payload::BroadcastOk)]);
    assert!(encode(&out[0]).unwrap().contains(r#""type":"broadcast_ok""#));
    let out = node.step(msg("c1", "n1", Some(3), None, Payload::Read), 0).unwrap();
    assert_eq!(out, vec![msg("n1", "c1", Some(2), Some(3), Payload::ReadOk { messages: vec![42] })]);
    assert!(encode(&out[0]).unwrap().contains(r#""messages":[42]"#));
}

#[test]
fn a_value_broadcast_twice_is_stored_once() {
    let mut node = ready("n1", &[]);
    for id in 0..2 {
        let out = node.step(msg("c1", "n1", Some(id), None, Payload::Broadcast { message: 42 }), 0).unwrap();
        assert_eq!(out.len(), 1);
        assert_eq!(out[0].body.payload, Payload::BroadcastOk);
    }
    assert_eq!(read(&mut node, "n1"), vec![42]);
    assert_eq!(node.messages(), &vec![42]);
}

#[test]
fn the_store_holds_the_distinct_values_in_any_order_of_delivery() {
    let orders: [&[usize]; 4] = [&[1, 2, 3, 2, 1], &[3, 3, 2, 1], &[2, 1, 3, 3, 3, 1], &[1, 2, 3]];
    for order in orders {
        let mut node = ready("n1", &["n2"]);
        for (k, v) in order.iter().enumerate() {
            let src = if k % 2 == 0 { "c1" } else { "n2" };
            node.step(msg(src, "n1", Some(k), None, Payload::Broadcast { message: *v }), 0).unwrap();
        }
        let mut got = read(&mut node, "n1");
        got.sort();
        assert_eq!(got, vec![1, 2, 3]);
    }
}

#[test]
fn reading_twice_gives_the_same() {
    let mut node = ready("n1", &[]);
    node.step(msg("c1", "n1", Some(1), None, Payload::Broadcast { message: 5 }), 0).unwrap();
    node.step(msg("c1", "n1", Some(2), None, Payload::Broadcast { message: 9 }), 0).unwrap();
    let first = read(&mut node, "n1");
    let second = read(&mut node, "n1");
    assert_eq!(first, vec![5, 9]);
    assert_eq!(first, second);
    assert_eq!(node.messages(), &vec![5, 9]);
}

#[test]
fn replies_repeat_the_request_id_and_ids_grow() {
    let mut node = BroadcastNode::new();
    let requests = vec![
        (Some(11), Payload::Init { node_id: "n1".to_string(), node_ids: vec!["n1".to_string(), "n2".to_string()] }),
        (Some(12), Payload::Topology { topology: vec![("n1".to_string(), vec!["n2".to_string()])] }),
        (Some(13), Payload::Echo { echo: "x".to_string() }),
        (None, Payload::Read),
        (Some(15), Payload::Broadcast { message: 1 }),
        (Some(16), Payload::Generate),
        (Some(17), Payload::Broadcast { message: 1 }),
        (Some(18), Payload::Broadcast { message: 2 }),
    ];
    let mut ids = Vec::new();
    for (id, payload) in requests {
        let out = node.step(msg("c1", "n1", id, None, payload), 0).unwrap();
        assert_eq!(out[0].body.in_reply_to, id);
        assert_eq!(out[0].dest, "c1");
        assert_eq!(out[0].src, "n1");
        for m in &out[1..] {
            assert_eq!(m.body.in_reply_to, None);
        }
        ids.extend(out.iter().map(|m| m.body.id.unwrap()));
    }
    ids.extend(node.retry(1_000_000).iter().map(|m| m.body.id.unwrap()));
    assert_eq!(ids, (0..ids.len()).collect::<Vec<usize>>());
    assert_eq!(ids.len(), 12);
    assert_eq!(node.next_id(), 12);
}

#[test]
fn echo_is_answered_with_the_same_text() {
    let mut node = ready("n1", &[]);
    let out = node.step(msg("c1", "n1", Some(5), None, Payload::Echo { echo: "hello".to_string() }), 0).unwrap();
    assert_eq!(out, vec![msg("n1", "c1", Some(2), Some(5), Payload::EchoOk { echo: "hello".to_string() })]);
}

#[test]
fn generate_is_answered_with_a_fresh_identifier() {
    let mut node = ready("n1", &[]);
    let mut seen = Vec::new();
    for k in 0..20 {
        let out = node.step(msg("c1", "n1", Some(k), None, Payload::Generate), 0).unwrap();
        assert_eq!(out.len(), 1);
        assert_eq!(out[0].body.in_reply_to, Some(k));
        match &out[0].body.payload {
            Payload::GenerateOk { id } => {
                assert_eq!(id.chars().count(), 36);
                for (i, c) in id.chars().enumerate() {
                    if i == 8 || i == 13 || i == 18 || i == 23 {
                        assert_eq!(c, '-');
                    } else {
                        assert!(c.is_ascii_digit() || ('a'..='f').contains(&c), "{}", id);
                    }
                }
                assert!(!seen.contains(id));
                seen.push(id.clone());
            }
            other => panic!("not a generate_ok: {:?}", other),
        }
    }
}

#[test]
fn handle_answers_generate_with_the_given_identifier() {
    let mut node = ready("n1", &[]);
    let out = node.handle(msg("c1", "n1", Some(5), None, Payload::Generate), 0, "abc".to_string()).unwrap();
    assert_eq!(out, vec![msg("n1", "c1", Some(2), Some(5), Payload::GenerateOk { id: "abc".to_string() })]);
}

#[test]
fn before_init_everything_but_init_is_refused() {
    let payloads = vec![
        Payload::InitOk,
        Payload::Echo { echo: "x".to_string() },
        Payload::EchoOk { echo: "x".to_string() },
        Payload::Generate,
        Payload::GenerateOk { id: "x".to_string() },
        Payload::Broadcast { message: 1 },
        Payload::BroadcastOk,
        Payload::Read,
        Payload::ReadOk { messages: vec![] },
        Payload::Topology { topology: vec![] },
        Payload::TopologyOk,
    ];
    let mut node = BroadcastNode::new();
    for payload in payloads {
        let r = node.step(msg("c1", "n1", Some(1), None, payload), 0);
        assert_eq!(r, Err(ProtocolViolation::NotInitialized));
        assert!(!node.is_ready());
        assert_eq!(node.next_id(), 0);
        assert!(node.messages().is_empty());
    }
}

#[test]
fn replies_that_nobody_asked_for_are_refused() {
    let payloads = vec![
        Payload::InitOk,
        Payload::EchoOk { echo: "x".to_string() },
        Payload::GenerateOk { id: "x".to_string() },
        Payload::ReadOk { messages: vec![1] },
        Payload::TopologyOk,
    ];
    let mut node = ready("n1", &["n2"]);
    node.step(msg("c1", "n1", Some(1), None, Payload::Broadcast { message: 7 }), 0).unwrap();
    let next = node.next_id();
    for payload in payloads {
        let r = node.step(msg("n2", "n1", Some(1), Some(0), payload), 0);
        assert_eq!(r, Err(ProtocolViolation::UnexpectedReply));
        assert_eq!(node.next_id(), next);
        assert_eq!(node.messages(), &vec![7]);
        assert_eq!(node.pending().len(), 1);
    }
}

#[test]
fn a_second_init_is_answered_and_changes_nothing() {
    let mut node = ready("n1", &["n2"]);
    let out = node
        .step(
            msg("c1", "n1", Some(8), None, Payload::Init { node_id: "zz".to_string(), node_ids: vec![] }),
            0,
        )
        .unwrap();
    assert_eq!(out, vec![msg("n1", "c1", Some(2), Some(8), Payload::InitOk)]);
    let out = node.step(msg("c1", "n1", Some(9), None, Payload::Broadcast { message: 1 }), 0).unwrap();
    assert_eq!(out[1].src, "n1");
    assert_eq!(out[1].dest, "n2");
}

#[test]
fn topology_sets_the_nodes_own_neighbours_each_once() {
    let mut node = BroadcastNode::new();
    init(&mut node, "n1", &["n1", "n2", "n3"]);
    topology(&mut node, "n1", &[("n2", &["n1"]), ("n1", &["n2", "n3", "n2"]), ("n3", &["n1"])]);
    assert_eq!(node.neighbors(), &vec!["n2".to_string(), "n3".to_string()]);
    topology(&mut node, "n1", &[("n2", &["n1"]), ("n1", &["n2", "n3", "n2"]), ("n3", &["n1"])]);
    assert_eq!(node.neighbors(), &vec!["n2".to_string(), "n3".to_string()]);
    topology(&mut node, "n1", &[("n1", &["n2"]), ("n1", &["n3"])]);
    assert_eq!(node.neighbors(), &vec!["n3".to_string()]);
    topology(&mut node, "n1", &[("n2", &["n1"])]);
    assert!(node.neighbors().is_empty());
}

#[test]
fn a_new_value_from_a_client_goes_to_every_neighbour() {
    let mut node = ready("n1", &["n2", "n3"]);
    let out = node.step(msg("c1", "n1", Some(4), None, Payload::Broadcast { message: 7 }), 50).unwrap();
    assert_eq!(
        out,
        vec![
            msg("n1", "c1", Some(2), Some(4), Payload::BroadcastOk),
            msg("n1", "n2", Some(3), None, Payload::Broadcast { message: 7 }),
            msg("n1", "n3", Some(4), None, Payload::Broadcast { message: 7 }),
        ]
    );
    assert_eq!(
        node.pending(),
        &vec![
            Pending { peer: "n2".to_string(), value: 7, msg_id: 3, earlier: vec![], attempts: 0, deadline: 150 },
            Pending { peer: "n3".to_string(), value: 7, msg_id: 4, earlier: vec![], attempts: 0, deadline: 150 },
        ]
    );
    assert_eq!(node.next_id(), 5);
}

#[test]
fn a_new_value_from_a_peer_is_not_sent_back_to_it() {
    let mut node = ready("n1", &["n2", "n3"]);
    let out = node.step(msg("n2", "n1", Some(4), None, Payload::Broadcast { message: 7 }), 0).unwrap();
    assert_eq!(
        out,
        vec![
            msg("n1", "n2", Some(2), Some(4), Payload::BroadcastOk),
            msg("n1", "n3", Some(3), None, Payload::Broadcast { message: 7 }),
        ]
    );
    assert_eq!(node.pending().len(), 1);
    assert_eq!(node.pending()[0].peer, "n3");
}

#[test]
fn a_known_value_is_acknowledged_and_not_sent_on() {
    let mut node = ready("n1", &["n2", "n3"]);
    node.step(msg("c1", "n1", Some(4), None, Payload::Broadcast { message: 7 }), 0).unwrap();
    let pending = node.pending().clone();
    for src in ["c1", "n2", "n3", "c2"] {
        let id = node.next_id();
        let out = node.step(msg(src, "n1", Some(5), None, Payload::Broadcast { message: 7 }), 10).unwrap();
        assert_eq!(out, vec![msg("n1", src, Some(id), Some(5), Payload::BroadcastOk)]);
        assert_eq!(node.pending(), &pending);
        assert_eq!(node.messages(), &vec![7]);
    }
}

#[test]
fn an_acknowledgment_settles_the_send_it_replies_to() {
    let mut node = ready("n1", &["n2", "n3"]);
    node.step(msg("c1", "n1", Some(4), None, Payload::Broadcast { message: 7 }), 0).unwrap();
    let before = node.next_id();
    let out = node.step(msg("n3", "n1", Some(0), Some(4), Payload::BroadcastOk), 0).unwrap();
    assert!(out.is_empty());
    assert_eq!(node.next_id(), before);
    assert_eq!(node.pending().len(), 1);
    assert_eq!(node.pending()[0].peer, "n2");
    let out = node.step(msg("n2", "n1", Some(0), Some(3), Payload::BroadcastOk), 0).unwrap();
    assert!(out.is_empty());
    assert!(node.pending().is_empty());
}

#[test]
fn an_acknowledgment_that_matches_nothing_is_passed_over() {
    let mut node = ready("n1", &["n2"]);
    node.step(msg("c1", "n1", Some(4), None, Payload::Broadcast { message: 7 }), 0).unwrap();
    let pending = node.pending().clone();
    for (src, in_reply_to) in [("n3", Some(3)), ("n2", Some(99)), ("n2", None), ("c1", Some(3)), ("n2", Some(2))] {
        let out = node.step(msg(src, "n1", Some(0), in_reply_to, Payload::BroadcastOk), 0).unwrap();
        assert!(out.is_empty());
        assert_eq!(node.pending(), &pending);
    }
    node.step(msg("n2", "n1", Some(0), Some(3), Payload::BroadcastOk), 0).unwrap();
    assert!(node.pending().is_empty());
    let out = node.step(msg("n2", "n1", Some(0), Some(3), Payload::BroadcastOk), 0).unwrap();
    assert!(out.is_empty());
    assert!(node.pending().is_empty());
}

#[test]
fn an_unacknowledged_value_is_sent_again() {
    let input = decode(
        r#"{"src":"c1","dest":"n1","body":{"msg_id":2,"type":"topology","topology":{"n1":["n2"]}}}"#,
    )
    .unwrap();
    let mut node = BroadcastNode::new();
    init(&mut node, "n1", &["n1", "n2"]);
    node.step(input, 0).unwrap();
    let out = node.step(msg("c1", "n1", Some(3), None, Payload::Broadcast { message: 7 }), 1000).unwrap();
    assert_eq!(out[1], msg("n1", "n2", Some(3), None, Payload::Broadcast { message: 7 }));
    assert!(node.retry(1099).is_empty());
    let again = node.retry(1100);
    assert_eq!(again, vec![msg("n1", "n2", Some(4), None, Payload::Broadcast { message: 7 })]);
    assert_eq!(
        node.pending(),
        &vec![Pending {
            peer: "n2".to_string(),
            value: 7,
            msg_id: 4,
            earlier: vec![3],
            attempts: 1,
            deadline: 1300
        }]
    );
    assert!(node.retry(1299).is_empty());
    let again = node.retry(1300);
    assert_eq!(again, vec![msg("n1", "n2", Some(5), None, Payload::Broadcast { message: 7 })]);
    assert_eq!(node.pending()[0].deadline, 1700);
    let out = node.step(msg("n2", "n1", Some(0), Some(5), Payload::BroadcastOk), 1301).unwrap();
    assert!(out.is_empty());
    assert!(node.pending().is_empty());
    assert!(node.retry(u64::MAX).is_empty());
    assert_eq!(node.messages(), &vec![7]);
}

#[test]
fn retry_sends_only_what_is_due_and_in_the_order_of_the_table() {
    let mut node = ready("n1", &["n2", "n3"]);
    node.step(msg("c1", "n1", Some(1), None, Payload::Broadcast { message: 1 }), 0).unwrap();
    node.step(msg("c1", "n1", Some(2), None, Payload::Broadcast { message: 2 }), 60).unwrap();
    let sent = node.retry(100);
    assert_eq!(
        sent,
        vec![
            msg("n1", "n2", Some(8), None, Payload::Broadcast { message: 1 }),
            msg("n1", "n3", Some(9), None, Payload::Broadcast { message: 1 }),
        ]
    );
    let deadlines: Vec<u64> = node.pending().iter().map(|p| p.deadline).collect();
    assert_eq!(deadlines, vec![300, 300, 160, 160]);
    let sent = node.retry(200);
    assert_eq!(sent.len(), 2);
    assert_eq!(sent[0].body.payload, Payload::Broadcast { message: 2 });
    assert_eq!(sent[0].body.id, Some(10));
}

#[test]
fn an_acknowledgment_of_an_earlier_send_settles_too() {
    let mut node = ready("n1", &["n2", "n3"]);
    node.step(msg("c1", "n1", Some(1), None, Payload::Broadcast { message: 7 }), 0).unwrap();
    assert_eq!(node.retry(100).len(), 2);
    assert_eq!(node.retry(300).len(), 2);
    assert_eq!(node.pending()[0].earlier, vec![3, 5]);
    assert_eq!(node.pending()[0].msg_id, 7);
    assert_eq!(node.pending()[1].earlier, vec![4, 6]);
    assert_eq!(node.pending()[1].msg_id, 8);
    node.step(msg("n2", "n1", Some(0), Some(4), Payload::BroadcastOk), 301).unwrap();
    assert_eq!(node.pending().len(), 2);
    node.step(msg("n2", "n1", Some(1), Some(3), Payload::BroadcastOk), 301).unwrap();
    assert_eq!(node.pending().len(), 1);
    assert_eq!(node.pending()[0].peer, "n3");
    node.step(msg("n3", "n1", Some(0), Some(6), Payload::BroadcastOk), 301).unwrap();
    assert!(node.pending().is_empty());
    assert!(node.retry(u64::MAX).is_empty());
}

#[test]
fn retry_before_init_does_nothing() {
    let mut node = BroadcastNode::new();
    assert!(node.retry(u64::MAX).is_empty());
    assert_eq!(node.next_id(), 0);
}

#[test]
fn the_wait_doubles_up_to_its_limit() {
    let waits: Vec<u64> = (0..8).map(backoff_for).collect();
    assert_eq!(waits, vec![100, 200, 400, 800, 1600, 3200, 3200, 3200]);
    assert_eq!(backoff_for(usize::MAX), 3200);
    assert_eq!(deadline_for(5, 0), 105);
    assert_eq!(deadline_for(5, 3), 805);
    assert_eq!(deadline_for(u64::MAX - 100, 0), u64::MAX);
    assert_eq!(deadline_for(u64::MAX - 99, 0), u64::MAX);
    assert_eq!(deadline_for(u64::MAX, 9), u64::MAX);
}

#[test]
fn repeated_sends_wait_longer_each_time() {
    let mut node = ready("n1", &["n2"]);
    node.step(msg("c1", "n1", Some(1), None, Payload::Broadcast { message: 1 }), 0).unwrap();
    let mut now = 0;
    let mut waits = Vec::new();
    for _ in 0..7 {
        let deadline = node.pending()[0].deadline;
        waits.push(deadline - now);
        now = deadline;
        assert_eq!(node.retry(now).len(), 1);
    }
    assert_eq!(waits, vec![100, 200, 400, 800, 1600, 3200, 3200]);
    assert_eq!(node.pending()[0].attempts, 7);
}

#[test]
fn has_ids_tells_when_the_ids_run_out() {
    let node = ready("n1", &["n2"]);
    assert_eq!(node.next_id(), 2);
    assert!(node.has_ids(usize::MAX - 2));
    assert!(!node.has_ids(usize::MAX - 1));
}

fn deliver(nodes: &mut Vec<(String, BroadcastNode)>, m: Message<Payload>, now: u64) -> Vec<Message<Payload>> {
    for (name, node) in nodes.iter_mut() {
        if *name == m.dest {
            return node.step(m, now).unwrap();
        }
    }
    Vec::new()
}

#[test]
fn a_value_reaches_every_node_of_a_line_though_messages_are_lost() {
    let names = ["n1", "n2", "n3", "n4"];
    let edges: Vec<(&str, &[&str])> =
        vec![("n1", &["n2"]), ("n2", &["n1", "n3"]), ("n3", &["n2", "n4"]), ("n4", &["n3"])];
    let mut nodes: Vec<(String, BroadcastNode)> = Vec::new();
    for name in names {
        let mut node = BroadcastNode::new();
        init(&mut node, name, &names);
        topology(&mut node, name, &edges);
        nodes.push((name.to_string(), node));
    }
    let mut in_flight = deliver(&mut nodes, msg("c1", "n1", Some(1), None, Payload::Broadcast { message: 7 }), 0);
    let mut now = 0;
    let mut dropped = 0;
    let mut resent = 0;
    let mut chance: u64 = 12345;
    for _ in 0..400 {
        now += 3200;
        let mut next = Vec::new();
        for m in in_flight.drain(..) {
            chance = chance.wrapping_mul(6364136223846793005).wrapping_add(1442695040888963407);
            if (chance >> 33) % 3 == 0 {
                dropped += 1;
                continue;
            }
            next.extend(deliver(&mut nodes, m, now));
        }
        for (_, node) in nodes.iter_mut() {
            let again = node.retry(now);
            resent += again.len();
            next.extend(again);
        }
        in_flight = next;
    }
    assert!(dropped > 0);
    assert!(resent > 0);
    for (name, node) in nodes.iter() {
        assert_eq!(node.messages(), &vec![7], "{}", name);
        assert!(node.pending().is_empty(), "{}", name);
    }
}
