use gossip::echo::EchoNode;
use gossip::g_counter::CounterNode;
use gossip::node::{Body, Message};
use gossip::payload::Payload;

fn request(id: Option<usize>, payload: Payload) -> Message<Payload> {
    Message { src: "c1".to_string(), dest: "n1".to_string(), body: Body { id, in_reply_to: None, payload } }
}

fn reply(id: usize, in_reply_to: Option<usize>, payload: Payload) -> Message<Payload> {
    Message {
        src: "n1".to_string(),
        dest: "c1".to_string(),
        body: Body { id: Some(id), in_reply_to, payload },
    }
}

fn unserved() -> Vec<Payload> {
    vec![
        Payload::InitOk,
        Payload::EchoOk { echo: "x".to_string() },
        Payload::Generate,
        Payload::GenerateOk { id: "x".to_string() },
        Payload::Broadcast { message: 1 },
        Payload::BroadcastOk,
        Payload::Read,
        Payload::ReadOk { messages: vec![1] },
        Payload::Topology { topology: vec![] },
        Payload::TopologyOk,
    ]
}

#[test]
fn echo_node_answers_init_and_echo() {
    let mut node = EchoNode::new();
    assert_eq!(node.id(), 0);
    let init = Payload::Init { node_id: "n1".to_string(), node_ids: vec!["n1".to_string()] };
    assert_eq!(node.step(request(Some(1), init)), Some(reply(0, Some(1), Payload::InitOk)));
    assert_eq!(
        node.step(request(Some(2), Payload::Echo { echo: "hello".to_string() })),
        Some(reply(1, Some(2), Payload::EchoOk { echo: "hello".to_string() }))
    );
    assert_eq!(
        node.step(request(None, Payload::Echo { echo: "".to_string() })),
        Some(reply(2, None, Payload::EchoOk { echo: "".to_string() }))
    );
    assert_eq!(node.id(), 3);
}

#[test]
fn echo_node_answers_nothing_else() {
    let mut node = EchoNode::new();
    for payload in unserved() {
        assert_eq!(node.step(request(Some(1), payload)), None);
        assert_eq!(node.id(), 0);
    }
}

#[test]
fn counter_node_answers_init_only() {
    let mut node = CounterNode::new();
    let init = Payload::Init { node_id: "n1".to_string(), node_ids: vec!["n1".to_string()] };
    assert_eq!(node.step(request(Some(1), init.clone())), Some(reply(0, Some(1), Payload::InitOk)));
    assert_eq!(node.step(request(Some(5), init)), Some(reply(1, Some(5), Payload::InitOk)));
    assert_eq!(node.id(), 2);
    for payload in unserved() {
        assert_eq!(node.step(request(Some(1), payload)), None);
    }
    assert_eq!(node.step(request(Some(1), Payload::Echo { echo: "x".to_string() })), None);
    assert_eq!(node.id(), 2);
}
