use gossip::codec::{decode, encode, encode_line};
use gossip::error::{DecodeError, EncodeError};
use gossip::json::{Json, Member};
use gossip::node::{Body, Message};
use gossip::payload::Payload;

fn message(id: Option<usize>, in_reply_to: Option<usize>, payload: Payload) -> Message<Payload> {
    Message {
        src: "foo".to_string(),
        dest: "bar".to_string(),
        body: Body { id, in_reply_to, payload },
    }
}

fn same_json(text: &str, expected: &str) {
    let got: serde_json::Value = serde_json::from_str(text).unwrap();
    let want: serde_json::Value = serde_json::from_str(expected).unwrap();
    assert_eq!(got, want);
}

#[test]
fn serialize_msg() {
    let msg = message(Some(10), Some(55), Payload::Echo { echo: "foobar".to_string() });
    let text = encode(&msg).unwrap();
    same_json(
        &text,
        r#"{"src":"foo","dest":"bar","body":{"msg_id":10,"in_reply_to":55,"type":"echo","echo":"foobar"}}"#,
    );
}

#[test]
fn deserialize_msg() {
    let json = r#"
        {
            "src": "foo",
            "dest": "bar",
            "body": {
                "msg_id": 10,
                "in_reply_to": 55,
                "type": "echo_ok",
                "echo": "foobar"
            }
        }
            "#;
    let msg = decode(json).unwrap();
    assert_eq!(
        format!("{:?}", msg),
        "Message { src: \"foo\", dest: \"bar\", body: Body { id: Some(10), in_reply_to: Some(55), payload: EchoOk { echo: \"foobar\" } } }"
    );
}

#[test]
fn decode_init_from_the_wire() {
    let msg = decode(
        r#"{"src":"c1","dest":"n1","body":{"msg_id":1,"type":"init","node_id":"n1","node_ids":["n1"]}}"#,
    )
    .unwrap();
    assert_eq!(
        msg,
        Message {
            src: "c1".to_string(),
            dest: "n1".to_string(),
            body: Body {
                id: Some(1),
                in_reply_to: None,
                payload: Payload::Init { node_id: "n1".to_string(), node_ids: vec!["n1".to_string()] },
            },
        }
    );
}

#[test]
fn decode_broadcast_from_the_wire() {
    let msg = decode(r#"{"src":"c1","dest":"n1","body":{"msg_id":2,"type":"broadcast","message":42}}"#)
        .unwrap();
    assert_eq!(msg.body.payload, Payload::Broadcast { message: 42 });
    assert_eq!(msg.body.id, Some(2));
    assert_eq!(msg.body.in_reply_to, None);
}

#[test]
fn decode_takes_null_ids_as_absent() {
    let msg = decode(r#"{"src":"a","dest":"b","body":{"msg_id":null,"in_reply_to":null,"type":"read"}}"#)
        .unwrap();
    assert_eq!(msg, Message {
        src: "a".to_string(),
        dest: "b".to_string(),
        body: Body { id: None, in_reply_to: None, payload: Payload::Read },
    });
}

#[test]
fn decode_passes_over_unknown_members() {
    let msg = decode(
        r#"{"id":7,"src":"a","dest":"b","extra":[1,-2,3.5,true],"body":{"type":"generate","more":{"x":null}}}"#,
    )
    .unwrap();
    assert_eq!(msg.body.payload, Payload::Generate);
    assert_eq!(msg.src, "a");
    assert_eq!(msg.dest, "b");
}

#[test]
fn decode_topology() {
    let msg = decode(
        r#"{"src":"c1","dest":"n1","body":{"msg_id":3,"type":"topology","topology":{"n1":["n2","n3"],"n2":["n1"],"n3":[]}}}"#,
    )
    .unwrap();
    match msg.body.payload {
        Payload::Topology { mut topology } => {
            topology.sort();
            assert_eq!(
                topology,
                vec![
                    ("n1".to_string(), vec!["n2".to_string(), "n3".to_string()]),
                    ("n2".to_string(), vec!["n1".to_string()]),
                    ("n3".to_string(), vec![]),
                ]
            );
        }
        other => panic!("not a topology: {:?}", other),
    }
}

#[test]
fn decode_read_ok() {
    let msg = decode(r#"{"src":"n1","dest":"c1","body":{"in_reply_to":4,"type":"read_ok","messages":[42,7]}}"#)
        .unwrap();
    assert_eq!(msg.body.payload, Payload::ReadOk { messages: vec![42, 7] });
    assert_eq!(msg.body.in_reply_to, Some(4));
}

#[test]
fn unknown_type_fails_decoding() {
    let r = decode(r#"{"src":"c1","dest":"n1","body":{"msg_id":1,"type":"frobnicate"}}"#);
    assert_eq!(r, Err(DecodeError::Malformed));
}

#[test]
fn malformed_envelopes_fail_decoding() {
    let bad = [
        "",
        "not json",
        "[]",
        "42",
        r#"{"src":"a","dest":"b"}"#,
        r#"{"src":"a","body":{"type":"read"}}"#,
        r#"{"dest":"b","body":{"type":"read"}}"#,
        r#"{"src":1,"dest":"b","body":{"type":"read"}}"#,
        r#"{"src":"a","dest":"b","body":"read"}"#,
        r#"{"src":"a","dest":"b","body":{}}"#,
        r#"{"src":"a","dest":"b","body":{"type":5}}"#,
        r#"{"src":"a","dest":"b","body":{"type":"Read"}}"#,
        r#"{"src":"a","dest":"b","body":{"type":"read","msg_id":"1"}}"#,
        r#"{"src":"a","dest":"b","body":{"type":"read","msg_id":-1}}"#,
        r#"{"src":"a","dest":"b","body":{"type":"read","in_reply_to":1.5}}"#,
        r#"{"src":"a","dest":"b","body":{"type":"echo"}}"#,
        r#"{"src":"a","dest":"b","body":{"type":"echo","echo":5}}"#,
        r#"{"src":"a","dest":"b","body":{"type":"init","node_id":"n1"}}"#,
        r#"{"src":"a","dest":"b","body":{"type":"init","node_id":"n1","node_ids":["n1",2]}}"#,
        r#"{"src":"a","dest":"b","body":{"type":"init","node_id":"n1","node_ids":"n1"}}"#,
        r#"{"src":"a","dest":"b","body":{"type":"broadcast"}}"#,
        r#"{"src":"a","dest":"b","body":{"type":"broadcast","message":"7"}}"#,
        r#"{"src":"a","dest":"b","body":{"type":"broadcast","message":-7}}"#,
        r#"{"src":"a","dest":"b","body":{"type":"read_ok","messages":[1,"2"]}}"#,
        r#"{"src":"a","dest":"b","body":{"type":"read_ok"}}"#,
        r#"{"src":"a","dest":"b","body":{"type":"generate_ok"}}"#,
        r#"{"src":"a","dest":"b","body":{"type":"topology","topology":["n1"]}}"#,
        r#"{"src":"a","dest":"b","body":{"type":"topology","topology":{"n1":"n2"}}}"#,
        r#"{"src":"a","dest":"b","body":{"type":"topology","topology":{"n1":[2]}}}"#,
        r#"{"src":"a","dest":"b","body":{"type":"read"}"#,
    ];
    for text in bad {
        assert_eq!(decode(text), Err(DecodeError::Malformed), "{}", text);
    }
}

#[test]
fn text_nested_too_deep_fails_decoding() {
    let mut text = String::new();
    for _ in 0..200 {
        text.push('[');
    }
    for _ in 0..200 {
        text.push(']');
    }
    assert_eq!(Json::parse(&text), None);
    assert_eq!(decode(&text), Err(DecodeError::Malformed));
}

#[test]
fn encode_writes_absent_ids_as_null() {
    let text = encode(&message(None, None, Payload::InitOk)).unwrap();
    same_json(
        &text,
        r#"{"src":"foo","dest":"bar","body":{"msg_id":null,"in_reply_to":null,"type":"init_ok"}}"#,
    );
}

#[test]
fn encode_init_ok_reply() {
    let msg = Message {
        src: "n1".to_string(),
        dest: "c1".to_string(),
        body: Body { id: Some(0), in_reply_to: Some(1), payload: Payload::InitOk },
    };
    same_json(
        &encode(&msg).unwrap(),
        r#"{"src":"n1","dest":"c1","body":{"msg_id":0,"in_reply_to":1,"type":"init_ok"}}"#,
    );
}

#[test]
fn encode_every_kind() {
    let cases: Vec<(Payload, &str)> = vec![
        (
            Payload::Init { node_id: "n1".to_string(), node_ids: vec!["n1".to_string(), "n2".to_string()] },
            r#"{"type":"init","node_id":"n1","node_ids":["n1","n2"]}"#,
        ),
        (Payload::InitOk, r#"{"type":"init_ok"}"#),
        (Payload::Echo { echo: "hi \"there\"\n".to_string() }, r#"{"type":"echo","echo":"hi \"there\"\n"}"#),
        (Payload::EchoOk { echo: "hi".to_string() }, r#"{"type":"echo_ok","echo":"hi"}"#),
        (Payload::Generate, r#"{"type":"generate"}"#),
        (Payload::GenerateOk { id: "abc".to_string() }, r#"{"type":"generate_ok","id":"abc"}"#),
        (Payload::Broadcast { message: 42 }, r#"{"type":"broadcast","message":42}"#),
        (Payload::BroadcastOk, r#"{"type":"broadcast_ok"}"#),
        (Payload::Read, r#"{"type":"read"}"#),
        (Payload::ReadOk { messages: vec![3, 1, 2] }, r#"{"type":"read_ok","messages":[3,1,2]}"#),
        (
            Payload::Topology {
                topology: vec![
                    ("n1".to_string(), vec!["n2".to_string()]),
                    ("n2".to_string(), vec!["n1".to_string()]),
                ],
            },
            r#"{"type":"topology","topology":{"n1":["n2"],"n2":["n1"]}}"#,
        ),
        (Payload::TopologyOk, r#"{"type":"topology_ok"}"#),
    ];
    for (payload, body) in cases {
        let text = encode(&message(Some(1), None, payload)).unwrap();
        let mut want: serde_json::Value = serde_json::from_str(body).unwrap();
        let fields = want.as_object_mut().unwrap();
        fields.insert("msg_id".to_string(), serde_json::Value::from(1u64));
        fields.insert("in_reply_to".to_string(), serde_json::Value::Null);
        let got: serde_json::Value = serde_json::from_str(&text).unwrap();
        assert_eq!(got["src"], serde_json::Value::from("foo"));
        assert_eq!(got["dest"], serde_json::Value::from("bar"));
        assert_eq!(got["body"], want);
    }
}

#[test]
fn every_kind_is_read_back_as_written() {
    let payloads = vec![
        Payload::Init { node_id: "n1".to_string(), node_ids: vec!["n1".to_string(), "n2".to_string()] },
        Payload::InitOk,
        Payload::Echo { echo: "hello".to_string() },
        Payload::EchoOk { echo: "h\u{e9}llo \u{1F600}".to_string() },
        Payload::Generate,
        Payload::GenerateOk { id: "6f1b2c3d-0000-4000-8000-000000000000".to_string() },
        Payload::Broadcast { message: usize::MAX },
        Payload::BroadcastOk,
        Payload::Read,
        Payload::ReadOk { messages: vec![0, 42, 7] },
        Payload::Topology { topology: vec![("a".to_string(), vec!["b".to_string(), "c".to_string()])] },
        Payload::TopologyOk,
    ];
    for payload in payloads {
        for (id, in_reply_to) in [(None, None), (Some(0), None), (Some(5), Some(4))] {
            let msg = message(id, in_reply_to, payload.clone());
            assert_eq!(decode(&encode(&msg).unwrap()), Ok(msg.clone()));
            assert_eq!(Message::from_json(&msg.to_json()), Ok(msg));
        }
    }
}

#[test]
fn a_repeated_topology_entry_is_written_once_and_its_last_counts() {
    let msg = message(
        None,
        None,
        Payload::Topology {
            topology: vec![
                ("n1".to_string(), vec!["n2".to_string()]),
                ("n1".to_string(), vec!["n3".to_string()]),
            ],
        },
    );
    let back = decode(&encode(&msg).unwrap()).unwrap();
    assert_eq!(
        back.body.payload,
        Payload::Topology { topology: vec![("n1".to_string(), vec!["n3".to_string()])] }
    );
}

#[test]
fn encode_line_ends_with_one_line_feed() {
    let msg = message(Some(1), Some(2), Payload::BroadcastOk);
    let line = encode_line(&msg).unwrap();
    assert!(line.ends_with('\n'));
    assert_eq!(line.matches('\n').count(), 1);
    assert_eq!(&line[..line.len() - 1], encode(&msg).unwrap());
    assert_eq!(decode(&line), Ok(msg));
}

#[test]
fn json_parse_reads_every_kind_of_value() {
    let j = Json::parse(r#"{"a":[null,true,false,7,-1,1.5,"x"],"b":{}}"#).unwrap();
    assert_eq!(
        j,
        Json::Object(vec![
            Member {
                key: "a".to_string(),
                value: Json::Array(vec![
                    Json::Null,
                    Json::Bool(true),
                    Json::Bool(false),
                    Json::Number(Some(7)),
                    Json::Number(None),
                    Json::Number(None),
                    Json::Str("x".to_string()),
                ]),
            },
            Member { key: "b".to_string(), value: Json::Object(vec![]) },
        ])
    );
    assert_eq!(Json::parse("{"), None);
    assert_eq!(Json::parse("18446744073709551615"), Some(Json::Number(Some(u64::MAX))));
    assert_eq!(Json::parse("18446744073709551616"), Some(Json::Number(None)));
}

#[test]
fn json_render_writes_every_kind_of_value() {
    let j = Json::Object(vec![
        Member { key: "k".to_string(), value: Json::Array(vec![Json::Null, Json::Bool(true), Json::Number(Some(7))]) },
        Member { key: "s".to_string(), value: Json::Str("x".to_string()) },
    ]);
    same_json(&j.render().unwrap(), r#"{"k":[null,true,7],"s":"x"}"#);
    assert_eq!(Json::Str("a\"b".to_string()).render().unwrap(), r#""a\"b""#);
    assert_eq!(Json::Number(Some(12)).render().unwrap(), "12");
}

#[test]
fn json_render_keeps_the_last_member_of_a_key() {
    let j = Json::Object(vec![
        Member { key: "k".to_string(), value: Json::Number(Some(1)) },
        Member { key: "k".to_string(), value: Json::Number(Some(2)) },
    ]);
    assert_eq!(j.render().unwrap(), r#"{"k":2}"#);
}

#[test]
fn a_number_without_value_cannot_be_written() {
    assert_eq!(Json::Number(None).render(), Err(EncodeError::Unrepresentable));
    let nested = Json::Array(vec![Json::Object(vec![Member {
        key: "n".to_string(),
        value: Json::Number(None),
    }])]);
    assert_eq!(nested.render(), Err(EncodeError::Unrepresentable));
}
