use maelstrom_node::codec::{decode, decode_body, encode, encode_response, DecodeError, FieldPath};
use maelstrom_node::message::{
    derive_response, ErrorMessage, InitMessage, MaelstromError, Message, MessageBody,
    ResponseBody, TopologyMessage,
};
use maelstrom_node::node::{DispatchOutcome, Node};

fn s(x: &str) -> String {
    x.to_string()
}

#[test]
fn init_request_gets_init_ok_reply() {
    let line = r#"{"src":"c1","dest":"n3","body":{"type":"init","msg_id":1,"node_id":"n3","node_ids":["n1","n2","n3"]}}"#;
    let msg = decode(line).unwrap();
    let mut node = Node::new(s("n3"));
    match node.handle_message(msg) {
        DispatchOutcome::Reply(reply) => {
            let out = encode_response(&reply);
            assert_eq!(
                out,
                r#"{"src":"n3","dest":"c1","body":{"type":"init_ok","in_reply_to":1,"msg_id":0}}"#
            );
        }
        _ => panic!("init must be answered"),
    }
}

#[test]
fn topology_request_gets_topology_ok_reply() {
    let line = r#"{"src":"c1","dest":"n3","body":{"type":"topology","msg_id":2,"topology":["n1","n2"]}}"#;
    let msg = decode(line).unwrap();
    let mut node = Node::new(s("n3"));
    match node.handle_message(msg) {
        DispatchOutcome::Reply(reply) => {
            let out = encode_response(&reply);
            assert_eq!(
                out,
                r#"{"src":"n3","dest":"c1","body":{"type":"topology_ok","msg_id":0,"in_reply_to":2}}"#
            );
        }
        _ => panic!("topology must be answered"),
    }
}

#[test]
fn bogus_kind_yields_no_reply_and_one_diagnostic() {
    let line = r#"{"src":"c1","dest":"n3","body":{"type":"bogus","data":"some data"}}"#;
    let msg = decode(line).unwrap();
    assert!(matches!(msg.body, MessageBody::Unknown));
    let mut node = Node::new(s("n3"));
    let outcome = node.handle_message(msg);
    assert!(matches!(outcome, DispatchOutcome::Unhandled));
}

#[test]
fn error_body_decodes_and_is_never_replied_to() {
    let line = r#"{"src":"n5","dest":"c1","body":{"type":"error","in_reply_to":5,"code":11,"text":"busy"}}"#;
    let msg = decode(line).unwrap();
    match &msg.body {
        MessageBody::Error(err) => {
            assert_eq!(err.in_reply_to, 5);
            assert!(matches!(err.code, MaelstromError::TemporarilyUnavailable));
            assert_eq!(err.text, "busy");
        }
        _ => panic!("Unexpected message type"),
    }
    let mut node = Node::new(s("c1"));
    let outcome = node.handle_message(msg);
    assert!(matches!(outcome, DispatchOutcome::Ignored));
}

#[test]
fn unknown_error_code_fails_decoding_at_body_code() {
    let body = r#"{"type":"error","in_reply_to":5,"code":99,"text":"busy"}"#;
    let err = decode_body(body).unwrap_err();
    assert_eq!(err, DecodeError::UnknownErrorCode);
    assert_eq!(err.path(), "body.code");

    let line = r#"{"src":"n5","dest":"c1","body":{"type":"error","in_reply_to":5,"code":99,"text":"busy"}}"#;
    let err = decode(line).unwrap_err();
    assert_eq!(err.path(), "body.code");
}

#[test]
fn round_trip_reproduces_every_semantic_field() {
    let envelopes = vec![
        Message {
            src: s("c1"),
            dest: s("n3"),
            body: MessageBody::Init(InitMessage {
                msg_id: 4294967295,
                node_id: s("n3"),
                node_ids: vec![s("n1"), s("n2"), s("n3")],
            }),
        },
        Message {
            src: s("a \"quoted\" one"),
            dest: s("back\\slash\nand\ttabs\r"),
            body: MessageBody::Topology(TopologyMessage {
                msg_id: 0,
                topology: vec![],
            }),
        },
        Message {
            src: s("n5"),
            dest: s("c1"),
            body: MessageBody::Error(ErrorMessage {
                in_reply_to: 5,
                code: MaelstromError::TxnConflict,
                text: s("unicode: é λ — ok"),
            }),
        },
        Message {
            src: s("x"),
            dest: s("y"),
            body: MessageBody::Unknown,
        },
    ];
    for e in envelopes {
        let line = encode(&e);
        let d = decode(&line).unwrap();
        assert_eq!(d.src, e.src);
        assert_eq!(d.dest, e.dest);
        match (&d.body, &e.body) {
            (MessageBody::Init(a), MessageBody::Init(b)) => {
                assert_eq!(a.msg_id, b.msg_id);
                assert_eq!(a.node_id, b.node_id);
                assert_eq!(a.node_ids, b.node_ids);
            }
            (MessageBody::Topology(a), MessageBody::Topology(b)) => {
                assert_eq!(a.msg_id, b.msg_id);
                assert_eq!(a.topology, b.topology);
            }
            (MessageBody::Error(a), MessageBody::Error(b)) => {
                assert_eq!(a.in_reply_to, b.in_reply_to);
                assert_eq!(a.code, b.code);
                assert_eq!(a.text, b.text);
            }
            (MessageBody::Unknown, MessageBody::Unknown) => {}
            _ => panic!("body kind changed in the round trip"),
        }
    }
}

#[test]
fn derive_response_is_total_and_correlates() {
    let init = MessageBody::Init(InitMessage {
        msg_id: 7,
        node_id: s("n1"),
        node_ids: vec![s("n1")],
    });
    match derive_response(&init, 42) {
        Some(ResponseBody::InitOk(r)) => {
            assert_eq!(r.in_reply_to, 7);
            assert_eq!(r.msg_id, 42);
        }
        _ => panic!("init must derive init_ok"),
    }

    let topo = MessageBody::Topology(TopologyMessage {
        msg_id: 9,
        topology: vec![],
    });
    match derive_response(&topo, 43) {
        Some(ResponseBody::TopologyOk(r)) => {
            assert_eq!(r.in_reply_to, 9);
            assert_eq!(r.msg_id, 43);
        }
        _ => panic!("topology must derive topology_ok"),
    }

    let err = MessageBody::Error(ErrorMessage {
        in_reply_to: 1,
        code: MaelstromError::Timeout,
        text: s(""),
    });
    assert!(derive_response(&err, 44).is_none());
    assert!(derive_response(&MessageBody::Unknown, 45).is_none());
}

#[test]
fn reply_counter_increases_once_per_reply() {
    let mut node = Node::new(s("n1"));
    let mk = |id: u32| Message {
        src: s("c1"),
        dest: s("n1"),
        body: MessageBody::Topology(TopologyMessage {
            msg_id: id,
            topology: vec![],
        }),
    };
    for expect in 0u32..3 {
        match node.handle_message(mk(expect + 100)) {
            DispatchOutcome::Reply(reply) => match reply.body {
                ResponseBody::TopologyOk(r) => {
                    assert_eq!(r.msg_id, expect);
                    assert_eq!(r.in_reply_to, expect + 100);
                }
                _ => panic!("wrong reply shape"),
            },
            _ => panic!("topology must be answered"),
        }
    }
}

#[test]
fn reply_envelope_swaps_source_and_destination() {
    let msg = decode(r#"{"src":"c9","dest":"n2","body":{"type":"init","msg_id":3,"node_id":"n2","node_ids":[]}}"#).unwrap();
    let mut node = Node::new(s("n2"));
    match node.handle_message(msg) {
        DispatchOutcome::Reply(reply) => {
            assert_eq!(reply.src, "n2");
            assert_eq!(reply.dest, "c9");
        }
        _ => panic!("init must be answered"),
    }
}

#[test]
fn error_codes_map_both_ways() {
    let table: Vec<(MaelstromError, u32)> = vec![
        (MaelstromError::Timeout, 0),
        (MaelstromError::NodeNotFound, 1),
        (MaelstromError::NotSupported, 10),
        (MaelstromError::TemporarilyUnavailable, 11),
        (MaelstromError::MalformedRequest, 12),
        (MaelstromError::Crash, 13),
        (MaelstromError::Abort, 14),
        (MaelstromError::KeyDoesNotExist, 20),
        (MaelstromError::KeyAlreadyExists, 21),
        (MaelstromError::PreconditionFailed, 22),
        (MaelstromError::TxnConflict, 30),
    ];
    for (e, c) in table {
        assert_eq!(e.to_code(), c);
        assert_eq!(MaelstromError::from_code(c), Some(e));
    }
    assert_eq!(MaelstromError::from_code(2), None);
    assert_eq!(MaelstromError::from_code(99), None);
}

#[test]
fn envelope_shape_is_strict() {
    let err = decode(r#"{"dest":"n3","body":{"type":"unknown"}}"#).unwrap_err();
    assert_eq!(err, DecodeError::Missing(FieldPath::Src));
    assert_eq!(err.path(), "src");

    let err = decode(r#"{"src":"c1","body":{"type":"unknown"}}"#).unwrap_err();
    assert_eq!(err, DecodeError::Missing(FieldPath::Dest));
    assert_eq!(err.path(), "dest");

    let err = decode(r#"{"src":"c1","dest":"n3"}"#).unwrap_err();
    assert_eq!(err, DecodeError::Missing(FieldPath::Body));
    assert_eq!(err.path(), "body");

    let err = decode(r#"{"src":7,"dest":"n3","body":{"type":"unknown"}}"#).unwrap_err();
    assert_eq!(err, DecodeError::Invalid(FieldPath::Src));

    let err = decode(r#"{"src":"c1","dest":"n3","body":"flat"}"#).unwrap_err();
    assert_eq!(err, DecodeError::Invalid(FieldPath::Body));
    assert_eq!(err.path(), "body");
}

#[test]
fn body_shape_is_permissive_but_typed() {
    // Extra fields are ignored; order does not matter.
    let msg = decode_body(r#"{"extra":[1,{"deep":true}],"msg_id":5,"node_id":"n1","node_ids":[],"type":"init"}"#)
        .unwrap();
    match msg {
        MessageBody::Init(init) => {
            assert_eq!(init.msg_id, 5);
            assert_eq!(init.node_id, "n1");
            assert!(init.node_ids.is_empty());
        }
        _ => panic!("Unexpected message type"),
    }

    // A required field with the wrong shape is an error with its path.
    let err = decode_body(r#"{"type":"init","msg_id":"x","node_id":"n1","node_ids":[]}"#).unwrap_err();
    assert_eq!(err, DecodeError::Invalid(FieldPath::BodyMsgId));
    assert_eq!(err.path(), "body.msg_id");

    let err = decode_body(r#"{"type":"init","node_id":"n1","node_ids":[]}"#).unwrap_err();
    assert_eq!(err, DecodeError::Missing(FieldPath::BodyMsgId));

    // Oversized numbers do not fit a numeric field.
    let err = decode_body(r#"{"type":"init","msg_id":4294967296,"node_id":"n1","node_ids":[]}"#).unwrap_err();
    assert_eq!(err, DecodeError::Invalid(FieldPath::BodyMsgId));

    // But they are tolerated in fields nobody reads.
    let msg = decode_body(r#"{"type":"strange","huge":123456789012345678901234567890,"neg":-1,"frac":1.5e9}"#)
        .unwrap();
    assert!(matches!(msg, MessageBody::Unknown));
}

#[test]
fn malformed_lines_are_syntax_errors() {
    assert_eq!(decode("").unwrap_err(), DecodeError::Syntax);
    assert_eq!(decode("not json").unwrap_err(), DecodeError::Syntax);
    assert_eq!(decode(r#"{"src""#).unwrap_err(), DecodeError::Syntax);
    assert_eq!(decode(r#"{"src":"a","dest":"b","body":{"type":"unknown"}} tail"#).unwrap_err(), DecodeError::Syntax);
    assert_eq!(
        decode(r#"{"src":"a","dest":"b","body":{"type":"unknown"}}{}"#).unwrap_err(),
        DecodeError::Trailing
    );
    assert_eq!(decode(r#"{"src":"a","dest":"b","body":{"type":"\q"}}"#).unwrap_err(), DecodeError::Syntax);
}

#[test]
fn escapes_decode_to_their_characters() {
    let msg = decode_body(r#"{"type":"error","in_reply_to":0,"code":0,"text":"a\"b\\c\/d\ne\tf\rg"}"#).unwrap();
    match msg {
        MessageBody::Error(err) => {
            assert_eq!(err.text, "a\"b\\c/d\ne\tf\rg");
        }
        _ => panic!("Unexpected message type"),
    }
}

#[test]
fn encode_produces_the_canonical_line() {
    let e = Message {
        src: s("c1"),
        dest: s("n3"),
        body: MessageBody::Init(InitMessage {
            msg_id: 1,
            node_id: s("n3"),
            node_ids: vec![s("n1"), s("n2")],
        }),
    };
    assert_eq!(
        encode(&e),
        r#"{"src":"c1","dest":"n3","body":{"type":"init","msg_id":1,"node_id":"n3","node_ids":["n1","n2"]}}"#
    );

    let e = Message {
        src: s("a\"b"),
        dest: s("c\\d"),
        body: MessageBody::Unknown,
    };
    assert_eq!(encode(&e), r#"{"src":"a\"b","dest":"c\\d","body":{"type":"unknown"}}"#);
}

#[test]
fn repeated_member_keeps_the_last_value() {
    let msg = decode_body(r#"{"type":"init","msg_id":1,"msg_id":2,"node_id":"n1","node_ids":[]}"#)
        .unwrap();
    match msg {
        MessageBody::Init(init) => assert_eq!(init.msg_id, 2),
        _ => panic!("Unexpected message type"),
    }
}

#[test]
fn empty_body_object_misses_its_tag() {
    let err = decode_body("{}").unwrap_err();
    assert_eq!(err, DecodeError::Missing(FieldPath::BodyType));
    assert_eq!(err.path(), "body.type");
}

#[test]
fn error_body_requires_all_its_fields() {
    let err = decode_body(r#"{"type":"error","in_reply_to":5,"code":11}"#).unwrap_err();
    assert_eq!(err, DecodeError::Missing(FieldPath::BodyText));
    assert_eq!(err.path(), "body.text");

    let err = decode_body(r#"{"type":"error","code":11,"text":"x"}"#).unwrap_err();
    assert_eq!(err, DecodeError::Missing(FieldPath::BodyInReplyTo));
    assert_eq!(err.path(), "body.in_reply_to");

    let err = decode_body(r#"{"type":"topology","msg_id":2}"#).unwrap_err();
    assert_eq!(err, DecodeError::Missing(FieldPath::BodyTopology));
    assert_eq!(err.path(), "body.topology");
}

#[test]
fn a_fresh_node_reports_its_identity_and_capacity() {
    let node = Node::new(s("n7"));
    assert_eq!(node.node_id(), "n7");
    assert!(node.has_fresh_ids());
}
