use maelstrom_node::codec::decode_body;
use maelstrom_node::message::{MaelstromError, MessageBody};

#[test]
fn test_deserialize_init() {
    let init_json = r#"
    {
        "type": "init",
        "msg_id": 1,
        "node_id": "n3",
        "node_ids": ["n1", "n2", "n3"]
    }
    "#;

    let init_message: MessageBody = decode_body(init_json).unwrap();
    match init_message {
        MessageBody::Init(init) => {
            assert_eq!(init.msg_id, 1);
            assert_eq!(init.node_id, "n3");
            assert_eq!(init.node_ids, vec!["n1", "n2", "n3"]);
        }
        _ => panic!("Unexpected message type"),
    }
}

#[test]
fn test_deserialize_topology() {
    let topology_json = r#"
    {
        "type": "topology",
        "msg_id": 2,
        "topology": ["n1", "n2", "n3", "n4"]
    }
    "#;

    let topology_message: MessageBody = decode_body(topology_json).unwrap();
    match topology_message {
        MessageBody::Topology(topology) => {
            assert_eq!(topology.msg_id, 2);
            assert_eq!(topology.topology, vec!["n1", "n2", "n3", "n4"]);
        }
        _ => panic!("Unexpected message type"),
    }
}

#[test]
fn test_deserialize_error() {
    let error_json = r#"
    {
        "type": "error",
        "in_reply_to": 5,
        "code": 11,
        "text": "Node n5 is waiting for quorum and cannot service requests yet"
    }
    "#;

    let error_message: MessageBody = decode_body(error_json).unwrap();

    match error_message {
        MessageBody::Error(err) => {
            assert_eq!(err.in_reply_to, 5);
            println!("{err:#?}");
            assert!(matches!(err.code, MaelstromError::TemporarilyUnavailable));
            assert_eq!(
                err.text,
                "Node n5 is waiting for quorum and cannot service requests yet"
            );
        }
        _ => panic!("Unexpected message type"),
    }
}

#[test]
fn test_deserialize_error_2() {
    let error_json = r#"
    {
        "type": "error",
        "in_reply_to": 3,
        "code": 20,
        "text": "The requested key does not exist"
    }
    "#;

    let error_message: MessageBody = decode_body(error_json).unwrap();

    match error_message {
        MessageBody::Error(err) => {
            assert_eq!(err.in_reply_to, 3);
            assert!(matches!(err.code, MaelstromError::KeyDoesNotExist));
            assert_eq!(err.text, "The requested key does not exist");
        }
        _ => panic!("Unexpected message type"),
    }
}

#[test]
fn test_deserialize_unknown() {
    let unknown_json = r#"
    {
        "type": "unknown",
        "data": "some data"
    }
    "#;

    let unknown_message: MessageBody = decode_body(unknown_json).unwrap();

    match unknown_message {
        MessageBody::Unknown => (),
        _ => panic!("Unexpected message type"),
    }
}
