use maelstrom_echo::id::ID;
use maelstrom_echo::message::{Body, BodyType, Message};
use maelstrom_echo::server::EchoServer;

fn init_message(msg_id: u64, dest: ID, roster: Vec<ID>) -> Message {
    let mut b = Body::empty(BodyType::Init);
    b.msg_id = Some(msg_id);
    b.node_id = Some(dest);
    b.node_ids = Some(roster);
    Message {
        src: ID::Client(1),
        dest,
        body: b,
    }
}

fn initialized_server(roster: Vec<ID>) -> EchoServer {
    let mut s = EchoServer::new();
    let out = s.handle_message(&init_message(1, ID::Node(1), roster));
    assert_eq!(out.len(), 1);
    assert_eq!(out[0].body.body_type, BodyType::InitOk);
    s
}

#[test]
fn init_then_broadcast_scenario() {
    // init from c1 to n1 with the roster [n1, n2]
    let mut s = EchoServer::new();
    let out = s.handle_message(&init_message(1, ID::Node(1), vec![ID::Node(1), ID::Node(2)]));
    assert_eq!(out.len(), 1);
    assert_eq!(out[0].src, ID::Node(1));
    assert_eq!(out[0].dest, ID::Client(1));
    assert_eq!(out[0].body.body_type, BodyType::InitOk);
    assert_eq!(out[0].body.in_reply_to, Some(1));
    assert_eq!(out[0].body.msg_id, Some(1));

    // broadcast of 5 from c1: one fan-out to n2, then the acknowledgment
    let mut b = Body::empty(BodyType::Broadcast);
    b.msg_id = Some(2);
    b.message = Some(5);
    let out = s.handle_message(&Message {
        src: ID::Client(1),
        dest: ID::Node(1),
        body: b,
    });
    assert_eq!(out.len(), 2);
    assert_eq!(out[0].body.body_type, BodyType::Broadcast);
    assert_eq!(out[0].src, ID::Node(1));
    assert_eq!(out[0].dest, ID::Node(2));
    assert_eq!(out[0].body.message, Some(5));
    assert_eq!(out[0].body.in_reply_to, None);
    assert_eq!(out[1].body.body_type, BodyType::BroadcastOk);
    assert_eq!(out[1].dest, ID::Client(1));
    assert_eq!(out[1].body.in_reply_to, Some(2));
}

#[test]
fn init_excludes_self_from_peers() {
    let s = initialized_server(vec![ID::Node(1), ID::Node(2), ID::Node(3)]);
    assert_eq!(s.id, Some(ID::Node(1)));
    assert_eq!(s.node_ids, vec![ID::Node(2), ID::Node(3)]);
}

#[test]
fn reinit_changes_nothing() {
    let mut s = initialized_server(vec![ID::Node(1), ID::Node(2)]);
    let out = s.handle_message(&init_message(9, ID::Node(5), vec![ID::Node(5), ID::Node(6)]));
    assert_eq!(out.len(), 1);
    assert_eq!(out[0].body.body_type, BodyType::InitOk);
    assert_eq!(out[0].src, ID::Node(1));
    assert_eq!(s.id, Some(ID::Node(1)));
    assert_eq!(s.node_ids, vec![ID::Node(2)]);
}

#[test]
fn init_without_roster_is_an_error() {
    let mut s = EchoServer::new();
    let mut b = Body::empty(BodyType::Init);
    b.msg_id = Some(1);
    let out = s.handle_message(&Message {
        src: ID::Client(1),
        dest: ID::Node(1),
        body: b,
    });
    assert_eq!(out.len(), 1);
    assert_eq!(out[0].body.body_type, BodyType::Error);
    assert_eq!(out[0].body.code, Some(13));
    assert_eq!(out[0].body.text.as_deref(), Some(""));
    assert_eq!(s.id, None);
    assert_eq!(s.msg_counter_id, 2);
}

#[test]
fn echo_returns_payload_verbatim() {
    let mut s = initialized_server(vec![ID::Node(1)]);
    let mut b = Body::empty(BodyType::Echo);
    b.msg_id = Some(7);
    b.echo = Some(String::from("Please echo 35"));
    let out = s.handle_message(&Message {
        src: ID::Client(2),
        dest: ID::Node(1),
        body: b,
    });
    assert_eq!(out.len(), 1);
    assert_eq!(out[0].body.body_type, BodyType::EchoOk);
    assert_eq!(out[0].body.echo.as_deref(), Some("Please echo 35"));
    assert_eq!(out[0].body.in_reply_to, Some(7));
    assert_eq!(out[0].body.msg_id, Some(2));
    assert_eq!(out[0].src, ID::Node(1));
    assert_eq!(out[0].dest, ID::Client(2));
}

#[test]
fn echo_before_init_is_an_error() {
    let mut s = EchoServer::new();
    let mut b = Body::empty(BodyType::Echo);
    b.msg_id = Some(1);
    b.echo = Some(String::from("hello"));
    let out = s.handle_message(&Message {
        src: ID::Client(1),
        dest: ID::Node(1),
        body: b,
    });
    assert_eq!(out.len(), 1);
    assert_eq!(out[0].body.body_type, BodyType::Error);
    assert_eq!(out[0].body.code, Some(13));
    assert_eq!(out[0].body.text.as_deref(), Some(""));
    // the error path ticks the counter twice; the second tick is stamped
    assert_eq!(out[0].body.msg_id, Some(2));
    assert_eq!(s.msg_counter_id, 2);
    // the node answers as the envelope's destination while uninitialized
    assert_eq!(out[0].src, ID::Node(1));
}

#[test]
fn unhandled_type_yields_error_13() {
    let mut s = initialized_server(vec![ID::Node(1)]);
    let mut b = Body::empty(BodyType::EchoOk);
    b.msg_id = Some(4);
    let out = s.handle_message(&Message {
        src: ID::Client(1),
        dest: ID::Node(1),
        body: b,
    });
    assert_eq!(out.len(), 1);
    assert_eq!(out[0].body.body_type, BodyType::Error);
    assert_eq!(out[0].body.code, Some(13));
    assert_eq!(out[0].body.text.as_deref(), Some(""));
    assert_eq!(out[0].body.in_reply_to, Some(4));
    assert_eq!(out[0].src, ID::Node(1));
    // two ticks: the counter was 1 after init, so the error carries 3
    assert_eq!(out[0].body.msg_id, Some(3));
    assert_eq!(s.msg_counter_id, 3);
}

#[test]
fn broadcast_ok_is_consumed_silently() {
    let mut s = initialized_server(vec![ID::Node(1), ID::Node(2)]);
    let b = Body::empty(BodyType::BroadcastOk);
    let out = s.handle_message(&Message {
        src: ID::Node(2),
        dest: ID::Node(1),
        body: b,
    });
    assert_eq!(out.len(), 0);
    assert_eq!(s.msg_counter_id, 1);
}

#[test]
fn fanout_visits_every_peer_once_in_order() {
    let mut s = initialized_server(vec![
        ID::Node(1),
        ID::Node(2),
        ID::Node(3),
        ID::Node(4),
    ]);
    let mut b = Body::empty(BodyType::Broadcast);
    b.msg_id = Some(10);
    b.message = Some(42);
    let out = s.handle_message(&Message {
        src: ID::Client(9),
        dest: ID::Node(1),
        body: b,
    });
    assert_eq!(out.len(), 4);
    let dests: Vec<ID> = out[..3].iter().map(|m| m.dest).collect();
    assert_eq!(dests, vec![ID::Node(2), ID::Node(3), ID::Node(4)]);
    for m in &out[..3] {
        assert_eq!(m.body.body_type, BodyType::Broadcast);
        assert_eq!(m.body.message, Some(42));
        assert_eq!(m.src, ID::Node(1));
        assert_eq!(m.body.in_reply_to, None);
    }
    // every emitted envelope consumes one tick, fan-outs first
    assert_eq!(out[0].body.msg_id, Some(2));
    assert_eq!(out[1].body.msg_id, Some(3));
    assert_eq!(out[2].body.msg_id, Some(4));
    assert_eq!(out[3].body.body_type, BodyType::BroadcastOk);
    assert_eq!(out[3].body.msg_id, Some(5));
    assert_eq!(out[3].body.in_reply_to, Some(10));
    assert_eq!(s.msg_counter_id, 5);
}

#[test]
fn broadcast_from_peer_does_not_fan_out() {
    let mut s = initialized_server(vec![ID::Node(1), ID::Node(2), ID::Node(3)]);
    let mut b = Body::empty(BodyType::Broadcast);
    b.msg_id = Some(3);
    b.message = Some(8);
    let out = s.handle_message(&Message {
        src: ID::Node(2),
        dest: ID::Node(1),
        body: b,
    });
    assert_eq!(out.len(), 1);
    assert_eq!(out[0].body.body_type, BodyType::BroadcastOk);
    assert_eq!(out[0].dest, ID::Node(2));
    assert_eq!(s.msg_state, vec![8]);
}

#[test]
fn broadcast_without_value_is_an_error_and_records_nothing() {
    let mut s = initialized_server(vec![ID::Node(1), ID::Node(2)]);
    let mut b = Body::empty(BodyType::Broadcast);
    b.msg_id = Some(2);
    let out = s.handle_message(&Message {
        src: ID::Client(1),
        dest: ID::Node(1),
        body: b,
    });
    assert_eq!(out.len(), 1);
    assert_eq!(out[0].body.body_type, BodyType::Error);
    assert_eq!(out[0].body.code, Some(13));
    assert!(s.msg_state.is_empty());
}

#[test]
fn read_returns_all_values_in_arrival_order_with_duplicates() {
    let mut s = initialized_server(vec![ID::Node(1)]);
    for v in [5u32, 5, 9] {
        let mut b = Body::empty(BodyType::Broadcast);
        b.message = Some(v);
        s.handle_message(&Message {
            src: ID::Node(2),
            dest: ID::Node(1),
            body: b,
        });
    }
    let mut b = Body::empty(BodyType::Read);
    b.msg_id = Some(20);
    let out = s.handle_message(&Message {
        src: ID::Client(1),
        dest: ID::Node(1),
        body: b,
    });
    assert_eq!(out.len(), 1);
    assert_eq!(out[0].body.body_type, BodyType::ReadOk);
    assert_eq!(out[0].body.messages, Some(vec![5, 5, 9]));
    assert_eq!(out[0].body.in_reply_to, Some(20));
}

#[test]
fn topology_is_acknowledged_unconditionally() {
    let mut s = initialized_server(vec![ID::Node(1), ID::Node(2)]);
    let mut b = Body::empty(BodyType::Topology);
    b.msg_id = Some(2);
    let out = s.handle_message(&Message {
        src: ID::Client(1),
        dest: ID::Node(1),
        body: b,
    });
    assert_eq!(out.len(), 1);
    assert_eq!(out[0].body.body_type, BodyType::TopologyOk);
    assert_eq!(out[0].body.in_reply_to, Some(2));
}

#[test]
fn generate_produces_a_decimal_identifier() {
    let mut s = initialized_server(vec![ID::Node(1)]);
    let mut b = Body::empty(BodyType::Generate);
    b.msg_id = Some(2);
    let out = s.handle_message(&Message {
        src: ID::Client(1),
        dest: ID::Node(1),
        body: b,
    });
    assert_eq!(out.len(), 1);
    assert_eq!(out[0].body.body_type, BodyType::GenerateOk);
    let fresh = out[0].body.id.as_deref().expect("generate_ok carries an id");
    assert!(!fresh.is_empty());
    assert!(fresh.len() <= 39);
    assert!(fresh.chars().all(|c| c.is_ascii_digit()));
    if fresh.len() > 1 {
        assert_ne!(fresh.as_bytes()[0], b'0');
    }
}
