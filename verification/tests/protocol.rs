use bogobarf::client::{handle_message, rpc_result, topic_list_result, Action, ClientData, ClientNode, FIRST_SEQUENCE_ID};
use bogobarf::error::BogoBarfError;
use bogobarf::frame::{encode_frame, FrameReader, MAX_FRAME_LEN};
use bogobarf::legacy;
use bogobarf::message::{Message, OldMessage};
use bogobarf::server::{start_server, Server};
use bogobarf::topic_list::parse_topic_list;

fn request_parts(m: &Message) -> (u32, String, Vec<String>) {
    match m {
        Message::RpcRequest { sequence_id, method, args } => (*sequence_id, method.clone(), args.clone()),
        other => panic!("not a request: {:?}", other),
    }
}

#[test]
fn encode_frame_writes_big_endian_length_then_payload() {
    let frame = encode_frame(b"hello").unwrap();
    assert_eq!(frame, vec![0, 0, 0, 5, b'h', b'e', b'l', b'l', b'o']);
}

#[test]
fn encode_frame_of_empty_payload_is_a_zero_header() {
    assert_eq!(encode_frame(b"").unwrap(), vec![0, 0, 0, 0]);
}

#[test]
fn encode_frame_header_of_a_long_payload() {
    let payload = vec![7u8; 300];
    let frame = encode_frame(&payload).unwrap();
    assert_eq!(&frame[..4], &[0, 0, 1, 44]);
    assert_eq!(frame.len(), 304);
    assert_eq!(&frame[4..], &payload[..]);
}

#[test]
fn encode_frame_accepts_the_largest_payload() {
    let payload = vec![1u8; MAX_FRAME_LEN];
    let frame = encode_frame(&payload).unwrap();
    assert_eq!(&frame[..4], &[0, 0x80, 0, 0]);
    assert_eq!(frame.len(), MAX_FRAME_LEN + 4);
}

#[test]
fn encode_frame_refuses_a_payload_over_the_limit() {
    let payload = vec![1u8; MAX_FRAME_LEN + 1];
    match encode_frame(&payload) {
        Err(BogoBarfError::Io(_)) => {}
        Ok(_) => panic!("an oversized frame was accepted"),
    }
}

#[test]
fn reader_gives_back_what_was_framed() {
    let mut reader = FrameReader::new();
    let mut stream = encode_frame(b"first").unwrap();
    stream.extend(encode_frame(b"").unwrap());
    stream.extend(encode_frame(b"third one").unwrap());
    reader.extend(&stream);
    assert_eq!(reader.next_frame().unwrap(), Some(b"first".to_vec()));
    assert_eq!(reader.next_frame().unwrap(), Some(Vec::new()));
    assert_eq!(reader.next_frame().unwrap(), Some(b"third one".to_vec()));
    assert_eq!(reader.next_frame().unwrap(), None);
    assert_eq!(reader.buffered_len(), 0);
}

#[test]
fn reader_waits_for_the_last_byte_of_a_frame() {
    let stream = encode_frame(b"abcdef").unwrap();
    let mut reader = FrameReader::new();
    for (i, byte) in stream.iter().enumerate() {
        assert_eq!(reader.next_frame().unwrap(), None);
        reader.extend(&[*byte]);
        assert_eq!(reader.buffered_len(), i + 1);
    }
    assert_eq!(reader.next_frame().unwrap(), Some(b"abcdef".to_vec()));
    assert_eq!(reader.buffered_len(), 0);
}

#[test]
fn reader_splits_the_same_whatever_the_chunks() {
    let mut stream = encode_frame(b"one").unwrap();
    stream.extend(encode_frame(b"two").unwrap());
    stream.extend(encode_frame(b"three").unwrap());
    for cut in 0..=stream.len() {
        let mut reader = FrameReader::new();
        let mut frames = Vec::new();
        for piece in [&stream[..cut], &stream[cut..]] {
            reader.extend(piece);
            while let Some(frame) = reader.next_frame().unwrap() {
                frames.push(frame);
            }
        }
        assert_eq!(frames, vec![b"one".to_vec(), b"two".to_vec(), b"three".to_vec()]);
        assert_eq!(reader.buffered_len(), 0);
    }
}

#[test]
fn reader_refuses_a_header_over_the_limit() {
    let mut reader = FrameReader::new();
    reader.extend(&[0, 0x80, 0, 1, 9, 9]);
    match reader.next_frame() {
        Err(BogoBarfError::Io(_)) => {}
        other => panic!("unexpected {:?}", other),
    }
    assert_eq!(reader.buffered_len(), 6);
}

#[test]
fn reader_keeps_bytes_after_a_frame() {
    let mut reader = FrameReader::new();
    let mut stream = encode_frame(b"xy").unwrap();
    stream.extend(&[0, 0]);
    reader.extend(&stream);
    assert_eq!(reader.next_frame().unwrap(), Some(b"xy".to_vec()));
    assert_eq!(reader.buffered_len(), 2);
    assert_eq!(reader.next_frame().unwrap(), None);
}

#[test]
fn new_client_starts_numbering_at_42() {
    let node: ClientNode<u8, u8> = ClientNode::new();
    assert_eq!(node.next_sequence_id(), 42);
    assert_eq!(FIRST_SEQUENCE_ID, 42);
}

#[test]
fn sequence_numbers_count_up() {
    let mut node: ClientNode<u8, u8> = ClientNode::new();
    assert_eq!(node.get_seq_nr(), 42);
    assert_eq!(node.get_seq_nr(), 43);
    assert_eq!(node.next_sequence_id(), 44);
}

#[test]
fn register_sends_a_register_call() {
    let mut node: ClientNode<u8, u8> = ClientNode::new();
    let request = node.register("rust-client".to_string(), 1);
    assert_eq!(request_parts(&request), (42, "register".to_string(), vec!["rust-client".to_string()]));
    assert_eq!(node.next_sequence_id(), 43);
}

#[test]
fn topic_list_sends_a_call_without_arguments() {
    let mut node: ClientNode<u8, u8> = ClientNode::new();
    let request = node.topic_list(3);
    assert_eq!(request_parts(&request), (42, "topic_list".to_string(), vec![]));
}

#[test]
fn call_method_sends_the_given_call() {
    let mut node: ClientNode<u8, u8> = ClientNode::new();
    node.get_seq_nr();
    let request = node.call_method("ping".to_string(), vec!["a".to_string(), "b".to_string()], 5);
    assert_eq!(request_parts(&request), (43, "ping".to_string(), vec!["a".to_string(), "b".to_string()]));
}

#[test]
fn answer_goes_to_the_waiting_call_once() {
    let mut node: ClientNode<u8, u8> = ClientNode::new();
    node.register("me".to_string(), 10);
    node.topic_list(11);
    let answer43 = Message::RpcResponse { sequence_id: 43, result: "topics".to_string() };
    match node.handle_message(answer43.clone()) {
        Action::Respond { slot, response } => {
            assert_eq!(slot, 11);
            assert_eq!(response, answer43);
        }
        other => panic!("unexpected {:?}", other),
    }
    match node.handle_message(answer43) {
        Action::Spurious { sequence_id } => assert_eq!(sequence_id, 43),
        other => panic!("unexpected {:?}", other),
    }
    match node.handle_message(Message::RpcResponse { sequence_id: 42, result: "ok".to_string() }) {
        Action::Respond { slot, .. } => assert_eq!(slot, 10),
        other => panic!("unexpected {:?}", other),
    }
}

#[test]
fn server_answer_reaches_a_fresh_clients_call() {
    let mut server = start_server();
    let connection = server.connect();
    let mut node: ClientNode<u8, u8> = ClientNode::new();
    let request = node.register("me".to_string(), 10);
    let out = server.handle_message(connection, request);
    assert_eq!(out.sends.len(), 1);
    let (to, reply) = out.sends.into_iter().next().unwrap();
    assert_eq!(to, connection);
    match node.handle_message(reply) {
        Action::Respond { slot, response } => {
            assert_eq!(slot, 10);
            assert_eq!(rpc_result(response), "ok");
        }
        other => panic!("unexpected {:?}", other),
    }
}

#[test]
fn publication_reaches_the_latest_subscriber() {
    let mut node: ClientNode<u8, String> = ClientNode::new();
    let request = node.subscribe("/chatter".to_string(), "queue-a".to_string(), 1);
    assert_eq!(request_parts(&request), (42, "subscribe".to_string(), vec!["/chatter".to_string()]));
    node.subscribe("/other".to_string(), "queue-b".to_string(), 2);
    node.subscribe("/chatter".to_string(), "queue-c".to_string(), 3);
    let publication = node.publish("/chatter".to_string(), "Hello world".to_string());
    match node.handle_message(publication) {
        Action::Deliver { queue, value } => {
            assert_eq!(queue, "queue-c");
            assert_eq!(value, "Hello world");
        }
        other => panic!("unexpected {:?}", other),
    }
    match node.handle_message(Message::Publish { topic: "/other".to_string(), value: "v".to_string() }) {
        Action::Deliver { queue, .. } => assert_eq!(queue, "queue-b"),
        other => panic!("unexpected {:?}", other),
    }
}

#[test]
fn publication_on_an_unknown_topic_is_not_delivered() {
    let mut node: ClientNode<u8, String> = ClientNode::new();
    node.subscribe("/a".to_string(), "q".to_string(), 1);
    match node.handle_message(Message::Publish { topic: "/b".to_string(), value: "v".to_string() }) {
        Action::NotSubscribed { topic } => assert_eq!(topic, "/b"),
        other => panic!("unexpected {:?}", other),
    }
}

#[test]
fn other_messages_are_unhandled() {
    let mut data: ClientData<u8, u8> = ClientData::new();
    for message in [Message::Bye, Message::Event, Message::RpcRequest { sequence_id: 1, method: "m".to_string(), args: vec![] }] {
        match handle_message(&mut data, message.clone()) {
            Action::Unhandled(m) => assert_eq!(m, message),
            other => panic!("unexpected {:?}", other),
        }
    }
}

#[test]
fn publish_and_bye_build_their_messages() {
    let node: ClientNode<u8, u8> = ClientNode::new();
    assert_eq!(
        node.publish("/chatter".to_string(), "Hello world".to_string()),
        Message::Publish { topic: "/chatter".to_string(), value: "Hello world".to_string() }
    );
    assert_eq!(node.bye(), Message::Bye);
}

#[test]
fn results_of_calls() {
    assert_eq!(rpc_result(Message::RpcResponse { sequence_id: 3, result: "r".to_string() }), "r");
    assert_eq!(topic_list_result("a\n/b c\n".to_string()), vec!["a".to_string(), "/b c".to_string()]);
    assert_eq!(topic_list_result(String::new()), Vec::<String>::new());
}

#[test]
fn topic_lists_parse_line_by_line() {
    assert_eq!(parse_topic_list(&"\n".to_string()), vec!["".to_string()]);
    assert_eq!(parse_topic_list(&"x".to_string()), vec!["x".to_string()]);
    assert_eq!(parse_topic_list(&"x\n\ny".to_string()), vec!["x".to_string(), "".to_string(), "y".to_string()]);
    assert_eq!(parse_topic_list(&"ünï\ncödé\n".to_string()), vec!["ünï".to_string(), "cödé".to_string()]);
}

fn call(sequence_id: u32, method: &str, args: &[&str]) -> Message {
    Message::RpcRequest { sequence_id, method: method.to_string(), args: args.iter().map(|a| a.to_string()).collect() }
}

fn reply(sequence_id: u32, result: &str) -> Message {
    Message::RpcResponse { sequence_id, result: result.to_string() }
}

#[test]
fn server_answers_each_call_with_its_number() {
    let mut server = start_server();
    let c = server.connect();
    let out = server.handle_message(c, call(42, "register", &["rust-client"]));
    assert_eq!(out.sends, vec![(c, reply(42, "ok"))]);
    assert!(!out.close);
    let out = server.handle_message(c, call(43, "subscribe", &["/chatter"]));
    assert_eq!(out.sends, vec![(c, reply(43, "ok"))]);
    let out = server.handle_message(c, call(44, "frobnicate", &[]));
    assert_eq!(out.sends, vec![(c, reply(44, "unknown call"))]);
    let out = server.handle_message(c, call(45, "register", &[]));
    assert_eq!(out.sends, vec![(c, reply(45, "unknown call"))]);
}

#[test]
fn server_lists_published_topics() {
    let mut server = start_server();
    let c = server.connect();
    let out = server.handle_message(c, call(1, "topic_list", &[]));
    assert_eq!(out.sends, vec![(c, reply(1, ""))]);
    server.handle_message(c, Message::Publish { topic: "/a".to_string(), value: "1".to_string() });
    server.handle_message(c, Message::Publish { topic: "/b".to_string(), value: "2".to_string() });
    server.handle_message(c, Message::Publish { topic: "/a".to_string(), value: "3".to_string() });
    let out = server.handle_message(c, call(2, "topic_list", &[]));
    assert_eq!(out.sends, vec![(c, reply(2, "/a\n/b\n"))]);
    assert_eq!(topic_list_result("/a\n/b\n".to_string()), vec!["/a".to_string(), "/b".to_string()]);
}

#[test]
fn topic_names_come_back_whole() {
    let mut server = start_server();
    let c = server.connect();
    for topic in ["a\nb", "back\\slash", "\\n", "", "plain"] {
        server.handle_message(c, Message::Publish { topic: topic.to_string(), value: "v".to_string() });
    }
    let out = server.handle_message(c, call(9, "topic_list", &[]));
    let (to, answer) = out.sends.into_iter().next().unwrap();
    assert_eq!(to, c);
    let Message::RpcResponse { sequence_id, result } = answer else { panic!("not an answer") };
    assert_eq!(sequence_id, 9);
    assert_eq!(result, "a\\nb\nback\\\\slash\n\\\\n\n\nplain\n");
    assert_eq!(
        topic_list_result(result),
        vec!["a\nb".to_string(), "back\\slash".to_string(), "\\n".to_string(), "".to_string(), "plain".to_string()]
    );
}

#[test]
fn topic_list_parses_escapes() {
    assert_eq!(parse_topic_list(&"x\\qy\n".to_string()), vec!["xqy".to_string()]);
    assert_eq!(parse_topic_list(&"end\\".to_string()), vec!["end\\".to_string()]);
}

#[test]
fn server_routes_publications_to_subscribers() {
    let mut server = start_server();
    let a = server.connect();
    let b = server.connect();
    let p = server.connect();
    assert_eq!((a, b, p), (0, 1, 2));
    server.handle_message(a, call(1, "subscribe", &["/chatter"]));
    server.handle_message(a, call(2, "subscribe", &["/chatter"]));
    server.handle_message(b, call(1, "subscribe", &["/chatter"]));
    server.handle_message(b, call(2, "subscribe", &["/other"]));
    let publication = Message::Publish { topic: "/chatter".to_string(), value: "Hello world".to_string() };
    let out = server.handle_message(p, publication.clone());
    assert!(!out.close);
    let mut targets: Vec<u64> = out.sends.iter().map(|(c, _)| *c).collect();
    targets.sort();
    assert_eq!(targets, vec![a, b]);
    assert!(out.sends.iter().all(|(_, m)| *m == publication));
    let out = server.handle_message(p, Message::Publish { topic: "/none".to_string(), value: "v".to_string() });
    assert!(out.sends.is_empty());
}

#[test]
fn bye_closes_and_ends_subscriptions() {
    let mut server = start_server();
    let a = server.connect();
    let b = server.connect();
    server.handle_message(a, call(1, "subscribe", &["/t"]));
    server.handle_message(b, call(1, "subscribe", &["/t"]));
    let out = server.handle_message(a, Message::Bye);
    assert!(out.close);
    assert!(out.sends.is_empty());
    let out = server.handle_message(b, Message::Publish { topic: "/t".to_string(), value: "v".to_string() });
    assert_eq!(out.sends.len(), 1);
    assert_eq!(out.sends[0].0, b);
    server.disconnect(b);
    let out = server.handle_message(a, Message::Publish { topic: "/t".to_string(), value: "w".to_string() });
    assert!(out.sends.is_empty());
}

#[test]
fn server_ignores_answers_and_events() {
    let mut server = start_server();
    let c = server.connect();
    for message in [Message::Event, reply(5, "x")] {
        let out = server.handle_message(c, message);
        assert!(out.sends.is_empty());
        assert!(!out.close);
    }
}

#[test]
fn default_server_numbers_connections_from_zero() {
    let mut server = Server::default();
    assert_eq!(server.next_connection(), 0);
    assert_eq!(server.connect(), 0);
    assert_eq!(server.next_connection(), 1);
}

#[test]
fn finish_at_end_of_stream() {
    let mut reader = FrameReader::new();
    assert_eq!(reader.finish().unwrap(), None);
    reader.extend(&encode_frame(b"last").unwrap());
    assert_eq!(reader.finish().unwrap(), Some(b"last".to_vec()));
    assert_eq!(reader.finish().unwrap(), None);
    let mut reader = FrameReader::new();
    reader.extend(&[0, 0, 0, 9]);
    assert_eq!(reader.finish().unwrap(), None);
    let mut reader = FrameReader::new();
    reader.extend(&[0, 0, 0, 9, 1]);
    assert!(matches!(reader.finish(), Err(BogoBarfError::Io(_))));
    assert_eq!(reader.buffered_len(), 5);
    let mut reader = FrameReader::new();
    reader.extend(&[0, 0]);
    assert!(matches!(reader.finish(), Err(BogoBarfError::Io(_))));
    let mut reader = FrameReader::new();
    reader.extend(&[2, 0, 0, 0]);
    assert!(matches!(reader.finish(), Err(BogoBarfError::Io(_))));
}
#[test]
fn io_errors_convert() {
    let err: BogoBarfError = std::io::Error::new(std::io::ErrorKind::Other, "x").into();
    match err {
        BogoBarfError::Io(e) => assert_eq!(e.kind(), std::io::ErrorKind::Other),
    }
}

#[test]
fn old_wire_types_hold_their_fields() {
    let m = legacy::Message { id: 1, text: "t".to_string() };
    assert_eq!(m.id, 1);
    let call = legacy::Message2::RpcRequest(legacy::RpcRequest { sequence_id: 5, method: "m".to_string() });
    assert_eq!(call, legacy::Message2::RpcRequest(legacy::RpcRequest { sequence_id: 5, method: "m".to_string() }));
    assert_ne!(legacy::Message2::RpcResponse(legacy::RpcResponse { sequence_id: 5 }), legacy::Message2::Event);
    let old = OldMessage { id: 2, text: "x".to_string() };
    assert_eq!(old.clone(), old);
}

#[test]
fn drain_takes_every_whole_frame() {
    let mut stream = encode_frame(b"a").unwrap();
    stream.extend(encode_frame(b"bc").unwrap());
    stream.extend(&[0, 0, 0, 3, b'd']);
    let mut reader = FrameReader::new();
    reader.extend(&stream);
    let (frames, refused) = reader.drain();
    assert_eq!(frames, vec![b"a".to_vec(), b"bc".to_vec()]);
    assert!(refused.is_none());
    assert_eq!(reader.buffered_len(), 5);
    reader.extend(b"ef");
    let (frames, refused) = reader.drain();
    assert_eq!(frames, vec![b"def".to_vec()]);
    assert!(refused.is_none());
    assert_eq!(reader.buffered_len(), 0);
}

#[test]
fn drain_stops_at_a_header_over_the_limit() {
    let mut stream = encode_frame(b"ok").unwrap();
    stream.extend(&[1, 0, 0, 0, 5]);
    let mut reader = FrameReader::new();
    reader.extend(&stream);
    let (frames, refused) = reader.drain();
    assert_eq!(frames, vec![b"ok".to_vec()]);
    assert!(matches!(refused, Some(BogoBarfError::Io(_))));
    assert_eq!(reader.buffered_len(), 5);
}
