use nymp2p::data_stream::DataStream;
use nymp2p::net::{parse_address_lines, extract_message, Network, ReceiveOutcome, str_eq};
use nymp2p::net_addr::{Address, SockAddr};
use nymp2p::net_msg_header::MessageHeader;
use nymp2p::node::{Node, COMMANDS};

fn individual(s: &str) -> SockAddr {
    SockAddr::Individual(s.to_string())
}

/// Stands for the address encoding: one byte holding the count.
fn enc(v: Vec<Address>) -> Vec<u8> {
    vec![v.len() as u8]
}

fn frame(cmd: &str, size: u32, payload: &[u8]) -> Vec<u8> {
    let mut b = MessageHeader::new(Some(cmd), Some(size)).to_bytes();
    b.extend_from_slice(payload);
    b
}

#[test]
fn push_message_on_empty_queue() {
    let mut node = Node::new_at(Address::new(individual("alice"), 0), None, 5);
    node.push_message(COMMANDS::PING, &[1, 2, 3]);
    assert_eq!(node.send_queue(), &frame("PING", 3, &[1, 2, 3])[..]);
    assert_eq!(node.push_position(), -1);
}

#[test]
fn push_message_size_is_payload_length() {
    // The size patched into a second message is its own payload's length.
    let mut node = Node::new_at(Address::new(individual("alice"), 0), None, 5);
    node.push_message(COMMANDS::VERACK, &[]);
    node.push_message(COMMANDS::PONG, &[]);
    node.push_message(COMMANDS::GETADDR, &[4, 5]);
    let mut expected = frame("VERACK", 0, &[]);
    expected.extend(frame("PONG", 0, &[]));
    expected.extend(frame("GETADDR", 2, &[4, 5]));
    assert_eq!(node.send_queue(), &expected[..]);
}

#[test]
fn begin_and_end_message() {
    let mut node = Node::new_at(Address::new(individual("bob"), 0), None, 0);
    node.begin_message("ADDR", true);
    assert!(node.send_queue_empty());
    node.begin_message("ADDR", false);
    assert_eq!(node.push_position(), 0);
    assert_eq!(node.send_queue(), &frame("ADDR", 0, &[])[..]);
    node.end_message();
    assert_eq!(node.push_position(), -1);
    node.end_message();
    assert_eq!(node.send_queue(), &frame("ADDR", 0, &[])[..]);
}

#[test]
fn end_message_after_queued_bytes() {
    let mut node = Node::new_at(Address::new(individual("bob"), 0), None, 0);
    node.push_message(COMMANDS::PING, &[1, 2, 3]);
    node.begin_message("PONG", false);
    assert_eq!(node.push_position(), 23);
    node.end_message();
    let mut expected = frame("PING", 3, &[1, 2, 3]);
    expected.extend(frame("PONG", 0, &[]));
    assert_eq!(node.send_queue(), &expected[..]);
}

#[test]
fn outbound_node_queues_version() {
    let node = Node::new_at(Address::new(individual("carol"), 1), Some(true), 42);
    assert!(!node.is_inbound());
    assert_eq!(node.send_queue(), &frame("VERSION", 4, &[1, 0, 0, 0])[..]);
    assert_eq!(node.stats().last_time_recv, 42);
    let inbound = Node::new_at(Address::new(individual("carol"), 1), Some(false), 42);
    assert!(inbound.is_inbound());
    assert!(inbound.send_queue_empty());
    let inbound = Node::new_at(Address::new(individual("carol"), 1), None, 42);
    assert!(inbound.is_inbound());
}

#[test]
fn framed_message_round_trip() {
    let mut a = Node::new_at(Address::new(individual("a"), 0), None, 0);
    a.push_message(COMMANDS::GETADDR, &[9, 8, 7, 6, 5]);
    let mut s = DataStream::new(a.send_queue().to_vec());
    match extract_message(&mut s) {
        ReceiveOutcome::Message(h, p) => {
            assert_eq!(h.command(), Ok("GETADDR"));
            assert_eq!(h.message_size, 5);
            assert_eq!(p, vec![9, 8, 7, 6, 5]);
        }
        other => panic!("unexpected {:?}", other),
    }
    assert!(s.empty());
    assert_eq!(s.cursor, 0);
}

#[test]
fn extract_drops_garbage_before_magic() {
    let mut bytes = vec![1, 2, 3];
    bytes.extend(frame("PONG", 2, &[0xAA, 0xBB]));
    bytes.extend(vec![7, 7]);
    let mut s = DataStream::new(bytes);
    match extract_message(&mut s) {
        ReceiveOutcome::Message(h, p) => {
            assert_eq!(h.command(), Ok("PONG"));
            assert_eq!(p, vec![0xAA, 0xBB]);
        }
        other => panic!("unexpected {:?}", other),
    }
    assert_eq!(s.data, vec![7, 7]);
}

#[test]
fn extract_on_empty_and_short_buffers() {
    let mut s = DataStream::new_empty();
    assert!(matches!(extract_message(&mut s), ReceiveOutcome::Idle));
    // No whole header: more than twenty bytes keep only the last twenty.
    let mut bytes: Vec<u8> = (0..30).collect();
    bytes.extend(vec![0xFF, 0xFF, 0xFF, 0xF1]);
    let mut s = DataStream::new(bytes.clone());
    assert!(matches!(extract_message(&mut s), ReceiveOutcome::NeedMoreData));
    assert_eq!(s.data, bytes[14..].to_vec());
    // Twenty bytes or fewer stay as they are.
    let mut s = DataStream::new(vec![1, 2, 3]);
    assert!(matches!(extract_message(&mut s), ReceiveOutcome::NeedMoreData));
    assert_eq!(s.data, vec![1, 2, 3]);
}

#[test]
fn extract_invalid_header_is_read_past() {
    let mut bytes = frame("PING", 0, &[]);
    bytes[6] = 0x01;
    let mut s = DataStream::new(bytes.clone());
    assert!(matches!(extract_message(&mut s), ReceiveOutcome::InvalidHeader(_)));
    assert_eq!(s.data, bytes);
    assert_eq!(s.cursor, 20);
}

#[test]
fn extract_incomplete_message() {
    let bytes = frame("PING", 100, &[1, 2]);
    let mut s = DataStream::new(bytes.clone());
    assert!(matches!(extract_message(&mut s), ReceiveOutcome::Incomplete(_)));
    assert_eq!(s.cursor, 20);
    // A size within the buffer but past its end would overrun.
    let bytes = frame("PING", 10, &[1, 2]);
    let s = DataStream::new(bytes);
    assert!(nymp2p::net::overruns(&s));
}

#[test]
fn extract_bad_utf8_command() {
    let mut hdr = MessageHeader::new(None, Some(0));
    hdr.command[0] = 0xC3;
    let mut s = DataStream::new(hdr.to_bytes());
    // A byte above 0x7E is not printable, so the header is invalid first.
    assert!(matches!(extract_message(&mut s), ReceiveOutcome::InvalidHeader(_)));
}

fn network_with_peer(version: u32) -> Network {
    let mut net = Network::new();
    net.handle_message_at(individual("peer"), &[], 1);
    if version != 0 {
        net.nodes[0].set_version(version);
    }
    net
}

#[test]
fn version_handshake() {
    let mut net = network_with_peer(0);
    let queued = net.nodes[0].send_queue().to_vec();
    let mut msg = DataStream::new(vec![1, 0, 0, 0]);
    let out = net.process_message(0, "VERSION", &mut msg, &Vec::new(), None, enc);
    assert!(out.accepted);
    assert_eq!(net.nodes[0].version(), 1);
    let mut expected = queued.clone();
    expected.extend(frame("VERACK", 0, &[]));
    assert_eq!(net.nodes[0].send_queue(), &expected[..]);
    // The individual peer's address is learned and kept.
    let persisted = out.persist.expect("address to keep");
    assert!(persisted.address.same_as(&individual("peer")));
    assert_eq!(net.addresses.len(), 1);
    // A second VERSION is refused.
    let mut msg = DataStream::new(vec![1, 0, 0, 0]);
    let out = net.process_message(0, "VERSION", &mut msg, &Vec::new(), None, enc);
    assert!(!out.accepted);
    assert_eq!(net.addresses.len(), 1);
}

#[test]
fn version_refused_for_other_versions_and_short_payload() {
    let mut net = network_with_peer(0);
    let mut msg = DataStream::new(vec![2, 0, 0, 0]);
    assert!(!net.process_message(0, "VERSION", &mut msg, &Vec::new(), None, enc).accepted);
    assert_eq!(net.nodes[0].version(), 0);
    let mut msg = DataStream::new(vec![1, 0]);
    assert!(!net.process_message(0, "VERSION", &mut msg, &Vec::new(), None, enc).accepted);
    assert_eq!(msg.cursor, 0);
}

#[test]
fn verack_ping_pong_unknown() {
    let mut net = network_with_peer(0);
    let mut msg = DataStream::new_empty();
    assert!(net.process_message(0, "VERACK", &mut msg, &Vec::new(), None, enc).accepted);
    assert_eq!(net.nodes[0].version(), 1);
    // VERACK asks the peer for its addresses.
    assert_eq!(net.nodes[0].send_queue(), &frame("ADDR", 0, &[])[..]);
    let before = net.nodes[0].send_queue().len();
    assert!(net.process_message(0, "PING", &mut msg, &Vec::new(), None, enc).accepted);
    let q = net.nodes[0].send_queue().to_vec();
    assert_eq!(&q[before..], &frame("PONG", 0, &[])[..]);
    assert!(net.process_message(0, "PONG", &mut msg, &Vec::new(), None, enc).accepted);
    assert!(!net.process_message(0, "HELLO", &mut msg, &Vec::new(), None, enc).accepted);
}

#[test]
fn addr_sends_each_address_once() {
    let mut net = network_with_peer(1);
    net.add_peer_address(Address::new(individual("x"), 0));
    net.add_peer_address(Address::new(individual("y"), 0));
    let hashes = vec![[1u8; 32], [2u8; 32]];
    let mut msg = DataStream::new_empty();
    let out = net.process_message(0, "ADDR", &mut msg, &hashes, None, enc);
    assert!(out.accepted);
    assert_eq!(out.reply_addresses.expect("reply").len(), 2);
    assert_eq!(net.nodes[0].already_send_addrs(), &hashes);
    // The addresses go back, encoded, in a GETADDR message.
    assert_eq!(net.nodes[0].send_queue(), &frame("GETADDR", 1, &[2])[..]);
    net.add_peer_address(Address::new(individual("z"), 0));
    let hashes = vec![[1u8; 32], [2u8; 32], [3u8; 32]];
    let out = net.process_message(0, "ADDR", &mut msg, &hashes, None, enc);
    let reply = out.reply_addresses.expect("reply");
    assert_eq!(reply.len(), 1);
    assert!(reply[0].address.same_as(&individual("z")));
    let out = net.process_message(0, "ADDR", &mut msg, &hashes, None, enc);
    assert_eq!(out.reply_addresses.expect("reply").len(), 0);
}

#[test]
fn getaddr_merges_addresses() {
    let mut net = network_with_peer(1);
    net.local_addr = Some(individual("me"));
    net.add_peer_address(Address::new(individual("x"), 0));
    let received = vec![
        Address::new(individual("me"), 0),
        Address::new(individual("x"), 5),
        Address::new(individual("y"), 0),
        Address::new(individual("y"), 1),
    ];
    let mut msg = DataStream::new_empty();
    let out = net.process_message(0, "GETADDR", &mut msg, &Vec::new(), Some(received), enc);
    assert!(out.accepted);
    assert_eq!(net.addresses.len(), 2);
    assert!(net.addresses[1].address.same_as(&individual("y")));
    assert_eq!(net.addresses[1].services, 0);
    // A payload that could not be read is refused.
    let out = net.process_message(0, "GETADDR", &mut msg, &Vec::new(), None, enc);
    assert!(!out.accepted);
}

#[test]
fn handle_message_known_and_new_peers() {
    let mut net = Network::new();
    net.handle_message_at(individual("p"), &[5, 6], 10);
    assert_eq!(net.nodes.len(), 1);
    assert!(net.nodes[0].is_inbound());
    assert_eq!(net.nodes[0].data_recv().data, vec![5, 6]);
    net.handle_message_at(individual("p"), &[7], 11);
    assert_eq!(net.nodes.len(), 1);
    assert_eq!(net.nodes[0].data_recv().data, vec![5, 6, 7]);
    assert_eq!(net.nodes[0].stats().last_time_recv, 11);
    net.handle_message_at(SockAddr::Anonymous("tag".to_string()), &[], 12);
    assert_eq!(net.nodes.len(), 2);
    assert!(net.nodes[1].is_anonymous());
}

#[test]
fn handle_messages_in_order() {
    let mut net = Network::new();
    net.handle_messages_at(
        vec![
            (individual("p"), vec![5]),
            (individual("q"), vec![]),
            (individual("p"), vec![6, 7]),
        ],
        20,
    );
    assert_eq!(net.nodes.len(), 2);
    assert_eq!(net.nodes[0].data_recv().data, vec![5, 6, 7]);
    assert_eq!(net.nodes[0].stats().last_time_recv, 20);
    assert!(net.nodes[1].addr().same_as(&Address::new(individual("q"), 0)));
    let mut live = Network::new();
    live.handle_messages(vec![(individual("r"), vec![9]), (individual("r"), vec![8])]);
    assert_eq!(live.nodes.len(), 1);
    assert_eq!(live.nodes[0].data_recv().data, vec![9, 8]);
}

#[test]
fn open_connections_skips_known_local_and_failed() {
    let mut net = Network::new();
    net.local_addr = Some(individual("me"));
    net.add_peer_address(Address::new(individual("me"), 0));
    net.add_peer_address(Address::new(individual("a"), 0));
    let mut failed = Address::new(individual("b"), 0);
    failed.last_failed_time = 990;
    net.add_peer_address(failed);
    let mut old_failure = Address::new(individual("c"), 0);
    old_failure.last_failed_time = 100;
    net.add_peer_address(old_failure);
    net.open_connections_at(1000);
    assert_eq!(net.nodes.len(), 2);
    assert!(net.nodes[0].addr().address.same_as(&individual("a")));
    assert!(net.nodes[1].addr().address.same_as(&individual("c")));
    assert!(!net.nodes[0].is_inbound());
    // Already connected peers are not opened again.
    net.open_connections_at(1000);
    assert_eq!(net.nodes.len(), 2);
}

#[test]
fn open_connections_with_failure_after_clock() {
    // A failure time after the clock wraps around to a long time ago.
    let mut net = Network::new();
    let mut future = Address::new(individual("f"), 0);
    future.last_failed_time = 2000;
    net.add_peer_address(future);
    net.add_peer_address(Address::new(individual("g"), 0));
    net.open_connections_at(1000);
    assert_eq!(net.nodes.len(), 2);
    // One just short of 300 seconds after the clock, wrapped, is recent.
    let mut wrapped = Network::new();
    let mut near = Address::new(individual("h"), 0);
    near.last_failed_time = u64::MAX;
    wrapped.add_peer_address(near);
    wrapped.open_connections_at(100);
    assert_eq!(wrapped.nodes.len(), 0);
}

#[test]
fn open_connections_stops_at_ten_peers() {
    let mut net = Network::new();
    for i in 0..10 {
        net.handle_message_at(individual(&format!("p{}", i)), &[], 0);
    }
    net.add_peer_address(Address::new(individual("new"), 0));
    net.open_connections_at(5);
    assert_eq!(net.nodes.len(), 10);
}

#[test]
fn request_peer_addresses_only_after_handshake() {
    let mut net = network_with_peer(0);
    net.handle_message_at(individual("second"), &[], 0);
    net.nodes[1].set_version(1);
    net.request_peer_addresses();
    assert!(net.nodes[0].send_queue_empty());
    assert_eq!(net.nodes[1].send_queue(), &frame("ADDR", 0, &[])[..]);
}

#[test]
fn receive_next_takes_message_from_peer() {
    let mut net = network_with_peer(0);
    let f = frame("PING", 0, &[]);
    net.nodes[0].receive(&f, 3);
    assert!(!net.nodes[0].recv_would_overrun());
    match net.receive_next(0) {
        ReceiveOutcome::Message(h, p) => {
            assert_eq!(h.command(), Ok("PING"));
            assert!(p.is_empty());
        }
        other => panic!("unexpected {:?}", other),
    }
}

#[test]
fn add_peer_address_dedups_by_socket_address() {
    let mut net = Network::new();
    assert!(net.add_peer_address(Address::new(individual("a"), 0)));
    assert!(!net.add_peer_address(Address::new(individual("a"), 7)));
    assert!(net.add_peer_address(Address::new(SockAddr::Anonymous("a".to_string()), 0)));
    assert_eq!(net.addresses.len(), 2);
    net.clear();
    assert!(net.addresses.is_empty());
    assert!(net.nodes.is_empty());
}

#[test]
fn find_node_compares_whole_address() {
    let mut net = Network::new();
    net.handle_message_at(individual("a"), &[], 0);
    assert_eq!(net.find_node(&Address::new(individual("a"), 0)), Some(0));
    assert_eq!(net.find_node(&Address::new(individual("a"), 1)), None);
}

#[test]
fn address_lines_are_trimmed() {
    let lines = parse_address_lines("  alice \r\n\n\tbob\n \u{3000}\ncarol");
    assert_eq!(lines, vec!["alice".to_string(), "bob".to_string(), "carol".to_string()]);
    assert!(parse_address_lines("").is_empty());
    assert_eq!(parse_address_lines("a\rb\n"), vec!["a\rb".to_string()]);
}

#[test]
fn strings_compare() {
    assert!(str_eq("VERSION", COMMANDS::VERSION));
    assert!(!str_eq("VERSIO", COMMANDS::VERSION));
}
