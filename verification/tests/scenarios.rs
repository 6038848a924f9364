use nymp2p::data_stream::DataStream;
use nymp2p::net::{extract_message, Network, ReceiveOutcome};
use nymp2p::net_addr::{Address, SockAddr};
use nymp2p::node::{Node, COMMANDS};

fn enc(v: Vec<Address>) -> Vec<u8> {
    vec![v.len() as u8]
}

fn individual(s: &str) -> SockAddr {
    SockAddr::Individual(s.to_string())
}

/// Deliver everything `from` queued for its peer at `to_index` in `to`.
fn deliver(from: &mut Network, from_index: usize, to: &mut Network, from_addr: &str) {
    let bytes = from.nodes[from_index].send_queue().to_vec();
    from.nodes[from_index].clear_send_queue();
    to.handle_message_at(individual(from_addr), &bytes, 1);
}

/// Process every whole message waiting at peer `i`.
fn drain(net: &mut Network, i: usize) -> Vec<String> {
    let mut commands = Vec::new();
    loop {
        assert!(!net.nodes[i].recv_would_overrun());
        match net.receive_next(i) {
            ReceiveOutcome::Message(h, p) => {
                let cmd = h.command().expect("command").to_string();
                let mut msg = DataStream::new(p);
                let out = net.process_message(i, &cmd, &mut msg, &Vec::new(), None, enc);
                assert!(out.accepted);
                commands.push(cmd);
            }
            ReceiveOutcome::Idle | ReceiveOutcome::NeedMoreData => break,
            other => panic!("unexpected {:?}", other),
        }
    }
    commands
}

#[test]
fn two_nodes_handshake() {
    // Bob knows Alice's address and connects; Alice answers the handshake.
    let mut alice = Network::new();
    alice.local_addr = Some(individual("alice"));
    let mut bob = Network::new();
    bob.local_addr = Some(individual("bob"));
    bob.add_peer_address(Address::new(individual("alice"), 0));
    bob.open_connections_at(100);
    assert_eq!(bob.nodes.len(), 1);

    deliver(&mut bob, 0, &mut alice, "bob");
    assert_eq!(drain(&mut alice, 0), vec![COMMANDS::VERSION.to_string()]);
    assert_eq!(alice.nodes[0].version(), 1);
    // Alice learned Bob's address from the handshake.
    assert_eq!(alice.addresses.len(), 1);

    // Alice's VERACK travels back.
    let bytes = alice.nodes[0].send_queue().to_vec();
    alice.nodes[0].clear_send_queue();
    bob.handle_message_at(individual("alice"), &bytes, 2);
    assert_eq!(bob.nodes.len(), 1);
    assert_eq!(drain(&mut bob, 0), vec![COMMANDS::VERACK.to_string()]);
    assert_eq!(bob.nodes[0].version(), 1);
}

#[test]
fn learned_address_is_connected_next_round() {
    // Vivian hears of Bob from Alice and connects to him in the next round.
    let mut vivian = Network::new();
    vivian.local_addr = Some(individual("vivian"));
    vivian.add_peer_address(Address::new(individual("alice"), 0));
    vivian.open_connections_at(0);
    vivian.nodes[0].set_version(1);
    let mut msg = DataStream::new_empty();
    let received = vec![Address::new(individual("bob"), 0), Address::new(individual("vivian"), 0)];
    let out = vivian.process_message(0, COMMANDS::GETADDR, &mut msg, &Vec::new(), Some(received), enc);
    assert!(out.accepted);
    vivian.open_connections_at(30);
    assert_eq!(vivian.nodes.len(), 2);
    assert!(vivian.nodes[1].addr().address.same_as(&individual("bob")));
}

#[test]
fn node_new_is_stamped() {
    let node = Node::new(Address::new(individual("x"), 0), Some(true));
    assert!(node.stats().last_time_recv > 0);
    assert_eq!(node.stats().total_bytes_send, 0);
    assert_eq!(node.stats().last_ping_time, 0);
    assert!(!node.send_queue_empty());
    let mut net = Network::new();
    net.handle_message(individual("y"), &[1]);
    assert_eq!(net.nodes.len(), 1);
    assert!(net.nodes[0].stats().last_time_recv > 0);
    net.open_connections();
}

#[test]
fn partial_frames_wait_for_more_bytes() {
    let mut a = Node::new_at(Address::new(individual("a"), 0), None, 0);
    a.push_message(COMMANDS::PING, &[]);
    let bytes = a.send_queue().to_vec();
    let mut s = DataStream::new(bytes[..10].to_vec());
    assert!(matches!(extract_message(&mut s), ReceiveOutcome::NeedMoreData));
    s.write(&bytes[10..]);
    assert!(matches!(extract_message(&mut s), ReceiveOutcome::Message(_, _)));
}
