use pea2pea::codec::packet_message;
use pea2pea::config::NodeConfig;
use pea2pea::node::Node;
use pea2pea::NodeError;
use pea2pea::PeerAddr;

fn peer(port: u16) -> PeerAddr {
    PeerAddr::loopback(port)
}

/// A writer sends `K` identical framed payloads of length `L`; its sent
/// statistics come to `(K, K * (L + 2))`, at the node and for the peer.
#[test]
fn sent_stats_count_messages_and_framed_bytes() {
    const K: u64 = 8;
    const L: usize = 100;
    let mut writer = Node::new(None, "writer".to_string(), PeerAddr::loopback(0));
    let reader_addr = peer(9000);
    writer.initiate_connection(reader_addr).unwrap();
    writer.mark_as_handshaken(reader_addr).unwrap();

    let payload = vec![7u8; L];
    let frame = packet_message(&payload).unwrap();
    for _ in 0..K {
        writer.send_direct_message(reader_addr, frame.clone()).unwrap();
    }
    // stats advance only once the writer task reports the bytes written
    assert_eq!(writer.stats().sent(), (0, 0));
    for _ in 0..K {
        let msg = writer.writer_pop(reader_addr).unwrap().unwrap();
        assert_eq!(msg, frame);
        writer.writer_done(reader_addr, &msg);
    }
    assert!(writer.writer_pop(reader_addr).unwrap().is_none());

    let expected = (K, K * (L as u64 + 2));
    assert_eq!(writer.stats().sent(), expected);
    assert_eq!(writer.peer_stats(reader_addr).unwrap().sent(), expected);
}

/// An accepted peer's address is ephemeral: what its writer emits is not
/// booked against that address.
#[test]
fn responder_side_sends_leave_the_outbound_counters_alone() {
    let mut node = Node::new(None, "echo".to_string(), PeerAddr::loopback(0));
    let a = peer(50001);
    node.accept_connection(a).unwrap();
    node.mark_as_handshaken(a).unwrap();
    node.send_direct_message(a, packet_message(&b"hi".to_vec()).unwrap()).unwrap();
    let msg = node.writer_pop(a).unwrap().unwrap();
    node.writer_done(a, &msg);
    assert_eq!(node.stats().sent(), (0, 0));
    assert_eq!(node.peer_stats(a).unwrap().sent(), (0, 0));
}

/// A reader parses `K` frames of length `L`; its received statistics come to
/// `(K, K * (L + 2))`.
#[test]
fn received_stats_count_messages_and_framed_bytes() {
    const K: u64 = 5;
    const L: usize = 40;
    let mut reader = Node::new(None, "reader".to_string(), PeerAddr::loopback(0));
    let a = peer(50001);
    reader.accept_connection(a).unwrap();
    reader.mark_as_handshaken(a).unwrap();

    let payload = vec![3u8; L];
    let frame = packet_message(&payload).unwrap();
    let mut wire: Vec<u8> = Vec::new();
    for _ in 0..K {
        wire.extend_from_slice(&frame);
    }
    assert_eq!(reader.reader_step(a, &wire), Ok(false));
    for _ in 0..K {
        let msg = reader.next_inbound_message(a).unwrap().unwrap();
        assert_eq!(msg, payload);
        reader.register_received_message(a, msg.len() + 2);
    }
    assert!(reader.next_inbound_message(a).unwrap().is_none());

    let expected = (K, K * (L as u64 + 2));
    assert_eq!(reader.stats().received(), expected);
    assert_eq!(reader.peer_stats(a).unwrap().received(), expected);
    assert_eq!(reader.num_messages_received(), K);
}

/// Messages come out in wire order even when frames arrive split across
/// reads.
#[test]
fn delivery_keeps_wire_order_across_split_reads() {
    let mut reader = Node::new(None, "reader".to_string(), PeerAddr::loopback(0));
    let a = peer(50001);
    reader.accept_connection(a).unwrap();
    reader.mark_as_handshaken(a).unwrap();

    let mut wire = packet_message(&b"herp".to_vec()).unwrap();
    wire.extend_from_slice(&packet_message(&b"derp".to_vec()).unwrap());
    // split in the middle of the second frame
    let cut = 7;
    let first = wire[..cut].to_vec();
    let second = wire[cut..].to_vec();

    assert_eq!(reader.reader_step(a, &first), Ok(false));
    assert_eq!(reader.next_inbound_message(a).unwrap().unwrap(), b"herp".to_vec());
    assert!(reader.next_inbound_message(a).unwrap().is_none());

    assert_eq!(reader.reader_step(a, &second), Ok(false));
    assert_eq!(reader.next_inbound_message(a).unwrap().unwrap(), b"derp".to_vec());
    assert!(reader.next_inbound_message(a).unwrap().is_none());
}

/// An invalid frame registers a failure and tells the reader task to pause;
/// afterwards reading resumes.
#[test]
fn invalid_data_penalizes_and_reading_resumes() {
    let mut reader = Node::new(None, "reader".to_string(), PeerAddr::loopback(0));
    let a = peer(50001);
    reader.accept_connection(a).unwrap();
    reader.mark_as_handshaken(a).unwrap();
    assert_eq!(reader.peer_stats(a).unwrap().failures, 0);

    // a zero length prefix is invalid data
    assert_eq!(reader.reader_step(a, &vec![0u8, 0u8]), Ok(true));
    assert_eq!(reader.peer_stats(a).unwrap().failures, 1);

    // the reader sleeps the configured penalty, then resumes
    let frame = packet_message(&b"after".to_vec()).unwrap();
    assert_eq!(reader.reader_step(a, &frame), Ok(false));
    assert_eq!(reader.next_inbound_message(a).unwrap().unwrap(), b"after".to_vec());
}

#[test]
fn reading_an_unknown_peer_fails() {
    let mut reader = Node::new(None, "reader".to_string(), PeerAddr::loopback(0));
    let a = peer(50001);
    assert_eq!(reader.reader_step(a, &vec![1u8, 0, 9]), Err(NodeError::NotConnected));
    assert_eq!(reader.next_inbound_message(a), Err(NodeError::NotConnected));
    // a peer still handshaking has no reader task either
    reader.accept_connection(a).unwrap();
    assert_eq!(reader.reader_step(a, &vec![1u8, 0, 9]), Err(NodeError::NotConnected));
}

/// The next non-waiting send into a full outbound queue errors with
/// `QueueFull` and changes nothing.
#[test]
fn a_full_outbound_queue_refuses_the_next_send() {
    let mut config = NodeConfig::default();
    config.conn_outbound_queue_depth = 2;
    let mut node = Node::new(Some(config), "0".to_string(), PeerAddr::loopback(0));
    let a = peer(9000);
    node.initiate_connection(a).unwrap();
    node.mark_as_handshaken(a).unwrap();

    node.send_direct_message(a, b"one".to_vec()).unwrap();
    node.send_direct_message(a, b"two".to_vec()).unwrap();
    assert_eq!(node.send_direct_message(a, b"three".to_vec()), Err(NodeError::QueueFull));

    // the queue still holds exactly the first two messages, in order
    assert_eq!(node.writer_pop(a).unwrap().unwrap(), b"one".to_vec());
    assert_eq!(node.send_direct_message(a, b"three".to_vec()), Ok(()));
    assert_eq!(node.writer_pop(a).unwrap().unwrap(), b"two".to_vec());
    assert_eq!(node.writer_pop(a).unwrap().unwrap(), b"three".to_vec());
    assert!(node.writer_pop(a).unwrap().is_none());
}

/// A broadcast queues the message on every handshaken peer; peers still
/// handshaking and full queues are skipped without aborting it.
#[test]
fn a_broadcast_reaches_every_handshaken_peer() {
    let mut node = Node::new(None, "broadcaster".to_string(), PeerAddr::loopback(0));
    let peers = [peer(9001), peer(9002), peer(9003), peer(9004)];
    for a in peers {
        node.initiate_connection(a).unwrap();
        node.mark_as_handshaken(a).unwrap();
    }
    let lagging = peer(9005);
    node.initiate_connection(lagging).unwrap();

    let message = packet_message(&b"hello there".to_vec()).unwrap();
    node.send_broadcast(&message);

    for a in peers {
        assert_eq!(node.writer_pop(a).unwrap().unwrap(), message);
        assert!(node.writer_pop(a).unwrap().is_none());
    }
    // the peer still handshaking saw nothing
    assert!(node.writer_pop(lagging).unwrap().is_none());
}

/// The maintenance flow: a failing peer is spotted, disconnected, and its
/// failure counter is wiped.
#[test]
fn maintenance_disconnects_a_failing_peer() {
    let mut config = NodeConfig::default();
    config.max_allowed_failures = 0;
    let mut tidy = Node::new(Some(config), "tidy".to_string(), PeerAddr::loopback(0));
    let a = peer(9000);
    tidy.initiate_connection(a).unwrap();
    tidy.mark_as_handshaken(a).unwrap();

    tidy.register_failure(a);
    let failures = tidy.peer_stats(a).unwrap().failures;
    assert!(failures > tidy.config.max_allowed_failures);

    assert!(tidy.disconnect(a));
    tidy.reset_peer_failures(a);
    assert_eq!(tidy.num_connected(), 0);
    assert_eq!(tidy.peer_stats(a).unwrap().failures, 0);
}

/// `last_seen` moves forward, never back.
#[test]
fn last_seen_is_monotonic() {
    let mut node = Node::new(None, "0".to_string(), PeerAddr::loopback(0));
    let a = peer(9000);
    node.initiate_connection(a).unwrap();
    node.mark_peer_seen(a, 40);
    assert_eq!(node.peer_stats(a).unwrap().last_seen, 40);
    node.mark_peer_seen(a, 25);
    assert_eq!(node.peer_stats(a).unwrap().last_seen, 40);
    node.mark_peer_seen(a, 41);
    assert_eq!(node.peer_stats(a).unwrap().last_seen, 41);
}

/// Sending during a handshake works: that is how handshakes exchange bytes.
#[test]
fn a_handshaking_peer_can_be_sent_to() {
    let mut node = Node::new(None, "0".to_string(), PeerAddr::loopback(0));
    let a = peer(9000);
    node.initiate_connection(a).unwrap();
    node.send_direct_message(a, b"nonce".to_vec()).unwrap();
    assert_eq!(node.writer_pop(a).unwrap().unwrap(), b"nonce".to_vec());
}
