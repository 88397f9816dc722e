use pea2pea::config::NodeConfig;
use pea2pea::known_peers::KnownPeers;
use pea2pea::node::create_span;
use pea2pea::node::SpanLevel;
use pea2pea::topology::topology_edges;
use pea2pea::topology::Topology;
use pea2pea::PeerAddr;

#[test]
fn an_isolated_topology_has_no_edges() {
    assert!(topology_edges(Topology::Isolated, 5).is_empty());
}

#[test]
fn a_line_chains_the_nodes() {
    assert_eq!(topology_edges(Topology::Line, 1), vec![]);
    assert_eq!(topology_edges(Topology::Line, 3), vec![(0, 1), (1, 2)]);
}

#[test]
fn a_ring_closes_the_line() {
    assert_eq!(topology_edges(Topology::Ring, 3), vec![(0, 1), (1, 2), (2, 0)]);
}

#[test]
fn a_star_radiates_from_the_first_node() {
    assert_eq!(topology_edges(Topology::Star, 4), vec![(0, 1), (0, 2), (0, 3)]);
    assert_eq!(topology_edges(Topology::Star, 0), vec![]);
}

#[test]
fn a_mesh_connects_every_ordered_pair() {
    assert_eq!(
        topology_edges(Topology::Mesh, 3),
        vec![(0, 1), (0, 2), (1, 0), (1, 2), (2, 0), (2, 1)]
    );
    assert_eq!(topology_edges(Topology::Mesh, 0), vec![]);
    assert_eq!(topology_edges(Topology::Mesh, 1), vec![]);
}

#[test]
fn the_default_config_matches_its_documentation() {
    let c = NodeConfig::default();
    assert!(c.name.is_none());
    assert!(c.desired_listening_port.is_none());
    assert!(c.allow_random_port);
    assert_eq!(c.reading_handler_queue_depth, 16);
    assert_eq!(c.writing_handler_queue_depth, 16);
    assert_eq!(c.conn_read_buffer_size, 64 * 1024);
    assert_eq!(c.conn_write_buffer_size, 64 * 1024);
    assert_eq!(c.conn_inbound_queue_depth, 256);
    assert_eq!(c.conn_outbound_queue_depth, 16);
    assert_eq!(c.invalid_message_penalty_secs, 10);
    assert_eq!(c.max_connections, 100);
    assert_eq!(c.max_allowed_failures, 10);
}

#[test]
fn the_span_takes_the_most_verbose_enabled_level() {
    assert_eq!(create_span(true, true, true, true), SpanLevel::Trace);
    assert_eq!(create_span(false, true, true, true), SpanLevel::Debug);
    assert_eq!(create_span(false, false, true, true), SpanLevel::Info);
    assert_eq!(create_span(false, false, false, true), SpanLevel::Warn);
    assert_eq!(create_span(false, false, false, false), SpanLevel::Error);
}

#[test]
fn the_ledger_snapshot_lists_every_row() {
    let mut peers = KnownPeers::new();
    let a = PeerAddr::loopback(1);
    let b = PeerAddr::loopback(2);
    peers.add(a);
    peers.add(b);
    peers.register_received_message(a, 10);
    let snapshot = peers.snapshot();
    assert_eq!(snapshot.len(), 2);
    assert_eq!(snapshot[0].0, a);
    assert_eq!(snapshot[0].1.received(), (1, 10));
    assert_eq!(snapshot[1].0, b);
    assert_eq!(snapshot[1].1.received(), (0, 0));
}

#[test]
fn adding_a_known_peer_again_keeps_its_row() {
    let mut peers = KnownPeers::new();
    let a = PeerAddr::loopback(1);
    peers.add(a);
    peers.register_failure(a);
    peers.add(a);
    assert_eq!(peers.get(a).unwrap().failures, 1);
}

#[test]
fn ledger_totals_sum_over_the_rows() {
    let mut peers = KnownPeers::new();
    let a = PeerAddr::loopback(1);
    let b = PeerAddr::loopback(2);
    peers.add(a);
    peers.add(b);
    peers.register_sent_message(a, 5);
    peers.register_sent_message(b, 7);
    peers.register_received_message(b, 11);
    let totals = peers.totals();
    assert_eq!(totals.sent(), (2, 12));
    assert_eq!(totals.received(), (1, 11));
}
