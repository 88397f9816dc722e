use pea2pea::config::NodeConfig;
use pea2pea::node::bind_fallback;
use pea2pea::node::bind_plan;
use pea2pea::node::BindPlan;
use pea2pea::node::Node;
use pea2pea::NodeError;
use pea2pea::PeerAddr;

fn fresh_node() -> Node {
    Node::new(None, "0".to_string(), PeerAddr::loopback(0))
}

fn peer(port: u16) -> PeerAddr {
    PeerAddr::loopback(port)
}

#[test]
fn a_fresh_node_is_empty() {
    let node = fresh_node();
    assert_eq!(node.num_connected(), 0);
    assert_eq!(node.num_messages_received(), 0);
    assert!(node.handshaken_addrs().is_empty());
    assert_eq!(node.name(), "0");
}

#[test]
fn the_config_name_wins_over_the_assigned_one() {
    let mut config = NodeConfig::default();
    config.name = Some("picky_echo".to_string());
    let node = Node::new(Some(config), "7".to_string(), PeerAddr::loopback(0));
    assert_eq!(node.name(), "picky_echo");
}

#[test]
fn connect_promote_then_query() {
    let mut node = fresh_node();
    let a = peer(9000);
    node.initiate_connection(a).unwrap();
    assert!(node.is_handshaking(a));
    assert!(!node.is_handshaken(a));
    assert!(node.is_connected(a));
    assert_eq!(node.num_connected(), 1);

    node.mark_as_handshaken(a).unwrap();
    assert!(!node.is_handshaking(a));
    assert!(node.is_handshaken(a));
    assert!(node.is_connected(a));
    assert_eq!(node.num_connected(), 1);
    assert_eq!(node.handshaken_addrs(), vec![a]);
}

#[test]
fn a_duplicate_connect_is_refused() {
    let mut node = fresh_node();
    let a = peer(9000);
    node.initiate_connection(a).unwrap();
    assert_eq!(node.initiate_connection(a), Err(NodeError::AlreadyConnected));
    // the loser of a simultaneous dial/accept race is refused too
    assert_eq!(node.accept_connection(a), Err(NodeError::AlreadyConnected));
    node.mark_as_handshaken(a).unwrap();
    assert_eq!(node.initiate_connection(a), Err(NodeError::AlreadyConnected));
}

#[test]
fn promoting_an_unknown_peer_fails() {
    let mut node = fresh_node();
    assert_eq!(node.mark_as_handshaken(peer(9000)), Err(NodeError::NotConnected));
}

#[test]
fn disconnect_twice_reports_true_then_false() {
    let mut node = fresh_node();
    let a = peer(9000);
    node.initiate_connection(a).unwrap();
    node.mark_as_handshaken(a).unwrap();
    assert!(node.disconnect(a));
    assert!(!node.disconnect(a));
    assert!(!node.disconnect(a));
}

#[test]
fn a_send_after_a_disconnect_is_not_connected() {
    let mut node = fresh_node();
    let a = peer(9000);
    node.initiate_connection(a).unwrap();
    node.mark_as_handshaken(a).unwrap();
    assert!(node.disconnect(a));
    assert!(!node.is_connected(a));
    assert_eq!(
        node.send_direct_message(a, b"too late".to_vec()),
        Err(NodeError::NotConnected)
    );
}

#[test]
fn inbound_streams_are_refused_at_max_connections() {
    let mut config = NodeConfig::default();
    config.max_connections = 1;
    let mut node = Node::new(Some(config), "0".to_string(), PeerAddr::loopback(0));
    node.accept_connection(peer(50001)).unwrap();
    assert_eq!(node.num_connected(), 1);
    // the registry does not advance for the refused stream
    assert_eq!(node.accept_connection(peer(50002)), Err(NodeError::Io));
    assert_eq!(node.num_connected(), 1);
    assert!(!node.is_connected(peer(50002)));
}

#[test]
fn a_failed_handshake_rolls_the_registration_back() {
    let mut node = fresh_node();
    let a = peer(9000);
    node.initiate_connection(a).unwrap();
    assert_eq!(node.handshake_failed(a), NodeError::HandshakeFailed);
    assert!(!node.is_connected(a));
    assert_eq!(node.num_connected(), 0);
    // we initiated, so the peer's row survives and holds the failure
    assert_eq!(node.peer_stats(a).unwrap().failures, 1);
}

#[test]
fn shut_down_severs_everything_and_is_idempotent() {
    let mut node = fresh_node();
    let dialed = peer(9000);
    let accepted = peer(50001);
    node.initiate_connection(dialed).unwrap();
    node.mark_as_handshaken(dialed).unwrap();
    node.accept_connection(accepted).unwrap();
    assert_eq!(node.num_connected(), 2);

    node.shut_down();
    assert_eq!(node.num_connected(), 0);
    assert!(!node.is_connected(dialed));
    assert!(!node.is_connected(accepted));
    // the ephemeral row left with its connection; the listening one stayed
    assert!(node.peer_stats(accepted).is_none());
    assert!(node.peer_stats(dialed).is_some());

    node.shut_down();
    assert_eq!(node.num_connected(), 0);

    assert_eq!(node.initiate_connection(dialed), Err(NodeError::Shutdown));
    assert_eq!(node.accept_connection(accepted), Err(NodeError::Shutdown));
    assert_eq!(
        node.send_direct_message(dialed, b"bye".to_vec()),
        Err(NodeError::Shutdown)
    );
}

#[test]
fn the_desired_port_is_bound_when_set() {
    let mut config = NodeConfig::default();
    config.desired_listening_port = Some(4117);
    assert_eq!(bind_plan(&config), Ok(BindPlan::Desired(4117)));
    config.allow_random_port = false;
    assert_eq!(bind_plan(&config), Ok(BindPlan::Desired(4117)));
}

#[test]
fn no_port_policy_is_a_config_error() {
    let mut config = NodeConfig::default();
    config.desired_listening_port = None;
    config.allow_random_port = false;
    assert_eq!(bind_plan(&config), Err(NodeError::Config));
    config.allow_random_port = true;
    assert_eq!(bind_plan(&config), Ok(BindPlan::Random));
}

#[test]
fn an_unavailable_desired_port_fails_unless_random_is_allowed() {
    // the desired port is bound by another process: the first bind fails and
    // the fallback decides
    let mut config = NodeConfig::default();
    config.desired_listening_port = Some(4117);
    config.allow_random_port = false;
    assert_eq!(bind_fallback(&config), Err(NodeError::Config));
    config.allow_random_port = true;
    assert_eq!(bind_fallback(&config), Ok(BindPlan::Random));
}

#[test]
fn protocol_flags_are_recorded() {
    let mut node = fresh_node();
    assert!(!node.reading_closure());
    assert!(!node.packeting_closure());
    assert!(!node.inbound_messages());
    assert!(!node.handshake_setup());
    node.set_reading_closure();
    node.set_packeting_closure();
    node.set_inbound_messages();
    node.set_handshake_setup();
    node.set_disconnect_handler();
    assert!(node.reading_closure());
    assert!(node.packeting_closure());
    assert!(node.inbound_messages());
    assert!(node.handshake_setup());
}
