//! The node: the user-facing façade over the registry, the ledger and the
//! per-connection queues.
//!
//! A node's exec state is exactly what its tasks decide over: which peers
//! are handshaking or handshaken, what every connection has queued, and what
//! the ledger counts. The runtime around it performs the I/O — binding,
//! accepting, dialing, reading and writing — and reports every outcome here,
//! so that each decision the node makes is a verified transition.

use vstd::prelude::*;

use crate::codec::clone_bytes;
use crate::codec::frames_of;
use crate::codec::parse_incomplete;
use crate::codec::spec_drain;
use crate::codec::valid_payload;
use crate::config::NodeConfig;
use crate::connection::sum_lens;
use crate::connection::Connection;
use crate::connection::ConnectionSide;
use crate::connections::Connections;
use crate::known_peers::clip_u64;
use crate::known_peers::stats_after_failure;
use crate::known_peers::stats_after_receive;
use crate::known_peers::stats_after_send;
use crate::known_peers::sum_by;
use crate::known_peers::KnownPeers;
use crate::known_peers::PeerStats;
use crate::NodeError;
use crate::PeerAddr;

verus! {

/// The verbosity of the span a node logs under.
#[derive(Clone, Copy, PartialEq, Eq, Structural, Debug)]
pub enum SpanLevel {
    Trace,
    Debug,
    Info,
    Warn,
    Error,
}

/// Picks the node's span level: the most verbose level that is enabled, or
/// the least verbose one when none is.
pub fn create_span(
    trace_enabled: bool,
    debug_enabled: bool,
    info_enabled: bool,
    warn_enabled: bool,
) -> (l: SpanLevel)
    ensures
        l == (if trace_enabled {
            SpanLevel::Trace
        } else if debug_enabled {
            SpanLevel::Debug
        } else if info_enabled {
            SpanLevel::Info
        } else if warn_enabled {
            SpanLevel::Warn
        } else {
            SpanLevel::Error
        }),
{
    if trace_enabled {
        SpanLevel::Trace
    } else if debug_enabled {
        SpanLevel::Debug
    } else if info_enabled {
        SpanLevel::Info
    } else if warn_enabled {
        SpanLevel::Warn
    } else {
        SpanLevel::Error
    }
}

/// Which protocols the embedder has registered. Each is set at most once.
#[derive(Clone, Copy, PartialEq, Eq, Structural, Debug)]
pub struct Protocols {
    /// A sink for parsed inbound messages was registered.
    pub inbound_messages: bool,
    /// A reading protocol was registered: connections get reader tasks.
    pub reading_closure: bool,
    /// A writing protocol was registered: connections get writer tasks.
    pub packeting_closure: bool,
    /// A handshake protocol was registered.
    pub handshake_setup: bool,
    /// A disconnect hook was registered.
    pub disconnect_handler: bool,
}

/// What to bind first, per the configured port policy.
#[derive(Clone, Copy, PartialEq, Eq, Structural, Debug)]
pub enum BindPlan {
    /// Bind the desired port.
    Desired(u16),
    /// Bind any free port.
    Random,
}

/// The configured port policy: the desired port if one is set, any port if a
/// random one is allowed, and a configuration error otherwise.
pub fn bind_plan(config: &NodeConfig) -> (r: Result<BindPlan, NodeError>)
    ensures
        match r {
            Ok(p) => match config.desired_listening_port {
                Some(port) => p == BindPlan::Desired(port),
                None => config.allow_random_port && p == BindPlan::Random,
            },
            Err(e) => e == NodeError::Config && config.desired_listening_port is None
                && !config.allow_random_port,
        },
{
    match config.desired_listening_port {
        Some(port) => Ok(BindPlan::Desired(port)),
        None => {
            if config.allow_random_port {
                Ok(BindPlan::Random)
            } else {
                Err(NodeError::Config)
            }
        }
    }
}

/// What to do when the desired port cannot be bound: fall back to a random
/// port if allowed, and fail with a configuration error otherwise.
pub fn bind_fallback(config: &NodeConfig) -> (r: Result<BindPlan, NodeError>)
    ensures
        match r {
            Ok(p) => config.allow_random_port && p == BindPlan::Random,
            Err(e) => e == NodeError::Config && !config.allow_random_port,
        },
{
    if config.allow_random_port {
        Ok(BindPlan::Random)
    } else {
        Err(NodeError::Config)
    }
}

/// A node: one registry, one ledger, one configuration, one set of
/// protocols.
pub struct Node {
    /// The node's name; assigned by the embedder when the config has none.
    pub name: String,
    /// The node's immutable configuration.
    pub config: NodeConfig,
    /// Where the node listens.
    pub listening_addr: PeerAddr,
    /// Which protocols were registered.
    pub protocols: Protocols,
    /// The two registry tables.
    pub connections: Connections,
    /// The per-peer statistics ledger.
    pub known_peers: KnownPeers,
    /// Whether `shut_down` was called.
    pub shutting_down: bool,
}

impl Node {
    /// The sent counters of `a`'s ledger row account exactly for what `a`'s
    /// writer has emitted since the connection began. This concerns only
    /// connections this node initiated (the peer's side is `Responder`):
    /// only those are keyed by the peer's listening address.
    pub open spec fn sent_ok(&self, a: PeerAddr) -> bool {
        (self.connections.spec_is_connected(a) && self.connections.spec_get(a).side
            == ConnectionSide::Responder) ==> {
            let c = self.connections.spec_get(a);
            &&& self.known_peers@.dom().contains(a)
            &&& self.known_peers@[a].msgs_sent == c.base_sent@.0 + c.emitted@.len()
            &&& self.known_peers@[a].bytes_sent == c.base_sent@.1 + sum_lens(c.emitted@)
        }
    }

    /// The sent-bytes accounting holds for every peer.
    pub open spec fn sent_accounting(&self) -> bool {
        forall|a: PeerAddr| #[trigger] self.sent_ok(a)
    }

    /// Well-formedness: registry and ledger are well-formed and the ledger
    /// accounts for every writer's emissions.
    pub open spec fn wf(&self) -> bool {
        &&& self.connections.wf()
        &&& self.known_peers.wf()
        &&& self.sent_accounting()
    }

    /// Everything a peer-level operation leaves untouched.
    pub open spec fn same_shell(pre: &Node, post: &Node) -> bool {
        &&& post.name == pre.name
        &&& post.config == pre.config
        &&& post.listening_addr == pre.listening_addr
        &&& post.protocols == pre.protocols
        &&& post.shutting_down == pre.shutting_down
    }

    /// The name a node gets: the configured one, or the assigned one when
    /// the configuration has none.
    pub open spec fn spec_resolved_name(config: Option<NodeConfig>, assigned_name: String) -> String {
        match config {
            Some(c) => match c.name {
                Some(n) => n,
                None => assigned_name,
            },
            None => assigned_name,
        }
    }

    /// The configuration a node keeps: the given one (or the default), with
    /// its name filled in.
    pub open spec fn spec_base_config(config: Option<NodeConfig>) -> NodeConfig {
        match config {
            Some(c) => c,
            None => NodeConfig::spec_default(),
        }
    }

    /// A fresh node: no connections, no known peers, not shutting down. The
    /// embedder binds the listener (see [`bind_plan`]) and assigns a name
    /// from its process-wide counter before constructing the state.
    pub fn new(config: Option<NodeConfig>, assigned_name: String, listening_addr: PeerAddr) -> (n:
        Node)
        ensures
            n.wf(),
            n.name == Node::spec_resolved_name(config, assigned_name),
            match n.config.name {
                Some(m) => m@ == n.name@,
                None => false,
            },
            n.config == (NodeConfig { name: n.config.name, ..Node::spec_base_config(config) }),
            n.listening_addr == listening_addr,
            n.protocols == (Protocols {
                inbound_messages: false,
                reading_closure: false,
                packeting_closure: false,
                handshake_setup: false,
                disconnect_handler: false,
            }),
            n.connections.connecting() == Map::<PeerAddr, Connection>::empty(),
            n.connections.connected() == Map::<PeerAddr, Connection>::empty(),
            n.connections.spec_num_connected() == 0,
            n.known_peers@ == Map::<PeerAddr, PeerStats>::empty(),
            !n.shutting_down,
    {
        let cfg = match config {
            Some(c) => c,
            None => NodeConfig::default(),
        };
        let NodeConfig {
            name: cfg_name,
            desired_listening_port,
            allow_random_port,
            reading_handler_queue_depth,
            writing_handler_queue_depth,
            conn_read_buffer_size,
            conn_write_buffer_size,
            conn_inbound_queue_depth,
            conn_outbound_queue_depth,
            invalid_message_penalty_secs,
            max_connections,
            max_allowed_failures,
        } = cfg;
        let name = match cfg_name {
            Some(n) => n,
            None => assigned_name,
        };
        let config = NodeConfig {
            name: Some(name.clone()),
            desired_listening_port,
            allow_random_port,
            reading_handler_queue_depth,
            writing_handler_queue_depth,
            conn_read_buffer_size,
            conn_write_buffer_size,
            conn_inbound_queue_depth,
            conn_outbound_queue_depth,
            invalid_message_penalty_secs,
            max_connections,
            max_allowed_failures,
        };
        let n = Node {
            name,
            config,
            listening_addr,
            protocols: Protocols {
                inbound_messages: false,
                reading_closure: false,
                packeting_closure: false,
                handshake_setup: false,
                disconnect_handler: false,
            },
            connections: Connections::new(),
            known_peers: KnownPeers::new(),
            shutting_down: false,
        };
        proof {
            assert(forall|a: PeerAddr| #[trigger] n.sent_ok(a));
        }
        n
    }

    /// The node's name.
    pub fn name(&self) -> (r: &String)
        ensures
            r == self.name,
    {
        &self.name
    }

    /// Whether `addr` sits in either registry table.
    pub fn is_connected(&self, addr: PeerAddr) -> (r: bool)
        requires
            self.wf(),
        ensures
            r == self.connections.spec_is_connected(addr),
    {
        self.connections.is_connected(addr)
    }

    /// Whether `addr`'s handshake is still in progress.
    pub fn is_handshaking(&self, addr: PeerAddr) -> (r: bool)
        requires
            self.wf(),
        ensures
            r == self.connections.spec_is_handshaking(addr),
    {
        self.connections.is_handshaking(addr)
    }

    /// Whether `addr` is fully established.
    pub fn is_handshaken(&self, addr: PeerAddr) -> (r: bool)
        requires
            self.wf(),
        ensures
            r == self.connections.spec_is_handshaken(addr),
    {
        self.connections.is_handshaken(addr)
    }

    /// How many peers sit in the registry, counting both tables.
    pub fn num_connected(&self) -> (r: usize)
        requires
            self.wf(),
        ensures
            r == self.connections.spec_num_connected(),
    {
        self.connections.num_connected()
    }

    /// The addresses of the fully established peers, in table order.
    pub fn handshaken_addrs(&self) -> (r: Vec<PeerAddr>)
        requires
            self.wf(),
        ensures
            r@.len() == self.connections.handshaken.spec_len(),
            forall|i: int|
                0 <= i < r@.len() ==> r@[i]
                    == (#[trigger] self.connections.handshaken.entries()[i]).0,
    {
        self.connections.handshaken_keys()
    }

    /// How many messages the node has received over its lifetime, summed
    /// over the ledger (clipped at the top of `u64`).
    pub fn num_messages_received(&self) -> (r: u64)
        ensures
            r == clip_u64(
                sum_by(self.known_peers.entries(), |st: PeerStats| st.msgs_received as int),
            ),
    {
        self.known_peers.totals().msgs_received
    }

    /// The node's statistics: the ledger's counters summed over every row,
    /// each sum clipped at the top of `u64`.
    pub fn stats(&self) -> (r: PeerStats)
        ensures
            r.msgs_sent == clip_u64(
                sum_by(self.known_peers.entries(), |st: PeerStats| st.msgs_sent as int),
            ),
            r.bytes_sent == clip_u64(
                sum_by(self.known_peers.entries(), |st: PeerStats| st.bytes_sent as int),
            ),
            r.msgs_received == clip_u64(
                sum_by(self.known_peers.entries(), |st: PeerStats| st.msgs_received as int),
            ),
            r.bytes_received == clip_u64(
                sum_by(self.known_peers.entries(), |st: PeerStats| st.bytes_received as int),
            ),
    {
        self.known_peers.totals()
    }

    /// Whether a sink for parsed inbound messages was registered.
    pub fn inbound_messages(&self) -> (r: bool)
        ensures
            r == self.protocols.inbound_messages,
    {
        self.protocols.inbound_messages
    }

    /// Whether a reading protocol was registered.
    pub fn reading_closure(&self) -> (r: bool)
        ensures
            r == self.protocols.reading_closure,
    {
        self.protocols.reading_closure
    }

    /// Whether a writing protocol was registered.
    pub fn packeting_closure(&self) -> (r: bool)
        ensures
            r == self.protocols.packeting_closure,
    {
        self.protocols.packeting_closure
    }

    /// Whether a handshake protocol was registered.
    pub fn handshake_setup(&self) -> (r: bool)
        ensures
            r == self.protocols.handshake_setup,
    {
        self.protocols.handshake_setup
    }

    /// Registers the sink for parsed inbound messages; at most once.
    pub fn set_inbound_messages(&mut self)
        requires
            old(self).wf(),
            !old(self).protocols.inbound_messages,
        ensures
            final(self).wf(),
            final(self).protocols == (Protocols {
                inbound_messages: true,
                ..old(self).protocols
            }),
            Node::same_state_but_protocols(old(self), final(self)),
    {
        self.protocols.inbound_messages = true;
        proof {
            self.lemma_protocols_only(old(self));
        }
    }

    /// Registers the reading protocol; at most once.
    pub fn set_reading_closure(&mut self)
        requires
            old(self).wf(),
            !old(self).protocols.reading_closure,
        ensures
            final(self).wf(),
            final(self).protocols == (Protocols { reading_closure: true, ..old(self).protocols }),
            Node::same_state_but_protocols(old(self), final(self)),
    {
        self.protocols.reading_closure = true;
        proof {
            self.lemma_protocols_only(old(self));
        }
    }

    /// Registers the writing protocol; at most once.
    pub fn set_packeting_closure(&mut self)
        requires
            old(self).wf(),
            !old(self).protocols.packeting_closure,
        ensures
            final(self).wf(),
            final(self).protocols == (Protocols { packeting_closure: true, ..old(self).protocols }),
            Node::same_state_but_protocols(old(self), final(self)),
    {
        self.protocols.packeting_closure = true;
        proof {
            self.lemma_protocols_only(old(self));
        }
    }

    /// Registers the handshake protocol; at most once.
    pub fn set_handshake_setup(&mut self)
        requires
            old(self).wf(),
            !old(self).protocols.handshake_setup,
        ensures
            final(self).wf(),
            final(self).protocols == (Protocols { handshake_setup: true, ..old(self).protocols }),
            Node::same_state_but_protocols(old(self), final(self)),
    {
        self.protocols.handshake_setup = true;
        proof {
            self.lemma_protocols_only(old(self));
        }
    }

    /// Registers the disconnect hook; at most once.
    pub fn set_disconnect_handler(&mut self)
        requires
            old(self).wf(),
            !old(self).protocols.disconnect_handler,
        ensures
            final(self).wf(),
            final(self).protocols == (Protocols {
                disconnect_handler: true,
                ..old(self).protocols
            }),
            Node::same_state_but_protocols(old(self), final(self)),
    {
        self.protocols.disconnect_handler = true;
        proof {
            self.lemma_protocols_only(old(self));
        }
    }

    /// Everything but the protocol flags is untouched.
    pub open spec fn same_state_but_protocols(pre: &Node, post: &Node) -> bool {
        &&& post.name == pre.name
        &&& post.config == pre.config
        &&& post.listening_addr == pre.listening_addr
        &&& post.connections == pre.connections
        &&& post.known_peers == pre.known_peers
        &&& post.shutting_down == pre.shutting_down
    }

    /// Changing only the protocol flags preserves well-formedness.
    proof fn lemma_protocols_only(&self, pre: &Node)
        requires
            pre.wf(),
            Node::same_state_but_protocols(pre, self),
        ensures
            self.wf(),
    {
        assert forall|a: PeerAddr| #[trigger] self.sent_ok(a) by {
            assert(pre.sent_ok(a));
        }
    }

    /// `post` is `pre` with a fresh connection at `a` registered as
    /// *handshaking*, the peer on side `side`, and a ledger row ensured.
    /// The fresh connection gets its task flags from the protocols enabled
    /// now and its queue capacity from the configuration.
    pub open spec fn register_post(pre: &Node, post: &Node, a: PeerAddr, side: ConnectionSide) -> bool {
        &&& Node::same_shell(pre, post)
        &&& post.connections.connecting() == pre.connections.connecting().insert(
            a,
            post.connections.connecting()[a],
        )
        &&& post.connections.connected() == pre.connections.connected()
        &&& post.connections.spec_is_handshaking(a)
        &&& post.connections.spec_num_connected() == pre.connections.spec_num_connected() + 1
        &&& ({
            let c = post.connections.connecting()[a];
            &&& c.addr == a
            &&& c.side == side
            &&& c.outbound_capacity == pre.config.conn_outbound_queue_depth
            &&& c.reader_task == pre.protocols.reading_closure
            &&& c.writer_task == pre.protocols.packeting_closure
            &&& c.outbound@.len() == 0
            &&& c.inbound@.len() == 0
            &&& c.carry@.len() == 0
            &&& !c.corrupted
            &&& c.emitted@ == Seq::<Seq<u8>>::empty()
            &&& c.delivered@ == Seq::<Seq<u8>>::empty()
            &&& c.received@ == Seq::<u8>::empty()
            &&& c.base_sent@.0 == post.known_peers@[a].msgs_sent
            &&& c.base_sent@.1 == post.known_peers@[a].bytes_sent
        })
        &&& post.known_peers@ == (if pre.known_peers@.dom().contains(a) {
            pre.known_peers@
        } else {
            pre.known_peers@.insert(a, PeerStats::spec_zeroed())
        })
    }

    /// Registers a fresh connection, with the ledger row it accounts
    /// against.
    fn register_connecting(&mut self, addr: PeerAddr, side: ConnectionSide)
        requires
            old(self).wf(),
            !old(self).connections.spec_is_connected(addr),
            old(self).connections.spec_num_connected() < usize::MAX,
        ensures
            final(self).wf(),
            Node::register_post(old(self), final(self), addr, side),
    {
        self.known_peers.add(addr);
        let ghost base = (self.known_peers@[addr].msgs_sent, self.known_peers@[addr].bytes_sent);
        let conn = Connection::new(
            addr,
            side,
            self.config.conn_outbound_queue_depth,
            self.protocols.reading_closure,
            self.protocols.packeting_closure,
            Ghost(base),
        );
        let ghost conn0 = conn;
        self.connections.insert_connecting(conn);
        proof {
            assert(self.connections.connecting()[addr] == conn0);
            assert forall|b: PeerAddr| #[trigger] self.sent_ok(b) by {
                assert(old(self).sent_ok(b));
                if b != addr {
                    assert(self.connections.spec_is_connected(b)
                        == old(self).connections.spec_is_connected(b));
                    if self.connections.spec_is_connected(b) {
                        assert(self.connections.spec_get(b) == old(self).connections.spec_get(b));
                        assert(self.known_peers@.dom().contains(b) == old(self).known_peers@.dom().contains(b));
                        if self.known_peers@.dom().contains(b) {
                            assert(self.known_peers@[b] == old(self).known_peers@[b]);
                        }
                    }
                }
            }
        }
    }

    /// Takes in a freshly accepted inbound stream: refused while shutting
    /// down, refused without advancing the registry when the node is at
    /// `max_connections`, and refused when the address is already
    /// registered; otherwise registered as *handshaking* with the peer as
    /// the initiator.
    pub fn accept_connection(&mut self, addr: PeerAddr) -> (r: Result<(), NodeError>)
        requires
            old(self).wf(),
        ensures
            final(self).wf(),
            match r {
                Ok(()) => !old(self).shutting_down && old(self).connections.spec_num_connected()
                    < old(self).config.max_connections as nat && !old(self).connections.spec_is_connected(addr) && Node::register_post(
                    old(self),
                    final(self),
                    addr,
                    ConnectionSide::Initiator,
                ),
                Err(e) => *final(self) == *old(self) && ((e == NodeError::Shutdown && old(self).shutting_down) || (e == NodeError::Io && !old(self).shutting_down && old(self).connections.spec_num_connected() >= old(self).config.max_connections as nat) || (
                e == NodeError::AlreadyConnected && !old(self).shutting_down && old(self).connections.spec_num_connected() < old(self).config.max_connections as nat && old(self).connections.spec_is_connected(addr))),
            },
    {
        if self.shutting_down {
            return Err(NodeError::Shutdown);
        }
        if self.connections.num_connected() >= self.config.max_connections as usize {
            return Err(NodeError::Io);
        }
        if self.connections.is_connected(addr) {
            return Err(NodeError::AlreadyConnected);
        }
        self.register_connecting(addr, ConnectionSide::Initiator);
        Ok(())
    }

    /// Starts an outbound connection: refused while shutting down and
    /// refused when the address is already registered; otherwise registered
    /// as *handshaking* with the peer as the responder. The embedder dials
    /// the stream; if the dial fails it calls [`Node::handshake_failed`].
    pub fn initiate_connection(&mut self, addr: PeerAddr) -> (r: Result<(), NodeError>)
        requires
            old(self).wf(),
            old(self).connections.spec_num_connected() < usize::MAX,
        ensures
            final(self).wf(),
            match r {
                Ok(()) => !old(self).shutting_down && !old(self).connections.spec_is_connected(addr)
                    && Node::register_post(
                    old(self),
                    final(self),
                    addr,
                    ConnectionSide::Responder,
                ),
                Err(e) => *final(self) == *old(self) && ((e == NodeError::Shutdown && old(self).shutting_down) || (e == NodeError::AlreadyConnected && !old(self).shutting_down
                    && old(self).connections.spec_is_connected(addr))),
            },
    {
        if self.shutting_down {
            return Err(NodeError::Shutdown);
        }
        if self.connections.is_connected(addr) {
            return Err(NodeError::AlreadyConnected);
        }
        self.register_connecting(addr, ConnectionSide::Responder);
        Ok(())
    }

    /// `post` is `pre` with `a` promoted from *handshaking* to
    /// *handshaken*.
    pub open spec fn promote_post(pre: &Node, post: &Node, a: PeerAddr) -> bool {
        &&& Node::same_shell(pre, post)
        &&& pre.connections.spec_is_handshaking(a)
        &&& post.connections.connecting() == pre.connections.connecting().remove(a)
        &&& post.connections.connected() == pre.connections.connected().insert(
            a,
            pre.connections.connecting()[a],
        )
        &&& post.connections.spec_is_handshaken(a)
        &&& post.known_peers@ == pre.known_peers@
        &&& post.connections.spec_num_connected() == pre.connections.spec_num_connected()
    }

    /// Promotes `addr` from *handshaking* to *handshaken*, atomically: after
    /// this succeeds the peer is connected.
    pub fn mark_as_handshaken(&mut self, addr: PeerAddr) -> (r: Result<(), NodeError>)
        requires
            old(self).wf(),
        ensures
            final(self).wf(),
            match r {
                Ok(()) => Node::promote_post(old(self), final(self), addr) && final(self).connections.spec_is_connected(addr),
                Err(e) => e == NodeError::NotConnected && !old(self).connections.spec_is_handshaking(addr) && Node::same_shell(old(self), final(self))
                    && final(self).connections.connecting() == old(self).connections.connecting()
                    && final(self).connections.connected() == old(self).connections.connected()
                    && final(self).known_peers == old(self).known_peers,
            },
    {
        let r = self.connections.mark_as_handshaken(addr);
        proof {
            assert forall|b: PeerAddr| #[trigger] self.sent_ok(b) by {
                assert(old(self).sent_ok(b));
                if r is Ok {
                    if b == addr {
                        assert(self.connections.spec_get(b) == old(self).connections.spec_get(b));
                    } else {
                        assert(self.connections.spec_is_connected(b) == old(self).connections.spec_is_connected(b));
                        if self.connections.spec_is_connected(b) {
                            assert(self.connections.spec_get(b) == old(self).connections.spec_get(
                                b,
                            ));
                        }
                    }
                } else {
                    assert(self.connections.spec_is_connected(b) == old(self).connections.spec_is_connected(b));
                    if self.connections.spec_is_connected(b) {
                        assert(self.connections.spec_get(b) == old(self).connections.spec_get(b));
                    }
                }
            }
        }
        r
    }

    /// `post` is `pre` with `a` severed: `a` is in neither table, and its
    /// ledger row is dropped when the peer had initiated the connection
    /// (its address is then an ephemeral one).
    pub open spec fn disconnect_post(pre: &Node, post: &Node, a: PeerAddr, r: bool) -> bool {
        &&& Node::same_shell(pre, post)
        &&& r == pre.connections.spec_is_connected(a)
        &&& post.connections.connecting() == pre.connections.connecting().remove(a)
        &&& post.connections.connected() == pre.connections.connected().remove(a)
        &&& post.known_peers@ == (if r && pre.connections.spec_get(a).side
            == ConnectionSide::Initiator {
            pre.known_peers@.remove(a)
        } else {
            pre.known_peers@
        })
        &&& !post.connections.spec_is_connected(a)
    }

    /// Severs `addr`: removes it from whichever table holds it and reports
    /// whether anything was removed. An ephemeral row (the peer initiated)
    /// leaves the ledger with its connection.
    pub fn disconnect(&mut self, addr: PeerAddr) -> (r: bool)
        requires
            old(self).wf(),
        ensures
            final(self).wf(),
            Node::disconnect_post(old(self), final(self), addr, r),
    {
        let removed = self.connections.remove(addr);
        let r = match removed {
            Some(conn) => {
                match conn.side {
                    ConnectionSide::Initiator => {
                        self.known_peers.remove(addr);
                    }
                    ConnectionSide::Responder => {}
                }
                true
            }
            None => false,
        };
        proof {
            assert forall|b: PeerAddr| #[trigger] self.sent_ok(b) by {
                assert(old(self).sent_ok(b));
                if b != addr {
                    if self.connections.spec_is_connected(b) {
                        assert(old(self).connections.spec_is_connected(b));
                        assert(self.connections.spec_get(b) == old(self).connections.spec_get(b));
                        if old(self).known_peers@.dom().contains(b) {
                            assert(self.known_peers@.dom().contains(b) ==> self.known_peers@[b]
                                == old(self).known_peers@[b]);
                        }
                    }
                }
            }
        }
        r
    }

    /// `post` is `pre` with `m` queued for `a`'s writer (`r` is `Ok`), or
    /// unchanged with the exact reason (`r` is `Err`): shutting down, no
    /// such peer, or a saturated queue on this non-waiting send.
    pub open spec fn send_post(
        pre: &Node,
        post: &Node,
        a: PeerAddr,
        m: Seq<u8>,
        r: Result<(), NodeError>,
    ) -> bool {
        &&& Node::same_shell(pre, post)
        &&& post.known_peers@ == pre.known_peers@
        &&& match r {
            Ok(()) => !pre.shutting_down && pre.connections.spec_is_connected(a)
                && Connections::updated_at(&pre.connections, &post.connections, a)
                && Connection::enqueue_rel(
                pre.connections.spec_get(a),
                post.connections.spec_get(a),
                m,
            ),
            Err(e) => post.connections.connecting() == pre.connections.connecting()
                && post.connections.connected() == pre.connections.connected() && ((e
                == NodeError::Shutdown && pre.shutting_down) || (!pre.shutting_down && ((e
                == NodeError::NotConnected && !pre.connections.spec_is_connected(a)) || (e
                == NodeError::QueueFull && pre.connections.spec_is_connected(a)
                && pre.connections.spec_get(a).outbound@.len() >= pre.connections.spec_get(
                a,
            ).outbound_capacity)))),
        }
    }

    /// Queues `message` on `addr`'s connection without waiting. Fails with
    /// `NotConnected` when `addr` is in neither table and with `QueueFull`
    /// when the outbound queue is at capacity.
    pub fn send_direct_message(&mut self, addr: PeerAddr, message: Vec<u8>) -> (r: Result<
        (),
        NodeError,
    >)
        requires
            old(self).wf(),
        ensures
            final(self).wf(),
            Node::send_post(old(self), final(self), addr, message@, r),
    {
        if self.shutting_down {
            return Err(NodeError::Shutdown);
        }
        let r = self.connections.send_direct_message(addr, message);
        proof {
            assert forall|b: PeerAddr| #[trigger] self.sent_ok(b) by {
                assert(old(self).sent_ok(b));
                if self.connections.spec_is_connected(b) {
                    assert(old(self).connections.spec_is_connected(b));
                    if r is Ok && b == addr {
                        assert(self.connections.spec_get(b).side == old(self).connections.spec_get(b).side);
                        assert(self.connections.spec_get(b).emitted == old(self).connections.spec_get(b).emitted);
                        assert(self.connections.spec_get(b).base_sent == old(self).connections.spec_get(b).base_sent);
                    } else {
                        assert(self.connections.spec_get(b) == old(self).connections.spec_get(b));
                    }
                }
            }
        }
        r
    }

    /// Hands `addr`'s writer task its oldest queued message, if any.
    pub fn writer_pop(&mut self, addr: PeerAddr) -> (r: Result<Option<Vec<u8>>, NodeError>)
        requires
            old(self).wf(),
        ensures
            final(self).wf(),
            Node::same_shell(old(self), final(self)),
            final(self).known_peers == old(self).known_peers,
            match r {
                Ok(Some(m)) => old(self).connections.spec_is_connected(addr)
                    && Connections::updated_at(
                    &old(self).connections,
                    &final(self).connections,
                    addr,
                ) && Connection::dequeue_rel(
                    old(self).connections.spec_get(addr),
                    final(self).connections.spec_get(addr),
                    m@,
                ),
                Ok(None) => old(self).connections.spec_is_connected(addr) && old(self).connections.spec_get(addr).outbound@.len() == 0 && final(self).connections.connecting() == old(self).connections.connecting() && final(self).connections.connected() == old(self).connections.connected(),
                Err(e) => e == NodeError::NotConnected && !old(self).connections.spec_is_connected(addr) && final(self).connections.connecting()
                    == old(self).connections.connecting() && final(self).connections.connected()
                    == old(self).connections.connected(),
            },
    {
        let r = self.connections.writer_pop(addr);
        proof {
            assert forall|b: PeerAddr| #[trigger] self.sent_ok(b) by {
                assert(old(self).sent_ok(b));
                if self.connections.spec_is_connected(b) {
                    assert(old(self).connections.spec_is_connected(b));
                    if r is Ok && r->Ok_0 is Some && b == addr {
                        assert(self.connections.spec_get(b).side == old(self).connections.spec_get(b).side);
                        assert(self.connections.spec_get(b).emitted == old(self).connections.spec_get(b).emitted);
                        assert(self.connections.spec_get(b).base_sent == old(self).connections.spec_get(b).base_sent);
                    } else {
                        assert(self.connections.spec_get(b) == old(self).connections.spec_get(b));
                    }
                }
            }
        }
        r
    }

    /// Reports that `message`'s bytes were written to `addr`'s stream. For a
    /// connection this node initiated, the peer's sent counters advance;
    /// statistics are not kept for ephemeral addresses.
    pub fn writer_done(&mut self, addr: PeerAddr, message: &Vec<u8>)
        requires
            old(self).wf(),
            old(self).known_peers@.dom().contains(addr) ==> old(self).known_peers@[addr].msgs_sent
                < u64::MAX && old(self).known_peers@[addr].bytes_sent + message@.len() <= u64::MAX,
        ensures
            final(self).wf(),
            Node::same_shell(old(self), final(self)),
            !old(self).connections.spec_is_connected(addr) ==> final(self).connections.connecting()
                == old(self).connections.connecting() && final(self).connections.connected() == old(self).connections.connected() && final(self).known_peers == old(self).known_peers,
            old(self).connections.spec_is_connected(addr) ==> Connections::updated_at(
                &old(self).connections,
                &final(self).connections,
                addr,
            ) && Connection::emit_rel(
                old(self).connections.spec_get(addr),
                final(self).connections.spec_get(addr),
                message@,
            ) && final(self).known_peers@ == (if old(self).connections.spec_get(addr).side
                == ConnectionSide::Responder {
                old(self).known_peers@.insert(
                    addr,
                    stats_after_send(old(self).known_peers@[addr], message@.len()),
                )
            } else {
                old(self).known_peers@
            }),
    {
        let side = self.connections.record_emitted(addr, message);
        match side {
            Some(ConnectionSide::Responder) => {
                proof {
                    assert(old(self).sent_ok(addr));
                }
                self.known_peers.register_sent_message(addr, message.len());
            }
            _ => {}
        }
        proof {
            assert forall|b: PeerAddr| #[trigger] self.sent_ok(b) by {
                assert(old(self).sent_ok(b));
                if self.connections.spec_is_connected(b) {
                    assert(old(self).connections.spec_is_connected(b));
                    if side is Some && b == addr {
                        let pre = old(self).connections.spec_get(b);
                        let post = self.connections.spec_get(b);
                        assert(post.side == pre.side);
                        assert(post.emitted@ == pre.emitted@.push(message@));
                        assert(post.base_sent == pre.base_sent);
                        crate::connection::lemma_sum_lens_push(pre.emitted@, message@);
                    } else {
                        assert(self.connections.spec_get(b) == old(self).connections.spec_get(b));
                        if old(self).known_peers@.dom().contains(b) && self.known_peers@.dom().contains(b)
                            && b != addr {
                            assert(self.known_peers@[b] == old(self).known_peers@[b]);
                        }
                    }
                }
            }
        }
    }

    /// Feeds bytes read from `addr`'s stream through the codec. When the
    /// codec rejects a frame, a failure is registered against the peer and
    /// `Ok(true)` tells the reader task to pause for
    /// `invalid_message_penalty_secs` before resuming.
    pub fn reader_step(&mut self, addr: PeerAddr, chunk: &Vec<u8>) -> (r: Result<bool, NodeError>)
        requires
            old(self).wf(),
        ensures
            final(self).wf(),
            Node::same_shell(old(self), final(self)),
            match r {
                Ok(invalid) => old(self).connections.spec_is_handshaken(addr)
                    && Connections::updated_at(
                    &old(self).connections,
                    &final(self).connections,
                    addr,
                ) && Connection::absorb_rel(
                    old(self).connections.spec_get(addr),
                    final(self).connections.spec_get(addr),
                    chunk@,
                ) && invalid == spec_drain(old(self).connections.spec_get(addr).carry@ + chunk@).2
                    && final(self).known_peers@ == (if invalid && old(self).known_peers@.dom().contains(addr) {
                    old(self).known_peers@.insert(
                        addr,
                        stats_after_failure(old(self).known_peers@[addr]),
                    )
                } else {
                    old(self).known_peers@
                }),
                Err(e) => e == NodeError::NotConnected && !old(self).connections.spec_is_handshaken(addr) && final(self).connections.connecting()
                    == old(self).connections.connecting() && final(self).connections.connected()
                    == old(self).connections.connected() && final(self).known_peers == old(self).known_peers,
            },
    {
        let r = match self.connections.absorb(addr, chunk) {
            Ok(invalid) => {
                if invalid {
                    self.known_peers.register_failure(addr);
                }
                Ok(invalid)
            }
            Err(e) => Err(e),
        };
        proof {
            assert forall|b: PeerAddr| #[trigger] self.sent_ok(b) by {
                assert(old(self).sent_ok(b));
                if self.connections.spec_is_connected(b) {
                    assert(old(self).connections.spec_is_connected(b));
                    if r is Ok && b == addr {
                        let pre = old(self).connections.spec_get(b);
                        let post = self.connections.spec_get(b);
                        assert(post.side == pre.side);
                        assert(post.emitted == pre.emitted);
                        assert(post.base_sent == pre.base_sent);
                    } else {
                        assert(self.connections.spec_get(b) == old(self).connections.spec_get(b));
                    }
                }
            }
        }
        r
    }

    /// Hands the embedder the oldest parsed message of `addr`, recording the
    /// delivery.
    pub fn next_inbound_message(&mut self, addr: PeerAddr) -> (r: Result<Option<Vec<u8>>, NodeError>)
        requires
            old(self).wf(),
        ensures
            final(self).wf(),
            Node::same_shell(old(self), final(self)),
            final(self).known_peers == old(self).known_peers,
            match r {
                Ok(Some(m)) => old(self).connections.spec_is_handshaken(addr)
                    && Connections::updated_at(
                    &old(self).connections,
                    &final(self).connections,
                    addr,
                ) && Connection::deliver_rel(
                    old(self).connections.spec_get(addr),
                    final(self).connections.spec_get(addr),
                    m@,
                ),
                Ok(None) => old(self).connections.spec_is_handshaken(addr) && old(self).connections.spec_get(addr).inbound@.len() == 0 && final(self).connections.connecting() == old(self).connections.connecting() && final(self).connections.connected() == old(self).connections.connected(),
                Err(e) => e == NodeError::NotConnected && !old(self).connections.spec_is_handshaken(addr) && final(self).connections.connecting()
                    == old(self).connections.connecting() && final(self).connections.connected()
                    == old(self).connections.connected(),
            },
    {
        let r = self.connections.pop_inbound(addr);
        proof {
            assert forall|b: PeerAddr| #[trigger] self.sent_ok(b) by {
                assert(old(self).sent_ok(b));
                if self.connections.spec_is_connected(b) {
                    assert(old(self).connections.spec_is_connected(b));
                    if r is Ok && r->Ok_0 is Some && b == addr {
                        assert(self.connections.spec_get(b).side == old(self).connections.spec_get(b).side);
                        assert(self.connections.spec_get(b).emitted == old(self).connections.spec_get(b).emitted);
                        assert(self.connections.spec_get(b).base_sent == old(self).connections.spec_get(b).base_sent);
                    } else {
                        assert(self.connections.spec_get(b) == old(self).connections.spec_get(b));
                    }
                }
            }
        }
        r
    }

    /// Counts one received message of `len` bytes against `from`'s row, if
    /// the peer is known.
    pub fn register_received_message(&mut self, from: PeerAddr, len: usize)
        requires
            old(self).wf(),
            old(self).known_peers@.dom().contains(from) ==> old(self).known_peers@[from].msgs_received < u64::MAX && old(self).known_peers@[from].bytes_received + len <= u64::MAX,
        ensures
            final(self).wf(),
            Node::same_shell(old(self), final(self)),
            final(self).connections == old(self).connections,
            final(self).known_peers@ == (if old(self).known_peers@.dom().contains(from) {
                old(self).known_peers@.insert(
                    from,
                    stats_after_receive(old(self).known_peers@[from], len as nat),
                )
            } else {
                old(self).known_peers@
            }),
    {
        self.known_peers.register_received_message(from, len);
        proof {
            assert forall|b: PeerAddr| #[trigger] self.sent_ok(b) by {
                assert(old(self).sent_ok(b));
                if self.connections.spec_is_connected(b) && old(self).known_peers@.dom().contains(
                    b,
                ) {
                    assert(self.known_peers@[b].msgs_sent == old(self).known_peers@[b].msgs_sent);
                    assert(self.known_peers@[b].bytes_sent == old(self).known_peers@[b].bytes_sent);
                }
            }
        }
    }

    /// Counts one failure against `from`'s row, if the peer is known; the
    /// counter saturates.
    pub fn register_failure(&mut self, from: PeerAddr)
        requires
            old(self).wf(),
        ensures
            final(self).wf(),
            Node::same_shell(old(self), final(self)),
            final(self).connections == old(self).connections,
            final(self).known_peers@ == (if old(self).known_peers@.dom().contains(from) {
                old(self).known_peers@.insert(
                    from,
                    stats_after_failure(old(self).known_peers@[from]),
                )
            } else {
                old(self).known_peers@
            }),
    {
        self.known_peers.register_failure(from);
        proof {
            assert forall|b: PeerAddr| #[trigger] self.sent_ok(b) by {
                assert(old(self).sent_ok(b));
                if self.connections.spec_is_connected(b) && old(self).known_peers@.dom().contains(
                    b,
                ) {
                    assert(self.known_peers@[b].msgs_sent == old(self).known_peers@[b].msgs_sent);
                    assert(self.known_peers@[b].bytes_sent == old(self).known_peers@[b].bytes_sent);
                }
            }
        }
    }

    /// Wipes the failure counter of `addr`'s row, if the peer is known; the
    /// maintenance hook calls this after disconnecting a failing peer.
    pub fn reset_peer_failures(&mut self, addr: PeerAddr)
        requires
            old(self).wf(),
        ensures
            final(self).wf(),
            Node::same_shell(old(self), final(self)),
            final(self).connections == old(self).connections,
            final(self).known_peers@ == (if old(self).known_peers@.dom().contains(addr) {
                old(self).known_peers@.insert(
                    addr,
                    crate::known_peers::stats_failures_reset(old(self).known_peers@[addr]),
                )
            } else {
                old(self).known_peers@
            }),
    {
        self.known_peers.reset_failures(addr);
        proof {
            assert forall|b: PeerAddr| #[trigger] self.sent_ok(b) by {
                assert(old(self).sent_ok(b));
                if self.connections.spec_is_connected(b) && old(self).known_peers@.dom().contains(
                    b,
                ) {
                    assert(self.known_peers@[b].msgs_sent == old(self).known_peers@[b].msgs_sent);
                    assert(self.known_peers@[b].bytes_sent == old(self).known_peers@[b].bytes_sent);
                }
            }
        }
    }

    /// Moves `addr`'s `last_seen` forward to `now`, if the peer is known.
    pub fn mark_peer_seen(&mut self, addr: PeerAddr, now: u64)
        requires
            old(self).wf(),
        ensures
            final(self).wf(),
            Node::same_shell(old(self), final(self)),
            final(self).connections == old(self).connections,
            final(self).known_peers@ == (if old(self).known_peers@.dom().contains(addr) {
                old(self).known_peers@.insert(
                    addr,
                    crate::known_peers::stats_seen(old(self).known_peers@[addr], now),
                )
            } else {
                old(self).known_peers@
            }),
    {
        self.known_peers.mark_seen(addr, now);
        proof {
            assert forall|b: PeerAddr| #[trigger] self.sent_ok(b) by {
                assert(old(self).sent_ok(b));
                if self.connections.spec_is_connected(b) && old(self).known_peers@.dom().contains(
                    b,
                ) {
                    assert(self.known_peers@[b].msgs_sent == old(self).known_peers@[b].msgs_sent);
                    assert(self.known_peers@[b].bytes_sent == old(self).known_peers@[b].bytes_sent);
                }
            }
        }
    }

    /// The counters kept for `addr`, if the peer is known.
    pub fn peer_stats(&self, addr: PeerAddr) -> (r: Option<PeerStats>)
        requires
            self.wf(),
        ensures
            match r {
                Some(s) => self.known_peers@.dom().contains(addr) && s == self.known_peers@[addr],
                None => !self.known_peers@.dom().contains(addr),
            },
    {
        match self.known_peers.get(addr) {
            Some(s) => Some(*s),
            None => None,
        }
    }

    /// Aborts `addr`'s adaptation after a failed handshake: registers a
    /// failure against the peer and rolls the *handshaking* entry back; the
    /// caller reports the returned error.
    pub fn handshake_failed(&mut self, addr: PeerAddr) -> (r: NodeError)
        requires
            old(self).wf(),
        ensures
            final(self).wf(),
            r == NodeError::HandshakeFailed,
            Node::same_shell(old(self), final(self)),
            !final(self).connections.spec_is_connected(addr),
            final(self).connections.connecting() == old(self).connections.connecting().remove(addr),
            final(self).connections.connected() == old(self).connections.connected().remove(addr),
            ({
                let kp1 = if old(self).known_peers@.dom().contains(addr) {
                    old(self).known_peers@.insert(
                        addr,
                        stats_after_failure(old(self).known_peers@[addr]),
                    )
                } else {
                    old(self).known_peers@
                };
                final(self).known_peers@ == (if old(self).connections.spec_is_connected(addr)
                    && old(self).connections.spec_get(addr).side == ConnectionSide::Initiator {
                    kp1.remove(addr)
                } else {
                    kp1
                })
            }),
    {
        self.register_failure(addr);
        let _ = self.disconnect(addr);
        NodeError::HandshakeFailed
    }

    /// What a broadcast does to one connection: queues the message where
    /// there is room and leaves the connection as it was where there is
    /// none; a full queue never aborts the broadcast.
    pub open spec fn broadcast_rel(pre: Connection, post: Connection, m: Seq<u8>) -> bool {
        if pre.outbound@.len() < pre.outbound_capacity {
            Connection::enqueue_rel(pre, post, m)
        } else {
            post == pre
        }
    }

    /// Queues `message` on every *handshaken* connection, without waiting;
    /// peers whose queues are full are skipped, not an error. Peers may
    /// observe the message in any order and at any time.
    #[verifier::loop_isolation(false)]
    pub fn send_broadcast(&mut self, message: &Vec<u8>)
        requires
            old(self).wf(),
        ensures
            final(self).wf(),
            Node::same_shell(old(self), final(self)),
            final(self).known_peers == old(self).known_peers,
            final(self).connections.connecting() == old(self).connections.connecting(),
            final(self).connections.connected().dom() == old(self).connections.connected().dom(),
            forall|a: PeerAddr|
                #[trigger] old(self).connections.connected().dom().contains(a)
                    ==> Node::broadcast_rel(
                    old(self).connections.connected()[a],
                    final(self).connections.connected()[a],
                    message@,
                ),
    {
        let keys = self.connections.handshaken_keys();
        proof {
            self.connections.handshaken.lemma_view();
            assert forall|x: int, y: int| 0 <= x < y < keys@.len() implies keys@[x] != keys@[y] by {
                assert(keys@[x] == self.connections.handshaken.entries()[x].0);
                assert(keys@[y] == self.connections.handshaken.entries()[y].0);
            }
            assert forall|j: int| 0 <= j < keys@.len()
                implies #[trigger] self.connections.connected().dom().contains(keys@[j]) by {
                assert((#[trigger] self.connections.handshaken.entries()[j]).0 == keys@[j]);
                assert(crate::table::has_key(self.connections.handshaken.entries(), keys@[j]));
            }
            assert forall|a: PeerAddr| #[trigger] self.connections.connected().dom().contains(a)
                implies exists|j: int| 0 <= j < keys@.len() && keys@[j] == a by {
                assert(crate::table::has_key(self.connections.handshaken.entries(), a));
                let j = choose|j: int|
                    0 <= j < self.connections.handshaken.entries().len()
                        && (#[trigger] self.connections.handshaken.entries()[j]).0 == a;
                assert(keys@[j] == a);
            }
        }
        let mut i: usize = 0;
        while i < keys.len()
            invariant
                i <= keys@.len(),
                self.wf(),
                self.name == old(self).name,
                self.config == old(self).config,
                self.listening_addr == old(self).listening_addr,
                self.protocols == old(self).protocols,
                self.shutting_down == old(self).shutting_down,
                self.known_peers == old(self).known_peers,
                self.connections.connecting() == old(self).connections.connecting(),
                self.connections.connected().dom() == old(self).connections.connected().dom(),
                forall|x: int, y: int| 0 <= x < y < keys@.len() ==> keys@[x] != keys@[y],
                forall|j: int|
                    0 <= j < keys@.len() ==> #[trigger] old(
                        self,
                    ).connections.connected().dom().contains(keys@[j]),
                forall|a: PeerAddr|
                    #[trigger] old(self).connections.connected().dom().contains(a) ==> exists|
                        j: int,
                    | 0 <= j < keys@.len() && keys@[j] == a,
                forall|j: int|
                    0 <= j < i ==> Node::broadcast_rel(
                        old(self).connections.connected()[#[trigger] keys@[j]],
                        self.connections.connected()[keys@[j]],
                        message@,
                    ),
                forall|j: int|
                    i <= j < keys@.len() ==> self.connections.connected()[#[trigger] keys@[j]]
                        == old(self).connections.connected()[keys@[j]],
            decreases keys@.len() - i,
        {
            let a = keys[i];
            let ghost before = *self;
            let m = clone_bytes(message);
            let res = self.connections.send_direct_message(a, m);
            proof {
                assert(before.connections.spec_is_handshaken(a));
                if res is Err {
                    assert(self.connections.connected() =~= before.connections.connected());
                }
                assert(self.connections.connected().dom() =~= before.connections.connected().dom());
                assert forall|j: int|
                    i + 1 <= j < keys@.len()
                        implies self.connections.connected()[#[trigger] keys@[j]] == old(
                    self,
                ).connections.connected()[keys@[j]] by {
                    assert(keys@[j] != keys@[i as int]);
                }
                assert forall|j: int|
                    0 <= j < i + 1 implies Node::broadcast_rel(
                    old(self).connections.connected()[#[trigger] keys@[j]],
                    self.connections.connected()[keys@[j]],
                    message@,
                ) by {
                    if j < i {
                        assert(keys@[j] != keys@[i as int]);
                        assert(self.connections.connected()[keys@[j]]
                            == before.connections.connected()[keys@[j]]);
                    } else {
                        let pre = old(self).connections.connected()[a];
                        assert(before.connections.connected()[a] == pre);
                        assert(before.connections.spec_get(a) == pre);
                        if res is Ok {
                            assert(Connection::enqueue_rel(
                                pre,
                                self.connections.connected()[a],
                                message@,
                            ));
                        } else {
                            assert(pre.outbound@.len() >= pre.outbound_capacity);
                            assert(self.connections.connected()[a] == pre);
                        }
                    }
                }
                assert forall|b: PeerAddr| #[trigger] self.sent_ok(b) by {
                    assert(before.sent_ok(b));
                    if self.connections.spec_is_connected(b) {
                        assert(before.connections.spec_is_connected(b));
                        if res is Ok && b == a {
                            assert(self.connections.spec_get(b).side == before.connections.spec_get(
                                b,
                            ).side);
                            assert(self.connections.spec_get(b).emitted
                                == before.connections.spec_get(b).emitted);
                            assert(self.connections.spec_get(b).base_sent
                                == before.connections.spec_get(b).base_sent);
                        } else {
                            assert(self.connections.spec_get(b) == before.connections.spec_get(b));
                        }
                    }
                }
            }
            i = i + 1;
        }
        proof {
            assert forall|a: PeerAddr| #[trigger] old(self).connections.connected().dom().contains(
                a,
            ) implies Node::broadcast_rel(
                old(self).connections.connected()[a],
                self.connections.connected()[a],
                message@,
            ) by {
                let j = choose|j: int| 0 <= j < keys@.len() && keys@[j] == a;
                assert(Node::broadcast_rel(
                    old(self).connections.connected()[keys@[j]],
                    self.connections.connected()[keys@[j]],
                    message@,
                ));
            }
        }
    }

    /// Whether shutting the node down drops `a`'s ledger row: rows keyed by
    /// an ephemeral address (the peer initiated) leave with their
    /// connections.
    pub open spec fn drops_row(pre: &Node, a: PeerAddr) -> bool {
        pre.connections.spec_is_connected(a) && pre.connections.spec_get(a).side
            == ConnectionSide::Initiator
    }

    /// Severs every connection and stops taking new ones. Idempotent: on a
    /// node already shut down, nothing is left to remove.
    #[verifier::loop_isolation(false)]
    pub fn shut_down(&mut self)
        requires
            old(self).wf(),
        ensures
            final(self).wf(),
            final(self).shutting_down,
            final(self).name == old(self).name,
            final(self).config == old(self).config,
            final(self).listening_addr == old(self).listening_addr,
            final(self).protocols == old(self).protocols,
            final(self).connections.connecting() == Map::<PeerAddr, Connection>::empty(),
            final(self).connections.connected() == Map::<PeerAddr, Connection>::empty(),
            final(self).connections.spec_num_connected() == 0,
            forall|a: PeerAddr|
                #[trigger] final(self).known_peers@.dom().contains(a) <==> (old(
                    self,
                ).known_peers@.dom().contains(a) && !Node::drops_row(old(self), a)),
            forall|a: PeerAddr|
                #[trigger] final(self).known_peers@.dom().contains(a) ==> final(self).known_peers@[a]
                    == old(self).known_peers@[a],
    {
        self.shutting_down = true;
        proof {
            assert forall|b: PeerAddr| #[trigger] self.sent_ok(b) by {
                assert(old(self).sent_ok(b));
            }
        }
        while self.connections.handshaking.len() > 0
            invariant
                self.wf(),
                self.shutting_down,
                self.name == old(self).name,
                self.config == old(self).config,
                self.listening_addr == old(self).listening_addr,
                self.protocols == old(self).protocols,
                forall|a: PeerAddr|
                    #[trigger] self.connections.connecting().dom().contains(a) ==> old(
                        self,
                    ).connections.connecting().dom().contains(a) && self.connections.connecting()[a]
                        == old(self).connections.connecting()[a],
                forall|a: PeerAddr|
                    #[trigger] self.connections.connected().dom().contains(a) ==> old(
                        self,
                    ).connections.connected().dom().contains(a) && self.connections.connected()[a]
                        == old(self).connections.connected()[a],
                forall|a: PeerAddr|
                    old(self).known_peers@.dom().contains(a) && !Node::drops_row(old(self), a)
                        ==> #[trigger] self.known_peers@.dom().contains(a),
                forall|a: PeerAddr|
                    #[trigger] self.known_peers@.dom().contains(a) ==> old(
                        self,
                    ).known_peers@.dom().contains(a) && self.known_peers@[a] == old(
                        self,
                    ).known_peers@[a],
                forall|a: PeerAddr|
                    Node::drops_row(old(self), a) && !(#[trigger] self.connections.spec_is_connected(
                        a,
                    )) ==> !self.known_peers@.dom().contains(a),
            decreases self.connections.handshaking.spec_len(),
        {
            let p = self.connections.handshaking.entry_at(0);
            let a = p.0;
            proof {
                self.connections.handshaking.lemma_view();
                assert(crate::table::has_key(self.connections.handshaking.entries(), a));
                assert(self.connections.connecting().dom().contains(a));
            }
            let ghost before = *self;
            let _ = self.disconnect(a);
            proof {
                self.connections.handshaking.lemma_view();
                before.connections.handshaking.lemma_view();
                assert(self.connections.connecting().dom() =~= before.connections.connecting().dom().remove(a));
                assert(self.connections.handshaking.spec_len()
                    < before.connections.handshaking.spec_len());
                assert(before.connections.spec_get(a) == old(self).connections.connecting()[a]);
                assert(old(self).connections.connecting().dom().contains(a));
                assert(old(self).connections.spec_is_connected(a));
                assert(old(self).connections.spec_get(a) == old(self).connections.connecting()[a]);
                assert(!self.connections.spec_is_connected(a));
                assert forall|b: PeerAddr|
                    Node::drops_row(old(self), b) && !(
                    #[trigger] self.connections.spec_is_connected(b))
                        implies !self.known_peers@.dom().contains(b) by {
                    if b == a {
                        assert(before.connections.spec_get(a).side == ConnectionSide::Initiator);
                        assert(self.known_peers@ == before.known_peers@.remove(a));
                    } else {
                        assert(before.connections.spec_is_connected(b)
                            == self.connections.spec_is_connected(b));
                        assert(!before.known_peers@.dom().contains(b));
                    }
                }
            }
        }
        while self.connections.handshaken.len() > 0
            invariant
                self.wf(),
                self.shutting_down,
                self.name == old(self).name,
                self.config == old(self).config,
                self.listening_addr == old(self).listening_addr,
                self.protocols == old(self).protocols,
                self.connections.handshaking.spec_len() == 0,
                forall|a: PeerAddr|
                    #[trigger] self.connections.connecting().dom().contains(a) ==> old(
                        self,
                    ).connections.connecting().dom().contains(a) && self.connections.connecting()[a]
                        == old(self).connections.connecting()[a],
                forall|a: PeerAddr|
                    #[trigger] self.connections.connected().dom().contains(a) ==> old(
                        self,
                    ).connections.connected().dom().contains(a) && self.connections.connected()[a]
                        == old(self).connections.connected()[a],
                forall|a: PeerAddr|
                    old(self).known_peers@.dom().contains(a) && !Node::drops_row(old(self), a)
                        ==> #[trigger] self.known_peers@.dom().contains(a),
                forall|a: PeerAddr|
                    #[trigger] self.known_peers@.dom().contains(a) ==> old(
                        self,
                    ).known_peers@.dom().contains(a) && self.known_peers@[a] == old(
                        self,
                    ).known_peers@[a],
                forall|a: PeerAddr|
                    Node::drops_row(old(self), a) && !(#[trigger] self.connections.spec_is_connected(
                        a,
                    )) ==> !self.known_peers@.dom().contains(a),
            decreases self.connections.handshaken.spec_len(),
        {
            let p = self.connections.handshaken.entry_at(0);
            let a = p.0;
            proof {
                self.connections.handshaken.lemma_view();
                assert(crate::table::has_key(self.connections.handshaken.entries(), a));
                assert(self.connections.connected().dom().contains(a));
            }
            let ghost before = *self;
            let _ = self.disconnect(a);
            proof {
                self.connections.handshaken.lemma_view();
                before.connections.handshaken.lemma_view();
                assert(self.connections.connected().dom() =~= before.connections.connected().dom().remove(a));
                assert(self.connections.handshaken.spec_len()
                    < before.connections.handshaken.spec_len());
                assert(self.connections.connecting().dom() =~= before.connections.connecting().dom().remove(a));
                before.connections.handshaking.lemma_view();
                self.connections.handshaking.lemma_view();
                assert(before.connections.spec_get(a) == old(self).connections.connected()[a]);
                assert(old(self).connections.connected().dom().contains(a));
                assert(old(self).connections.spec_is_connected(a));
                assert(old(self).connections.spec_get(a) == old(self).connections.connected()[a]);
                assert(!self.connections.spec_is_connected(a));
                assert forall|b: PeerAddr|
                    Node::drops_row(old(self), b) && !(
                    #[trigger] self.connections.spec_is_connected(b))
                        implies !self.known_peers@.dom().contains(b) by {
                    if b == a {
                        assert(before.connections.spec_get(a).side == ConnectionSide::Initiator);
                        assert(self.known_peers@ == before.known_peers@.remove(a));
                    } else {
                        assert(before.connections.spec_is_connected(b)
                            == self.connections.spec_is_connected(b));
                        assert(!before.known_peers@.dom().contains(b));
                    }
                }
            }
        }
        proof {
            self.connections.handshaking.lemma_view();
            self.connections.handshaken.lemma_view();
            assert(self.connections.connecting() =~= Map::<PeerAddr, Connection>::empty()) by {
                assert(self.connections.connecting().dom().len() == 0);
                assert(self.connections.connecting().dom().finite());
                if exists|a: PeerAddr| self.connections.connecting().dom().contains(a) {
                    let a = choose|a: PeerAddr| self.connections.connecting().dom().contains(a);
                    vstd::set_lib::lemma_set_empty_equivalency_len(
                        self.connections.connecting().dom(),
                    );
                }
                assert(self.connections.connecting().dom() =~= Set::<PeerAddr>::empty());
            }
            assert(self.connections.connected() =~= Map::<PeerAddr, Connection>::empty()) by {
                assert(self.connections.connected().dom().len() == 0);
                assert(self.connections.connected().dom().finite());
                assert(self.connections.connected().dom() =~= Set::<PeerAddr>::empty()) by {
                    vstd::set_lib::lemma_set_empty_equivalency_len(
                        self.connections.connected().dom(),
                    );
                }
            }
            assert forall|a: PeerAddr| #[trigger] self.known_peers@.dom().contains(a) <==> (old(
                self,
            ).known_peers@.dom().contains(a) && !Node::drops_row(old(self), a)) by {
                if old(self).known_peers@.dom().contains(a) && !Node::drops_row(old(self), a) {
                    assert(self.known_peers@.dom().contains(a));
                }
                if self.known_peers@.dom().contains(a) {
                    assert(old(self).known_peers@.dom().contains(a));
                    if Node::drops_row(old(self), a) {
                        assert(!self.connections.spec_is_connected(a));
                        assert(false);
                    }
                }
            }
        }
    }

    /// At every instant a peer address sits in at most one of the
    /// *handshaking* and *handshaken* tables.
    pub proof fn lemma_registry_exclusive(n: &Node, a: PeerAddr)
        requires
            n.wf(),
        ensures
            !(n.connections.spec_is_handshaking(a) && n.connections.spec_is_handshaken(a)),
    {
    }

    /// The ledger accounts for every writer: for a connection this node
    /// initiated, the growth of the peer's sent counters since the
    /// connection began equals what its writer task emitted — message for
    /// message and byte for byte.
    pub proof fn lemma_sent_accounting(n: &Node, a: PeerAddr)
        requires
            n.wf(),
            n.connections.spec_is_connected(a),
            n.connections.spec_get(a).side == ConnectionSide::Responder,
        ensures
            n.known_peers@.dom().contains(a),
            n.known_peers@[a].msgs_sent == n.connections.spec_get(a).base_sent@.0
                + n.connections.spec_get(a).emitted@.len(),
            n.known_peers@[a].bytes_sent == n.connections.spec_get(a).base_sent@.1 + sum_lens(
                n.connections.spec_get(a).emitted@,
            ),
    {
        assert(n.sent_ok(a));
    }

    /// Disconnecting twice: the first call reports a removal exactly when
    /// the peer was registered; a second call has nothing left to remove and
    /// reports `false`.
    pub proof fn lemma_disconnect_twice(
        n0: &Node,
        n1: &Node,
        n2: &Node,
        a: PeerAddr,
        r1: bool,
        r2: bool,
    )
        requires
            Node::disconnect_post(n0, n1, a, r1),
            Node::disconnect_post(n1, n2, a, r2),
        ensures
            r1 == n0.connections.spec_is_connected(a),
            !r2,
    {
    }

    /// A true disconnect severs the peer: it is in neither table afterwards,
    /// and a subsequent direct send to it must fail — with `NotConnected`,
    /// or with `Shutdown` if the node is shutting down.
    pub proof fn lemma_disconnect_severs(
        pre: &Node,
        mid: &Node,
        post: &Node,
        a: PeerAddr,
        m: Seq<u8>,
        r: Result<(), NodeError>,
    )
        requires
            Node::disconnect_post(pre, mid, a, true),
            Node::send_post(mid, post, a, m, r),
        ensures
            !mid.connections.spec_is_connected(a),
            r == Err::<(), NodeError>(
                if mid.shutting_down {
                    NodeError::Shutdown
                } else {
                    NodeError::NotConnected
                },
            ),
    {
    }

    /// Delivery is loss-free and in order: whatever the peer has sent so
    /// far, the messages delivered to the embedder, followed by those still
    /// queued, are exactly the peer's messages in wire order — so the
    /// delivered ones are a prefix of them.
    pub proof fn lemma_delivery_prefix(
        n: &Node,
        a: PeerAddr,
        sent: Seq<Seq<u8>>,
        partial: Seq<u8>,
    )
        requires
            n.wf(),
            n.connections.spec_is_connected(a),
            !n.connections.spec_get(a).corrupted,
            n.connections.spec_get(a).received@ == frames_of(sent) + partial,
            parse_incomplete(partial),
            forall|i: int| 0 <= i < sent.len() ==> valid_payload(#[trigger] sent[i]),
        ensures
            n.connections.spec_get(a).delivered@ + n.connections.spec_get(a).inbound_msgs() == sent,
            n.connections.spec_get(a).delivered@ == sent.subrange(
                0,
                n.connections.spec_get(a).delivered@.len() as int,
            ),
    {
        n.connections.spec_get(a).lemma_delivery_prefix(sent, partial);
    }
}

} // verus!
