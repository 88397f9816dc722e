//! A peer-to-peer node toolkit, modelled as a verified core.
//!
//! A node listens for inbound connections, initiates outbound ones, and
//! exchanges framed messages with its peers. The core of the toolkit is the
//! per-connection lifecycle: a stream goes from *handshaking* to *handshaken*,
//! an outbound queue feeds its writer, a read buffer with a carry feeds its
//! parser, and a per-peer ledger counts messages, bytes and failures.
//!
//! This crate holds that core as a sequential state machine with full
//! contracts: every decision the node makes (registration, promotion,
//! disconnection, queueing, parsing, accounting) is a verified function.
//! The embedding runtime owns the sockets and tasks; it feeds the outcomes
//! of its I/O (accepted streams, read bytes, write completions) into the
//! state machine and carries out the actions the state machine returns.

use vstd::prelude::*;

pub mod codec;
pub mod config;
pub mod connection;
pub mod connections;
pub mod known_peers;
pub mod node;
pub mod protocols;
pub mod topology;
pub mod table;

verus! {

/// The host half of a peer address, held as plain integers.
#[derive(Clone, Copy, PartialEq, Eq, Structural, Debug, Hash)]
pub enum IpRepr {
    /// An IPv4 address, as the big-endian interpretation of its four octets.
    V4(u32),
    /// An IPv6 address, as the big-endian interpretations of its first and
    /// last eight octets.
    V6(u64, u64),
}

/// A peer address: a host and a port.
#[derive(Clone, Copy, PartialEq, Eq, Structural, Debug, Hash)]
pub struct PeerAddr {
    pub ip: IpRepr,
    pub port: u16,
}

impl PeerAddr {
    /// The IPv4 loopback host with the given port: the default listening
    /// address of a node.
    pub fn loopback(port: u16) -> (a: PeerAddr)
        ensures
            a == (PeerAddr { ip: IpRepr::V4(0x7f000001), port }),
    {
        PeerAddr { ip: IpRepr::V4(0x7f000001), port }
    }
}

/// Everything that can go wrong inside the node's core.
#[derive(Clone, Copy, PartialEq, Eq, Structural, Debug)]
pub enum NodeError {
    /// Invalid configuration: the desired port is unavailable and a random
    /// one is disallowed, or no port policy was given at all.
    Config,
    /// A connect call targeted an address already present in the registry.
    AlreadyConnected,
    /// The handshake with the peer returned an error.
    HandshakeFailed,
    /// The codec rejected inbound bytes.
    InvalidData,
    /// The target address is missing from both registry tables.
    NotConnected,
    /// The outbound queue is saturated and the send did not want to wait.
    QueueFull,
    /// A wrapped OS or socket error, terminal for its connection.
    Io,
    /// The node is shutting down.
    Shutdown,
}

} // verus!
