//! The per-connection protocols an embedder can mix in.
//!
//! A node starts with no protocols: it accepts and initiates connections
//! but neither reads nor writes. The embedder registers each protocol at
//! most once (see the `set_` methods of [`crate::node::Node`]); handshake,
//! reading, writing and disconnect handlers run as tasks of the embedding
//! runtime, which reports their outcomes to the node's verified transitions.

use vstd::prelude::*;

use crate::node::Node;

verus! {

/// Implemented by wrappers that carry a node: gives protocol code a way to
/// reach it.
pub trait ContainsNode {
    /// The node this value wraps.
    fn node(&self) -> &Node;
}

/// Implemented by embedders that perform a handshake on each new
/// connection; enabling it registers the handshake protocol with the node.
pub trait Handshaking {
    /// Prepares the node to perform network handshakes.
    fn enable_handshaking(&self);
}

} // verus!
