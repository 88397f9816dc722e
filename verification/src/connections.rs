//! The connection registry: the *handshaking* and *handshaken* tables.
//!
//! Every live connection sits in exactly one of the two tables, keyed by its
//! peer address. A connection enters *handshaking* when its stream opens, is
//! promoted to *handshaken* exactly once, and is removed from whichever
//! table holds it exactly once.

use vstd::prelude::*;

use crate::connection::Connection;
use crate::connection::ConnectionSide;
use crate::codec::spec_drain;
use crate::table::AddrTable;
use crate::NodeError;
use crate::PeerAddr;

verus! {

/// The two registry tables.
pub struct Connections {
    /// Connections whose handshake has not concluded yet.
    pub handshaking: AddrTable<Connection>,
    /// Fully established connections.
    pub handshaken: AddrTable<Connection>,
}

impl Connections {
    /// The *handshaking* table, as a map.
    pub open spec fn connecting(&self) -> Map<PeerAddr, Connection> {
        self.handshaking@
    }

    /// The *handshaken* table, as a map.
    pub open spec fn connected(&self) -> Map<PeerAddr, Connection> {
        self.handshaken@
    }

    /// Whether `a` is in the *handshaking* table.
    pub open spec fn spec_is_handshaking(&self, a: PeerAddr) -> bool {
        self.connecting().dom().contains(a)
    }

    /// Whether `a` is in the *handshaken* table.
    pub open spec fn spec_is_handshaken(&self, a: PeerAddr) -> bool {
        self.connected().dom().contains(a)
    }

    /// Whether `a` is in either table.
    pub open spec fn spec_is_connected(&self, a: PeerAddr) -> bool {
        self.spec_is_handshaking(a) || self.spec_is_handshaken(a)
    }

    /// The connection of `a`, wherever it sits.
    pub open spec fn spec_get(&self, a: PeerAddr) -> Connection {
        if self.spec_is_handshaken(a) {
            self.connected()[a]
        } else {
            self.connecting()[a]
        }
    }

    /// How many connections the registry holds, over both tables.
    pub open spec fn spec_num_connected(&self) -> nat {
        self.handshaking.spec_len() + self.handshaken.spec_len()
    }

    /// Well-formedness: both tables are well-formed, no address sits in
    /// both, every connection is well-formed and keyed by its own address,
    /// and the total count fits a `usize`.
    pub open spec fn wf(&self) -> bool {
        &&& self.handshaking.wf()
        &&& self.handshaken.wf()
        &&& forall|a: PeerAddr|
            #[trigger] self.connecting().dom().contains(a) ==> !self.connected().dom().contains(a)
        &&& forall|a: PeerAddr|
            #[trigger] self.connecting().dom().contains(a) ==> self.connecting()[a].wf()
                && self.connecting()[a].addr == a
        &&& forall|a: PeerAddr|
            #[trigger] self.connected().dom().contains(a) ==> self.connected()[a].wf()
                && self.connected()[a].addr == a
        &&& self.spec_num_connected() <= usize::MAX
    }

    /// `post` differs from `pre` at most at `a`, in the table that held `a`.
    pub open spec fn updated_at(pre: &Connections, post: &Connections, a: PeerAddr) -> bool {
        if pre.spec_is_handshaken(a) {
            &&& post.connected() == pre.connected().insert(a, post.connected()[a])
            &&& post.connecting() == pre.connecting()
            &&& post.spec_is_handshaken(a)
        } else {
            &&& post.connecting() == pre.connecting().insert(a, post.connecting()[a])
            &&& post.connected() == pre.connected()
            &&& post.spec_is_handshaking(a) == pre.spec_is_handshaking(a)
        }
    }

    /// An empty registry.
    pub fn new() -> (c: Connections)
        ensures
            c.wf(),
            c.connecting() == Map::<PeerAddr, Connection>::empty(),
            c.connected() == Map::<PeerAddr, Connection>::empty(),
            c.spec_num_connected() == 0,
    {
        Connections { handshaking: AddrTable::new(), handshaken: AddrTable::new() }
    }

    /// Whether `addr`'s handshake is still in progress.
    pub fn is_handshaking(&self, addr: PeerAddr) -> (r: bool)
        requires
            self.wf(),
        ensures
            r == self.spec_is_handshaking(addr),
    {
        self.handshaking.contains_key(addr)
    }

    /// Whether `addr` is fully established.
    pub fn is_handshaken(&self, addr: PeerAddr) -> (r: bool)
        requires
            self.wf(),
        ensures
            r == self.spec_is_handshaken(addr),
    {
        self.handshaken.contains_key(addr)
    }

    /// Whether `addr` sits in either table.
    pub fn is_connected(&self, addr: PeerAddr) -> (r: bool)
        requires
            self.wf(),
        ensures
            r == self.spec_is_connected(addr),
    {
        self.is_handshaking(addr) || self.is_handshaken(addr)
    }

    /// How many connections the registry holds, over both tables.
    pub fn num_connected(&self) -> (r: usize)
        requires
            self.wf(),
        ensures
            r == self.spec_num_connected(),
    {
        self.handshaking.len() + self.handshaken.len()
    }

    /// The connection of `addr`, wherever it sits.
    pub fn get(&self, addr: PeerAddr) -> (r: Option<&Connection>)
        requires
            self.wf(),
        ensures
            match r {
                Some(c) => self.spec_is_connected(addr) && *c == self.spec_get(addr),
                None => !self.spec_is_connected(addr),
            },
    {
        match self.handshaken.get(addr) {
            Some(c) => Some(c),
            None => self.handshaking.get(addr),
        }
    }

    /// Registers a fresh connection as *handshaking*.
    pub fn insert_connecting(&mut self, conn: Connection)
        requires
            old(self).wf(),
            conn.wf(),
            !old(self).spec_is_connected(conn.addr),
            old(self).spec_num_connected() < usize::MAX,
        ensures
            final(self).wf(),
            final(self).connecting() == old(self).connecting().insert(conn.addr, conn),
            final(self).connected() == old(self).connected(),
            final(self).spec_num_connected() == old(self).spec_num_connected() + 1,
    {
        let a = conn.addr;
        self.handshaking.insert(a, conn);
    }

    /// Promotes `addr` from *handshaking* to *handshaken*, atomically.
    pub fn mark_as_handshaken(&mut self, addr: PeerAddr) -> (r: Result<(), NodeError>)
        requires
            old(self).wf(),
        ensures
            final(self).wf(),
            match r {
                Ok(()) => old(self).spec_is_handshaking(addr) && final(self).connecting() == old(self).connecting().remove(addr) && final(self).connected() == old(self).connected().insert(addr, old(self).connecting()[addr]),
                Err(e) => e == NodeError::NotConnected && !old(self).spec_is_handshaking(addr)
                    && final(self).connecting() == old(self).connecting() && final(self).connected()
                    == old(self).connected(),
            },
            final(self).spec_num_connected() == old(self).spec_num_connected(),
    {
        match self.handshaking.remove(addr) {
            Some(conn) => {
                self.handshaken.insert(addr, conn);
                Ok(())
            }
            None => Err(NodeError::NotConnected),
        }
    }

    /// Removes `addr` from whichever table holds it, handing the connection
    /// back.
    pub fn remove(&mut self, addr: PeerAddr) -> (r: Option<Connection>)
        requires
            old(self).wf(),
        ensures
            final(self).wf(),
            final(self).connecting() == old(self).connecting().remove(addr),
            final(self).connected() == old(self).connected().remove(addr),
            match r {
                Some(c) => old(self).spec_is_connected(addr) && c == old(self).spec_get(addr)
                    && final(self).spec_num_connected() == old(self).spec_num_connected() - 1,
                None => !old(self).spec_is_connected(addr) && final(self).spec_num_connected()
                    == old(self).spec_num_connected(),
            },
    {
        match self.handshaking.remove(addr) {
            Some(c) => {
                proof {
                    assert(old(self).connected().remove(addr) =~= old(self).connected());
                }
                Some(c)
            }
            None => {
                let r = self.handshaken.remove(addr);
                proof {
                    assert(old(self).connecting().remove(addr) =~= old(self).connecting());
                }
                r
            }
        }
    }

    /// The addresses of the *handshaken* table, in table order.
    pub fn handshaken_keys(&self) -> (r: Vec<PeerAddr>)
        ensures
            r@.len() == self.handshaken.spec_len(),
            forall|i: int|
                0 <= i < r@.len() ==> r@[i] == (#[trigger] self.handshaken.entries()[i]).0,
    {
        self.handshaken.keys()
    }

    /// Queues `message` on `addr`'s connection without waiting, preferring
    /// the *handshaken* table.
    pub fn send_direct_message(&mut self, target: PeerAddr, message: Vec<u8>) -> (r: Result<
        (),
        NodeError,
    >)
        requires
            old(self).wf(),
        ensures
            final(self).wf(),
            final(self).spec_num_connected() == old(self).spec_num_connected(),
            match r {
                Ok(()) => old(self).spec_is_connected(target) && Connections::updated_at(
                    old(self),
                    final(self),
                    target,
                ) && Connection::enqueue_rel(
                    old(self).spec_get(target),
                    final(self).spec_get(target),
                    message@,
                ),
                Err(e) => final(self).connecting() == old(self).connecting() && final(self).connected() == old(self).connected() && ((e == NodeError::NotConnected && !old(self).spec_is_connected(target)) || (e == NodeError::QueueFull && old(self).spec_is_connected(target) && old(self).spec_get(target).outbound@.len() >= old(self).spec_get(target).outbound_capacity)),
            },
    {
        if self.handshaken.contains_key(target) {
            let mut c = self.handshaken.remove(target).unwrap();
            let res = c.send_message(message);
            let ghost c2 = c;
            self.handshaken.insert(target, c);
            proof {
                if res is Ok {
                    assert(self.connected() =~= old(self).connected().insert(target, c2));
                } else {
                    assert(c2 == old(self).connected()[target]);
                    assert(self.connected() =~= old(self).connected());
                }
            }
            res
        } else if self.handshaking.contains_key(target) {
            let mut c = self.handshaking.remove(target).unwrap();
            let res = c.send_message(message);
            let ghost c2 = c;
            self.handshaking.insert(target, c);
            proof {
                if res is Ok {
                    assert(self.connecting() =~= old(self).connecting().insert(target, c2));
                } else {
                    assert(c2 == old(self).connecting()[target]);
                    assert(self.connecting() =~= old(self).connecting());
                }
            }
            res
        } else {
            Err(NodeError::NotConnected)
        }
    }

    /// Hands the writer task of `addr` its oldest queued message.
    pub fn writer_pop(&mut self, addr: PeerAddr) -> (r: Result<Option<Vec<u8>>, NodeError>)
        requires
            old(self).wf(),
        ensures
            final(self).wf(),
            final(self).spec_num_connected() == old(self).spec_num_connected(),
            match r {
                Ok(Some(m)) => old(self).spec_is_connected(addr) && Connections::updated_at(
                    old(self),
                    final(self),
                    addr,
                ) && Connection::dequeue_rel(
                    old(self).spec_get(addr),
                    final(self).spec_get(addr),
                    m@,
                ),
                Ok(None) => old(self).spec_is_connected(addr) && old(self).spec_get(
                    addr,
                ).outbound@.len() == 0 && final(self).connecting() == old(self).connecting()
                    && final(self).connected() == old(self).connected(),
                Err(e) => e == NodeError::NotConnected && !old(self).spec_is_connected(addr)
                    && final(self).connecting() == old(self).connecting() && final(self).connected()
                    == old(self).connected(),
            },
    {
        if self.handshaken.contains_key(addr) {
            let mut c = self.handshaken.remove(addr).unwrap();
            let res = c.pop_outbound();
            let ghost c2 = c;
            self.handshaken.insert(addr, c);
            proof {
                if res is Some {
                    assert(self.connected() =~= old(self).connected().insert(addr, c2));
                } else {
                    assert(c2 == old(self).connected()[addr]);
                    assert(self.connected() =~= old(self).connected());
                }
            }
            Ok(res)
        } else if self.handshaking.contains_key(addr) {
            let mut c = self.handshaking.remove(addr).unwrap();
            let res = c.pop_outbound();
            let ghost c2 = c;
            self.handshaking.insert(addr, c);
            proof {
                if res is Some {
                    assert(self.connecting() =~= old(self).connecting().insert(addr, c2));
                } else {
                    assert(c2 == old(self).connecting()[addr]);
                    assert(self.connecting() =~= old(self).connecting());
                }
            }
            Ok(res)
        } else {
            Err(NodeError::NotConnected)
        }
    }

    /// Records that `message`'s bytes were handed to the OS for `addr`,
    /// handing back the connection's side.
    pub fn record_emitted(&mut self, addr: PeerAddr, message: &Vec<u8>) -> (r: Option<
        ConnectionSide,
    >)
        requires
            old(self).wf(),
        ensures
            final(self).wf(),
            final(self).spec_num_connected() == old(self).spec_num_connected(),
            match r {
                Some(side) => old(self).spec_is_connected(addr) && side == old(self).spec_get(
                    addr,
                ).side && Connections::updated_at(old(self), final(self), addr)
                    && Connection::emit_rel(
                    old(self).spec_get(addr),
                    final(self).spec_get(addr),
                    message@,
                ),
                None => !old(self).spec_is_connected(addr) && final(self).connecting() == old(self).connecting() && final(self).connected() == old(self).connected(),
            },
    {
        if self.handshaken.contains_key(addr) {
            let mut c = self.handshaken.remove(addr).unwrap();
            c.record_emitted(message);
            let side = c.side;
            let ghost c2 = c;
            self.handshaken.insert(addr, c);
            proof {
                assert(self.connected() =~= old(self).connected().insert(addr, c2));
            }
            Some(side)
        } else if self.handshaking.contains_key(addr) {
            let mut c = self.handshaking.remove(addr).unwrap();
            c.record_emitted(message);
            let side = c.side;
            let ghost c2 = c;
            self.handshaking.insert(addr, c);
            proof {
                assert(self.connecting() =~= old(self).connecting().insert(addr, c2));
            }
            Some(side)
        } else {
            None
        }
    }

    /// Feeds bytes read from `addr`'s stream through the codec; reading is
    /// only live on *handshaken* connections.
    pub fn absorb(&mut self, addr: PeerAddr, chunk: &Vec<u8>) -> (r: Result<bool, NodeError>)
        requires
            old(self).wf(),
        ensures
            final(self).wf(),
            final(self).spec_num_connected() == old(self).spec_num_connected(),
            match r {
                Ok(invalid) => old(self).spec_is_handshaken(addr) && Connections::updated_at(
                    old(self),
                    final(self),
                    addr,
                ) && Connection::absorb_rel(
                    old(self).spec_get(addr),
                    final(self).spec_get(addr),
                    chunk@,
                ) && invalid == spec_drain(old(self).spec_get(addr).carry@ + chunk@).2,
                Err(e) => e == NodeError::NotConnected && !old(self).spec_is_handshaken(addr)
                    && final(self).connecting() == old(self).connecting() && final(self).connected()
                    == old(self).connected(),
            },
    {
        if self.handshaken.contains_key(addr) {
            let mut c = self.handshaken.remove(addr).unwrap();
            let invalid = c.absorb(chunk);
            let ghost c2 = c;
            self.handshaken.insert(addr, c);
            proof {
                assert(self.connected() =~= old(self).connected().insert(addr, c2));
            }
            Ok(invalid)
        } else {
            Err(NodeError::NotConnected)
        }
    }

    /// Hands the embedder the oldest inbound message of `addr`, if any.
    pub fn pop_inbound(&mut self, addr: PeerAddr) -> (r: Result<Option<Vec<u8>>, NodeError>)
        requires
            old(self).wf(),
        ensures
            final(self).wf(),
            final(self).spec_num_connected() == old(self).spec_num_connected(),
            match r {
                Ok(Some(m)) => old(self).spec_is_handshaken(addr) && Connections::updated_at(
                    old(self),
                    final(self),
                    addr,
                ) && Connection::deliver_rel(
                    old(self).spec_get(addr),
                    final(self).spec_get(addr),
                    m@,
                ),
                Ok(None) => old(self).spec_is_handshaken(addr) && old(self).spec_get(
                    addr,
                ).inbound@.len() == 0 && final(self).connecting() == old(self).connecting()
                    && final(self).connected() == old(self).connected(),
                Err(e) => e == NodeError::NotConnected && !old(self).spec_is_handshaken(addr)
                    && final(self).connecting() == old(self).connecting() && final(self).connected()
                    == old(self).connected(),
            },
    {
        if self.handshaken.contains_key(addr) {
            let mut c = self.handshaken.remove(addr).unwrap();
            let res = c.pop_inbound();
            let ghost c2 = c;
            self.handshaken.insert(addr, c);
            proof {
                if res is Some {
                    assert(self.connected() =~= old(self).connected().insert(addr, c2));
                } else {
                    assert(c2 == old(self).connected()[addr]);
                    assert(self.connected() =~= old(self).connected());
                }
            }
            Ok(res)
        } else {
            Err(NodeError::NotConnected)
        }
    }
}

} // verus!
