//! One live connection to a peer.
//!
//! A connection owns the state its two pump tasks share with the node: the
//! bounded outbound queue its writer consumes, and the carry buffer and
//! inbound queue its reader fills. The raw stream and the tasks themselves
//! belong to the embedding runtime; what they may do is specified here.
//!
//! Three ghost histories record the connection's traffic: every raw byte
//! received, every message delivered to the embedder, and every message
//! handed to the OS. The well-formedness invariant ties the exec state to
//! these histories, which is what makes in-order, loss-free delivery (up to
//! teardown) provable.

use vstd::prelude::*;

use crate::codec::drain_buffer;
use crate::codec::concat_bytes;
use crate::codec::frames_of;
use crate::codec::lemma_drain_reconstruct;
use crate::codec::lemma_frames_of_app;
use crate::codec::lemma_framing_unique;
use crate::codec::parse_incomplete;
use crate::codec::seq_vec_view;
use crate::codec::spec_drain;
use crate::codec::valid_payload;
use crate::NodeError;
use crate::PeerAddr;

verus! {

/// Who was the initiator and who the responder when the connection was
/// established. A connection records the **peer's** side: its side is
/// `Initiator` exactly when the peer dialed us, in which case its address is
/// an ephemeral port rather than the peer's listening address.
#[derive(Clone, Copy, PartialEq, Eq, Structural, Debug)]
pub enum ConnectionSide {
    Initiator,
    Responder,
}

impl ConnectionSide {
    /// The opposite side.
    pub open spec fn spec_not(self) -> ConnectionSide {
        match self {
            ConnectionSide::Initiator => ConnectionSide::Responder,
            ConnectionSide::Responder => ConnectionSide::Initiator,
        }
    }

    /// The opposite side.
    pub fn not(self) -> (r: ConnectionSide)
        ensures
            r == self.spec_not(),
    {
        match self {
            ConnectionSide::Initiator => ConnectionSide::Responder,
            ConnectionSide::Responder => ConnectionSide::Initiator,
        }
    }
}

/// The total length of a list of messages.
pub open spec fn sum_lens(msgs: Seq<Seq<u8>>) -> int
    decreases msgs.len(),
{
    if msgs.len() == 0 {
        0
    } else {
        sum_lens(msgs.drop_last()) + msgs.last().len()
    }
}

/// Appending one message adds its length to the total.
pub proof fn lemma_sum_lens_push(msgs: Seq<Seq<u8>>, m: Seq<u8>)
    ensures
        sum_lens(msgs.push(m)) == sum_lens(msgs) + m.len(),
{
    assert(msgs.push(m).drop_last() =~= msgs);
    assert(msgs.push(m).last() == m);
}

/// The state of one established stream, shared between the node and the
/// connection's reader and writer tasks.
#[verifier::ext_equal]
pub struct Connection {
    /// The remote address, as seen locally. This is the peer's listening
    /// address only when the local node initiated the connection.
    pub addr: PeerAddr,
    /// The peer's side of the connection.
    pub side: ConnectionSide,
    /// How many queued outbound messages the connection tolerates.
    pub outbound_capacity: usize,
    /// Serialized messages waiting for the writer task, oldest first.
    pub outbound: Vec<Vec<u8>>,
    /// Unconsumed bytes from the last read, kept for the next one.
    pub carry: Vec<u8>,
    /// Parsed messages waiting for the embedder's handler, oldest first.
    pub inbound: Vec<Vec<u8>>,
    /// Whether the codec ever rejected this stream's bytes.
    pub corrupted: bool,
    /// Whether a reader task exists (the reading protocol was enabled).
    pub reader_task: bool,
    /// Whether a writer task exists (the writing protocol was enabled).
    pub writer_task: bool,
    /// The peer's sent counters (messages, bytes) as they stood when this
    /// connection was created; rows for a peer's listening address outlive
    /// its connections.
    pub base_sent: Ghost<(u64, u64)>,
    /// Every message handed to the OS so far, in order.
    pub emitted: Ghost<Seq<Seq<u8>>>,
    /// Every message handed to the embedder's handler so far, in order.
    pub delivered: Ghost<Seq<Seq<u8>>>,
    /// Every raw byte received from the stream so far, in order.
    pub received: Ghost<Seq<u8>>,
}

impl Connection {
    /// The queued outbound messages, as sequences.
    pub open spec fn outbound_msgs(&self) -> Seq<Seq<u8>> {
        seq_vec_view(self.outbound@)
    }

    /// The queued inbound messages, as sequences.
    pub open spec fn inbound_msgs(&self) -> Seq<Seq<u8>> {
        seq_vec_view(self.inbound@)
    }

    /// The reading invariant: as long as the codec never rejected a byte,
    /// the bytes received so far are exactly the frames of the messages
    /// delivered or still queued, followed by the carry of a partial frame.
    pub open spec fn stream_ok(&self) -> bool {
        &&& frames_of(self.delivered@ + self.inbound_msgs()) + self.carry@ == self.received@
        &&& parse_incomplete(self.carry@)
        &&& forall|i: int|
            0 <= i < self.delivered@.len() ==> valid_payload(#[trigger] self.delivered@[i])
        &&& forall|i: int|
            0 <= i < self.inbound_msgs().len() ==> valid_payload(#[trigger] self.inbound_msgs()[i])
    }

    /// Well-formedness: the outbound queue respects its capacity and, until
    /// the codec rejects a byte, the reading invariant holds.
    pub open spec fn wf(&self) -> bool {
        &&& self.outbound@.len() <= self.outbound_capacity
        &&& !self.corrupted ==> self.stream_ok()
    }

    /// Everything that never changes after construction.
    pub open spec fn same_identity(&self, other: &Connection) -> bool {
        &&& self.addr == other.addr
        &&& self.side == other.side
        &&& self.outbound_capacity == other.outbound_capacity
        &&& self.reader_task == other.reader_task
        &&& self.writer_task == other.writer_task
        &&& self.base_sent == other.base_sent
    }

    /// The reader-side state is untouched.
    pub open spec fn frozen_stream(pre: &Connection, post: &Connection) -> bool {
        &&& post.carry == pre.carry
        &&& post.inbound == pre.inbound
        &&& post.corrupted == pre.corrupted
        &&& post.delivered == pre.delivered
        &&& post.received == pre.received
    }

    /// The writer-side state is untouched.
    pub open spec fn frozen_writer(pre: &Connection, post: &Connection) -> bool {
        &&& post.outbound == pre.outbound
        &&& post.emitted == pre.emitted
    }

    /// `post` is `pre` with `m` queued for its writer.
    pub open spec fn enqueue_rel(pre: Connection, post: Connection, m: Seq<u8>) -> bool {
        &&& post.same_identity(&pre)
        &&& Connection::frozen_stream(&pre, &post)
        &&& post.emitted == pre.emitted
        &&& pre.outbound@.len() < pre.outbound_capacity
        &&& post.outbound_msgs() == pre.outbound_msgs().push(m)
    }

    /// `post` is `pre` with its oldest queued message handed to the writer.
    pub open spec fn dequeue_rel(pre: Connection, post: Connection, m: Seq<u8>) -> bool {
        &&& post.same_identity(&pre)
        &&& Connection::frozen_stream(&pre, &post)
        &&& post.emitted == pre.emitted
        &&& pre.outbound@.len() > 0
        &&& m == pre.outbound_msgs()[0]
        &&& post.outbound_msgs() == pre.outbound_msgs().drop_first()
    }

    /// `post` is `pre` with `m` recorded as handed to the OS.
    pub open spec fn emit_rel(pre: Connection, post: Connection, m: Seq<u8>) -> bool {
        &&& post.same_identity(&pre)
        &&& Connection::frozen_stream(&pre, &post)
        &&& post.outbound == pre.outbound
        &&& post.emitted@ == pre.emitted@.push(m)
    }

    /// `post` is `pre` after absorbing the read bytes `chunk`.
    pub open spec fn absorb_rel(pre: Connection, post: Connection, chunk: Seq<u8>) -> bool {
        &&& post.same_identity(&pre)
        &&& Connection::frozen_writer(&pre, &post)
        &&& post.delivered == pre.delivered
        &&& post.received@ == pre.received@ + chunk
        &&& post.corrupted == (pre.corrupted || spec_drain(pre.carry@ + chunk).2)
        &&& post.inbound_msgs() == pre.inbound_msgs() + spec_drain(pre.carry@ + chunk).0
        &&& post.carry@ == spec_drain(pre.carry@ + chunk).1
    }

    /// `post` is `pre` with its oldest inbound message delivered.
    pub open spec fn deliver_rel(pre: Connection, post: Connection, m: Seq<u8>) -> bool {
        &&& post.same_identity(&pre)
        &&& post.outbound == pre.outbound
        &&& post.emitted == pre.emitted
        &&& post.carry == pre.carry
        &&& post.corrupted == pre.corrupted
        &&& post.received == pre.received
        &&& pre.inbound@.len() > 0
        &&& m == pre.inbound_msgs()[0]
        &&& post.inbound_msgs() == pre.inbound_msgs().drop_first()
        &&& post.delivered@ == pre.delivered@.push(m)
    }

    /// A fresh connection: empty queues, an empty carry, empty histories.
    pub fn new(
        addr: PeerAddr,
        side: ConnectionSide,
        outbound_capacity: usize,
        reader_task: bool,
        writer_task: bool,
        base_sent: Ghost<(u64, u64)>,
    ) -> (c: Connection)
        ensures
            c.wf(),
            c.addr == addr,
            c.side == side,
            c.outbound_capacity == outbound_capacity,
            c.reader_task == reader_task,
            c.writer_task == writer_task,
            c.base_sent == base_sent,
            c.outbound@.len() == 0,
            c.inbound@.len() == 0,
            c.carry@.len() == 0,
            !c.corrupted,
            c.emitted@ == Seq::<Seq<u8>>::empty(),
            c.delivered@ == Seq::<Seq<u8>>::empty(),
            c.received@ == Seq::<u8>::empty(),
    {
        let c = Connection {
            addr,
            side,
            outbound_capacity,
            outbound: Vec::new(),
            carry: Vec::new(),
            inbound: Vec::new(),
            corrupted: false,
            reader_task,
            writer_task,
            base_sent,
            emitted: Ghost(Seq::empty()),
            delivered: Ghost(Seq::empty()),
            received: Ghost(Seq::empty()),
        };
        proof {
            assert(c.delivered@ + c.inbound_msgs() =~= Seq::<Seq<u8>>::empty());
            assert(frames_of(c.delivered@ + c.inbound_msgs()) + c.carry@ =~= c.received@);
        }
        c
    }

    /// Queues `message` for the writer task; refuses when the queue is at
    /// capacity, without waiting.
    pub fn send_message(&mut self, message: Vec<u8>) -> (r: Result<(), NodeError>)
        requires
            old(self).wf(),
        ensures
            final(self).wf(),
            final(self).same_identity(old(self)),
            final(self).carry == old(self).carry,
            final(self).inbound == old(self).inbound,
            final(self).corrupted == old(self).corrupted,
            final(self).emitted == old(self).emitted,
            final(self).delivered == old(self).delivered,
            final(self).received == old(self).received,
            match r {
                Ok(()) => old(self).outbound@.len() < old(self).outbound_capacity && final(self).outbound_msgs() == old(self).outbound_msgs().push(message@),
                Err(e) => e == NodeError::QueueFull && old(self).outbound@.len() >= old(self).outbound_capacity && final(self).outbound == old(self).outbound,
            },
    {
        if self.outbound.len() < self.outbound_capacity {
            self.outbound.push(message);
            proof {
                assert(self.outbound_msgs() =~= old(self).outbound_msgs().push(
                    self.outbound@.last()@,
                ));
            }
            Ok(())
        } else {
            Err(NodeError::QueueFull)
        }
    }

    /// Hands the writer task the oldest queued message, if any.
    pub fn pop_outbound(&mut self) -> (r: Option<Vec<u8>>)
        requires
            old(self).wf(),
        ensures
            final(self).wf(),
            final(self).same_identity(old(self)),
            final(self).carry == old(self).carry,
            final(self).inbound == old(self).inbound,
            final(self).corrupted == old(self).corrupted,
            final(self).emitted == old(self).emitted,
            final(self).delivered == old(self).delivered,
            final(self).received == old(self).received,
            match r {
                Some(m) => old(self).outbound@.len() > 0 && m@ == old(self).outbound_msgs()[0]
                    && final(self).outbound_msgs() == old(self).outbound_msgs().drop_first(),
                None => old(self).outbound@.len() == 0 && final(self).outbound == old(self).outbound,
            },
    {
        if self.outbound.len() == 0 {
            return None;
        }
        let m = self.outbound.remove(0);
        proof {
            assert(self.outbound_msgs() =~= old(self).outbound_msgs().drop_first());
        }
        Some(m)
    }

    /// Records that `message`'s bytes were handed to the OS.
    pub fn record_emitted(&mut self, message: &Vec<u8>)
        requires
            old(self).wf(),
        ensures
            final(self).wf(),
            final(self).same_identity(old(self)),
            final(self).outbound == old(self).outbound,
            final(self).carry == old(self).carry,
            final(self).inbound == old(self).inbound,
            final(self).corrupted == old(self).corrupted,
            final(self).delivered == old(self).delivered,
            final(self).received == old(self).received,
            final(self).emitted@ == old(self).emitted@.push(message@),
    {
        self.emitted = Ghost(self.emitted@.push(message@));
    }

    /// Feeds freshly read bytes through the codec: complete frames join the
    /// inbound queue, a partial frame stays in the carry, and an invalid
    /// frame marks the stream corrupted and drops the carry.
    pub fn absorb(&mut self, chunk: &Vec<u8>) -> (invalid: bool)
        requires
            old(self).wf(),
        ensures
            final(self).wf(),
            final(self).same_identity(old(self)),
            final(self).outbound == old(self).outbound,
            final(self).emitted == old(self).emitted,
            final(self).delivered == old(self).delivered,
            final(self).received@ == old(self).received@ + chunk@,
            invalid == spec_drain(old(self).carry@ + chunk@).2,
            final(self).corrupted == (old(self).corrupted || invalid),
            final(self).inbound_msgs() == old(self).inbound_msgs() + spec_drain(
                old(self).carry@ + chunk@,
            ).0,
            final(self).carry@ == spec_drain(old(self).carry@ + chunk@).1,
    {
        let buffer = concat_bytes(&self.carry, chunk);
        let ghost buf = buffer@;
        let outcome = drain_buffer(&buffer);
        let mut msgs = outcome.msgs;
        let ghost msgs0 = msgs@;
        let ghost new_msgs = seq_vec_view(msgs@);
        self.carry = outcome.carry;
        self.inbound.append(&mut msgs);
        self.corrupted = self.corrupted || outcome.invalid;
        proof {
            self.received@ = self.received@ + chunk@;
        }
        proof {
            assert(self.inbound_msgs() =~= old(self).inbound_msgs() + new_msgs) by {
                assert(self.inbound@ == old(self).inbound@ + msgs0);
            }
            lemma_drain_reconstruct(buf);
            if !self.corrupted {
                assert(!old(self).corrupted && !outcome.invalid);
                let d0 = self.delivered@;
                let i0 = old(self).inbound_msgs();
                assert(frames_of(d0 + i0) + old(self).carry@ == old(self).received@);
                assert(frames_of(new_msgs) + self.carry@ == buf);
                lemma_frames_of_app(d0 + i0, new_msgs);
                assert(d0 + (i0 + new_msgs) =~= (d0 + i0) + new_msgs);
                assert(frames_of(d0 + self.inbound_msgs()) + self.carry@ =~= self.received@) by {
                    assert(frames_of((d0 + i0) + new_msgs) + self.carry@ =~= (frames_of(d0 + i0)
                        + frames_of(new_msgs)) + self.carry@);
                    assert((frames_of(d0 + i0) + frames_of(new_msgs)) + self.carry@ =~= frames_of(
                        d0 + i0,
                    ) + (frames_of(new_msgs) + self.carry@));
                    assert(frames_of(d0 + i0) + buf =~= (frames_of(d0 + i0) + old(self).carry@)
                        + chunk@);
                }
                assert forall|i: int| 0 <= i < self.inbound_msgs().len()
                    implies valid_payload(#[trigger] self.inbound_msgs()[i]) by {
                    if i < i0.len() {
                        assert(self.inbound_msgs()[i] == i0[i]);
                    } else {
                        assert(self.inbound_msgs()[i] == new_msgs[i - i0.len()]);
                        assert(new_msgs == spec_drain(buf).0);
                    }
                }
            }
        }
        outcome.invalid
    }

    /// Hands the embedder the oldest queued inbound message, if any,
    /// recording the delivery.
    pub fn pop_inbound(&mut self) -> (r: Option<Vec<u8>>)
        requires
            old(self).wf(),
        ensures
            final(self).wf(),
            final(self).same_identity(old(self)),
            final(self).outbound == old(self).outbound,
            final(self).carry == old(self).carry,
            final(self).corrupted == old(self).corrupted,
            final(self).emitted == old(self).emitted,
            final(self).received == old(self).received,
            match r {
                Some(m) => old(self).inbound@.len() > 0 && m@ == old(self).inbound_msgs()[0]
                    && final(self).inbound_msgs() == old(self).inbound_msgs().drop_first() && final(self).delivered@ == old(self).delivered@.push(old(self).inbound_msgs()[0]),
                None => old(self).inbound@.len() == 0 && *final(self) == *old(self),
            },
    {
        if self.inbound.len() == 0 {
            return None;
        }
        let m = self.inbound.remove(0);
        proof {
            self.delivered@ = self.delivered@.push(m@);
        }
        proof {
            assert(self.inbound_msgs() =~= old(self).inbound_msgs().drop_first());
            if !self.corrupted {
                assert(self.delivered@ + self.inbound_msgs() =~= old(self).delivered@ + old(self).inbound_msgs());
                assert(m@ == old(self).inbound_msgs()[0]);
                assert forall|i: int| 0 <= i < self.delivered@.len() implies valid_payload(
                    #[trigger] self.delivered@[i],
                ) by {
                    if i < old(self).delivered@.len() {
                        assert(self.delivered@[i] == old(self).delivered@[i]);
                    } else {
                        assert(self.delivered@[i] == old(self).inbound_msgs()[0]);
                    }
                }
                assert forall|i: int| 0 <= i < self.inbound_msgs().len() implies valid_payload(
                    #[trigger] self.inbound_msgs()[i],
                ) by {
                    assert(self.inbound_msgs()[i] == old(self).inbound_msgs()[i + 1]);
                }
            }
        }
        Some(m)
    }

    /// Delivery is loss-free and in order: whatever the peer has sent so
    /// far, the messages this connection has delivered, followed by those
    /// still queued, are exactly the peer's messages in wire order — so the
    /// delivered ones are a prefix of them.
    pub proof fn lemma_delivery_prefix(&self, sent: Seq<Seq<u8>>, partial: Seq<u8>)
        requires
            self.wf(),
            !self.corrupted,
            self.received@ == frames_of(sent) + partial,
            parse_incomplete(partial),
            forall|i: int| 0 <= i < sent.len() ==> valid_payload(#[trigger] sent[i]),
        ensures
            self.delivered@ + self.inbound_msgs() == sent,
            self.delivered@ == sent.subrange(0, self.delivered@.len() as int),
    {
        let handled = self.delivered@ + self.inbound_msgs();
        assert forall|i: int| 0 <= i < handled.len() implies valid_payload(
            #[trigger] handled[i],
        ) by {
            if i < self.delivered@.len() {
                assert(handled[i] == self.delivered@[i]);
            } else {
                assert(handled[i] == self.inbound_msgs()[i - self.delivered@.len()]);
            }
        }
        lemma_framing_unique(handled, self.carry@, sent, partial);
        assert(self.delivered@ =~= sent.subrange(0, self.delivered@.len() as int)) by {
            assert forall|i: int| 0 <= i < self.delivered@.len() implies self.delivered@[i]
                == sent[i] by {
                assert(handled[i] == self.delivered@[i]);
            }
        }
    }
}

} // verus!
