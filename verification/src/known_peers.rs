//! The per-peer statistics ledger.
//!
//! For each observed peer address the node keeps running counters of
//! messages and bytes sent and received, of failures, and of when the peer
//! was last seen. All counters are monotonic except `failures`, which a
//! maintenance hook may reset.

use vstd::prelude::*;

use crate::table::AddrTable;
use crate::PeerAddr;

verus! {

/// The running counters kept for one peer.
#[derive(Clone, Copy, PartialEq, Eq, Structural, Debug)]
pub struct PeerStats {
    /// Messages handed to the OS for this peer.
    pub msgs_sent: u64,
    /// Bytes handed to the OS for this peer.
    pub bytes_sent: u64,
    /// Messages read from this peer.
    pub msgs_received: u64,
    /// Bytes read from this peer.
    pub bytes_received: u64,
    /// Failures registered against this peer; reset by maintenance.
    pub failures: u16,
    /// The last instant (as the embedder counts them) the peer was seen.
    pub last_seen: u64,
}

/// `s` after one sent message of `len` bytes.
pub open spec fn stats_after_send(s: PeerStats, len: nat) -> PeerStats {
    PeerStats {
        msgs_sent: (s.msgs_sent + 1) as u64,
        bytes_sent: (s.bytes_sent + len) as u64,
        msgs_received: s.msgs_received,
        bytes_received: s.bytes_received,
        failures: s.failures,
        last_seen: s.last_seen,
    }
}

/// `s` after one received message of `len` bytes.
pub open spec fn stats_after_receive(s: PeerStats, len: nat) -> PeerStats {
    PeerStats {
        msgs_sent: s.msgs_sent,
        bytes_sent: s.bytes_sent,
        msgs_received: (s.msgs_received + 1) as u64,
        bytes_received: (s.bytes_received + len) as u64,
        failures: s.failures,
        last_seen: s.last_seen,
    }
}

/// `s` after one more failure; the counter saturates.
pub open spec fn stats_after_failure(s: PeerStats) -> PeerStats {
    PeerStats {
        msgs_sent: s.msgs_sent,
        bytes_sent: s.bytes_sent,
        msgs_received: s.msgs_received,
        bytes_received: s.bytes_received,
        failures: if s.failures < 0xffff {
            (s.failures + 1) as u16
        } else {
            s.failures
        },
        last_seen: s.last_seen,
    }
}

/// `s` with its failures wiped.
pub open spec fn stats_failures_reset(s: PeerStats) -> PeerStats {
    PeerStats {
        msgs_sent: s.msgs_sent,
        bytes_sent: s.bytes_sent,
        msgs_received: s.msgs_received,
        bytes_received: s.bytes_received,
        failures: 0,
        last_seen: s.last_seen,
    }
}

/// `s` seen (no earlier than) at instant `now`.
pub open spec fn stats_seen(s: PeerStats, now: u64) -> PeerStats {
    PeerStats {
        msgs_sent: s.msgs_sent,
        bytes_sent: s.bytes_sent,
        msgs_received: s.msgs_received,
        bytes_received: s.bytes_received,
        failures: s.failures,
        last_seen: if s.last_seen < now {
            now
        } else {
            s.last_seen
        },
    }
}

impl PeerStats {
    /// All counters at zero.
    pub open spec fn spec_zeroed() -> PeerStats {
        PeerStats {
            msgs_sent: 0,
            bytes_sent: 0,
            msgs_received: 0,
            bytes_received: 0,
            failures: 0,
            last_seen: 0,
        }
    }

    /// A fresh row: all counters at zero.
    pub fn zeroed() -> (s: PeerStats)
        ensures
            s == PeerStats::spec_zeroed(),
    {
        PeerStats {
            msgs_sent: 0,
            bytes_sent: 0,
            msgs_received: 0,
            bytes_received: 0,
            failures: 0,
            last_seen: 0,
        }
    }

    /// The sent counters, as a `(messages, bytes)` pair.
    pub fn sent(&self) -> (r: (u64, u64))
        ensures
            r == (self.msgs_sent, self.bytes_sent),
    {
        (self.msgs_sent, self.bytes_sent)
    }

    /// The received counters, as a `(messages, bytes)` pair.
    pub fn received(&self) -> (r: (u64, u64))
        ensures
            r == (self.msgs_received, self.bytes_received),
    {
        (self.msgs_received, self.bytes_received)
    }
}

/// The sum of `f` over the rows of `s`.
pub open spec fn sum_by(s: Seq<(PeerAddr, PeerStats)>, f: spec_fn(PeerStats) -> int) -> int
    decreases s.len(),
{
    if s.len() == 0 {
        0
    } else {
        sum_by(s.drop_last(), f) + f(s.last().1)
    }
}

/// A sum of per-row values that are never negative is never negative.
pub proof fn lemma_sum_by_nonneg(s: Seq<(PeerAddr, PeerStats)>, f: spec_fn(PeerStats) -> int)
    requires
        forall|st: PeerStats| #[trigger] f(st) >= 0,
    ensures
        sum_by(s, f) >= 0,
    decreases s.len(),
{
    if s.len() > 0 {
        lemma_sum_by_nonneg(s.drop_last(), f);
    }
}

/// `n` clipped to what a `u64` can hold.
pub open spec fn clip_u64(n: int) -> int {
    if n <= 0xffff_ffff_ffff_ffff {
        n
    } else {
        0xffff_ffff_ffff_ffff
    }
}

/// `a + b`, saturating at the top of `u64`.
fn sat_add_u64(a: u64, b: u64) -> (r: u64)
    ensures
        r == clip_u64(a + b),
{
    if a > u64::MAX - b {
        u64::MAX
    } else {
        a + b
    }
}

/// The ledger: a row of counters for each known peer address.
pub struct KnownPeers {
    /// The rows, keyed by peer address.
    pub rows: AddrTable<PeerStats>,
}

impl KnownPeers {
    /// The ledger as a map from address to counters.
    pub open spec fn view(&self) -> Map<PeerAddr, PeerStats> {
        self.rows@
    }

    /// The rows in table order.
    pub open spec fn entries(&self) -> Seq<(PeerAddr, PeerStats)> {
        self.rows.entries()
    }

    /// The table's keys are distinct.
    pub open spec fn wf(&self) -> bool {
        self.rows.wf()
    }

    /// An empty ledger.
    pub fn new() -> (k: KnownPeers)
        ensures
            k.wf(),
            k@ == Map::<PeerAddr, PeerStats>::empty(),
            k.entries() == Seq::<(PeerAddr, PeerStats)>::empty(),
    {
        KnownPeers { rows: AddrTable::new() }
    }

    /// Makes sure `addr` has a row; a fresh row starts at zero.
    pub fn add(&mut self, addr: PeerAddr)
        requires
            old(self).wf(),
        ensures
            final(self).wf(),
            final(self)@ == if old(self)@.dom().contains(addr) {
                old(self)@
            } else {
                old(self)@.insert(addr, PeerStats::spec_zeroed())
            },
    {
        if !self.rows.contains_key(addr) {
            self.rows.insert(addr, PeerStats::zeroed());
        } else {
            proof {
                assert(self@ =~= old(self)@);
            }
        }
    }

    /// Drops the row of `addr`, if any.
    pub fn remove(&mut self, addr: PeerAddr)
        requires
            old(self).wf(),
        ensures
            final(self).wf(),
            final(self)@ == old(self)@.remove(addr),
    {
        let _ = self.rows.remove(addr);
    }

    /// The row of `addr`, if any.
    pub fn get(&self, addr: PeerAddr) -> (r: Option<&PeerStats>)
        requires
            self.wf(),
        ensures
            match r {
                Some(s) => self@.dom().contains(addr) && *s == self@[addr],
                None => !self@.dom().contains(addr),
            },
    {
        self.rows.get(addr)
    }

    /// Counts one sent message of `len` bytes against `addr`'s row, if the
    /// row exists.
    pub fn register_sent_message(&mut self, addr: PeerAddr, len: usize)
        requires
            old(self).wf(),
            old(self)@.dom().contains(addr) ==> old(self)@[addr].msgs_sent < u64::MAX
                && old(self)@[addr].bytes_sent + len <= u64::MAX,
        ensures
            final(self).wf(),
            final(self)@ == if old(self)@.dom().contains(addr) {
                old(self)@.insert(addr, stats_after_send(old(self)@[addr], len as nat))
            } else {
                old(self)@
            },
    {
        let row = match self.rows.get(addr) {
            Some(s) => *s,
            None => {
                proof {
                    assert(self@ =~= old(self)@);
                }
                return ;
            }
        };
        let updated = PeerStats {
            msgs_sent: row.msgs_sent + 1,
            bytes_sent: row.bytes_sent + len as u64,
            ..row
        };
        self.rows.insert(addr, updated);
    }

    /// Counts one received message of `len` bytes against `addr`'s row, if
    /// the row exists.
    pub fn register_received_message(&mut self, addr: PeerAddr, len: usize)
        requires
            old(self).wf(),
            old(self)@.dom().contains(addr) ==> old(self)@[addr].msgs_received < u64::MAX
                && old(self)@[addr].bytes_received + len <= u64::MAX,
        ensures
            final(self).wf(),
            final(self)@ == if old(self)@.dom().contains(addr) {
                old(self)@.insert(addr, stats_after_receive(old(self)@[addr], len as nat))
            } else {
                old(self)@
            },
    {
        let row = match self.rows.get(addr) {
            Some(s) => *s,
            None => {
                proof {
                    assert(self@ =~= old(self)@);
                }
                return ;
            }
        };
        let updated = PeerStats {
            msgs_received: row.msgs_received + 1,
            bytes_received: row.bytes_received + len as u64,
            ..row
        };
        self.rows.insert(addr, updated);
    }

    /// Counts one failure against `addr`'s row, if the row exists; the
    /// counter saturates.
    pub fn register_failure(&mut self, addr: PeerAddr)
        requires
            old(self).wf(),
        ensures
            final(self).wf(),
            final(self)@ == if old(self)@.dom().contains(addr) {
                old(self)@.insert(addr, stats_after_failure(old(self)@[addr]))
            } else {
                old(self)@
            },
    {
        let row = match self.rows.get(addr) {
            Some(s) => *s,
            None => {
                proof {
                    assert(self@ =~= old(self)@);
                }
                return ;
            }
        };
        let updated = PeerStats {
            failures: if row.failures < u16::MAX {
                row.failures + 1
            } else {
                row.failures
            },
            ..row
        };
        self.rows.insert(addr, updated);
    }

    /// Wipes the failure counter of `addr`'s row, if the row exists.
    pub fn reset_failures(&mut self, addr: PeerAddr)
        requires
            old(self).wf(),
        ensures
            final(self).wf(),
            final(self)@ == if old(self)@.dom().contains(addr) {
                old(self)@.insert(addr, stats_failures_reset(old(self)@[addr]))
            } else {
                old(self)@
            },
    {
        let row = match self.rows.get(addr) {
            Some(s) => *s,
            None => {
                proof {
                    assert(self@ =~= old(self)@);
                }
                return ;
            }
        };
        let updated = PeerStats { failures: 0, ..row };
        self.rows.insert(addr, updated);
    }

    /// Moves `addr`'s `last_seen` forward to `now`, if the row exists;
    /// `last_seen` never moves back.
    pub fn mark_seen(&mut self, addr: PeerAddr, now: u64)
        requires
            old(self).wf(),
        ensures
            final(self).wf(),
            final(self)@ == if old(self)@.dom().contains(addr) {
                old(self)@.insert(addr, stats_seen(old(self)@[addr], now))
            } else {
                old(self)@
            },
    {
        let row = match self.rows.get(addr) {
            Some(s) => *s,
            None => {
                proof {
                    assert(self@ =~= old(self)@);
                }
                return ;
            }
        };
        let updated = PeerStats {
            last_seen: if row.last_seen < now {
                now
            } else {
                row.last_seen
            },
            ..row
        };
        self.rows.insert(addr, updated);
    }

    /// A copy of every row, in table order.
    pub fn snapshot(&self) -> (r: Vec<(PeerAddr, PeerStats)>)
        ensures
            r@ == self.entries(),
    {
        let mut r: Vec<(PeerAddr, PeerStats)> = Vec::new();
        let mut i: usize = 0;
        let n = self.rows.len();
        while i < n
            invariant
                i <= n,
                n == self.entries().len(),
                r@ == self.entries().subrange(0, i as int),
            decreases n - i,
        {
            let p = self.rows.entry_at(i);
            r.push((p.0, p.1));
            proof {
                assert(self.entries().subrange(0, i + 1 as int) =~= self.entries().subrange(
                    0,
                    i as int,
                ).push(self.entries()[i as int]));
            }
            i = i + 1;
        }
        proof {
            assert(self.entries().subrange(0, n as int) =~= self.entries());
        }
        r
    }

    /// The ledger's counters summed over every row, each sum clipped at the
    /// top of `u64`; `failures` and `last_seen` are left at zero.
    #[verifier::loop_isolation(false)]
    pub fn totals(&self) -> (r: PeerStats)
        ensures
            r.msgs_sent == clip_u64(sum_by(self.entries(), |st: PeerStats| st.msgs_sent as int)),
            r.bytes_sent == clip_u64(sum_by(self.entries(), |st: PeerStats| st.bytes_sent as int)),
            r.msgs_received == clip_u64(
                sum_by(self.entries(), |st: PeerStats| st.msgs_received as int),
            ),
            r.bytes_received == clip_u64(
                sum_by(self.entries(), |st: PeerStats| st.bytes_received as int),
            ),
            r.failures == 0,
            r.last_seen == 0,
    {
        let ghost f_ms = |st: PeerStats| st.msgs_sent as int;
        let ghost f_bs = |st: PeerStats| st.bytes_sent as int;
        let ghost f_mr = |st: PeerStats| st.msgs_received as int;
        let ghost f_br = |st: PeerStats| st.bytes_received as int;
        let mut r = PeerStats::zeroed();
        let mut i: usize = 0;
        let n = self.rows.len();
        proof {
            assert(self.entries().subrange(0, 0) =~= Seq::<(PeerAddr, PeerStats)>::empty());
        }
        while i < n
            invariant
                i <= n,
                n == self.entries().len(),
                r.msgs_sent == clip_u64(sum_by(self.entries().subrange(0, i as int), f_ms)),
                r.bytes_sent == clip_u64(sum_by(self.entries().subrange(0, i as int), f_bs)),
                r.msgs_received == clip_u64(sum_by(self.entries().subrange(0, i as int), f_mr)),
                r.bytes_received == clip_u64(sum_by(self.entries().subrange(0, i as int), f_br)),
                r.failures == 0,
                r.last_seen == 0,
            decreases n - i,
        {
            let p = self.rows.entry_at(i);
            proof {
                let pre = self.entries().subrange(0, i as int);
                let post = self.entries().subrange(0, i + 1 as int);
                assert(post.drop_last() =~= pre);
                assert(post.last() == self.entries()[i as int]);
                assert(forall|st: PeerStats| #[trigger] f_ms(st) >= 0);
                assert(forall|st: PeerStats| #[trigger] f_bs(st) >= 0);
                assert(forall|st: PeerStats| #[trigger] f_mr(st) >= 0);
                assert(forall|st: PeerStats| #[trigger] f_br(st) >= 0);
                lemma_sum_by_nonneg(pre, f_ms);
                lemma_sum_by_nonneg(pre, f_bs);
                lemma_sum_by_nonneg(pre, f_mr);
                lemma_sum_by_nonneg(pre, f_br);
            }
            r = PeerStats {
                msgs_sent: sat_add_u64(r.msgs_sent, p.1.msgs_sent),
                bytes_sent: sat_add_u64(r.bytes_sent, p.1.bytes_sent),
                msgs_received: sat_add_u64(r.msgs_received, p.1.msgs_received),
                bytes_received: sat_add_u64(r.bytes_received, p.1.bytes_received),
                failures: 0,
                last_seen: 0,
            };
            i = i + 1;
        }
        proof {
            assert(self.entries().subrange(0, n as int) =~= self.entries());
        }
        r
    }
}

} // verus!
