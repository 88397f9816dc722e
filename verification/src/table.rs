//! An association table keyed by peer address.
//!
//! Both registry tables and the peer-statistics ledger are small maps keyed
//! by a [`PeerAddr`]. This module holds them as a vector of pairs with
//! pairwise-distinct keys, viewed abstractly as a [`Map`].

use vstd::prelude::*;

use crate::PeerAddr;

verus! {

/// Pairwise-distinct keys: no address occurs twice.
pub open spec fn distinct_keys<V>(s: Seq<(PeerAddr, V)>) -> bool {
    forall|i: int, j: int| 0 <= i < j < s.len() ==> (#[trigger] s[i]).0 != (#[trigger] s[j]).0
}

/// Whether some pair of `s` carries the key `a`.
pub open spec fn has_key<V>(s: Seq<(PeerAddr, V)>, a: PeerAddr) -> bool {
    exists|i: int| 0 <= i < s.len() && (#[trigger] s[i]).0 == a
}

/// The map that a sequence of pairs stands for; later pairs win.
pub open spec fn seq_to_map<V>(s: Seq<(PeerAddr, V)>) -> Map<PeerAddr, V>
    decreases s.len(),
{
    if s.len() == 0 {
        Map::empty()
    } else {
        seq_to_map(s.drop_last()).insert(s.last().0, s.last().1)
    }
}

/// The domain of `seq_to_map(s)` is exactly the set of keys of `s`.
pub proof fn lemma_seq_to_map_dom<V>(s: Seq<(PeerAddr, V)>)
    ensures
        forall|a: PeerAddr| #[trigger] seq_to_map(s).dom().contains(a) <==> has_key(s, a),
    decreases s.len(),
{
    if s.len() > 0 {
        let t = s.drop_last();
        lemma_seq_to_map_dom(t);
        assert(seq_to_map(s) == seq_to_map(t).insert(s.last().0, s.last().1));
        assert forall|a: PeerAddr| #[trigger] seq_to_map(s).dom().contains(a) <==> has_key(s, a) by {
            if seq_to_map(s).dom().contains(a) {
                if a == s.last().0 {
                    assert((#[trigger] s[s.len() - 1]).0 == a);
                } else {
                    assert(seq_to_map(t).dom().contains(a));
                    assert(has_key(t, a));
                    let i = choose|i: int| 0 <= i < t.len() && (#[trigger] t[i]).0 == a;
                    assert(s[i] == t[i]);
                    assert((#[trigger] s[i]).0 == a);
                }
            }
            if has_key(s, a) {
                let i = choose|i: int| 0 <= i < s.len() && (#[trigger] s[i]).0 == a;
                if i < s.len() - 1 {
                    assert((#[trigger] t[i]).0 == a);
                    assert(has_key(t, a));
                    assert(seq_to_map(t).dom().contains(a));
                } else {
                    assert(a == s.last().0);
                }
            }
        }
    }
}

/// With distinct keys, the map agrees with every pair of the sequence.
pub proof fn lemma_seq_to_map_val<V>(s: Seq<(PeerAddr, V)>, i: int)
    requires
        distinct_keys(s),
        0 <= i < s.len(),
    ensures
        seq_to_map(s).dom().contains(s[i].0),
        seq_to_map(s)[s[i].0] == s[i].1,
    decreases s.len(),
{
    lemma_seq_to_map_dom(s);
    if i < s.len() - 1 {
        assert(distinct_keys(s.drop_last())) by {
            assert forall|x: int, y: int| 0 <= x < y < s.drop_last().len()
                implies (#[trigger] s.drop_last()[x]).0 != (#[trigger] s.drop_last()[y]).0 by {
                assert(s[x] == s.drop_last()[x]);
                assert(s[y] == s.drop_last()[y]);
            }
        }
        lemma_seq_to_map_val(s.drop_last(), i);
        assert(s[i].0 != s.last().0);
    }
}

/// With distinct keys, the map's domain has as many addresses as the
/// sequence has pairs.
pub proof fn lemma_seq_to_map_len<V>(s: Seq<(PeerAddr, V)>)
    requires
        distinct_keys(s),
    ensures
        seq_to_map(s).dom().finite(),
        seq_to_map(s).dom().len() == s.len(),
    decreases s.len(),
{
    if s.len() == 0 {
        assert(seq_to_map(s).dom() =~= Set::<PeerAddr>::empty());
    } else {
        assert(distinct_keys(s.drop_last())) by {
            assert forall|x: int, y: int| 0 <= x < y < s.drop_last().len()
                implies (#[trigger] s.drop_last()[x]).0 != (#[trigger] s.drop_last()[y]).0 by {
                assert(s[x] == s.drop_last()[x]);
                assert(s[y] == s.drop_last()[y]);
            }
        }
        lemma_seq_to_map_len(s.drop_last());
        lemma_seq_to_map_dom(s.drop_last());
        assert(!seq_to_map(s.drop_last()).dom().contains(s.last().0)) by {
            if has_key(s.drop_last(), s.last().0) {
                let i = choose|i: int|
                    0 <= i < s.drop_last().len() && (#[trigger] s.drop_last()[i]).0 == s.last().0;
                assert(s[i].0 == s[s.len() - 1].0);
            }
        }
        assert(seq_to_map(s).dom() =~= seq_to_map(s.drop_last()).dom().insert(s.last().0));
    }
}

/// An association table from peer address to `V`, with distinct keys.
pub struct AddrTable<V> {
    pub pairs: Vec<(PeerAddr, V)>,
}

impl<V> AddrTable<V> {
    /// The raw pairs, in insertion order.
    pub open spec fn entries(&self) -> Seq<(PeerAddr, V)> {
        self.pairs@
    }

    /// The table as a map.
    pub open spec fn view(&self) -> Map<PeerAddr, V> {
        seq_to_map(self.pairs@)
    }

    /// Keys are pairwise distinct.
    pub open spec fn wf(&self) -> bool {
        distinct_keys(self.pairs@)
    }

    /// The number of entries.
    pub open spec fn spec_len(&self) -> nat {
        self.pairs@.len()
    }

    /// A table and its map view agree on membership, values and size.
    pub proof fn lemma_view(&self)
        requires
            self.wf(),
        ensures
            forall|a: PeerAddr| #[trigger] self@.dom().contains(a) <==> has_key(self.entries(), a),
            forall|i: int|
                0 <= i < self.entries().len() ==> self@[(#[trigger] self.entries()[i]).0]
                    == self.entries()[i].1,
            self@.dom().finite(),
            self@.dom().len() == self.spec_len(),
    {
        lemma_seq_to_map_dom(self.pairs@);
        lemma_seq_to_map_len(self.pairs@);
        assert forall|i: int| 0 <= i < self.entries().len()
            implies self@[(#[trigger] self.entries()[i]).0] == self.entries()[i].1 by {
            lemma_seq_to_map_val(self.pairs@, i);
        }
    }

    /// An empty table.
    pub fn new() -> (t: Self)
        ensures
            t.wf(),
            t@ == Map::<PeerAddr, V>::empty(),
            t.spec_len() == 0,
            t.entries() == Seq::<(PeerAddr, V)>::empty(),
    {
        let t = AddrTable { pairs: Vec::new() };
        proof {
            assert(t.pairs@.len() == 0);
        }
        t
    }

    /// The number of entries.
    pub fn len(&self) -> (n: usize)
        ensures
            n == self.spec_len(),
    {
        self.pairs.len()
    }

    /// The position of the pair keyed `a`, if one exists.
    fn position(&self, a: PeerAddr) -> (r: Option<usize>)
        ensures
            match r {
                Some(i) => i < self.entries().len() && self.entries()[i as int].0 == a,
                None => !has_key(self.entries(), a),
            },
    {
        let mut i: usize = 0;
        while i < self.pairs.len()
            invariant
                i <= self.pairs@.len(),
                forall|j: int| 0 <= j < i ==> (#[trigger] self.pairs@[j]).0 != a,
            decreases self.pairs@.len() - i,
        {
            if self.pairs[i].0 == a {
                return Some(i);
            }
            i = i + 1;
        }
        None
    }

    /// Whether the table holds the key `a`.
    pub fn contains_key(&self, a: PeerAddr) -> (r: bool)
        requires
            self.wf(),
        ensures
            r == self@.dom().contains(a),
    {
        proof {
            self.lemma_view();
        }
        self.position(a).is_some()
    }

    /// The value keyed `a`, if one exists.
    pub fn get(&self, a: PeerAddr) -> (r: Option<&V>)
        requires
            self.wf(),
        ensures
            match r {
                Some(v) => self@.dom().contains(a) && *v == self@[a],
                None => !self@.dom().contains(a),
            },
    {
        proof {
            self.lemma_view();
        }
        match self.position(a) {
            Some(i) => {
                let p = &self.pairs[i];
                proof {
                    lemma_seq_to_map_val(self.pairs@, i as int);
                }
                Some(&p.1)
            }
            None => None,
        }
    }

    /// Binds `a` to `v`, replacing any earlier binding.
    pub fn insert(&mut self, a: PeerAddr, v: V)
        requires
            old(self).wf(),
        ensures
            final(self).wf(),
            final(self)@ == old(self)@.insert(a, v),
            final(self).spec_len() == if old(self)@.dom().contains(a) {
                old(self).spec_len()
            } else {
                old(self).spec_len() + 1
            },
    {
        proof {
            self.lemma_view();
        }
        let ghost s0 = self.pairs@;
        match self.position(a) {
            Some(i) => {
                self.pairs.set(i, (a, v));
                proof {
                    let s1 = self.pairs@;
                    assert(distinct_keys(s1)) by {
                        assert forall|x: int, y: int| 0 <= x < y < s1.len()
                            implies (#[trigger] s1[x]).0 != (#[trigger] s1[y]).0 by {
                            assert(s0[x].0 == s1[x].0);
                            assert(s0[y].0 == s1[y].0);
                        }
                    }
                    lemma_seq_to_map_dom(s1);
                    lemma_seq_to_map_dom(s0);
                    assert(seq_to_map(s1) =~= seq_to_map(s0).insert(a, v)) by {
                        assert forall|b: PeerAddr| #[trigger] seq_to_map(s1).dom().contains(b)
                            implies seq_to_map(s0).insert(a, v).dom().contains(b) by {
                            let j = choose|j: int| 0 <= j < s1.len() && (#[trigger] s1[j]).0 == b;
                            if j != i {
                                assert(s0[j].0 == b);
                            }
                        }
                        assert forall|b: PeerAddr|
                            #[trigger] seq_to_map(s0).insert(a, v).dom().contains(b)
                            implies seq_to_map(s1).dom().contains(b) by {
                            if b == a {
                                assert(s1[i as int].0 == b);
                            } else {
                                let j = choose|j: int| 0 <= j < s0.len() && (#[trigger] s0[j]).0 == b;
                                assert(s1[j].0 == b);
                            }
                        }
                        assert forall|b: PeerAddr| #[trigger] seq_to_map(s1).dom().contains(b)
                            implies seq_to_map(s1)[b] == seq_to_map(s0).insert(a, v)[b] by {
                            let j = choose|j: int| 0 <= j < s1.len() && (#[trigger] s1[j]).0 == b;
                            lemma_seq_to_map_val(s1, j);
                            if b != a {
                                assert(j != i);
                                assert(s0[j].0 == b && s0[j].1 == s1[j].1);
                                lemma_seq_to_map_val(s0, j);
                            } else {
                                assert(j == i) by {
                                    if j != i {
                                        assert(s1[j].0 != s1[i as int].0);
                                    }
                                }
                            }
                        }
                    }
                }
            }
            None => {
                self.pairs.push((a, v));
                proof {
                    let s1 = self.pairs@;
                    assert(s1.drop_last() =~= s0);
                    assert(distinct_keys(s1)) by {
                        assert forall|x: int, y: int| 0 <= x < y < s1.len()
                            implies (#[trigger] s1[x]).0 != (#[trigger] s1[y]).0 by {
                            if y < s1.len() - 1 {
                                assert(s0[x].0 != s0[y].0);
                            } else {
                                assert(s1[x] == s0[x]);
                                assert(!has_key(s0, a));
                            }
                        }
                    }
                }
            }
        }
    }

    /// Unbinds `a`, handing back the value it was bound to.
    pub fn remove(&mut self, a: PeerAddr) -> (r: Option<V>)
        requires
            old(self).wf(),
        ensures
            final(self).wf(),
            final(self)@ == old(self)@.remove(a),
            r is Some <==> old(self)@.dom().contains(a),
            r is Some ==> r->0 == old(self)@[a],
            final(self).spec_len() == if old(self)@.dom().contains(a) {
                (old(self).spec_len() - 1) as nat
            } else {
                old(self).spec_len()
            },
    {
        proof {
            self.lemma_view();
        }
        let ghost s0 = self.pairs@;
        match self.position(a) {
            Some(i) => {
                let pair = self.pairs.remove(i);
                proof {
                    let s1 = self.pairs@;
                    lemma_seq_to_map_val(s0, i as int);
                    assert(distinct_keys(s1)) by {
                        assert forall|x: int, y: int| 0 <= x < y < s1.len()
                            implies (#[trigger] s1[x]).0 != (#[trigger] s1[y]).0 by {
                            let x0 = if x < i { x } else { x + 1 };
                            let y0 = if y < i { y } else { y + 1 };
                            assert(s1[x] == s0[x0]);
                            assert(s1[y] == s0[y0]);
                        }
                    }
                    lemma_seq_to_map_dom(s1);
                    lemma_seq_to_map_dom(s0);
                    assert(seq_to_map(s1) =~= seq_to_map(s0).remove(a)) by {
                        assert forall|b: PeerAddr| #[trigger] seq_to_map(s1).dom().contains(b)
                            implies seq_to_map(s0).remove(a).dom().contains(b) by {
                            let j = choose|j: int| 0 <= j < s1.len() && (#[trigger] s1[j]).0 == b;
                            let j0 = if j < i { j } else { j + 1 };
                            assert(s0[j0].0 == b);
                            assert(j0 != i);
                            assert(b != a) by {
                                if j0 < i {
                                    assert(s0[j0].0 != s0[i as int].0);
                                } else {
                                    assert(s0[i as int].0 != s0[j0].0);
                                }
                            }
                        }
                        assert forall|b: PeerAddr|
                            #[trigger] seq_to_map(s0).remove(a).dom().contains(b)
                            implies seq_to_map(s1).dom().contains(b) by {
                            let j0 = choose|j0: int| 0 <= j0 < s0.len() && (#[trigger] s0[j0]).0 == b;
                            assert(j0 != i);
                            let j = if j0 < i { j0 } else { j0 - 1 };
                            assert(s1[j].0 == b);
                        }
                        assert forall|b: PeerAddr| #[trigger] seq_to_map(s1).dom().contains(b)
                            implies seq_to_map(s1)[b] == seq_to_map(s0).remove(a)[b] by {
                            let j = choose|j: int| 0 <= j < s1.len() && (#[trigger] s1[j]).0 == b;
                            lemma_seq_to_map_val(s1, j);
                            let j0 = if j < i { j } else { j + 1 };
                            assert(s1[j] == s0[j0]);
                            lemma_seq_to_map_val(s0, j0);
                            assert(b != a) by {
                                if j0 < i {
                                    assert(s0[j0].0 != s0[i as int].0);
                                } else {
                                    assert(s0[i as int].0 != s0[j0].0);
                                }
                            }
                        }
                    }
                }
                Some(pair.1)
            }
            None => {
                proof {
                    assert(seq_to_map(s0).remove(a) =~= seq_to_map(s0));
                }
                None
            }
        }
    }

    /// The pair at position `i`, for iteration.
    pub fn entry_at(&self, i: usize) -> (p: &(PeerAddr, V))
        requires
            i < self.spec_len(),
        ensures
            *p == self.entries()[i as int],
    {
        &self.pairs[i]
    }

    /// All keys, in table order.
    pub fn keys(&self) -> (r: Vec<PeerAddr>)
        ensures
            r@.len() == self.spec_len(),
            forall|i: int| 0 <= i < r@.len() ==> r@[i] == (#[trigger] self.entries()[i]).0,
    {
        let mut r: Vec<PeerAddr> = Vec::new();
        let mut i: usize = 0;
        while i < self.pairs.len()
            invariant
                i <= self.pairs@.len(),
                r@.len() == i,
                forall|j: int| 0 <= j < i ==> r@[j] == (#[trigger] self.pairs@[j]).0,
            decreases self.pairs@.len() - i,
        {
            r.push(self.pairs[i].0);
            i = i + 1;
        }
        r
    }

    /// Empties the table.
    pub fn clear(&mut self)
        ensures
            final(self).wf(),
            final(self)@ == Map::<PeerAddr, V>::empty(),
            final(self).spec_len() == 0,
    {
        self.pairs.clear();
    }
}

} // verus!
