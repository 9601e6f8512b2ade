//! Storage cells backing the registry's collections: a set of peer
//! identifiers stored as a duplicate-free vector and viewed as a
//! mathematical set of byte strings.

use vstd::prelude::*;
use crate::peer::PeerId;

verus! {

/// The identifiers of a sequence of peers, as a mathematical set.
pub open spec fn id_set(s: Seq<PeerId>) -> Set<Seq<u8>> {
    s.map_values(|p: PeerId| p@).to_set()
}

/// No two entries of the sequence hold the same identifier.
pub open spec fn distinct_ids(s: Seq<PeerId>) -> bool {
    forall|i: int, j: int| 0 <= i < j < s.len() ==> s[i]@ != s[j]@
}

/// Membership in `id_set` is witnessed by an index of the sequence.
pub proof fn lemma_id_set_contains(s: Seq<PeerId>, x: Seq<u8>)
    ensures
        id_set(s).contains(x) <==> exists|k: int| 0 <= k < s.len() && s[k]@ == x,
{
    let mapped = s.map_values(|p: PeerId| p@);
    if id_set(s).contains(x) {
        let k = choose|k: int| 0 <= k < mapped.len() && mapped[k] == x;
        assert(s[k]@ == x);
    }
    if exists|k: int| 0 <= k < s.len() && s[k]@ == x {
        let k = choose|k: int| 0 <= k < s.len() && s[k]@ == x;
        assert(mapped[k] == x);
    }
}

/// Appending a peer adds exactly its identifier to `id_set`.
pub proof fn lemma_id_set_push(s: Seq<PeerId>, p: PeerId)
    ensures
        id_set(s.push(p)) == id_set(s).insert(p@),
{
    let mapped = s.map_values(|q: PeerId| q@);
    assert(s.push(p).map_values(|q: PeerId| q@) =~= mapped.push(p@));
    mapped.lemma_push_to_set_commute(p@);
    assert(id_set(s.push(p)) =~= id_set(s).insert(p@));
}

/// A set of peer identifiers, stored as a vector without duplicates.
pub struct PeerSet {
    pub entries: Vec<PeerId>,
}

impl View for PeerSet {
    type V = Set<Seq<u8>>;

    open spec fn view(&self) -> Set<Seq<u8>> {
        id_set(self.entries@)
    }
}

impl PeerSet {
    /// The stored vector holds each identifier at most once.
    pub open spec fn wf(self) -> bool {
        distinct_ids(self.entries@)
    }

    /// The number of stored identifiers.
    pub open spec fn card(self) -> nat {
        self.entries@.len()
    }

    /// With no duplicates, the stored count is the set's cardinality.
    pub proof fn lemma_card(self)
        requires
            self.wf(),
        ensures
            self@.finite(),
            self@.len() == self.card(),
    {
        broadcast use vstd::seq_lib::seq_to_set_is_finite;

        let mapped = self.entries@.map_values(|p: PeerId| p@);
        assert(mapped.no_duplicates());
        mapped.unique_seq_to_set();
    }

    pub fn new() -> (r: PeerSet)
        ensures
            r.wf(),
            r@ == Set::<Seq<u8>>::empty(),
            r.card() == 0,
    {
        let r = PeerSet { entries: Vec::new() };
        proof {
            assert(r@ =~= Set::<Seq<u8>>::empty());
        }
        r
    }

    pub fn len(&self) -> (r: usize)
        ensures
            r == self.card(),
    {
        self.entries.len()
    }

    #[verifier::loop_isolation(false)]
    pub fn contains(&self, node: &PeerId) -> (r: bool)
        ensures
            r == self@.contains(node@),
    {
        proof {
            lemma_id_set_contains(self.entries@, node@);
        }
        let n = self.entries.len();
        let mut i: usize = 0;
        while i < n
            invariant
                i <= n,
                forall|k: int| 0 <= k < i ==> self.entries@[k]@ != node@,
            decreases n - i,
        {
            if self.entries[i] == *node {
                return true;
            }
            i = i + 1;
        }
        false
    }

    /// Add an identifier; adding one already present changes nothing.
    pub fn insert(&mut self, node: PeerId)
        requires
            old(self).wf(),
        ensures
            final(self).wf(),
            final(self)@ == old(self)@.insert(node@),
            final(self).card() == old(self).card() + (if old(self)@.contains(node@) {
                0int
            } else {
                1int
            }),
    {
        let ghost nv = node@;
        let ghost s0 = self.entries@;
        if !self.contains(&node) {
            proof {
                lemma_id_set_contains(s0, nv);
                lemma_id_set_push(s0, node);
            }
            self.entries.push(node);
            proof {
                assert(distinct_ids(self.entries@)) by {
                    assert(forall|k: int| 0 <= k < s0.len() ==> s0[k]@ != nv);
                }
            }
        } else {
            proof {
                assert(self@ =~= self@.insert(nv));
            }
        }
    }

    /// Drop an identifier; dropping one not present changes nothing.
    #[verifier::loop_isolation(false)]
    pub fn remove(&mut self, node: &PeerId)
        requires
            old(self).wf(),
        ensures
            final(self).wf(),
            final(self)@ == old(self)@.remove(node@),
            final(self).card() == old(self).card() - (if old(self)@.contains(node@) {
                1int
            } else {
                0int
            }),
    {
        let ghost s = self.entries@;
        let n = self.entries.len();
        let mut kept: Vec<PeerId> = Vec::new();
        let mut i: usize = 0;
        while i < n
            invariant
                i <= n,
                distinct_ids(kept@),
                id_set(kept@) == id_set(s.take(i as int)).remove(node@),
                kept@.len() == i - (if id_set(s.take(i as int)).contains(node@) {
                    1int
                } else {
                    0int
                }),
            decreases n - i,
        {
            let ghost taken = s.take(i as int);
            let e = &self.entries[i];
            proof {
                assert(s.take(i + 1) =~= taken.push(s[i as int]));
                lemma_id_set_push(taken, s[i as int]);
                lemma_id_set_contains(taken, s[i as int]@);
                assert(!id_set(taken).contains(s[i as int]@));
            }
            if *e == *node {
                proof {
                    assert(id_set(kept@) =~= id_set(s.take(i + 1)).remove(node@));
                }
            } else {
                let ghost kept0 = kept@;
                proof {
                    lemma_id_set_contains(kept0, e@);
                }
                let c = e.clone();
                proof {
                    lemma_id_set_push(kept0, c);
                }
                kept.push(c);
                proof {
                    assert(id_set(kept@) =~= id_set(s.take(i + 1)).remove(node@));
                }
            }
            i = i + 1;
        }
        proof {
            assert(s.take(n as int) =~= s);
            lemma_id_set_contains(s, node@);
        }
        self.entries = kept;
    }
}

impl Clone for PeerSet {
    fn clone(&self) -> (r: Self)
        ensures
            r@ == self@,
            r.card() == self.card(),
            r.wf() == self.wf(),
    {
        let entries = self.entries.clone();
        proof {
            assert forall|k: int| 0 <= k < entries@.len() implies entries@[k]@
                == self.entries@[k]@ by {}
            assert(entries@.map_values(|p: PeerId| p@) =~= self.entries@.map_values(
                |p: PeerId| p@,
            ));
            assert(distinct_ids(entries@) == distinct_ids(self.entries@));
        }
        PeerSet { entries }
    }
}

} // verus!
