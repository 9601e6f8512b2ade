//! The read-side aggregation consulted by the network layer: the set of
//! peers a given node is authorized to connect to.  It never mutates the
//! registry and has no failure mode: an unknown node simply yields only
//! its (possibly empty) additional connections.

use vstd::prelude::*;
use crate::peer::PeerId;
use crate::registry::Registry;
use crate::store::{distinct_ids, id_set, lemma_id_set_push, PeerSet};

verus! {

/// The peers a node may connect to: its additional connections, and,
/// when it is well known, every other well-known node.
pub open spec fn authorized_peers(r: Registry, node: Seq<u8>) -> Set<Seq<u8>> {
    if r.wkn().contains(node) {
        r.conns_of(node).union(r.wkn().remove(node))
    } else {
        r.conns_of(node)
    }
}

impl Registry {
    /// The allow-list for a node, as an unordered list without
    /// duplicates; the order carries no meaning.
    #[verifier::loop_isolation(false)]
    pub fn get_authorized_nodes(&self, node: &PeerId) -> (r: Vec<PeerId>)
        requires
            self.wf(),
        ensures
            distinct_ids(r@),
            id_set(r@) == authorized_peers(*self, node@),
    {
        let mut set = self.additional_connections(node);
        if self.well_known.contains(node) {
            let ghost w = self.well_known.entries@;
            let n = self.well_known.entries.len();
            let mut i: usize = 0;
            while i < n
                invariant
                    i <= n,
                    set.wf(),
                    set@ == self.conns_of(node@).union(id_set(w.take(i as int)).remove(node@)),
                decreases n - i,
            {
                let ghost prefix = w.take(i as int);
                proof {
                    assert(w.take(i + 1) =~= prefix.push(w[i as int]));
                    lemma_id_set_push(prefix, w[i as int]);
                }
                let e = &self.well_known.entries[i];
                if !(*e == *node) {
                    set.insert(e.clone());
                }
                proof {
                    assert(set@ =~= self.conns_of(node@).union(
                        id_set(w.take(i + 1)).remove(node@),
                    ));
                }
                i = i + 1;
            }
            proof {
                assert(w.take(n as int) =~= w);
            }
        }
        let PeerSet { entries } = set;
        entries
    }
}

} // verus!
