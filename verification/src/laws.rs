//! Laws of the registry that relate several operations or hold of every
//! state, stated over the same views that the operations' contracts
//! use.

use vstd::prelude::*;
use crate::assoc::map_swap;
use crate::peer::{AccountId, PeerId};
use crate::registry::{
    lemma_pair_ids_contains, pair_ids, written_owners, Registry, RegistryError,
};

verus! {

/// In every well-formed state — the constructor establishes
/// well-formedness and every operation preserves it — the well-known
/// set is finite and stays strictly below the configured capacity.
pub proof fn lemma_well_known_bounded(r: Registry)
    requires
        r.wf(),
    ensures
        r.wkn().finite(),
        r.wkn().len() < r.max_well_known_nodes,
{
    r.well_known.lemma_card();
}

/// Adding a node is not idempotent: once a node has been added, adding
/// it again is rejected with `AlreadyJoined` — and the operation's
/// contract then guarantees that the rejected call leaves the state
/// untouched.
pub proof fn lemma_add_twice_rejected(pre: Registry, post: Registry, node: PeerId)
    requires
        pre.add_node_err(node@) is None,
        post.same_config(pre),
        post.wkn() == pre.wkn().insert(node@),
    ensures
        post.add_node_err(node@) == Some(RegistryError::AlreadyJoined),
{
}

/// Swapping two keys of a map and then swapping them back restores the
/// map exactly, whether or not either key was bound.
pub proof fn lemma_map_swap_round_trip<V>(m: Map<Seq<u8>, V>, a: Seq<u8>, b: Seq<u8>)
    ensures
        map_swap(map_swap(m, a, b), b, a) == m,
{
    assert(map_swap(map_swap(m, a, b), b, a) =~= m);
}

/// A swap of two well-known nodes followed by the reverse swap restores
/// the well-known set, the ownership map and the additional-connections
/// map exactly; the reverse swap is always accepted.
pub proof fn lemma_swap_round_trip(
    pre: Registry,
    mid: Registry,
    post: Registry,
    a: PeerId,
    b: PeerId,
)
    requires
        a@ != b@,
        pre.swap_node_err(a@, b@) is None,
        mid.same_config(pre),
        mid.wkn() == pre.wkn().remove(a@).insert(b@),
        mid.owner_map() == map_swap(pre.owner_map(), a@, b@),
        mid.conn_map() == map_swap(pre.conn_map(), a@, b@),
        post.wkn() == mid.wkn().remove(b@).insert(a@),
        post.owner_map() == map_swap(mid.owner_map(), b@, a@),
        post.conn_map() == map_swap(mid.conn_map(), b@, a@),
    ensures
        mid.swap_node_err(b@, a@) is None,
        post.wkn() == pre.wkn(),
        post.owner_map() == pre.owner_map(),
        post.conn_map() == pre.conn_map(),
{
    assert(post.wkn() =~= pre.wkn());
    lemma_map_swap_round_trip(pre.owner_map(), a@, b@);
    lemma_map_swap_round_trip(pre.conn_map(), a@, b@);
}

/// Writing a list of pairs over an ownership map touches no binding
/// whose key the list does not name.
pub proof fn lemma_written_owners_unlisted(
    m: Map<Seq<u8>, AccountId>,
    s: Seq<(PeerId, AccountId)>,
    k: Seq<u8>,
)
    requires
        !pair_ids(s).contains(k),
    ensures
        written_owners(m, s).dom().contains(k) == m.dom().contains(k),
        m.dom().contains(k) ==> written_owners(m, s)[k] == m[k],
    decreases s.len(),
{
    if s.len() == 0 {
    } else {
        let rest = s.drop_first();
        lemma_pair_ids_contains(s, k);
        assert(s[0].0@ != k);
        assert(!pair_ids(rest).contains(k)) by {
            lemma_pair_ids_contains(rest, k);
            if exists|i: int| 0 <= i < rest.len() && rest[i].0@ == k {
                let i = choose|i: int| 0 <= i < rest.len() && rest[i].0@ == k;
                assert(s[i + 1].0@ == k);
            }
        }
        lemma_written_owners_unlisted(m.insert(s[0].0@, s[0].1), rest, k);
    }
}

/// Resetting the well-known set never deletes ownership or connection
/// records: a node left out of the new list keeps its owner, if it had
/// one, and its additional connections are untouched (as are
/// everybody's: a reset does not write the connections map at all).
pub proof fn lemma_reset_keeps_unlisted_records(
    pre: Registry,
    post: Registry,
    nodes: Seq<(PeerId, AccountId)>,
    k: Seq<u8>,
)
    requires
        post.owner_map() == written_owners(pre.owner_map(), nodes),
        post.conn_map() == pre.conn_map(),
        !pair_ids(nodes).contains(k),
    ensures
        post.owner_map().dom().contains(k) == pre.owner_map().dom().contains(k),
        pre.owner_map().dom().contains(k) ==> post.owner_map()[k] == pre.owner_map()[k],
        post.conns_of(k) == pre.conns_of(k),
{
    lemma_written_owners_unlisted(pre.owner_map(), nodes, k);
}

} // verus!
