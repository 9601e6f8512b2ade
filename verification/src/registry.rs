//! The authorization registry: a bounded well-known set, an ownership
//! map and an additional-connections map, together with every operation
//! that mutates them.
//!
//! Callers of the administrative operations are assumed to have passed
//! the corresponding authority check (add, remove, swap, reset); the
//! self-service operations take the authenticated caller's account.
//! Every operation validates its preconditions before touching any
//! state: on failure the registry is unchanged and the single most
//! specific error is returned; on success the emitted event is handed
//! back to the caller.

use vstd::prelude::*;
use crate::assoc::{map_swap, AssocMap};
use crate::peer::{AccountId, PeerId};
use crate::store::{id_set, lemma_id_set_contains, lemma_id_set_push, PeerSet};

verus! {

/// The identifiers of a list of (node, owner) pairs, as a set.
pub open spec fn pair_ids(s: Seq<(PeerId, AccountId)>) -> Set<Seq<u8>> {
    s.map_values(|e: (PeerId, AccountId)| e.0@).to_set()
}

/// Membership in `pair_ids` is witnessed by an index of the list.
pub proof fn lemma_pair_ids_contains(s: Seq<(PeerId, AccountId)>, x: Seq<u8>)
    ensures
        pair_ids(s).contains(x) <==> exists|k: int| 0 <= k < s.len() && s[k].0@ == x,
{
    let mapped = s.map_values(|e: (PeerId, AccountId)| e.0@);
    if pair_ids(s).contains(x) {
        let k = choose|k: int| 0 <= k < mapped.len() && mapped[k] == x;
        assert(s[k].0@ == x);
    }
    if exists|k: int| 0 <= k < s.len() && s[k].0@ == x {
        let k = choose|k: int| 0 <= k < s.len() && s[k].0@ == x;
        assert(mapped[k] == x);
    }
}

/// Appending a pair adds exactly its identifier to `pair_ids`.
pub proof fn lemma_pair_ids_push(s: Seq<(PeerId, AccountId)>, e: (PeerId, AccountId))
    ensures
        pair_ids(s.push(e)) == pair_ids(s).insert(e.0@),
{
    let mapped = s.map_values(|q: (PeerId, AccountId)| q.0@);
    assert(s.push(e).map_values(|q: (PeerId, AccountId)| q.0@) =~= mapped.push(e.0@));
    mapped.lemma_push_to_set_commute(e.0@);
    assert(pair_ids(s.push(e)) =~= pair_ids(s).insert(e.0@));
}

/// The ownership map after writing each pair of the list in order:
/// later pairs for the same node take precedence.
pub open spec fn written_owners(
    m: Map<Seq<u8>, AccountId>,
    s: Seq<(PeerId, AccountId)>,
) -> Map<Seq<u8>, AccountId>
    decreases s.len(),
{
    if s.len() == 0 {
        m
    } else {
        written_owners(m.insert(s[0].0@, s[0].1), s.drop_first())
    }
}

/// Writing one more pair at the end inserts exactly that binding.
pub proof fn lemma_written_owners_push(
    m: Map<Seq<u8>, AccountId>,
    s: Seq<(PeerId, AccountId)>,
    e: (PeerId, AccountId),
)
    ensures
        written_owners(m, s.push(e)) == written_owners(m, s).insert(e.0@, e.1),
    decreases s.len(),
{
    let s1 = s.push(e);
    if s.len() == 0 {
        assert(s1.drop_first() =~= Seq::<(PeerId, AccountId)>::empty());
        assert(written_owners(m, s1) == written_owners(m.insert(e.0@, e.1), s1.drop_first()));
        assert(written_owners(m.insert(e.0@, e.1), s1.drop_first()) == m.insert(e.0@, e.1));
    } else {
        assert(s1.drop_first() =~= s.drop_first().push(e));
        lemma_written_owners_push(m.insert(s[0].0@, s[0].1), s.drop_first(), e);
        assert(written_owners(m, s1) == written_owners(m.insert(s[0].0@, s[0].1), s1.drop_first()));
        assert(written_owners(m, s) == written_owners(m.insert(s[0].0@, s[0].1), s.drop_first()));
    }
}

/// Writing a list binds its identifiers and no others.
pub proof fn lemma_written_owners_dom(m: Map<Seq<u8>, AccountId>, s: Seq<(PeerId, AccountId)>)
    ensures
        written_owners(m, s).dom() == m.dom().union(pair_ids(s)),
    decreases s.len(),
{
    if s.len() == 0 {
        assert(pair_ids(s) =~= Set::<Seq<u8>>::empty());
        assert(written_owners(m, s).dom() =~= m.dom().union(pair_ids(s)));
    } else {
        let rest = s.drop_first();
        lemma_written_owners_dom(m.insert(s[0].0@, s[0].1), rest);
        assert(pair_ids(s) =~= pair_ids(rest).insert(s[0].0@)) by {
            lemma_pair_ids_contains(s, s[0].0@);
            assert forall|x: Seq<u8>| pair_ids(s).contains(x) implies pair_ids(rest).insert(
                s[0].0@,
            ).contains(x) by {
                lemma_pair_ids_contains(s, x);
                let k = choose|k: int| 0 <= k < s.len() && s[k].0@ == x;
                if k > 0 {
                    assert(rest[k - 1].0@ == x);
                    lemma_pair_ids_contains(rest, x);
                }
            }
            assert forall|x: Seq<u8>| pair_ids(rest).insert(s[0].0@).contains(x) implies pair_ids(
                s,
            ).contains(x) by {
                lemma_pair_ids_contains(s, x);
                if x != s[0].0@ {
                    lemma_pair_ids_contains(rest, x);
                    let k = choose|k: int| 0 <= k < rest.len() && rest[k].0@ == x;
                    assert(s[k + 1].0@ == x);
                }
            }
        }
        assert(written_owners(m, s).dom() =~= m.dom().union(pair_ids(s)));
    }
}

/// Why an operation was rejected.
#[derive(Clone, Copy, PartialEq, Eq, Structural, Debug)]
pub enum RegistryError {
    /// The peer identifier reaches or exceeds the configured maximum length.
    PeerIdTooLong,
    /// The well-known set has no room for another node.
    TooManyNodes,
    /// The node is already in the well-known set.
    AlreadyJoined,
    /// The node is not in the well-known set.
    NotExist,
    /// The node already has an owner.
    AlreadyClaimed,
    /// The node has no owner yet.
    NotClaimed,
    /// The caller is not the node's owner.
    NotOwner,
    /// The claim of a well-known node cannot be removed unilaterally.
    PermissionDenied,
}

/// The notification emitted after each successful mutation.
#[derive(Debug, PartialEq, Eq)]
pub enum Event {
    NodeAdded(PeerId, AccountId),
    NodeRemoved(PeerId),
    NodeSwapped(PeerId, PeerId),
    NodesReset(Vec<(PeerId, AccountId)>),
    NodeClaimed(PeerId, AccountId),
    ClaimRemoved(PeerId, AccountId),
    NodeTransferred(PeerId, AccountId),
    ConnectionsAdded(PeerId, Vec<PeerId>),
    ConnectionsRemoved(PeerId, Vec<PeerId>),
}

/// The registry's persisted state, together with its two configuration
/// constants.
pub struct Registry {
    /// The capacity bound of the well-known set.
    pub max_well_known_nodes: u32,
    /// Identifiers of this length or longer are rejected.
    pub max_peer_id_length: u32,
    /// The administratively curated allow-list.
    pub well_known: PeerSet,
    /// Which account owns which node.
    pub owners: AssocMap<AccountId>,
    /// The extra peers each node's owner has allow-listed.
    pub connections: AssocMap<PeerSet>,
}

impl Registry {
    /// The set of well-known identifiers.
    pub open spec fn wkn(self) -> Set<Seq<u8>> {
        self.well_known@
    }

    /// The number of well-known nodes.
    pub open spec fn wkn_count(self) -> nat {
        self.well_known.card()
    }

    /// The ownership map.
    pub open spec fn owner_map(self) -> Map<Seq<u8>, AccountId> {
        self.owners@
    }

    /// The additional-connections map, each value as a set of identifiers.
    pub open spec fn conn_map(self) -> Map<Seq<u8>, Set<Seq<u8>>> {
        Map::new(
            |k: Seq<u8>| self.connections@.dom().contains(k),
            |k: Seq<u8>| self.connections@[k]@,
        )
    }

    /// The connections recorded for a node; empty when none are recorded.
    pub open spec fn conns_of(self, node: Seq<u8>) -> Set<Seq<u8>> {
        if self.conn_map().dom().contains(node) {
            self.conn_map()[node]
        } else {
            Set::empty()
        }
    }

    /// An identifier short enough to be accepted.
    pub open spec fn id_ok(self, node: Seq<u8>) -> bool {
        node.len() < self.max_peer_id_length
    }

    /// The two configuration constants are fixed per deployment.
    pub open spec fn same_config(self, other: Registry) -> bool {
        &&& self.max_well_known_nodes == other.max_well_known_nodes
        &&& self.max_peer_id_length == other.max_peer_id_length
    }

    /// Structural well-formedness: the collections hold no duplicates,
    /// every stored connection set is itself well formed, and the
    /// well-known set stays strictly below the capacity bound.
    pub open spec fn wf(self) -> bool {
        &&& self.well_known.wf()
        &&& self.owners.wf()
        &&& self.connections.wf()
        &&& (forall|k: Seq<u8>|
            #[trigger] self.connections@.dom().contains(k) ==> self.connections@[k].wf())
        &&& self.wkn_count() < self.max_well_known_nodes
    }

    /// Every identifier held anywhere in the registry is within the
    /// configured length bound.
    pub open spec fn ids_bounded(self) -> bool {
        &&& (forall|k: Seq<u8>| #[trigger] self.wkn().contains(k) ==> self.id_ok(k))
        &&& (forall|k: Seq<u8>| #[trigger] self.owner_map().dom().contains(k) ==> self.id_ok(k))
        &&& (forall|k: Seq<u8>| #[trigger] self.conn_map().dom().contains(k) ==> self.id_ok(k))
        &&& (forall|k: Seq<u8>, c: Seq<u8>|
            self.conn_map().dom().contains(k) && #[trigger] self.conn_map()[k].contains(c)
                ==> self.id_ok(c))
    }

    /// An empty registry with the given configuration.  The capacity
    /// bound must be positive: the well-known set is kept strictly
    /// below it in every state, so a bound of zero admits no state at
    /// all.
    pub fn new(max_well_known_nodes: u32, max_peer_id_length: u32) -> (r: Registry)
        requires
            max_well_known_nodes > 0,
        ensures
            r.wf(),
            r.ids_bounded(),
            r.max_well_known_nodes == max_well_known_nodes,
            r.max_peer_id_length == max_peer_id_length,
            r.wkn() == Set::<Seq<u8>>::empty(),
            r.wkn_count() == 0,
            r.owner_map() == Map::<Seq<u8>, AccountId>::empty(),
            r.conn_map() == Map::<Seq<u8>, Set<Seq<u8>>>::empty(),
    {
        let r = Registry {
            max_well_known_nodes,
            max_peer_id_length,
            well_known: PeerSet::new(),
            owners: AssocMap::new(),
            connections: AssocMap::new(),
        };
        proof {
            assert(r.conn_map() =~= Map::<Seq<u8>, Set<Seq<u8>>>::empty());
        }
        r
    }

    /// The current well-known set.
    pub fn well_known_nodes(&self) -> (r: &PeerSet)
        ensures
            r@ == self.wkn(),
            r.wf() == self.well_known.wf(),
    {
        &self.well_known
    }

    /// The recorded owner of a node, if it has been claimed.
    pub fn owners(&self, node: &PeerId) -> (r: Option<AccountId>)
        requires
            self.wf(),
        ensures
            match r {
                Some(a) => self.owner_map().dom().contains(node@) && a == self.owner_map()[node@],
                None => !self.owner_map().dom().contains(node@),
            },
    {
        match self.owners.get(node) {
            Some(a) => Some(*a),
            None => None,
        }
    }

    /// The additional connections recorded for a node; an empty set when
    /// none are recorded.
    pub fn additional_connections(&self, node: &PeerId) -> (r: PeerSet)
        requires
            self.wf(),
        ensures
            r@ == self.conns_of(node@),
            r.wf(),
    {
        match self.connections.get(node) {
            Some(s) => s.clone(),
            None => PeerSet::new(),
        }
    }

    /// The error `add_well_known_node` reports, or `None` when it
    /// succeeds.  Capacity is judged against the resulting set: adding
    /// a node already present would change nothing, so it is rejected
    /// as `AlreadyJoined` whatever the set's size, and a fresh node is
    /// rejected as `TooManyNodes` when the set grown by one would meet
    /// or exceed the bound.
    pub open spec fn add_node_err(self, node: Seq<u8>) -> Option<RegistryError> {
        if !self.id_ok(node) {
            Some(RegistryError::PeerIdTooLong)
        } else if self.wkn().contains(node) {
            Some(RegistryError::AlreadyJoined)
        } else if self.wkn_count() + 1 >= self.max_well_known_nodes {
            Some(RegistryError::TooManyNodes)
        } else {
            None
        }
    }

    /// Add a node to the well-known set and record its owner, replacing
    /// any earlier owner.  The caller must hold the add authority.
    pub fn add_well_known_node(&mut self, node: PeerId, owner: AccountId) -> (r: Result<
        Event,
        RegistryError,
    >)
        requires
            old(self).wf(),
        ensures
            final(self).wf(),
            final(self).same_config(*old(self)),
            old(self).ids_bounded() ==> final(self).ids_bounded(),
            match r {
                Ok(ev) => {
                    &&& old(self).add_node_err(node@) is None
                    &&& final(self).wkn() == old(self).wkn().insert(node@)
                    &&& final(self).wkn_count() == old(self).wkn_count() + 1
                    &&& final(self).owner_map() == old(self).owner_map().insert(node@, owner)
                    &&& final(self).conn_map() == old(self).conn_map()
                    &&& ev == Event::NodeAdded(node, owner)
                },
                Err(e) => {
                    &&& old(self).add_node_err(node@) == Some(e)
                    &&& *final(self) == *old(self)
                },
            },
    {
        if !(node.len() < self.max_peer_id_length as usize) {
            return Err(RegistryError::PeerIdTooLong);
        }
        if self.well_known.contains(&node) {
            return Err(RegistryError::AlreadyJoined);
        }
        if !(self.well_known.len() + 1 < self.max_well_known_nodes as usize) {
            return Err(RegistryError::TooManyNodes);
        }
        self.well_known.insert(node.clone());
        self.owners.insert(node.clone(), owner);
        proof {
            let pre = *old(self);
            let post = *self;
            assert(post.conn_map() =~= pre.conn_map());
            if pre.ids_bounded() {
                assert forall|k: Seq<u8>| #[trigger] post.wkn().contains(k) implies post.id_ok(k)
                by {
                    if k != node@ {
                        assert(pre.wkn().contains(k));
                    }
                }
                assert forall|k: Seq<u8>| #[trigger]
                    post.owner_map().dom().contains(k) implies post.id_ok(k) by {
                    if k != node@ {
                        assert(pre.owner_map().dom().contains(k));
                    }
                }
            }
        }
        Ok(Event::NodeAdded(node, owner))
    }

    /// The error `remove_well_known_node` reports, or `None` when it
    /// succeeds.
    pub open spec fn remove_node_err(self, node: Seq<u8>) -> Option<RegistryError> {
        if !self.id_ok(node) {
            Some(RegistryError::PeerIdTooLong)
        } else if !self.wkn().contains(node) {
            Some(RegistryError::NotExist)
        } else {
            None
        }
    }

    /// Remove a node from the well-known set; its ownership and
    /// additional connections are removed with it.  The caller must hold
    /// the remove authority.
    pub fn remove_well_known_node(&mut self, node: PeerId) -> (r: Result<Event, RegistryError>)
        requires
            old(self).wf(),
        ensures
            final(self).wf(),
            final(self).same_config(*old(self)),
            old(self).ids_bounded() ==> final(self).ids_bounded(),
            match r {
                Ok(ev) => {
                    &&& old(self).remove_node_err(node@) is None
                    &&& final(self).wkn() == old(self).wkn().remove(node@)
                    &&& final(self).wkn_count() == old(self).wkn_count() - 1
                    &&& final(self).owner_map() == old(self).owner_map().remove(node@)
                    &&& final(self).conn_map() == old(self).conn_map().remove(node@)
                    &&& ev == Event::NodeRemoved(node)
                },
                Err(e) => {
                    &&& old(self).remove_node_err(node@) == Some(e)
                    &&& *final(self) == *old(self)
                },
            },
    {
        if !(node.len() < self.max_peer_id_length as usize) {
            return Err(RegistryError::PeerIdTooLong);
        }
        if !self.well_known.contains(&node) {
            return Err(RegistryError::NotExist);
        }
        self.well_known.remove(&node);
        let _ = self.owners.take(&node);
        let _ = self.connections.take(&node);
        proof {
            let pre = *old(self);
            let post = *self;
            assert(post.conn_map() =~= pre.conn_map().remove(node@));
            if pre.ids_bounded() {
                assert forall|k: Seq<u8>| #[trigger] post.wkn().contains(k) implies post.id_ok(k)
                by {
                    assert(pre.wkn().contains(k));
                }
                assert forall|k: Seq<u8>| #[trigger]
                    post.owner_map().dom().contains(k) implies post.id_ok(k) by {
                    assert(pre.owner_map().dom().contains(k));
                }
                assert forall|k: Seq<u8>| #[trigger]
                    post.conn_map().dom().contains(k) implies post.id_ok(k) by {
                    assert(pre.conn_map().dom().contains(k));
                }
                assert forall|k: Seq<u8>, c: Seq<u8>|
                    post.conn_map().dom().contains(k) && #[trigger] post.conn_map()[k].contains(c)
                        implies post.id_ok(c) by {
                    assert(pre.conn_map().dom().contains(k) && pre.conn_map()[k].contains(c));
                }
            }
        }
        Ok(Event::NodeRemoved(node))
    }

    /// The error `swap_well_known_node` reports, or `None` when it
    /// succeeds.
    pub open spec fn swap_node_err(self, remove: Seq<u8>, add: Seq<u8>) -> Option<RegistryError> {
        if !self.id_ok(remove) {
            Some(RegistryError::PeerIdTooLong)
        } else if !self.id_ok(add) {
            Some(RegistryError::PeerIdTooLong)
        } else if remove == add {
            None
        } else if !self.wkn().contains(remove) {
            Some(RegistryError::NotExist)
        } else if self.wkn().contains(add) {
            Some(RegistryError::AlreadyJoined)
        } else {
            None
        }
    }

    /// Replace one well-known node by another; the ownership and
    /// additional-connections entries of the two nodes are exchanged, so
    /// no record is lost.  Swapping a node for itself succeeds without
    /// changing anything and emits no event.  The caller must hold the
    /// swap authority.
    pub fn swap_well_known_node(&mut self, remove: PeerId, add: PeerId) -> (r: Result<
        Option<Event>,
        RegistryError,
    >)
        requires
            old(self).wf(),
        ensures
            final(self).wf(),
            final(self).same_config(*old(self)),
            old(self).ids_bounded() ==> final(self).ids_bounded(),
            match r {
                Ok(ev) => {
                    &&& old(self).swap_node_err(remove@, add@) is None
                    &&& (if remove@ == add@ {
                        &&& *final(self) == *old(self)
                        &&& ev is None
                    } else {
                        &&& final(self).wkn() == old(self).wkn().remove(remove@).insert(add@)
                        &&& final(self).wkn_count() == old(self).wkn_count()
                        &&& final(self).owner_map() == map_swap(
                            old(self).owner_map(),
                            remove@,
                            add@,
                        )
                        &&& final(self).conn_map() == map_swap(old(self).conn_map(), remove@, add@)
                        &&& ev == Some(Event::NodeSwapped(remove, add))
                    })
                },
                Err(e) => {
                    &&& old(self).swap_node_err(remove@, add@) == Some(e)
                    &&& *final(self) == *old(self)
                },
            },
    {
        if !(remove.len() < self.max_peer_id_length as usize) {
            return Err(RegistryError::PeerIdTooLong);
        }
        if !(add.len() < self.max_peer_id_length as usize) {
            return Err(RegistryError::PeerIdTooLong);
        }
        if remove == add {
            return Ok(None);
        }
        if !self.well_known.contains(&remove) {
            return Err(RegistryError::NotExist);
        }
        if self.well_known.contains(&add) {
            return Err(RegistryError::AlreadyJoined);
        }
        self.well_known.remove(&remove);
        self.well_known.insert(add.clone());
        self.owners.swap(&remove, &add);
        self.connections.swap(&remove, &add);
        proof {
            let pre = *old(self);
            let post = *self;
            assert(post.conn_map() =~= map_swap(pre.conn_map(), remove@, add@));
            assert forall|k: Seq<u8>| #[trigger]
                post.connections@.dom().contains(k) implies post.connections@[k].wf() by {
                if k == remove@ {
                    assert(pre.connections@.dom().contains(add@));
                } else if k == add@ {
                    assert(pre.connections@.dom().contains(remove@));
                } else {
                    assert(pre.connections@.dom().contains(k));
                }
            }
            if pre.ids_bounded() {
                assert forall|k: Seq<u8>| #[trigger] post.wkn().contains(k) implies post.id_ok(k)
                by {
                    if k != add@ {
                        assert(pre.wkn().contains(k));
                    }
                }
                assert forall|k: Seq<u8>| #[trigger]
                    post.owner_map().dom().contains(k) implies post.id_ok(k) by {
                    if k != remove@ && k != add@ {
                        assert(pre.owner_map().dom().contains(k));
                    }
                }
                assert forall|k: Seq<u8>| #[trigger]
                    post.conn_map().dom().contains(k) implies post.id_ok(k) by {
                    if k != remove@ && k != add@ {
                        assert(pre.conn_map().dom().contains(k));
                    }
                }
                assert forall|k: Seq<u8>, c: Seq<u8>|
                    post.conn_map().dom().contains(k) && #[trigger] post.conn_map()[k].contains(c)
                        implies post.id_ok(c) by {
                    if k == remove@ {
                        assert(pre.conn_map()[add@].contains(c));
                    } else if k == add@ {
                        assert(pre.conn_map()[remove@].contains(c));
                    } else {
                        assert(pre.conn_map()[k].contains(c));
                    }
                }
            }
        }
        Ok(Some(Event::NodeSwapped(remove, add)))
    }

    /// Load a list of (node, owner) pairs: the well-known set becomes
    /// the list's identifiers, and each pair is written into the
    /// ownership map in order, later pairs taking precedence.  Records
    /// of nodes no longer listed are deliberately kept.  This is the
    /// genesis bootstrap entry; its input is trusted to respect the
    /// capacity bound.
    #[verifier::loop_isolation(false)]
    pub fn initialize_nodes(&mut self, nodes: &Vec<(PeerId, AccountId)>)
        requires
            old(self).wf(),
            nodes@.len() < old(self).max_well_known_nodes,
        ensures
            final(self).wf(),
            final(self).same_config(*old(self)),
            final(self).wkn() == pair_ids(nodes@),
            final(self).wkn_count() <= nodes@.len(),
            final(self).owner_map() == written_owners(old(self).owner_map(), nodes@),
            final(self).conn_map() == old(self).conn_map(),
            (old(self).ids_bounded() && (forall|i: int|
                0 <= i < nodes@.len() ==> old(self).id_ok(nodes@[i].0@)))
                ==> final(self).ids_bounded(),
    {
        let ghost m0 = old(self).owner_map();
        let n = nodes.len();
        let mut fresh = PeerSet::new();
        let mut i: usize = 0;
        while i < n
            invariant
                i <= n,
                fresh.wf(),
                fresh@ == pair_ids(nodes@.take(i as int)),
                fresh.card() <= i,
                self.owners.wf(),
                self.owners@ == written_owners(m0, nodes@.take(i as int)),
                self.well_known == old(self).well_known,
                self.connections == old(self).connections,
                self.max_well_known_nodes == old(self).max_well_known_nodes,
                self.max_peer_id_length == old(self).max_peer_id_length,
            decreases n - i,
        {
            let ghost prefix = nodes@.take(i as int);
            proof {
                assert(nodes@.take(i + 1) =~= prefix.push(nodes@[i as int]));
                lemma_pair_ids_push(prefix, nodes@[i as int]);
                lemma_written_owners_push(m0, prefix, nodes@[i as int]);
            }
            let e = &nodes[i];
            fresh.insert(e.0.clone());
            self.owners.insert(e.0.clone(), e.1);
            i = i + 1;
        }
        proof {
            assert(nodes@.take(n as int) =~= nodes@);
        }
        self.well_known = fresh;
        proof {
            let pre = *old(self);
            let post = *self;
            assert(post.conn_map() =~= pre.conn_map());
            if pre.ids_bounded() && (forall|i: int|
                0 <= i < nodes@.len() ==> pre.id_ok(nodes@[i].0@)) {
                assert forall|k: Seq<u8>| #[trigger] post.wkn().contains(k) implies post.id_ok(k)
                by {
                    lemma_pair_ids_contains(nodes@, k);
                }
                lemma_written_owners_dom(m0, nodes@);
                assert forall|k: Seq<u8>| #[trigger]
                    post.owner_map().dom().contains(k) implies post.id_ok(k) by {
                    if pair_ids(nodes@).contains(k) {
                        lemma_pair_ids_contains(nodes@, k);
                    } else {
                        assert(pre.owner_map().dom().contains(k));
                    }
                }
            }
        }
    }

    /// The error `reset_well_known_nodes` reports, or `None` when it
    /// succeeds.  Every listed identifier is length-checked before the
    /// list's size is.
    pub open spec fn reset_err(self, nodes: Seq<(PeerId, AccountId)>) -> Option<RegistryError> {
        if exists|i: int| 0 <= i < nodes.len() && !self.id_ok(nodes[i].0@) {
            Some(RegistryError::PeerIdTooLong)
        } else if nodes.len() >= self.max_well_known_nodes {
            Some(RegistryError::TooManyNodes)
        } else {
            None
        }
    }

    /// Replace the well-known set wholesale and record the listed
    /// owners.  Ownership and additional-connections records of nodes
    /// dropped from the set are deliberately kept: their owners can
    /// clean them up through the claim system.  The caller must hold the
    /// reset authority.
    #[verifier::loop_isolation(false)]
    pub fn reset_well_known_nodes(&mut self, nodes: Vec<(PeerId, AccountId)>) -> (r: Result<
        Event,
        RegistryError,
    >)
        requires
            old(self).wf(),
        ensures
            final(self).wf(),
            final(self).same_config(*old(self)),
            old(self).ids_bounded() ==> final(self).ids_bounded(),
            match r {
                Ok(ev) => {
                    &&& old(self).reset_err(nodes@) is None
                    &&& final(self).wkn() == pair_ids(nodes@)
                    &&& final(self).wkn_count() <= nodes@.len()
                    &&& final(self).owner_map() == written_owners(old(self).owner_map(), nodes@)
                    &&& final(self).conn_map() == old(self).conn_map()
                    &&& ev == Event::NodesReset(nodes)
                },
                Err(e) => {
                    &&& old(self).reset_err(nodes@) == Some(e)
                    &&& *final(self) == *old(self)
                },
            },
    {
        let n = nodes.len();
        let mut i: usize = 0;
        while i < n
            invariant
                i <= n,
                forall|k: int| 0 <= k < i ==> self.id_ok(nodes@[k].0@),
            decreases n - i,
        {
            if !(nodes[i].0.len() < self.max_peer_id_length as usize) {
                return Err(RegistryError::PeerIdTooLong);
            }
            i = i + 1;
        }
        proof {
            assert(!(exists|k: int| 0 <= k < nodes@.len() && !self.id_ok(nodes@[k].0@)));
        }
        if !(nodes.len() < self.max_well_known_nodes as usize) {
            return Err(RegistryError::TooManyNodes);
        }
        self.initialize_nodes(&nodes);
        Ok(Event::NodesReset(nodes))
    }

    /// The error `claim_node` reports, or `None` when it succeeds.
    pub open spec fn claim_err(self, node: Seq<u8>) -> Option<RegistryError> {
        if !self.id_ok(node) {
            Some(RegistryError::PeerIdTooLong)
        } else if self.owner_map().dom().contains(node) {
            Some(RegistryError::AlreadyClaimed)
        } else {
            None
        }
    }

    /// Record the caller as the owner of a so far unclaimed node.
    pub fn claim_node(&mut self, node: PeerId, sender: AccountId) -> (r: Result<
        Event,
        RegistryError,
    >)
        requires
            old(self).wf(),
        ensures
            final(self).wf(),
            final(self).same_config(*old(self)),
            old(self).ids_bounded() ==> final(self).ids_bounded(),
            match r {
                Ok(ev) => {
                    &&& old(self).claim_err(node@) is None
                    &&& final(self).wkn() == old(self).wkn()
                    &&& final(self).owner_map() == old(self).owner_map().insert(node@, sender)
                    &&& final(self).conn_map() == old(self).conn_map()
                    &&& ev == Event::NodeClaimed(node, sender)
                },
                Err(e) => {
                    &&& old(self).claim_err(node@) == Some(e)
                    &&& *final(self) == *old(self)
                },
            },
    {
        if !(node.len() < self.max_peer_id_length as usize) {
            return Err(RegistryError::PeerIdTooLong);
        }
        if self.owners.contains_key(&node) {
            return Err(RegistryError::AlreadyClaimed);
        }
        self.owners.insert(node.clone(), sender);
        proof {
            let pre = *old(self);
            let post = *self;
            assert(post.conn_map() =~= pre.conn_map());
            if pre.ids_bounded() {
                assert forall|k: Seq<u8>| #[trigger] post.wkn().contains(k) implies post.id_ok(k)
                by {
                    assert(pre.wkn().contains(k));
                }
                assert forall|k: Seq<u8>| #[trigger]
                    post.owner_map().dom().contains(k) implies post.id_ok(k) by {
                    if k != node@ {
                        assert(pre.owner_map().dom().contains(k));
                    }
                }
            }
        }
        Ok(Event::NodeClaimed(node, sender))
    }

    /// The error `remove_claim` reports, or `None` when it succeeds.
    pub open spec fn remove_claim_err(self, node: Seq<u8>, sender: AccountId) -> Option<
        RegistryError,
    > {
        if !self.id_ok(node) {
            Some(RegistryError::PeerIdTooLong)
        } else if !self.owner_map().dom().contains(node) {
            Some(RegistryError::NotClaimed)
        } else if self.owner_map()[node] != sender {
            Some(RegistryError::NotOwner)
        } else if self.wkn().contains(node) {
            Some(RegistryError::PermissionDenied)
        } else {
            None
        }
    }

    /// Give up the caller's claim on a node; its additional connections
    /// are removed with it.  The claim on a currently well-known node
    /// cannot be removed this way: that takes the network-wide remove
    /// operation.
    pub fn remove_claim(&mut self, node: PeerId, sender: AccountId) -> (r: Result<
        Event,
        RegistryError,
    >)
        requires
            old(self).wf(),
        ensures
            final(self).wf(),
            final(self).same_config(*old(self)),
            old(self).ids_bounded() ==> final(self).ids_bounded(),
            match r {
                Ok(ev) => {
                    &&& old(self).remove_claim_err(node@, sender) is None
                    &&& final(self).wkn() == old(self).wkn()
                    &&& final(self).owner_map() == old(self).owner_map().remove(node@)
                    &&& final(self).conn_map() == old(self).conn_map().remove(node@)
                    &&& ev == Event::ClaimRemoved(node, sender)
                },
                Err(e) => {
                    &&& old(self).remove_claim_err(node@, sender) == Some(e)
                    &&& *final(self) == *old(self)
                },
            },
    {
        if !(node.len() < self.max_peer_id_length as usize) {
            return Err(RegistryError::PeerIdTooLong);
        }
        match self.owners.get(&node) {
            None => {
                return Err(RegistryError::NotClaimed);
            },
            Some(a) => {
                if *a != sender {
                    return Err(RegistryError::NotOwner);
                }
            },
        }
        if self.well_known.contains(&node) {
            return Err(RegistryError::PermissionDenied);
        }
        let _ = self.owners.take(&node);
        let _ = self.connections.take(&node);
        proof {
            let pre = *old(self);
            let post = *self;
            assert(post.conn_map() =~= pre.conn_map().remove(node@));
            if pre.ids_bounded() {
                assert forall|k: Seq<u8>| #[trigger]
                    post.owner_map().dom().contains(k) implies post.id_ok(k) by {
                    assert(pre.owner_map().dom().contains(k));
                }
                assert forall|k: Seq<u8>| #[trigger]
                    post.conn_map().dom().contains(k) implies post.id_ok(k) by {
                    assert(pre.conn_map().dom().contains(k));
                }
                assert forall|k: Seq<u8>, c: Seq<u8>|
                    post.conn_map().dom().contains(k) && #[trigger] post.conn_map()[k].contains(c)
                        implies post.id_ok(c) by {
                    assert(pre.conn_map().dom().contains(k) && pre.conn_map()[k].contains(c));
                }
            }
        }
        Ok(Event::ClaimRemoved(node, sender))
    }

    /// The error `transfer_node` reports, or `None` when it succeeds.
    /// The same check also gates `remove_connections`.
    pub open spec fn owner_op_err(self, node: Seq<u8>, sender: AccountId) -> Option<
        RegistryError,
    > {
        if !self.id_ok(node) {
            Some(RegistryError::PeerIdTooLong)
        } else if !self.owner_map().dom().contains(node) {
            Some(RegistryError::NotClaimed)
        } else if self.owner_map()[node] != sender {
            Some(RegistryError::NotOwner)
        } else {
            None
        }
    }

    /// Hand the caller's node over to a new owner.
    pub fn transfer_node(&mut self, node: PeerId, owner: AccountId, sender: AccountId) -> (r:
        Result<Event, RegistryError>)
        requires
            old(self).wf(),
        ensures
            final(self).wf(),
            final(self).same_config(*old(self)),
            old(self).ids_bounded() ==> final(self).ids_bounded(),
            match r {
                Ok(ev) => {
                    &&& old(self).owner_op_err(node@, sender) is None
                    &&& final(self).wkn() == old(self).wkn()
                    &&& final(self).owner_map() == old(self).owner_map().insert(node@, owner)
                    &&& final(self).conn_map() == old(self).conn_map()
                    &&& ev == Event::NodeTransferred(node, owner)
                },
                Err(e) => {
                    &&& old(self).owner_op_err(node@, sender) == Some(e)
                    &&& *final(self) == *old(self)
                },
            },
    {
        if !(node.len() < self.max_peer_id_length as usize) {
            return Err(RegistryError::PeerIdTooLong);
        }
        match self.owners.get(&node) {
            None => {
                return Err(RegistryError::NotClaimed);
            },
            Some(a) => {
                if *a != sender {
                    return Err(RegistryError::NotOwner);
                }
            },
        }
        self.owners.insert(node.clone(), owner);
        proof {
            let pre = *old(self);
            let post = *self;
            assert(post.conn_map() =~= pre.conn_map());
            if pre.ids_bounded() {
                assert forall|k: Seq<u8>| #[trigger] post.wkn().contains(k) implies post.id_ok(k)
                by {
                    assert(pre.wkn().contains(k));
                }
                assert forall|k: Seq<u8>| #[trigger]
                    post.owner_map().dom().contains(k) implies post.id_ok(k) by {
                    if k != node@ {
                        assert(pre.owner_map().dom().contains(k));
                    }
                }
            }
        }
        Ok(Event::NodeTransferred(node, owner))
    }

    /// The error `add_connections` reports, or `None` when it
    /// succeeds.  Both the node's identifier and every identifier in
    /// the list are length-checked before ownership is.
    pub open spec fn add_connections_err(
        self,
        node: Seq<u8>,
        connections: Seq<PeerId>,
        sender: AccountId,
    ) -> Option<RegistryError> {
        if !self.id_ok(node) {
            Some(RegistryError::PeerIdTooLong)
        } else if exists|i: int| 0 <= i < connections.len() && !self.id_ok(connections[i]@) {
            Some(RegistryError::PeerIdTooLong)
        } else if !self.owner_map().dom().contains(node) {
            Some(RegistryError::NotClaimed)
        } else if self.owner_map()[node] != sender {
            Some(RegistryError::NotOwner)
        } else {
            None
        }
    }

    /// Allow-list further peers for the caller's node.  An entry naming
    /// the node itself is silently skipped; entries already present are
    /// kept once.
    #[verifier::loop_isolation(false)]
    pub fn add_connections(
        &mut self,
        node: PeerId,
        connections: Vec<PeerId>,
        sender: AccountId,
    ) -> (r: Result<Event, RegistryError>)
        requires
            old(self).wf(),
        ensures
            final(self).wf(),
            final(self).same_config(*old(self)),
            old(self).ids_bounded() ==> final(self).ids_bounded(),
            match r {
                Ok(ev) => {
                    &&& old(self).add_connections_err(node@, connections@, sender) is None
                    &&& final(self).wkn() == old(self).wkn()
                    &&& final(self).owner_map() == old(self).owner_map()
                    &&& final(self).conn_map() == old(self).conn_map().insert(
                        node@,
                        old(self).conns_of(node@).union(id_set(connections@).remove(node@)),
                    )
                    &&& ev == Event::ConnectionsAdded(node, connections)
                },
                Err(e) => {
                    &&& old(self).add_connections_err(node@, connections@, sender) == Some(e)
                    &&& *final(self) == *old(self)
                },
            },
    {
        if !(node.len() < self.max_peer_id_length as usize) {
            return Err(RegistryError::PeerIdTooLong);
        }
        let n_checked = connections.len();
        let mut j: usize = 0;
        while j < n_checked
            invariant
                j <= n_checked,
                forall|k: int| 0 <= k < j ==> old(self).id_ok(connections@[k]@),
            decreases n_checked - j,
        {
            if !(connections[j].len() < self.max_peer_id_length as usize) {
                return Err(RegistryError::PeerIdTooLong);
            }
            j = j + 1;
        }
        proof {
            assert(!(exists|k: int|
                0 <= k < connections@.len() && !old(self).id_ok(connections@[k]@)));
        }
        match self.owners.get(&node) {
            None => {
                return Err(RegistryError::NotClaimed);
            },
            Some(a) => {
                if *a != sender {
                    return Err(RegistryError::NotOwner);
                }
            },
        }
        let mut set = self.additional_connections(&node);
        let n = connections.len();
        let mut i: usize = 0;
        while i < n
            invariant
                i <= n,
                set.wf(),
                set@ == old(self).conns_of(node@).union(
                    id_set(connections@.take(i as int)).remove(node@),
                ),
            decreases n - i,
        {
            let ghost prefix = connections@.take(i as int);
            proof {
                assert(connections@.take(i + 1) =~= prefix.push(connections@[i as int]));
                lemma_id_set_push(prefix, connections@[i as int]);
            }
            let c = &connections[i];
            if !(*c == node) {
                set.insert(c.clone());
            }
            proof {
                assert(set@ =~= old(self).conns_of(node@).union(
                    id_set(connections@.take(i + 1)).remove(node@),
                ));
            }
            i = i + 1;
        }
        proof {
            assert(connections@.take(n as int) =~= connections@);
        }
        let ghost new_set = set@;
        self.connections.insert(node.clone(), set);
        proof {
            let pre = *old(self);
            let post = *self;
            assert(post.conn_map() =~= pre.conn_map().insert(node@, new_set));
            assert forall|k: Seq<u8>| #[trigger]
                post.connections@.dom().contains(k) implies post.connections@[k].wf() by {
                if k != node@ {
                    assert(pre.connections@.dom().contains(k));
                }
            }
            if pre.ids_bounded() {
                assert forall|k: Seq<u8>| #[trigger] post.wkn().contains(k) implies post.id_ok(k)
                by {
                    assert(pre.wkn().contains(k));
                }
                assert forall|k: Seq<u8>| #[trigger]
                    post.owner_map().dom().contains(k) implies post.id_ok(k) by {
                    assert(pre.owner_map().dom().contains(k));
                }
                assert forall|k: Seq<u8>| #[trigger]
                    post.conn_map().dom().contains(k) implies post.id_ok(k) by {
                    if k != node@ {
                        assert(pre.conn_map().dom().contains(k));
                    }
                }
                assert forall|k: Seq<u8>, c: Seq<u8>|
                    post.conn_map().dom().contains(k) && #[trigger] post.conn_map()[k].contains(c)
                        implies post.id_ok(c) by {
                    if k == node@ {
                        if pre.conns_of(node@).contains(c) {
                            assert(pre.conn_map().dom().contains(node@));
                            assert(pre.conn_map()[node@].contains(c));
                        } else {
                            lemma_id_set_contains(connections@, c);
                        }
                    } else {
                        assert(pre.conn_map().dom().contains(k) && pre.conn_map()[k].contains(c));
                    }
                }
            }
        }
        Ok(Event::ConnectionsAdded(node, connections))
    }

    /// Strike peers off the allow-list of the caller's node.  Striking
    /// a peer that is not listed changes nothing; an entry for the node
    /// is recorded even when the result is empty.
    #[verifier::loop_isolation(false)]
    pub fn remove_connections(
        &mut self,
        node: PeerId,
        connections: Vec<PeerId>,
        sender: AccountId,
    ) -> (r: Result<Event, RegistryError>)
        requires
            old(self).wf(),
        ensures
            final(self).wf(),
            final(self).same_config(*old(self)),
            old(self).ids_bounded() ==> final(self).ids_bounded(),
            match r {
                Ok(ev) => {
                    &&& old(self).owner_op_err(node@, sender) is None
                    &&& final(self).wkn() == old(self).wkn()
                    &&& final(self).owner_map() == old(self).owner_map()
                    &&& final(self).conn_map() == old(self).conn_map().insert(
                        node@,
                        old(self).conns_of(node@).difference(id_set(connections@)),
                    )
                    &&& ev == Event::ConnectionsRemoved(node, connections)
                },
                Err(e) => {
                    &&& old(self).owner_op_err(node@, sender) == Some(e)
                    &&& *final(self) == *old(self)
                },
            },
    {
        if !(node.len() < self.max_peer_id_length as usize) {
            return Err(RegistryError::PeerIdTooLong);
        }
        match self.owners.get(&node) {
            None => {
                return Err(RegistryError::NotClaimed);
            },
            Some(a) => {
                if *a != sender {
                    return Err(RegistryError::NotOwner);
                }
            },
        }
        let mut set = self.additional_connections(&node);
        let n = connections.len();
        let mut i: usize = 0;
        while i < n
            invariant
                i <= n,
                set.wf(),
                set@ == old(self).conns_of(node@).difference(
                    id_set(connections@.take(i as int)),
                ),
            decreases n - i,
        {
            let ghost prefix = connections@.take(i as int);
            proof {
                assert(connections@.take(i + 1) =~= prefix.push(connections@[i as int]));
                lemma_id_set_push(prefix, connections@[i as int]);
            }
            let c = &connections[i];
            set.remove(c);
            proof {
                assert(set@ =~= old(self).conns_of(node@).difference(
                    id_set(connections@.take(i + 1)),
                ));
            }
            i = i + 1;
        }
        proof {
            assert(connections@.take(n as int) =~= connections@);
        }
        let ghost new_set = set@;
        self.connections.insert(node.clone(), set);
        proof {
            let pre = *old(self);
            let post = *self;
            assert(post.conn_map() =~= pre.conn_map().insert(node@, new_set));
            assert forall|k: Seq<u8>| #[trigger]
                post.connections@.dom().contains(k) implies post.connections@[k].wf() by {
                if k != node@ {
                    assert(pre.connections@.dom().contains(k));
                }
            }
            if pre.ids_bounded() {
                assert forall|k: Seq<u8>| #[trigger] post.wkn().contains(k) implies post.id_ok(k)
                by {
                    assert(pre.wkn().contains(k));
                }
                assert forall|k: Seq<u8>| #[trigger]
                    post.owner_map().dom().contains(k) implies post.id_ok(k) by {
                    assert(pre.owner_map().dom().contains(k));
                }
                assert forall|k: Seq<u8>| #[trigger]
                    post.conn_map().dom().contains(k) implies post.id_ok(k) by {
                    if k != node@ {
                        assert(pre.conn_map().dom().contains(k));
                    }
                }
                assert forall|k: Seq<u8>, c: Seq<u8>|
                    post.conn_map().dom().contains(k) && #[trigger] post.conn_map()[k].contains(c)
                        implies post.id_ok(c) by {
                    if k == node@ {
                        assert(pre.conns_of(node@).contains(c));
                        if pre.conn_map().dom().contains(node@) {
                            assert(pre.conn_map()[node@].contains(c));
                        }
                    } else {
                        assert(pre.conn_map().dom().contains(k) && pre.conn_map()[k].contains(c));
                    }
                }
            }
        }
        Ok(Event::ConnectionsRemoved(node, connections))
    }
}

} // verus!
