//! An association map keyed by peer identifier, stored as a vector of
//! entries with pairwise distinct keys and viewed as a mathematical map
//! from byte strings to values.

use vstd::prelude::*;
use crate::peer::PeerId;

verus! {

/// No two entries of the sequence hold the same key.
pub open spec fn distinct_keys<V>(s: Seq<(PeerId, V)>) -> bool {
    forall|i: int, j: int| 0 <= i < j < s.len() ==> s[i].0@ != s[j].0@
}

/// The map that a sequence of entries denotes.  With distinct keys the
/// choice of witness index is unique, so the value is well defined.
pub open spec fn assoc_map<V>(s: Seq<(PeerId, V)>) -> Map<Seq<u8>, V> {
    Map::new(
        |k: Seq<u8>| exists|i: int| 0 <= i < s.len() && s[i].0@ == k,
        |k: Seq<u8>| s[choose|i: int| 0 <= i < s.len() && s[i].0@ == k].1,
    )
}

/// The map under two keys exchanged: whatever stood under `a` now stands
/// under `b` and the other way round, presence included; every other key
/// is untouched.
pub open spec fn map_swap<V>(m: Map<Seq<u8>, V>, a: Seq<u8>, b: Seq<u8>) -> Map<Seq<u8>, V> {
    Map::new(
        |k: Seq<u8>|
            if k == a {
                m.dom().contains(b)
            } else if k == b {
                m.dom().contains(a)
            } else {
                m.dom().contains(k)
            },
        |k: Seq<u8>|
            if k == a {
                m[b]
            } else if k == b {
                m[a]
            } else {
                m[k]
            },
    )
}

/// Membership in the map's domain is witnessed by an index of the sequence.
pub proof fn lemma_assoc_dom<V>(s: Seq<(PeerId, V)>, k: Seq<u8>)
    ensures
        assoc_map(s).dom().contains(k) <==> exists|i: int| 0 <= i < s.len() && s[i].0@ == k,
{
}

/// Each entry of the sequence is bound in the map.
pub proof fn lemma_assoc_at<V>(s: Seq<(PeerId, V)>, i: int)
    requires
        distinct_keys(s),
        0 <= i < s.len(),
    ensures
        assoc_map(s).dom().contains(s[i].0@),
        assoc_map(s)[s[i].0@] == s[i].1,
{
    let k = s[i].0@;
    assert(assoc_map(s).dom().contains(k));
    let j = choose|j: int| 0 <= j < s.len() && s[j].0@ == k;
    assert(j == i);
}

/// Appending an entry with a fresh key binds exactly that key.
pub proof fn lemma_assoc_push<V>(s: Seq<(PeerId, V)>, e: (PeerId, V))
    requires
        distinct_keys(s),
        forall|j: int| 0 <= j < s.len() ==> s[j].0@ != e.0@,
    ensures
        distinct_keys(s.push(e)),
        assoc_map(s.push(e)) == assoc_map(s).insert(e.0@, e.1),
{
    let s1 = s.push(e);
    let m1 = assoc_map(s1);
    let m2 = assoc_map(s).insert(e.0@, e.1);
    assert forall|x: Seq<u8>| m1.dom().contains(x) implies m2.dom().contains(x) && m1[x] == m2[x]
    by {
        let j = choose|j: int| 0 <= j < s1.len() && s1[j].0@ == x;
        lemma_assoc_at(s1, j);
        if j == s.len() {
            assert(x == e.0@);
        } else {
            assert(x != e.0@);
            lemma_assoc_at(s, j);
        }
    }
    assert forall|x: Seq<u8>| m2.dom().contains(x) implies m1.dom().contains(x) by {
        if x == e.0@ {
            assert(s1[s.len() as int].0@ == x);
        } else {
            let j = choose|j: int| 0 <= j < s.len() && s[j].0@ == x;
            assert(s1[j].0@ == x);
        }
    }
    assert(m1 =~= m2);
}

/// Replacing the entry at a position, keeping its key, rebinds that key.
pub proof fn lemma_assoc_update<V>(s: Seq<(PeerId, V)>, i: int, e: (PeerId, V))
    requires
        distinct_keys(s),
        0 <= i < s.len(),
        e.0@ == s[i].0@,
    ensures
        distinct_keys(s.update(i, e)),
        assoc_map(s.update(i, e)) == assoc_map(s).insert(e.0@, e.1),
{
    let s1 = s.update(i, e);
    let m1 = assoc_map(s1);
    let m2 = assoc_map(s).insert(e.0@, e.1);
    assert forall|j: int| 0 <= j < s.len() implies s1[j].0@ == s[j].0@ by {}
    assert forall|x: Seq<u8>| m1.dom().contains(x) implies m2.dom().contains(x) && m1[x] == m2[x]
    by {
        let j = choose|j: int| 0 <= j < s1.len() && s1[j].0@ == x;
        lemma_assoc_at(s1, j);
        if x == e.0@ {
            assert(j == i);
        } else {
            assert(j != i);
            lemma_assoc_at(s, j);
        }
    }
    assert forall|x: Seq<u8>| m2.dom().contains(x) implies m1.dom().contains(x) by {
        if x == e.0@ {
            assert(s1[i].0@ == x);
        } else {
            let j = choose|j: int| 0 <= j < s.len() && s[j].0@ == x;
            assert(s1[j].0@ == x);
        }
    }
    assert(m1 =~= m2);
}

/// Dropping the entry at a position unbinds exactly its key.
pub proof fn lemma_assoc_remove<V>(s: Seq<(PeerId, V)>, i: int)
    requires
        distinct_keys(s),
        0 <= i < s.len(),
    ensures
        distinct_keys(s.remove(i)),
        assoc_map(s.remove(i)) == assoc_map(s).remove(s[i].0@),
{
    let s1 = s.remove(i);
    let m1 = assoc_map(s1);
    let m2 = assoc_map(s).remove(s[i].0@);
    assert forall|j: int| 0 <= j < s1.len() implies s1[j] == (if j < i {
        s[j]
    } else {
        s[j + 1]
    }) by {}
    assert(distinct_keys(s1)) by {
        assert forall|a: int, b: int| 0 <= a < b < s1.len() implies s1[a].0@ != s1[b].0@ by {
            let oa: int = if a < i { a } else { a + 1 };
            let ob: int = if b < i { b } else { b + 1 };
            assert(s1[a] == s[oa] && s1[b] == s[ob]);
        }
    }
    assert forall|x: Seq<u8>| m1.dom().contains(x) implies m2.dom().contains(x) && m1[x] == m2[x]
    by {
        let j = choose|j: int| 0 <= j < s1.len() && s1[j].0@ == x;
        lemma_assoc_at(s1, j);
        let oj: int = if j < i { j } else { j + 1 };
        assert(s[oj].0@ == x);
        assert(x != s[i].0@);
        lemma_assoc_at(s, oj);
    }
    assert forall|x: Seq<u8>| m2.dom().contains(x) implies m1.dom().contains(x) by {
        let j = choose|j: int| 0 <= j < s.len() && s[j].0@ == x;
        assert(j != i);
        let nj: int = if j < i {
            j
        } else {
            j - 1
        };
        assert(s1[nj].0@ == x);
    }
    assert(m1 =~= m2);
}

/// An association map from peer identifiers to values, stored as a
/// vector of entries without repeated keys.
pub struct AssocMap<V> {
    pub entries: Vec<(PeerId, V)>,
}

impl<V> View for AssocMap<V> {
    type V = Map<Seq<u8>, V>;

    open spec fn view(&self) -> Map<Seq<u8>, V> {
        assoc_map(self.entries@)
    }
}

impl<V> AssocMap<V> {
    /// The stored vector binds each key at most once.
    pub open spec fn wf(self) -> bool {
        distinct_keys(self.entries@)
    }

    pub fn new() -> (r: Self)
        ensures
            r.wf(),
            r@ == Map::<Seq<u8>, V>::empty(),
    {
        let r = AssocMap { entries: Vec::new() };
        proof {
            assert(r@ =~= Map::<Seq<u8>, V>::empty());
        }
        r
    }

    /// The position of the entry bound to the key, if any.
    #[verifier::loop_isolation(false)]
    fn index_of(&self, key: &PeerId) -> (r: Option<usize>)
        requires
            self.wf(),
        ensures
            match r {
                Some(i) => {
                    &&& i < self.entries@.len()
                    &&& self.entries@[i as int].0@ == key@
                    &&& self@.dom().contains(key@)
                    &&& self@[key@] == self.entries@[i as int].1
                },
                None => !self@.dom().contains(key@),
            },
    {
        let n = self.entries.len();
        let mut i: usize = 0;
        while i < n
            invariant
                i <= n,
                forall|k: int| 0 <= k < i ==> self.entries@[k].0@ != key@,
            decreases n - i,
        {
            if self.entries[i].0 == *key {
                proof {
                    lemma_assoc_at(self.entries@, i as int);
                }
                return Some(i);
            }
            i = i + 1;
        }
        proof {
            lemma_assoc_dom(self.entries@, key@);
        }
        None
    }

    pub fn contains_key(&self, key: &PeerId) -> (r: bool)
        requires
            self.wf(),
        ensures
            r == self@.dom().contains(key@),
    {
        match self.index_of(key) {
            Some(_) => true,
            None => false,
        }
    }

    pub fn get(&self, key: &PeerId) -> (r: Option<&V>)
        requires
            self.wf(),
        ensures
            match r {
                Some(v) => self@.dom().contains(key@) && *v == self@[key@],
                None => !self@.dom().contains(key@),
            },
    {
        match self.index_of(key) {
            Some(i) => Some(&self.entries[i].1),
            None => None,
        }
    }

    /// Bind the key to the value, replacing any earlier binding.
    pub fn insert(&mut self, key: PeerId, value: V)
        requires
            old(self).wf(),
        ensures
            final(self).wf(),
            final(self)@ == old(self)@.insert(key@, value),
    {
        let ghost s0 = self.entries@;
        match self.index_of(&key) {
            Some(i) => {
                proof {
                    lemma_assoc_update(s0, i as int, (key, value));
                }
                self.entries[i] = (key, value);
            },
            None => {
                proof {
                    lemma_assoc_dom(s0, key@);
                    lemma_assoc_push(s0, (key, value));
                }
                self.entries.push((key, value));
            },
        }
    }

    /// Unbind the key, handing back the value it was bound to, if any.
    pub fn take(&mut self, key: &PeerId) -> (r: Option<V>)
        requires
            old(self).wf(),
        ensures
            final(self).wf(),
            final(self)@ == old(self)@.remove(key@),
            match r {
                Some(v) => old(self)@.dom().contains(key@) && v == old(self)@[key@],
                None => !old(self)@.dom().contains(key@),
            },
    {
        let ghost s0 = self.entries@;
        match self.index_of(key) {
            Some(i) => {
                proof {
                    lemma_assoc_remove(s0, i as int);
                }
                let e = self.entries.remove(i);
                Some(e.1)
            },
            None => {
                proof {
                    assert(self@ =~= self@.remove(key@));
                }
                None
            },
        }
    }

    /// Exchange the bindings of two keys, presence included.
    pub fn swap(&mut self, a: &PeerId, b: &PeerId)
        requires
            old(self).wf(),
        ensures
            final(self).wf(),
            final(self)@ == map_swap(old(self)@, a@, b@),
    {
        let ghost m0 = self@;
        let va = self.take(a);
        let vb = self.take(b);
        match va {
            Some(v) => self.insert(b.clone(), v),
            None => (),
        }
        match vb {
            Some(v) => self.insert(a.clone(), v),
            None => (),
        }
        proof {
            assert(self@ =~= map_swap(m0, a@, b@));
        }
    }
}

} // verus!
