//! Value types: peer identifiers and account identifiers.

use vstd::prelude::*;
use vstd::std_specs::cmp::PartialEqSpec;

verus! {

/// An opaque peer identifier: a byte string.  The registry enforces a
/// configured maximum length on every identifier it accepts as input.
#[derive(Debug)]
pub struct PeerId {
    pub bytes: Vec<u8>,
}

/// The key identifying an account that may own (administer) a node.
pub type AccountId = u64;

impl View for PeerId {
    type V = Seq<u8>;

    open spec fn view(&self) -> Seq<u8> {
        self.bytes@
    }
}

impl PeerId {
    pub fn new(bytes: Vec<u8>) -> (r: PeerId)
        ensures
            r@ == bytes@,
    {
        PeerId { bytes }
    }

    /// The identifier's length in bytes.
    pub fn len(&self) -> (r: usize)
        ensures
            r == self@.len(),
    {
        self.bytes.len()
    }
}

impl Clone for PeerId {
    fn clone(&self) -> (r: Self)
        ensures
            r@ == self@,
    {
        PeerId { bytes: self.bytes.clone() }
    }
}

impl PartialEq for PeerId {
    fn eq(&self, other: &Self) -> (r: bool) {
        let r = self.bytes == other.bytes;
        proof {
            if r {
                assert(self.bytes@ =~= other.bytes@);
            } else {
                if self.bytes@ == other.bytes@ {
                    assert(self.bytes.eq_spec(&other.bytes));
                }
            }
        }
        r
    }
}

impl Eq for PeerId {}

impl vstd::std_specs::cmp::PartialEqSpecImpl for PeerId {
    open spec fn obeys_eq_spec() -> bool {
        true
    }

    open spec fn eq_spec(&self, other: &Self) -> bool {
        self@ == other@
    }
}

} // verus!
