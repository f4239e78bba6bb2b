//! Validator identities.

use vstd::prelude::*;

verus! {

/// An opaque validator identity.
///
/// The tracker never looks inside an identity; it only compares identities for
/// equality and stores owned copies of them.  Thirty-two bytes of key material
/// are enough to carry any public key the surrounding consensus code uses.
#[derive(Clone, Copy)]
pub struct AuthorityId {
    pub bytes: [u8; 32],
}

impl AuthorityId {
    /// Wraps raw key bytes as an identity.
    pub fn from_raw(bytes: [u8; 32]) -> (id: AuthorityId)
        ensures
            id == (AuthorityId { bytes }),
    {
        AuthorityId { bytes }
    }
}

impl PartialEq for AuthorityId {
    fn eq(&self, other: &AuthorityId) -> (r: bool) {
        let mut i: usize = 0;
        while i < 32
            invariant
                i <= 32,
                forall|j: int| 0 <= j < i ==> self.bytes[j] == other.bytes[j],
            decreases 32 - i,
        {
            if self.bytes[i] != other.bytes[i] {
                return false;
            }
            i = i + 1;
        }
        proof {
            assert(self.bytes =~= other.bytes);
        }
        true
    }
}

impl vstd::std_specs::cmp::PartialEqSpecImpl for AuthorityId {
    open spec fn obeys_eq_spec() -> bool {
        true
    }

    open spec fn eq_spec(&self, other: &AuthorityId) -> bool {
        *self == *other
    }
}

} // verus!
