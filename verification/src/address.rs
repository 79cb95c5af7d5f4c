//! Identifiers of the assets that can be staked.

use vstd::prelude::*;

verus! {

/// The address of a resource: the 30 bytes of its node id. The ledger only
/// ever asks whether two addresses are the same.
#[derive(Clone, Copy, Debug, PartialEq, Eq, Hash)]
pub struct ResourceAddress {
    pub bytes: [u8; 30],
}

impl ResourceAddress {
    /// The address with the given bytes.
    pub fn new(bytes: [u8; 30]) -> (r: ResourceAddress)
        ensures
            r.bytes == bytes,
    {
        ResourceAddress { bytes }
    }

    /// Whether the two addresses name the same resource.
    pub fn same_as(&self, other: &ResourceAddress) -> (r: bool)
        ensures
            r == (*self == *other),
    {
        let mut i: usize = 0;
        while i < 30
            invariant
                i <= 30,
                forall|j: int| 0 <= j < i ==> self.bytes[j] == other.bytes[j],
            decreases 30 - i,
        {
            if self.bytes[i] != other.bytes[i] {
                return false;
            }
            i = i + 1;
        }
        assert(self.bytes =~= other.bytes);
        true
    }
}

} // verus!
