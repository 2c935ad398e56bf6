use vstd::prelude::*;

verus! {

/// The number of addresses a wallet holds when no other capacity is
/// configured.
pub const DEFAULT_MAX_ADDRESSES: usize = 25;

/// The smallest address capacity a wallet may be configured with;
/// capacities must be strictly greater.
pub const MIN_ADDRESSES: usize = 5;

/// One configured address: the capabilities derived from a wallet seed
/// index, carried as opaque serialized key material.
///
/// The view key tests note ownership, the spend key derives nullifiers,
/// and the public key names the address's cache partitions. The engine
/// never looks inside the bytes; the cryptography collaborator does.
pub struct KeyTuple {
    /// Serialized secret spend key.
    pub spend: Vec<u8>,
    /// Serialized view key.
    pub view: Vec<u8>,
    /// Serialized public spend key; also the cache partition name.
    pub public: Vec<u8>,
}

/// Whether a configured address capacity is acceptable: more than
/// [`MIN_ADDRESSES`], at most [`DEFAULT_MAX_ADDRESSES`].
pub open spec fn capacity_ok(n: usize) -> bool {
    MIN_ADDRESSES < n <= DEFAULT_MAX_ADDRESSES
}

/// The address capacity of a wallet: the configured value when one is
/// given, the default otherwise.
///
/// A configured capacity outside the accepted range is rejected by the
/// caller before it reaches the engine, so only acceptable values arrive
/// here.
pub fn address_capacity(configured: Option<usize>) -> (n: usize)
    requires
        configured matches Some(c) ==> capacity_ok(c),
    ensures
        n == match configured {
            Some(c) => c,
            None => DEFAULT_MAX_ADDRESSES,
        },
        capacity_ok(n),
{
    match configured {
        Some(c) => c,
        None => DEFAULT_MAX_ADDRESSES,
    }
}

} // verus!
