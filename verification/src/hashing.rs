//! Record identity: a seeded 64-bit hash of the record bytes.
//!
//! The hash is ahash with a fixed set of four seed words. The seed is meant
//! to be drawn once per run from a secure random source and threaded in, so
//! that adversarial input cannot predict collision chains.

use vstd::prelude::*;

verus! {

#[verifier::external_type_specification]
#[verifier::external_body]
pub struct ExRandomState(ahash::RandomState);

/// The hash ahash computes from the four seed words and the record bytes.
/// Left unspecified: only its determinism is relied on.
pub uninterp spec fn ahash_of(k0: u64, k1: u64, k2: u64, k3: u64, bytes: Seq<u8>) -> u64;

/// The four seed words an identity hasher is built from.
#[derive(Clone, Copy, Debug)]
pub struct HashSeeds {
    pub k0: u64,
    pub k1: u64,
    pub k2: u64,
    pub k3: u64,
}

/// The identity of a record under the given seeds.
pub open spec fn record_id(seeds: HashSeeds, rec: Seq<u8>) -> u64 {
    ahash_of(seeds.k0, seeds.k1, seeds.k2, seeds.k3, rec)
}

/// A hasher built once from the seed words and reused for every record.
/// The state field is always the one ahash builds from the seed field;
/// both are set together by the only constructor.
pub struct RecordHasher {
    state: ahash::RandomState,
    seeds: HashSeeds,
}

impl RecordHasher {
    pub closed spec fn seeds(self) -> HashSeeds {
        self.seeds
    }

    /// Relies on ahash::RandomState::with_seeds: the state is a pure
    /// function of the four seed words (each is xor-ed with a constant).
    #[verifier::external_body]
    pub fn from_seeds(seeds: HashSeeds) -> (r: RecordHasher)
        ensures
            r.seeds() == seeds,
    {
        RecordHasher {
            state: ahash::RandomState::with_seeds(seeds.k0, seeds.k1, seeds.k2, seeds.k3),
            seeds,
        }
    }

    /// Relies on ahash::RandomState::hash_one: for a state built with
    /// with_seeds, the result is a function of the seed words and the
    /// hashed bytes alone.
    #[verifier::external_body]
    fn hash_bytes(&self, v: &[u8]) -> (r: u64)
        ensures
            r == ahash_of(self.seeds().k0, self.seeds().k1, self.seeds().k2, self.seeds().k3, v@),
    {
        self.state.hash_one(v)
    }
}

/// Hash the given bytes with the given hasher.
pub fn hash(build: &RecordHasher, v: &[u8]) -> (r: u64)
    ensures
        r == record_id(build.seeds(), v@),
{
    build.hash_bytes(v)
}

} // verus!
