//! The hash backend abstraction: the XMSS structure is hash-agnostic; only
//! the compression function and its prover instance differ between hashes.
use vstd::prelude::*;

verus! {

/// A 256-bit digest as eight 32-bit words.
pub type Digest = [u32; 8];

/// BLAKE3 block length of the single-block compressions: a full 64-byte block.
pub const B3_BLOCK_LEN: u32 = 64;

/// BLAKE3 flags of the single-block compressions: standalone
/// (CHUNK_START | CHUNK_END | ROOT = 1 | 2 | 8).
pub const B3_FLAGS: u32 = 11;

/// A compression-function backend: the one place where the XMSS structure
/// (chains, leaf, path) meets a concrete hash. An implementation gives the
/// IV, the compression of a 512-bit block under a 256-bit chaining value, and
/// the prover-facing record of one compression; each executable method must
/// compute what its `spec_` counterpart names (a pure function of its
/// arguments).
pub trait Backend {
    /// Prover-facing record of one compression.
    type Instance;

    /// Short name of the hash.
    const NAME: &'static str;

    /// The initial chaining value.
    spec fn spec_iv() -> Digest;

    /// The compression function `(h, lo || hi) -> digest`.
    spec fn spec_compress(h: Digest, lo: Digest, hi: Digest) -> Digest;

    /// The prover instance for the compression `(h, lo || hi)`.
    spec fn spec_instance(h: Digest, lo: Digest, hi: Digest) -> Self::Instance;

    fn iv() -> (r: Digest)
        ensures
            r == Self::spec_iv(),
    ;

    fn compress(h: &Digest, lo: &Digest, hi: &Digest) -> (r: Digest)
        ensures
            r == Self::spec_compress(*h, *lo, *hi),
    ;

    fn instance(h: &Digest, lo: &Digest, hi: &Digest) -> (r: Self::Instance)
        ensures
            r == Self::spec_instance(*h, *lo, *hi),
    ;
}

} // verus!
