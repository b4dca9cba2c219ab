//! XMSS parameter set.
use vstd::prelude::*;

verus! {

/// Number of Winternitz chains per signature.
pub const V_CHAINS: usize = 66;

/// Chain length (w).
pub const W: usize = 4;

/// Total verifier chain steps per signature (the target sum of the encoding).
pub const TARGET_SUM: usize = 117;

/// Merkle tree height (number of auth-path compressions).
pub const TREE_HEIGHT: usize = 18;

/// Compressions folding the `V_CHAINS` chain tops into the leaf.
pub const LEAF_COMPRESSIONS: usize = V_CHAINS * 256 / 512;

/// Total compressions per signature verification.
pub const COMPRESSIONS_PER_SIG: usize = TARGET_SUM + LEAF_COMPRESSIONS + TREE_HEIGHT;

/// The parameter set's counts: 33 leaf compressions, 168 compressions per
/// signature, and a target sum reachable by `V_CHAINS` chains of `W - 1` steps.
pub proof fn lemma_param_counts()
    ensures
        LEAF_COMPRESSIONS == 33,
        COMPRESSIONS_PER_SIG == 168,
        TARGET_SUM <= V_CHAINS * (W - 1),
        2 * LEAF_COMPRESSIONS == V_CHAINS,
{
}

} // verus!
