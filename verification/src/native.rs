//! Native XMSS: keys, signatures, the message encoding and the verifier.
use vstd::prelude::*;

use crate::backend::{Backend, Digest};
use crate::params::{LEAF_COMPRESSIONS, TARGET_SUM, TREE_HEIGHT, V_CHAINS, W};

verus! {

/// Domain-separation constant filling the unused half of a chain-step block.
pub const CHAIN_PAD: Digest = [
    0x666c_6f63, 0x6b2d_786d, 0x7373_2d63, 0x6861_696e,
    0x0000_0001, 0x0000_0001, 0x0000_0001, 0x0000_0001,
];

/// One Winternitz chain step: `x -> compress(IV, x || CHAIN_PAD)`.
pub open spec fn chain_step_spec<B: Backend>(x: Digest) -> Digest {
    B::spec_compress(B::spec_iv(), x, CHAIN_PAD)
}

/// 2-to-1 tree compression: `(l, r) -> compress(IV, l || r)`.
pub open spec fn node_hash_spec<B: Backend>(l: Digest, r: Digest) -> Digest {
    B::spec_compress(B::spec_iv(), l, r)
}

/// `n` chain steps starting from `x`.
pub open spec fn chain_walk<B: Backend>(x: Digest, n: nat) -> Digest
    decreases n,
{
    if n == 0 {
        x
    } else {
        chain_step_spec::<B>(chain_walk::<B>(x, (n - 1) as nat))
    }
}

/// Merkle–Damgård accumulator after absorbing the first `k` pairs of `tops`.
pub open spec fn leaf_acc<B: Backend>(tops: Seq<Digest>, k: nat) -> Digest
    decreases k,
{
    if k == 0 {
        B::spec_iv()
    } else {
        B::spec_compress(
            leaf_acc::<B>(tops, (k - 1) as nat),
            tops[2 * (k - 1)],
            tops[2 * (k - 1) + 1],
        )
    }
}

/// The leaf: Merkle–Damgård over the chain tops, two tops per compression.
pub open spec fn leaf_hash_spec<B: Backend>(tops: Seq<Digest>) -> Digest {
    leaf_acc::<B>(tops, LEAF_COMPRESSIONS as nat)
}

/// One level up the tree: `right` means the current node is the right child.
pub open spec fn path_step<B: Backend>(node: Digest, sib: Digest, right: bool) -> Digest {
    if right {
        node_hash_spec::<B>(sib, node)
    } else {
        node_hash_spec::<B>(node, sib)
    }
}

/// The node reached after climbing `k` levels from `leaf`.
pub open spec fn path_climb<B: Backend>(
    leaf: Digest,
    auth: Seq<Digest>,
    bits: Seq<bool>,
    k: nat,
) -> Digest
    decreases k,
{
    if k == 0 {
        leaf
    } else {
        path_step::<B>(path_climb::<B>(leaf, auth, bits, (k - 1) as nat), auth[k - 1], bits[k - 1])
    }
}

/// The root reached from `leaf` along a full authentication path.
pub open spec fn path_root<B: Backend>(leaf: Digest, auth: Seq<Digest>, bits: Seq<bool>) -> Digest {
    path_climb::<B>(leaf, auth, bits, TREE_HEIGHT as nat)
}

/// The chain tops reached by walking each value its number of steps.
pub open spec fn chain_tops<B: Backend>(values: Seq<Digest>, steps: Seq<usize>) -> Seq<Digest> {
    Seq::new(V_CHAINS as nat, |c: int| chain_walk::<B>(values[c], steps[c] as nat))
}

/// The XMSS leaf recomputed from revealed chain values and step counts.
pub open spec fn compute_leaf_spec<B: Backend>(values: Seq<Digest>, steps: Seq<usize>) -> Digest {
    leaf_hash_spec::<B>(chain_tops::<B>(values, steps))
}

/// One Winternitz chain step: `x -> compress(IV, x || CHAIN_PAD)`.
pub fn chain_step<B: Backend>(x: &Digest) -> (r: Digest)
    ensures
        r == chain_step_spec::<B>(*x),
{
    B::compress(&B::iv(), x, &CHAIN_PAD)
}

/// 2-to-1 tree compression: `(l, r) -> compress(IV, l || r)`.
pub fn node_hash<B: Backend>(l: &Digest, r: &Digest) -> (res: Digest)
    ensures
        res == node_hash_spec::<B>(*l, *r),
{
    B::compress(&B::iv(), l, r)
}

/// Leaf = Merkle–Damgård over the chain tops (two tops per compression).
pub fn leaf_hash<B: Backend>(tops: &[Digest; V_CHAINS]) -> (r: Digest)
    ensures
        r == leaf_hash_spec::<B>(tops@),
{
    let mut acc = B::iv();
    let mut j: usize = 0;
    while j < LEAF_COMPRESSIONS
        invariant
            j <= LEAF_COMPRESSIONS,
            acc == leaf_acc::<B>(tops@, j as nat),
        decreases LEAF_COMPRESSIONS - j,
    {
        acc = B::compress(&acc, &tops[2 * j], &tops[2 * j + 1]);
        j = j + 1;
    }
    acc
}

/// `n` chain steps from `x`.
fn walk_chain<B: Backend>(x: &Digest, n: usize) -> (r: Digest)
    ensures
        r == chain_walk::<B>(*x, n as nat),
{
    let mut y = *x;
    let mut s: usize = 0;
    while s < n
        invariant
            s <= n,
            y == chain_walk::<B>(*x, s as nat),
        decreases n - s,
    {
        y = chain_step::<B>(&y);
        s = s + 1;
    }
    y
}

/// Recompute a signature's XMSS leaf: walk each revealed chain to its top,
/// then Merkle–Damgård the tops.
pub fn compute_leaf<B: Backend>(sig: &Signature, steps: &[usize; V_CHAINS]) -> (r: Digest)
    ensures
        r == compute_leaf_spec::<B>(sig.chain_values@, steps@),
{
    let tops = walk_all::<B>(&sig.chain_values, steps);
    leaf_hash::<B>(&tops)
}

/// Each value walked its own number of chain steps.
fn walk_all<B: Backend>(values: &[Digest; V_CHAINS], steps: &[usize; V_CHAINS]) -> (r: [Digest; V_CHAINS])
    ensures
        r@ == chain_tops::<B>(values@, steps@),
{
    let mut tops = [[0u32; 8]; V_CHAINS];
    let mut c: usize = 0;
    while c < V_CHAINS
        invariant
            c <= V_CHAINS,
            forall|k: int| 0 <= k < c ==> tops[k] == chain_walk::<B>(values[k], steps[k] as nat),
        decreases V_CHAINS - c,
    {
        tops[c] = walk_chain::<B>(&values[c], steps[c]);
        c = c + 1;
    }
    assert(tops@ =~= chain_tops::<B>(values@, steps@));
    tops
}

/// Climb a full authentication path from `leaf`.
fn climb<B: Backend>(leaf: &Digest, auth: &[Digest; TREE_HEIGHT], bits: &[bool; TREE_HEIGHT]) -> (r: Digest)
    ensures
        r == path_root::<B>(*leaf, auth@, bits@),
{
    let mut node = *leaf;
    let mut lvl: usize = 0;
    while lvl < TREE_HEIGHT
        invariant
            lvl <= TREE_HEIGHT,
            node == path_climb::<B>(*leaf, auth@, bits@, lvl as nat),
        decreases TREE_HEIGHT - lvl,
    {
        node = if bits[lvl] {
            node_hash::<B>(&auth[lvl], &node)
        } else {
            node_hash::<B>(&node, &auth[lvl])
        };
        lvl = lvl + 1;
    }
    node
}

/// Word-wise digest equality.
pub fn digest_eq(a: &Digest, b: &Digest) -> (r: bool)
    ensures
        r == (*a == *b),
{
    let mut i: usize = 0;
    while i < 8
        invariant
            i <= 8,
            forall|k: int| 0 <= k < i ==> a[k] == b[k],
        decreases 8 - i,
    {
        if a[i] != b[i] {
            return false;
        }
        i = i + 1;
    }
    assert(*a =~= *b);
    true
}

/// Additive constant of the splitmix64 state update.
pub const SPLITMIX_GAMMA: u64 = 0x9E37_79B9_7F4A_7C15;

/// First multiplier of the splitmix64 output mix.
pub const SPLITMIX_M1: u64 = 0xBF58_476D_1CE4_E5B9;

/// Second multiplier of the splitmix64 output mix.
pub const SPLITMIX_M2: u64 = 0x94D0_49BB_1331_11EB;

/// The splitmix64 state update.
pub open spec fn splitmix_step(s: u64) -> u64 {
    vstd::wrapping::u64_specs::wrapping_add(s, SPLITMIX_GAMMA)
}

/// The splitmix64 output function applied to an updated state.
pub open spec fn splitmix_mix(s: u64) -> u64 {
    let a = vstd::wrapping::u64_specs::wrapping_mul(s ^ (s >> 30u64), SPLITMIX_M1);
    let b = vstd::wrapping::u64_specs::wrapping_mul(a ^ (a >> 27u64), SPLITMIX_M2);
    b ^ (b >> 31u64)
}

/// The generator state after `k` draws from state `s`.
pub open spec fn splitmix_state_after(s: u64, k: nat) -> u64
    decreases k,
{
    if k == 0 {
        s
    } else {
        splitmix_step(splitmix_state_after(s, (k - 1) as nat))
    }
}

/// The `k`-th output (0-based) drawn from state `s`.
pub open spec fn splitmix_output(s: u64, k: nat) -> u64 {
    splitmix_mix(splitmix_state_after(s, k + 1))
}

/// Drawing `a` then `b` outputs is drawing `a + b`.
pub proof fn lemma_state_after_add(s: u64, a: nat, b: nat)
    ensures
        splitmix_state_after(splitmix_state_after(s, a), b) == splitmix_state_after(s, a + b),
    decreases b,
{
    if b > 0 {
        lemma_state_after_add(s, a, (b - 1) as nat);
    }
}

/// The `k`-th output after `a` draws is the `(a + k)`-th output.
pub proof fn lemma_output_shift(s: u64, a: nat, k: nat)
    ensures
        splitmix_output(splitmix_state_after(s, a), k) == splitmix_output(s, a + k),
{
    lemma_state_after_add(s, a, k + 1);
}

/// Deterministic splitmix64 generator.
pub struct Rng(pub u64);

impl Rng {
    /// Advance the state and return the next 64-bit output.
    pub fn next_u64(&mut self) -> (r: u64)
        ensures
            final(self).0 == splitmix_step(old(self).0),
            r == splitmix_mix(final(self).0),
    {
        self.0 = self.0.wrapping_add(SPLITMIX_GAMMA);
        let mut z = self.0;
        z = (z ^ (z >> 30)).wrapping_mul(SPLITMIX_M1);
        z = (z ^ (z >> 27)).wrapping_mul(SPLITMIX_M2);
        z ^ (z >> 31)
    }

    /// Eight successive outputs, each truncated to its low 32 bits.
    pub fn digest(&mut self) -> (r: Digest)
        ensures
            final(self).0 == splitmix_state_after(old(self).0, 8),
            forall|i: int| 0 <= i < 8 ==> r[i] == splitmix_output(old(self).0, i as nat) as u32,
    {
        let ghost s0 = self.0;
        let mut r: Digest = [0u32; 8];
        let mut i: usize = 0;
        while i < 8
            invariant
                0 <= i <= 8,
                self.0 == splitmix_state_after(s0, i as nat),
                forall|j: int| 0 <= j < i ==> r[j] == splitmix_output(s0, j as nat) as u32,
            decreases 8 - i,
        {
            let x = self.next_u64();
            r[i] = x as u32;
            i = i + 1;
        }
        r
    }

    /// The low bit of the next output.
    pub fn bit(&mut self) -> (r: bool)
        ensures
            final(self).0 == splitmix_step(old(self).0),
            r == (splitmix_mix(final(self).0) & 1 == 1),
    {
        self.next_u64() & 1 == 1
    }
}

/// A signature plus everything the verifier needs.
pub struct Signature {
    /// Revealed chain values.
    pub chain_values: [Digest; V_CHAINS],
    /// Auth-path siblings, leaf level first.
    pub auth_path: [Digest; TREE_HEIGHT],
    /// Direction bits: `true` = our node is the right child at that level.
    pub path_bits: [bool; TREE_HEIGHT],
}

/// A one-time key with its public root and authentication path.
pub struct Keypair {
    pub secrets: [Digest; V_CHAINS],
    pub root: Digest,
    pub auth_path: [Digest; TREE_HEIGHT],
    pub path_bits: [bool; TREE_HEIGHT],
}

/// Fixed padding leaf for empty validator-tree slots.
pub const VSET_PAD: Digest = [
    0xEEEE_EEEE, 0xEEEE_EEEE, 0xEEEE_EEEE, 0xEEEE_EEEE,
    0xEEEE_EEEE, 0xEEEE_EEEE, 0xEEEE_EEEE, 0xEEEE_EEEE,
];

/// Number of padding-subtree roots: one per level, leaves included.
pub const PAD_LEVELS: usize = TREE_HEIGHT + 1;

/// Most leaves a validator set can hold: `2^TREE_HEIGHT`.
pub const MAX_VALIDATORS: usize = 262_144;

/// Root of an all-padding subtree of height `l`.
pub open spec fn vset_pad_root<B: Backend>(l: nat) -> Digest
    decreases l,
{
    if l == 0 {
        VSET_PAD
    } else {
        node_hash_spec::<B>(vset_pad_root::<B>((l - 1) as nat), vset_pad_root::<B>((l - 1) as nat))
    }
}

/// Element `i` of `s`, or `d` past its end.
pub open spec fn get_or(s: Seq<Digest>, i: int, d: Digest) -> Digest {
    if 0 <= i < s.len() {
        s[i]
    } else {
        d
    }
}

/// The non-padding prefix of level `l` of the validator tree over `leaves`.
pub open spec fn vset_level<B: Backend>(leaves: Seq<Digest>, l: nat) -> Seq<Digest>
    decreases l,
{
    if l == 0 {
        leaves
    } else {
        let prev = vset_level::<B>(leaves, (l - 1) as nat);
        let pad = vset_pad_root::<B>((l - 1) as nat);
        Seq::new(
            ((prev.len() + 1) / 2) as nat,
            |j: int| node_hash_spec::<B>(prev[2 * j], get_or(prev, 2 * j + 1, pad)),
        )
    }
}

/// The validator-set root `V`.
pub open spec fn vset_root<B: Backend>(leaves: Seq<Digest>) -> Digest {
    let top = vset_level::<B>(leaves, TREE_HEIGHT as nat);
    if top.len() > 0 {
        top[0]
    } else {
        vset_pad_root::<B>(TREE_HEIGHT as nat)
    }
}

/// Index at level `l` of the ancestor of leaf `i`.
pub open spec fn vset_index(i: int, l: nat) -> int
    decreases l,
{
    if l == 0 {
        i
    } else {
        vset_index(i, (l - 1) as nat) / 2
    }
}

/// Index of the sibling of node `idx` (its other half of the pair).
pub open spec fn sibling_index(idx: int) -> int {
    if idx % 2 == 1 {
        idx - 1
    } else {
        idx + 1
    }
}

/// Level-`l` authentication sibling of leaf `i`.
pub open spec fn vset_auth<B: Backend>(leaves: Seq<Digest>, i: int, l: nat) -> Digest {
    get_or(
        vset_level::<B>(leaves, l),
        sibling_index(vset_index(i, l)),
        vset_pad_root::<B>(l),
    )
}

/// Level-`l` path bit of leaf `i`: its ancestor is a right child.
pub open spec fn vset_bit(i: int, l: nat) -> bool {
    vset_index(i, l) % 2 == 1
}

/// Each level is half the previous one, rounded up.
pub proof fn lemma_vset_level_len<B: Backend>(leaves: Seq<Digest>, l: nat)
    requires
        l > 0,
    ensures
        vset_level::<B>(leaves, l).len() == (vset_level::<B>(leaves, (l - 1) as nat).len() + 1) / 2,
{
}

/// Climbing leaf `i`'s authentication path `k` levels reaches its level-`k`
/// ancestor.
pub proof fn lemma_vset_climb<B: Backend>(
    leaves: Seq<Digest>,
    i: int,
    auth: Seq<Digest>,
    bits: Seq<bool>,
    k: nat,
)
    requires
        0 <= i < leaves.len(),
        k <= TREE_HEIGHT,
        auth.len() == TREE_HEIGHT,
        bits.len() == TREE_HEIGHT,
        forall|l: int| 0 <= l < TREE_HEIGHT ==> #[trigger] auth[l] == vset_auth::<B>(leaves, i, l as nat),
        forall|l: int| 0 <= l < TREE_HEIGHT ==> #[trigger] bits[l] == vset_bit(i, l as nat),
    ensures
        0 <= vset_index(i, k) < vset_level::<B>(leaves, k).len(),
        path_climb::<B>(leaves[i], auth, bits, k) == vset_level::<B>(leaves, k)[vset_index(i, k)],
    decreases k,
{
    if k > 0 {
        let l = (k - 1) as nat;
        lemma_vset_climb::<B>(leaves, i, auth, bits, l);
        let prev = vset_level::<B>(leaves, l);
        let idx = vset_index(i, l);
        let pad = vset_pad_root::<B>(l);
        let j = idx / 2;
        assert(vset_level::<B>(leaves, k)[j] == node_hash_spec::<B>(prev[2 * j], get_or(prev, 2 * j + 1, pad)));
        assert(auth[l as int] == vset_auth::<B>(leaves, i, l));
        assert(bits[l as int] == vset_bit(i, l));
    }
}

/// `i < 2^(n+1)` implies `i / 2 < 2^n`.
proof fn lemma_half_below_pow2(x: int, n: nat)
    requires
        0 <= x < vstd::arithmetic::power2::pow2(n + 1),
    ensures
        x / 2 < vstd::arithmetic::power2::pow2(n),
{
    vstd::arithmetic::power2::lemma_pow2_unfold(n + 1);
}

/// A leaf below `2^TREE_HEIGHT` has its level-`l` ancestor below `2^(TREE_HEIGHT - l)`.
proof fn lemma_vset_index_bound(i: int, l: nat)
    requires
        0 <= i < MAX_VALIDATORS,
        l <= TREE_HEIGHT,
    ensures
        0 <= vset_index(i, l) < vstd::arithmetic::power2::pow2((TREE_HEIGHT - l) as nat),
    decreases l,
{
    if l == 0 {
        vstd::arithmetic::power2::lemma2_to64();
    } else {
        lemma_vset_index_bound(i, (l - 1) as nat);
        lemma_half_below_pow2(vset_index(i, (l - 1) as nat), (TREE_HEIGHT - l) as nat);
    }
}

/// Every authentication path of the validator set climbs from its leaf to `V`.
pub proof fn lemma_vset_paths_reach_root<B: Backend>(
    leaves: Seq<Digest>,
    i: int,
    auth: Seq<Digest>,
    bits: Seq<bool>,
)
    requires
        0 <= i < leaves.len(),
        leaves.len() <= MAX_VALIDATORS,
        auth.len() == TREE_HEIGHT,
        bits.len() == TREE_HEIGHT,
        forall|l: int| 0 <= l < TREE_HEIGHT ==> #[trigger] auth[l] == vset_auth::<B>(leaves, i, l as nat),
        forall|l: int| 0 <= l < TREE_HEIGHT ==> #[trigger] bits[l] == vset_bit(i, l as nat),
    ensures
        path_root::<B>(leaves[i], auth, bits) == vset_root::<B>(leaves),
{
    lemma_vset_climb::<B>(leaves, i, auth, bits, TREE_HEIGHT as nat);
    lemma_vset_index_bound(i, TREE_HEIGHT as nat);
    assert(vstd::arithmetic::power2::pow2(0) == 1) by {
        vstd::arithmetic::power2::lemma2_to64();
    }
}

/// `x ^ 1`, `x & 1` and `x >> 1` in arithmetic terms.
proof fn lemma_low_bit_ops(x: usize)
    ensures
        (x ^ 1) as int == sibling_index(x as int),
        (x & 1 == 1) == (x % 2 == 1),
        (x >> 1) as int == x / 2,
{
    assert((x ^ 1usize) == if x % 2 == 1 { (x - 1) as usize } else { (x + 1) as usize }) by (bit_vector);
    assert((x & 1usize == 1usize) == (x % 2 == 1)) by (bit_vector);
    assert(x >> 1usize == x / 2) by (bit_vector);
}

/// Build a height-`TREE_HEIGHT` validator-set Merkle tree over `leaves`
/// (padded with `VSET_PAD`), returning the root `V` and each leaf's
/// authentication path (siblings and path bits). Only the non-padding prefix
/// of each level is materialized.
pub fn build_validator_set<B: Backend>(leaves: &[Digest]) -> (r: (
    Digest,
    Vec<([Digest; TREE_HEIGHT], [bool; TREE_HEIGHT])>,
))
    requires
        leaves@.len() <= MAX_VALIDATORS,
    ensures
        r.0 == vset_root::<B>(leaves@),
        r.1@.len() == leaves@.len(),
        forall|i: int, l: int|
            0 <= i < leaves@.len() && 0 <= l < TREE_HEIGHT ==> #[trigger] r.1@[i].0[l]
                == vset_auth::<B>(leaves@, i, l as nat),
        forall|i: int, l: int|
            0 <= i < leaves@.len() && 0 <= l < TREE_HEIGHT ==> #[trigger] r.1@[i].1[l] == vset_bit(
                i,
                l as nat,
            ),
        forall|i: int|
            0 <= i < leaves@.len() ==> path_root::<B>(leaves@[i], (#[trigger] r.1@[i]).0@, r.1@[i].1@)
                == r.0,
{
    // Padding-subtree root at each level.
    let mut pads: [Digest; PAD_LEVELS] = [VSET_PAD; PAD_LEVELS];
    let mut l: usize = 1;
    while l <= TREE_HEIGHT
        invariant
            1 <= l <= TREE_HEIGHT + 1,
            forall|k: int| 0 <= k < l ==> #[trigger] pads[k] == vset_pad_root::<B>(k as nat),
        decreases TREE_HEIGHT + 1 - l,
    {
        pads[l] = node_hash::<B>(&pads[l - 1], &pads[l - 1]);
        l = l + 1;
    }

    // Materialize only the non-padding prefix at each level.
    let mut first: Vec<Digest> = Vec::new();
    let mut i: usize = 0;
    while i < leaves.len()
        invariant
            i <= leaves@.len(),
            first@ == leaves@.take(i as int),
        decreases leaves@.len() - i,
    {
        first.push(leaves[i]);
        i = i + 1;
        assert(first@ =~= leaves@.take(i as int));
    }
    assert(leaves@.take(leaves@.len() as int) =~= leaves@);
    let mut levels: Vec<Vec<Digest>> = Vec::new();
    levels.push(first);
    let mut l: usize = 0;
    while l < TREE_HEIGHT
        invariant
            l <= TREE_HEIGHT,
            levels@.len() == l + 1,
            leaves@.len() <= MAX_VALIDATORS,
            forall|k: int| 0 <= k <= TREE_HEIGHT ==> #[trigger] pads[k] == vset_pad_root::<B>(k as nat),
            forall|k: int| 0 <= k <= l ==> (#[trigger] levels@[k])@ == vset_level::<B>(leaves@, k as nat),
            forall|k: int| 0 <= k <= l ==> (#[trigger] levels@[k])@.len() <= MAX_VALIDATORS,
        decreases TREE_HEIGHT - l,
    {
        let ghost prev_spec = vset_level::<B>(leaves@, l as nat);
        let plen = levels[l].len();
        let mut next: Vec<Digest> = Vec::new();
        let mut j: usize = 0;
        while j < plen
            invariant
                l < TREE_HEIGHT,
                levels@.len() == l + 1,
                plen == levels@[l as int]@.len(),
                levels@[l as int]@ == prev_spec,
                plen <= MAX_VALIDATORS,
                j % 2 == 0,
                j <= plen + 1,
                pads[l as int] == vset_pad_root::<B>(l as nat),
                next@.len() == j / 2,
                forall|m: int|
                    0 <= m < next@.len() ==> #[trigger] next@[m] == node_hash_spec::<B>(
                        prev_spec[2 * m],
                        get_or(prev_spec, 2 * m + 1, vset_pad_root::<B>(l as nat)),
                    ),
            decreases plen + 2 - j,
        {
            let lft = levels[l][j];
            let rgt = if j + 1 < plen { levels[l][j + 1] } else { pads[l] };
            next.push(node_hash::<B>(&lft, &rgt));
            j = j + 2;
        }
        proof {
            lemma_vset_level_len::<B>(leaves@, (l + 1) as nat);
        }
        assert(next@ =~= vset_level::<B>(leaves@, (l + 1) as nat));
        levels.push(next);
        l = l + 1;
    }
    let v = if levels[TREE_HEIGHT].len() > 0 { levels[TREE_HEIGHT][0] } else { pads[TREE_HEIGHT] };

    let mut paths: Vec<([Digest; TREE_HEIGHT], [bool; TREE_HEIGHT])> = Vec::new();
    let mut i: usize = 0;
    while i < leaves.len()
        invariant
            i <= leaves@.len(),
            leaves@.len() <= MAX_VALIDATORS,
            levels@.len() == TREE_HEIGHT + 1,
            forall|k: int| 0 <= k <= TREE_HEIGHT ==> #[trigger] pads[k] == vset_pad_root::<B>(k as nat),
            forall|k: int| 0 <= k <= TREE_HEIGHT ==> (#[trigger] levels@[k])@ == vset_level::<B>(leaves@, k as nat),
            v == vset_root::<B>(leaves@),
            paths@.len() == i,
            forall|a: int, b: int|
                0 <= a < i && 0 <= b < TREE_HEIGHT ==> #[trigger] paths@[a].0[b] == vset_auth::<B>(
                    leaves@,
                    a,
                    b as nat,
                ),
            forall|a: int, b: int|
                0 <= a < i && 0 <= b < TREE_HEIGHT ==> #[trigger] paths@[a].1[b] == vset_bit(a, b as nat),
            forall|a: int|
                0 <= a < i ==> path_root::<B>(leaves@[a], (#[trigger] paths@[a]).0@, paths@[a].1@) == v,
        decreases leaves@.len() - i,
    {
        let mut ap: [Digest; TREE_HEIGHT] = [[0u32; 8]; TREE_HEIGHT];
        let mut pb: [bool; TREE_HEIGHT] = [false; TREE_HEIGHT];
        let mut idx = i;
        let mut lv: usize = 0;
        while lv < TREE_HEIGHT
            invariant
                lv <= TREE_HEIGHT,
                levels@.len() == TREE_HEIGHT + 1,
                forall|k: int| 0 <= k <= TREE_HEIGHT ==> #[trigger] pads[k] == vset_pad_root::<B>(k as nat),
                forall|k: int| 0 <= k <= TREE_HEIGHT ==> (#[trigger] levels@[k])@ == vset_level::<B>(leaves@, k as nat),
                idx as int == vset_index(i as int, lv as nat),
                forall|b: int| 0 <= b < lv ==> #[trigger] ap[b] == vset_auth::<B>(leaves@, i as int, b as nat),
                forall|b: int| 0 <= b < lv ==> #[trigger] pb[b] == vset_bit(i as int, b as nat),
            decreases TREE_HEIGHT - lv,
        {
            proof {
                lemma_low_bit_ops(idx);
            }
            let sib = idx ^ 1;
            ap[lv] = if sib < levels[lv].len() { levels[lv][sib] } else { pads[lv] };
            pb[lv] = idx & 1 == 1;
            idx = idx >> 1;
            lv = lv + 1;
        }
        proof {
            lemma_vset_paths_reach_root::<B>(leaves@, i as int, ap@, pb@);
        }
        paths.push((ap, pb));
        i = i + 1;
    }
    (v, paths)
}

/// Domain words filling the rest of the encoding block.
pub const ENCODE_DOMAIN: [u32; 7] = [
    0x6c65_616e, 0x2d78_6d73, 0x732d_656e, 0x636f_6465,
    0x0000_0002, 0x0000_0002, 0x0000_0002,
];

/// Number of counters tried by the target-sum encoding.
pub const ENCODE_TRIES: u32 = 1_000_000;

/// The high half of the encoding block: the counter, then the domain words.
pub open spec fn encode_block_hi(ctr: u32) -> Digest {
    [
        ctr,
        ENCODE_DOMAIN[0],
        ENCODE_DOMAIN[1],
        ENCODE_DOMAIN[2],
        ENCODE_DOMAIN[3],
        ENCODE_DOMAIN[4],
        ENCODE_DOMAIN[5],
        ENCODE_DOMAIN[6],
    ]
}

/// The expansion digest of `(msg, ctr)`.
pub open spec fn encode_digest<B: Backend>(msg: Digest, ctr: u32) -> Digest {
    B::spec_compress(B::spec_iv(), msg, encode_block_hi(ctr))
}

/// Chunk `i` in `[0, W)`: two bits of the expansion digest.
pub open spec fn digest_chunk(d: Digest, i: int) -> u32 {
    (d[i / 16] >> ((2 * (i % 16)) as u32)) & 3u32
}

/// Per-chain verifier steps read from an expansion digest: `(W - 1) - chunk`.
pub open spec fn steps_of_digest(d: Digest) -> Seq<usize> {
    Seq::new(V_CHAINS as nat, |i: int| ((W - 1) - digest_chunk(d, i)) as usize)
}

/// Sum of a sequence of step counts.
pub open spec fn steps_sum(s: Seq<usize>) -> int
    decreases s.len(),
{
    if s.len() == 0 {
        0
    } else {
        steps_sum(s.drop_last()) + s.last()
    }
}

/// Whether counter `ctr` yields steps summing to `TARGET_SUM`.
pub open spec fn encode_accepts<B: Backend>(msg: Digest, ctr: u32) -> bool {
    steps_sum(steps_of_digest(encode_digest::<B>(msg, ctr))) == TARGET_SUM
}

/// Whether some counter below `ENCODE_TRIES` is accepted.
pub open spec fn encode_converges<B: Backend>(msg: Digest) -> bool {
    exists|c: u32| c < ENCODE_TRIES && #[trigger] encode_accepts::<B>(msg, c)
}

/// `ctr` is the first accepted counter.
pub open spec fn is_first_accepted<B: Backend>(msg: Digest, ctr: u32) -> bool {
    &&& ctr < ENCODE_TRIES
    &&& encode_accepts::<B>(msg, ctr)
    &&& forall|c: u32| c < ctr ==> !#[trigger] encode_accepts::<B>(msg, c)
}

/// The counter chosen by the encoding: the first accepted one.
pub open spec fn encode_counter<B: Backend>(msg: Digest) -> u32 {
    choose|ctr: u32| is_first_accepted::<B>(msg, ctr)
}

/// The message-derived per-chain step counts.
pub open spec fn encode_steps<B: Backend>(msg: Digest) -> Seq<usize> {
    steps_of_digest(encode_digest::<B>(msg, encode_counter::<B>(msg)))
}

/// Two counters that are both first accepted are equal.
pub proof fn lemma_first_accepted_unique<B: Backend>(msg: Digest, a: u32, b: u32)
    requires
        is_first_accepted::<B>(msg, a),
        is_first_accepted::<B>(msg, b),
    ensures
        a == b,
{
    if a < b {
        assert(!encode_accepts::<B>(msg, a));
    } else if b < a {
        assert(!encode_accepts::<B>(msg, b));
    }
}

/// Below any accepted counter there is a first accepted one.
proof fn lemma_first_accepted_below<B: Backend>(msg: Digest, n: u32) -> (c: u32)
    requires
        n <= ENCODE_TRIES,
        exists|c: u32| c < n && #[trigger] encode_accepts::<B>(msg, c),
    ensures
        is_first_accepted::<B>(msg, c),
    decreases n,
{
    let m = (n - 1) as u32;
    if exists|c: u32| c < m && #[trigger] encode_accepts::<B>(msg, c) {
        lemma_first_accepted_below::<B>(msg, m)
    } else {
        assert(encode_accepts::<B>(msg, m));
        m
    }
}

/// A converging encoding has a first accepted counter, and its steps sum to
/// `TARGET_SUM`.
pub proof fn lemma_encode_counter<B: Backend>(msg: Digest)
    requires
        encode_converges::<B>(msg),
    ensures
        is_first_accepted::<B>(msg, encode_counter::<B>(msg)),
        steps_sum(encode_steps::<B>(msg)) == TARGET_SUM,
        encode_steps::<B>(msg).len() == V_CHAINS,
{
    let c = lemma_first_accepted_below::<B>(msg, ENCODE_TRIES);
    assert(is_first_accepted::<B>(msg, c));
}

/// Steps and their sum for one expansion digest.
fn steps_from_digest(d: &Digest) -> (r: ([usize; V_CHAINS], usize))
    ensures
        r.0@ == steps_of_digest(*d),
        r.1 == steps_sum(r.0@),
{
    let mut steps = [0usize; V_CHAINS];
    let mut sum: usize = 0;
    let mut i: usize = 0;
    while i < V_CHAINS
        invariant
            i <= V_CHAINS,
            forall|k: int| 0 <= k < i ==> steps[k] == steps_of_digest(*d)[k],
            sum == steps_sum(steps@.take(i as int)),
            sum <= 3 * i,
        decreases V_CHAINS - i,
    {
        let word = d[i / 16];
        let sh = 2 * (i % 16);
        let chunk = (word >> sh) & 3;
        assert(chunk <= 3) by (bit_vector)
            requires
                chunk == (word >> sh) & 3u32,
        ;
        assert(chunk == digest_chunk(*d, i as int));
        let s = (W - 1) - (chunk as usize);
        let ghost before = steps@;
        steps[i] = s;
        assert(steps@.take(i + 1).drop_last() =~= before.take(i as int));
        assert(steps@.take(i + 1).last() == s);
        sum = sum + s;
        i = i + 1;
    }
    assert(steps@ =~= steps_of_digest(*d));
    assert(steps@.take(V_CHAINS as int) =~= steps@);
    (steps, sum)
}

/// Message encoding: derive per-chain verifier step counts from the message
/// by target-sum rejection sampling. Tries counters `0..ENCODE_TRIES` and
/// returns the steps and the first counter whose expansion digest gives steps
/// summing to `TARGET_SUM`, or `None` where no counter does.
pub fn try_encode_message<B: Backend>(msg: &Digest) -> (r: Option<([usize; V_CHAINS], u32)>)
    ensures
        r is Some <==> encode_converges::<B>(*msg),
        r matches Some(res) ==> {
            &&& is_first_accepted::<B>(*msg, res.1)
            &&& res.1 == encode_counter::<B>(*msg)
            &&& res.0@ == steps_of_digest(encode_digest::<B>(*msg, res.1))
            &&& res.0@ == encode_steps::<B>(*msg)
            &&& steps_sum(res.0@) == TARGET_SUM
        },
{
    let mut ctr: u32 = 0;
    while ctr < ENCODE_TRIES
        invariant
            ctr <= ENCODE_TRIES,
            forall|c: u32| c < ctr ==> !#[trigger] encode_accepts::<B>(*msg, c),
        decreases ENCODE_TRIES - ctr,
    {
        let hi: Digest = [
            ctr,
            ENCODE_DOMAIN[0],
            ENCODE_DOMAIN[1],
            ENCODE_DOMAIN[2],
            ENCODE_DOMAIN[3],
            ENCODE_DOMAIN[4],
            ENCODE_DOMAIN[5],
            ENCODE_DOMAIN[6],
        ];
        assert(hi =~= encode_block_hi(ctr));
        let d = B::compress(&B::iv(), msg, &hi);
        let (steps, sum) = steps_from_digest(&d);
        if sum == TARGET_SUM {
            proof {
                assert(is_first_accepted::<B>(*msg, ctr));
                let chosen = encode_counter::<B>(*msg);
                assert(is_first_accepted::<B>(*msg, chosen));
                lemma_first_accepted_unique::<B>(*msg, ctr, chosen);
            }
            return Some((steps, ctr));
        }
        ctr = ctr + 1;
    }
    None
}

/// Message encoding for a message whose encoding converges: the per-chain
/// step counts and the first accepted counter.
pub fn encode_message<B: Backend>(msg: &Digest) -> (r: ([usize; V_CHAINS], u32))
    requires
        encode_converges::<B>(*msg),
    ensures
        is_first_accepted::<B>(*msg, r.1),
        r.1 == encode_counter::<B>(*msg),
        r.0@ == steps_of_digest(encode_digest::<B>(*msg, r.1)),
        r.0@ == encode_steps::<B>(*msg),
        steps_sum(r.0@) == TARGET_SUM,
{
    try_encode_message::<B>(msg).unwrap()
}

/// Each digest-derived step count is at most `W - 1`.
pub proof fn lemma_steps_of_digest_bounded(d: Digest)
    ensures
        forall|i: int| 0 <= i < V_CHAINS ==> #[trigger] steps_of_digest(d)[i] < W,
{
    assert forall|i: int| 0 <= i < V_CHAINS implies #[trigger] steps_of_digest(d)[i] < W by {
        let w = d[i / 16];
        let sh = (2 * (i % 16)) as u32;
        assert((w >> sh) & 3u32 <= 3u32) by (bit_vector);
    }
}

/// The sum of the first `n` two-bit chunks of a digest; chunk `i` is bits
/// `2 * (i % 16)` and up of word `i / 16`.
pub open spec fn two_bit_chunks_sum(d: Digest, n: nat) -> int
    decreases n,
{
    if n == 0 {
        0
    } else {
        two_bit_chunks_sum(d, (n - 1) as nat) + ((d[(n - 1) / 16] >> ((2 * ((n - 1) % 16)) as u32))
            & 3u32)
    }
}

/// The first `n` digest-derived steps and the first `n` chunks add up to
/// `n * (W - 1)`.
proof fn lemma_steps_sum_complement(d: Digest, n: nat)
    requires
        n <= V_CHAINS,
    ensures
        steps_sum(steps_of_digest(d).take(n as int)) + two_bit_chunks_sum(d, n) == (W - 1) * n,
    decreases n,
{
    if n > 0 {
        let i = n - 1;
        lemma_steps_sum_complement(d, (n - 1) as nat);
        assert(steps_of_digest(d).take(n as int).drop_last() =~= steps_of_digest(d).take(i));
        let w = d[i / 16];
        let sh = (2 * (i % 16)) as u32;
        assert((w >> sh) & 3u32 <= 3u32) by (bit_vector);
    }
}

/// Message encoding reads the expansion digest two bits per chain: each
/// chain's step count is `W - 1` minus its two-bit chunk of the digest at the
/// chosen counter, and that counter is the first below `ENCODE_TRIES` whose
/// chunks sum to `V_CHAINS * (W - 1) - TARGET_SUM`, so that the steps sum to
/// `TARGET_SUM`.
pub proof fn lemma_encode_reads_chunks<B: Backend>(msg: Digest)
    requires
        encode_converges::<B>(msg),
    ensures
        encode_steps::<B>(msg).len() == V_CHAINS,
        forall|i: int|
            0 <= i < V_CHAINS ==> #[trigger] encode_steps::<B>(msg)[i] + ((encode_digest::<B>(
                msg,
                encode_counter::<B>(msg),
            )[i / 16] >> ((2 * (i % 16)) as u32)) & 3u32) == W - 1,
        encode_counter::<B>(msg) < ENCODE_TRIES,
        two_bit_chunks_sum(encode_digest::<B>(msg, encode_counter::<B>(msg)), V_CHAINS as nat)
            == V_CHAINS * (W - 1) - TARGET_SUM,
        forall|c: u32|
            c < encode_counter::<B>(msg) ==> two_bit_chunks_sum(
                #[trigger] encode_digest::<B>(msg, c),
                V_CHAINS as nat,
            ) != V_CHAINS * (W - 1) - TARGET_SUM,
{
    lemma_encode_counter::<B>(msg);
    let ctr = encode_counter::<B>(msg);
    let d = encode_digest::<B>(msg, ctr);
    assert forall|i: int| 0 <= i < V_CHAINS implies #[trigger] encode_steps::<B>(msg)[i] + ((
    encode_digest::<B>(msg, ctr)[i / 16] >> ((2 * (i % 16)) as u32)) & 3u32) == W - 1 by {
        let w = d[i / 16];
        let sh = (2 * (i % 16)) as u32;
        assert((w >> sh) & 3u32 <= 3u32) by (bit_vector);
    }
    lemma_steps_sum_complement(d, V_CHAINS as nat);
    assert(steps_of_digest(d).take(V_CHAINS as int) =~= steps_of_digest(d));
    assert forall|c: u32| c < ctr implies two_bit_chunks_sum(
        #[trigger] encode_digest::<B>(msg, c),
        V_CHAINS as nat,
    ) != V_CHAINS * (W - 1) - TARGET_SUM by {
        let dc = encode_digest::<B>(msg, c);
        assert(!encode_accepts::<B>(msg, c));
        lemma_steps_sum_complement(dc, V_CHAINS as nat);
        assert(steps_of_digest(dc).take(V_CHAINS as int) =~= steps_of_digest(dc));
    }
}

/// Chain tops of a key: every secret walked the full `W - 1` steps.
pub open spec fn key_chain_tops<B: Backend>(secrets: Seq<Digest>) -> Seq<Digest> {
    Seq::new(V_CHAINS as nat, |c: int| chain_walk::<B>(secrets[c], (W - 1) as nat))
}

/// The public root of a key: its leaf climbed along its authentication path.
pub open spec fn key_root<B: Backend>(secrets: Seq<Digest>, auth: Seq<Digest>, bits: Seq<bool>) -> Digest {
    path_root::<B>(leaf_hash_spec::<B>(key_chain_tops::<B>(secrets)), auth, bits)
}

/// A keypair whose root is the one its secrets and path determine.
pub open spec fn keypair_wf<B: Backend>(kp: Keypair) -> bool {
    kp.root == key_root::<B>(kp.secrets@, kp.auth_path@, kp.path_bits@)
}

/// The chain values a signature reveals: each secret walked `W - 1 - steps`.
pub open spec fn sign_values<B: Backend>(secrets: Seq<Digest>, steps: Seq<usize>) -> Seq<Digest> {
    Seq::new(V_CHAINS as nat, |c: int| chain_walk::<B>(secrets[c], ((W - 1) - steps[c]) as nat))
}

/// Whether signature parts verify for `msg` against `root`.
pub open spec fn verify_spec<B: Backend>(
    values: Seq<Digest>,
    auth: Seq<Digest>,
    bits: Seq<bool>,
    msg: Digest,
    root: Digest,
) -> bool {
    path_root::<B>(compute_leaf_spec::<B>(values, encode_steps::<B>(msg)), auth, bits) == root
}

/// Walking `a` steps then `b` steps is walking `a + b` steps.
pub proof fn lemma_chain_walk_add<B: Backend>(x: Digest, a: nat, b: nat)
    ensures
        chain_walk::<B>(chain_walk::<B>(x, a), b) == chain_walk::<B>(x, a + b),
    decreases b,
{
    if b > 0 {
        lemma_chain_walk_add::<B>(x, a, (b - 1) as nat);
    }
}

/// Sign-then-verify: a signature made with a well-formed key on `msg`
/// verifies for `msg` against the key's root.
pub proof fn lemma_sign_then_verify<B: Backend>(
    secrets: Seq<Digest>,
    auth: Seq<Digest>,
    bits: Seq<bool>,
    msg: Digest,
)
    requires
        secrets.len() == V_CHAINS,
        encode_converges::<B>(msg),
    ensures
        verify_spec::<B>(
            sign_values::<B>(secrets, encode_steps::<B>(msg)),
            auth,
            bits,
            msg,
            key_root::<B>(secrets, auth, bits),
        ),
{
    let steps = encode_steps::<B>(msg);
    lemma_steps_of_digest_bounded(encode_digest::<B>(msg, encode_counter::<B>(msg)));
    let vals = sign_values::<B>(secrets, steps);
    assert forall|c: int| 0 <= c < V_CHAINS implies #[trigger] chain_tops::<B>(vals, steps)[c]
        == key_chain_tops::<B>(secrets)[c] by {
        assert(steps[c] < W);
        lemma_chain_walk_add::<B>(secrets[c], ((W - 1) - steps[c]) as nat, steps[c] as nat);
    }
    assert(chain_tops::<B>(vals, steps) =~= key_chain_tops::<B>(secrets));
}

/// Deterministic keygen for one one-time key and its authentication path.
/// Secrets, path siblings and path bits are drawn from `Rng(seed)` in that
/// order; the root is the key's leaf climbed along that path.
pub fn keygen<B: Backend>(seed: u64) -> (kp: Keypair)
    ensures
        forall|i: int, j: int|
            0 <= i < V_CHAINS && 0 <= j < 8 ==> #[trigger] kp.secrets[i][j]
                == splitmix_output(seed, (8 * i + j) as nat) as u32,
        forall|l: int, j: int|
            0 <= l < TREE_HEIGHT && 0 <= j < 8 ==> #[trigger] kp.auth_path[l][j]
                == splitmix_output(seed, (8 * V_CHAINS + 8 * l + j) as nat) as u32,
        forall|l: int|
            0 <= l < TREE_HEIGHT ==> #[trigger] kp.path_bits[l] == (splitmix_output(
                seed,
                (8 * (V_CHAINS + TREE_HEIGHT) + l) as nat,
            ) & 1 == 1),
        keypair_wf::<B>(kp),
{
    let mut rng = Rng(seed);
    let mut secrets = [[0u32; 8]; V_CHAINS];
    let mut i: usize = 0;
    while i < V_CHAINS
        invariant
            i <= V_CHAINS,
            rng.0 == splitmix_state_after(seed, (8 * i) as nat),
            forall|k: int, j: int|
                0 <= k < i && 0 <= j < 8 ==> #[trigger] secrets[k][j] == splitmix_output(
                    seed,
                    (8 * k + j) as nat,
                ) as u32,
        decreases V_CHAINS - i,
    {
        let d = rng.digest();
        proof {
            lemma_state_after_add(seed, (8 * i) as nat, 8);
            assert forall|j: int| 0 <= j < 8 implies d[j] == splitmix_output(seed, (8 * i + j) as nat) as u32 by {
                lemma_output_shift(seed, (8 * i) as nat, j as nat);
            }
        }
        secrets[i] = d;
        i = i + 1;
    }

    let mut tops = [[0u32; 8]; V_CHAINS];
    let mut c: usize = 0;
    while c < V_CHAINS
        invariant
            c <= V_CHAINS,
            forall|k: int| 0 <= k < c ==> tops[k] == chain_walk::<B>(secrets[k], (W - 1) as nat),
        decreases V_CHAINS - c,
    {
        tops[c] = walk_chain::<B>(&secrets[c], W - 1);
        c = c + 1;
    }
    assert(tops@ =~= key_chain_tops::<B>(secrets@));
    let leaf = leaf_hash::<B>(&tops);

    let mut auth_path = [[0u32; 8]; TREE_HEIGHT];
    let mut l: usize = 0;
    while l < TREE_HEIGHT
        invariant
            l <= TREE_HEIGHT,
            rng.0 == splitmix_state_after(seed, (8 * V_CHAINS + 8 * l) as nat),
            forall|k: int, j: int|
                0 <= k < l && 0 <= j < 8 ==> #[trigger] auth_path[k][j] == splitmix_output(
                    seed,
                    (8 * V_CHAINS + 8 * k + j) as nat,
                ) as u32,
        decreases TREE_HEIGHT - l,
    {
        let d = rng.digest();
        proof {
            lemma_state_after_add(seed, (8 * V_CHAINS + 8 * l) as nat, 8);
            assert forall|j: int| 0 <= j < 8 implies d[j] == splitmix_output(
                seed,
                (8 * V_CHAINS + 8 * l + j) as nat,
            ) as u32 by {
                lemma_output_shift(seed, (8 * V_CHAINS + 8 * l) as nat, j as nat);
            }
        }
        auth_path[l] = d;
        l = l + 1;
    }

    let mut path_bits = [false; TREE_HEIGHT];
    let mut b: usize = 0;
    while b < TREE_HEIGHT
        invariant
            b <= TREE_HEIGHT,
            rng.0 == splitmix_state_after(seed, (8 * (V_CHAINS + TREE_HEIGHT) + b) as nat),
            forall|k: int|
                0 <= k < b ==> #[trigger] path_bits[k] == (splitmix_output(
                    seed,
                    (8 * (V_CHAINS + TREE_HEIGHT) + k) as nat,
                ) & 1 == 1),
        decreases TREE_HEIGHT - b,
    {
        path_bits[b] = rng.bit();
        b = b + 1;
    }

    let root = climb::<B>(&leaf, &auth_path, &path_bits);
    Keypair { secrets, root, auth_path, path_bits }
}

/// Sign a message: reveal each chain at its message-derived position.
pub fn sign<B: Backend>(kp: &Keypair, msg: &Digest) -> (sig: Signature)
    requires
        encode_converges::<B>(*msg),
    ensures
        sig.chain_values@ == sign_values::<B>(kp.secrets@, encode_steps::<B>(*msg)),
        sig.auth_path == kp.auth_path,
        sig.path_bits == kp.path_bits,
{
    let (steps, _ctr) = encode_message::<B>(msg);
    proof {
        lemma_steps_of_digest_bounded(encode_digest::<B>(*msg, encode_counter::<B>(*msg)));
    }
    let mut chain_values = [[0u32; 8]; V_CHAINS];
    let mut c: usize = 0;
    while c < V_CHAINS
        invariant
            c <= V_CHAINS,
            steps@ == encode_steps::<B>(*msg),
            forall|k: int| 0 <= k < V_CHAINS ==> #[trigger] steps@[k] < W,
            forall|k: int|
                0 <= k < c ==> chain_values[k] == chain_walk::<B>(
                    kp.secrets[k],
                    ((W - 1) - steps[k]) as nat,
                ),
        decreases V_CHAINS - c,
    {
        assert(steps@[c as int] < W);
        chain_values[c] = walk_chain::<B>(&kp.secrets[c], W - 1 - steps[c]);
        c = c + 1;
    }
    assert(chain_values@ =~= sign_values::<B>(kp.secrets@, encode_steps::<B>(*msg)));
    Signature { chain_values, auth_path: kp.auth_path, path_bits: kp.path_bits }
}

/// Reference verification: derive steps from the message, walk the chains to
/// the leaf, climb the path, and compare with `root`.
pub fn verify<B: Backend>(sig: &Signature, msg: &Digest, root: &Digest) -> (r: bool)
    requires
        encode_converges::<B>(*msg),
    ensures
        r == verify_spec::<B>(sig.chain_values@, sig.auth_path@, sig.path_bits@, *msg, *root),
{
    let (steps, _ctr) = encode_message::<B>(msg);
    let leaf = compute_leaf::<B>(sig, &steps);
    let node = climb::<B>(&leaf, &sig.auth_path, &sig.path_bits);
    digest_eq(&node, root)
}

/// Verification accepts exactly one root: the root recomputed from the
/// signature (its chains walked by the message-derived steps to the leaf, the
/// leaf climbed along the authentication path), compared on all eight words.
pub proof fn lemma_verify_exact_root<B: Backend>(
    values: Seq<Digest>,
    auth: Seq<Digest>,
    bits: Seq<bool>,
    msg: Digest,
    root: Digest,
)
    ensures
        verify_spec::<B>(values, auth, bits, msg, root) <==> (forall|j: int|
            0 <= j < 8 ==> #[trigger] root[j] == path_root::<B>(
                compute_leaf_spec::<B>(values, encode_steps::<B>(msg)),
                auth,
                bits,
            )[j]),
        verify_spec::<B>(
            values,
            auth,
            bits,
            msg,
            path_root::<B>(compute_leaf_spec::<B>(values, encode_steps::<B>(msg)), auth, bits),
        ),
{
    let node = path_root::<B>(compute_leaf_spec::<B>(values, encode_steps::<B>(msg)), auth, bits);
    if forall|j: int| 0 <= j < 8 ==> #[trigger] root[j] == node[j] {
        assert(root@ =~= node@);
        assert(root == node);
    }
}

/// A signature verifies for a message against at most one root: two roots it
/// verifies against are equal in every word.
pub proof fn lemma_verify_unique_root<B: Backend>(
    values: Seq<Digest>,
    auth: Seq<Digest>,
    bits: Seq<bool>,
    msg: Digest,
    r1: Digest,
    r2: Digest,
)
    requires
        verify_spec::<B>(values, auth, bits, msg, r1),
        verify_spec::<B>(values, auth, bits, msg, r2),
    ensures
        r1 == r2,
{
    lemma_verify_exact_root::<B>(values, auth, bits, msg, r1);
    lemma_verify_exact_root::<B>(values, auth, bits, msg, r2);
    assert(r1@ =~= r2@);
}

} // verus!
