//! Witness mapping: one XMSS verification as an ordered list of compression
//! instances, plus the wiring that binds each instance's inputs to earlier
//! outputs or to pinned constants.
//!
//! Instance order (per signature):
//!   [chains: one per chain step] [leaf: LEAF_COMPRESSIONS] [path: TREE_HEIGHT]
use vstd::prelude::*;

use crate::backend::{Backend, Digest};
use crate::native::{
    chain_step, chain_step_spec, chain_tops, chain_walk, compute_leaf_spec, leaf_acc, path_climb,
    path_root, steps_sum, Signature, CHAIN_PAD,
};
use crate::params::{LEAF_COMPRESSIONS, TREE_HEIGHT, V_CHAINS};

verus! {

/// How an instance's inputs are bound.
#[derive(Debug, Clone, Copy, PartialEq, Eq, Structural)]
pub enum Wire {
    /// lo = output of instance `prev` (None = public sig value); hi = CHAIN_PAD.
    ChainStep { prev: Option<usize> },
    /// Leaf absorb: h = output of `prev` (None = IV); lo/hi = chain tops
    /// produced by instances `l`, `r` (None = a 0-step chain, whose revealed
    /// value is absorbed directly).
    LeafAbsorb { prev: Option<usize>, l: Option<usize>, r: Option<usize> },
    /// Tree node: one half is the output of `child`, the other the public sibling.
    PathNode { child: usize, right: bool },
}

/// Backend-agnostic record of one compression: `(h, lo, hi)`.
pub type Triple = (Digest, Digest, Digest);

/// Every compression of one verification, with its wiring.
pub struct SigWitness<B: Backend> {
    /// Backend-agnostic values, used by wiring checks.
    pub triples: Vec<Triple>,
    /// Prover-facing instances, one for each triple.
    pub instances: Vec<B::Instance>,
    /// The wiring of each instance.
    pub wires: Vec<Wire>,
    /// The root the witness computes.
    pub computed_root: Digest,
}

/// The prover instances of a list of triples.
pub open spec fn instances_of<B: Backend>(triples: Seq<Triple>) -> Seq<B::Instance> {
    triples.map_values(|t: Triple| B::spec_instance(t.0, t.1, t.2))
}

/// Number of chain-step instances before chain `c`.
pub open spec fn chain_offset(steps: Seq<usize>, c: int) -> int {
    steps_sum(steps.take(c))
}

/// The triple of step `s` of a chain starting at `x`.
pub open spec fn chain_triple<B: Backend>(x: Digest, s: int) -> Triple {
    (B::spec_iv(), chain_walk::<B>(x, s as nat), CHAIN_PAD)
}

/// The wire of step `s` of the chain whose first instance is `off`.
pub open spec fn chain_wire(off: int, s: int) -> Wire {
    Wire::ChainStep { prev: if s == 0 { None } else { Some((off + s - 1) as usize) } }
}

/// Triples of the first `c` chains.
pub open spec fn chain_triples<B: Backend>(values: Seq<Digest>, steps: Seq<usize>, c: nat) -> Seq<
    Triple,
>
    decreases c,
{
    if c == 0 {
        seq![]
    } else {
        chain_triples::<B>(values, steps, (c - 1) as nat) + Seq::new(
            steps[c - 1] as nat,
            |s: int| chain_triple::<B>(values[c - 1], s),
        )
    }
}

/// Wires of the first `c` chains.
pub open spec fn chain_wires(steps: Seq<usize>, c: nat) -> Seq<Wire>
    decreases c,
{
    if c == 0 {
        seq![]
    } else {
        chain_wires(steps, (c - 1) as nat) + Seq::new(
            steps[c - 1] as nat,
            |s: int| chain_wire(chain_offset(steps, c - 1), s),
        )
    }
}

/// The instance producing chain `c`'s top (None for a 0-step chain).
pub open spec fn top_index(steps: Seq<usize>, c: int) -> Option<usize> {
    if steps[c] > 0 {
        Some((chain_offset(steps, c + 1) - 1) as usize)
    } else {
        None
    }
}

/// Leaf triples: the Merkle–Damgård absorbs of the chain tops.
pub open spec fn leaf_triples<B: Backend>(tops: Seq<Digest>) -> Seq<Triple> {
    Seq::new(
        LEAF_COMPRESSIONS as nat,
        |j: int| (leaf_acc::<B>(tops, j as nat), tops[2 * j], tops[2 * j + 1]),
    )
}

/// Leaf wires; `t` is the number of chain-step instances.
pub open spec fn leaf_wires(steps: Seq<usize>, t: int) -> Seq<Wire> {
    Seq::new(
        LEAF_COMPRESSIONS as nat,
        |j: int|
            Wire::LeafAbsorb {
                prev: if j == 0 { None } else { Some((t + j - 1) as usize) },
                l: top_index(steps, 2 * j),
                r: top_index(steps, 2 * j + 1),
            },
    )
}

/// The triple of one path level: the running node and its sibling, ordered.
pub open spec fn path_triple<B: Backend>(node: Digest, sib: Digest, right: bool) -> Triple {
    if right {
        (B::spec_iv(), sib, node)
    } else {
        (B::spec_iv(), node, sib)
    }
}

/// Path triples climbing from `leaf`.
pub open spec fn path_triples<B: Backend>(leaf: Digest, auth: Seq<Digest>, bits: Seq<bool>) -> Seq<
    Triple,
> {
    Seq::new(
        TREE_HEIGHT as nat,
        |l: int| path_triple::<B>(path_climb::<B>(leaf, auth, bits, l as nat), auth[l], bits[l]),
    )
}

/// Path wires; `t` is the number of chain-step instances.
pub open spec fn path_wires(bits: Seq<bool>, t: int) -> Seq<Wire> {
    Seq::new(
        TREE_HEIGHT as nat,
        |l: int| Wire::PathNode { child: (t + LEAF_COMPRESSIONS + l - 1) as usize, right: bits[l] },
    )
}

/// All triples of one verification.
pub open spec fn witness_triples<B: Backend>(
    values: Seq<Digest>,
    steps: Seq<usize>,
    auth: Seq<Digest>,
    bits: Seq<bool>,
) -> Seq<Triple> {
    chain_triples::<B>(values, steps, V_CHAINS as nat) + leaf_triples::<B>(
        chain_tops::<B>(values, steps),
    ) + path_triples::<B>(compute_leaf_spec::<B>(values, steps), auth, bits)
}

/// All wires of one verification.
pub open spec fn witness_wires(steps: Seq<usize>, bits: Seq<bool>) -> Seq<Wire> {
    let t = chain_offset(steps, V_CHAINS as int);
    chain_wires(steps, V_CHAINS as nat) + leaf_wires(steps, t) + path_wires(bits, t)
}

/// Prefix sums grow by one step count at a time.
pub proof fn lemma_chain_offset_step(steps: Seq<usize>, c: int)
    requires
        0 <= c < steps.len(),
    ensures
        chain_offset(steps, c + 1) == chain_offset(steps, c) + steps[c],
{
    assert(steps.take(c + 1).drop_last() =~= steps.take(c));
}

/// Prefix sums are monotone.
pub proof fn lemma_chain_offset_mono(steps: Seq<usize>, a: int, b: int)
    requires
        0 <= a <= b <= steps.len(),
    ensures
        0 <= chain_offset(steps, a) <= chain_offset(steps, b),
    decreases b - a,
{
    if a < b {
        lemma_chain_offset_step(steps, b - 1);
        lemma_chain_offset_mono(steps, a, b - 1);
    } else {
        lemma_chain_offset_nonneg(steps, a);
    }
}

/// Prefix sums are non-negative.
pub proof fn lemma_chain_offset_nonneg(steps: Seq<usize>, a: int)
    requires
        0 <= a <= steps.len(),
    ensures
        0 <= chain_offset(steps, a),
    decreases a,
{
    if a > 0 {
        lemma_chain_offset_step(steps, a - 1);
        lemma_chain_offset_nonneg(steps, a - 1);
    }
}

/// Chain triples and wires have one entry per chain step.
pub proof fn lemma_chain_lens<B: Backend>(values: Seq<Digest>, steps: Seq<usize>, c: nat)
    requires
        c <= steps.len(),
    ensures
        chain_triples::<B>(values, steps, c).len() == chain_offset(steps, c as int),
        chain_wires(steps, c).len() == chain_offset(steps, c as int),
    decreases c,
{
    if c > 0 {
        lemma_chain_lens::<B>(values, steps, (c - 1) as nat);
        lemma_chain_offset_step(steps, c - 1);
    } else {
        assert(steps.take(0) =~= Seq::<usize>::empty());
    }
}

/// Enumerate every compression the verifier performs, recording values and
/// wiring. A pure function of the signature, the per-chain step counts and
/// the backend.
pub fn build_sig_witness<B: Backend>(sig: &Signature, steps: &[usize; V_CHAINS]) -> (w: SigWitness<B>)
    requires
        chain_offset(steps@, V_CHAINS as int) + LEAF_COMPRESSIONS + TREE_HEIGHT <= usize::MAX,
    ensures
        w.triples@ == witness_triples::<B>(
            sig.chain_values@,
            steps@,
            sig.auth_path@,
            sig.path_bits@,
        ),
        w.wires@ == witness_wires(steps@, sig.path_bits@),
        w.instances@ == instances_of::<B>(w.triples@),
        w.computed_root == path_root::<B>(
            compute_leaf_spec::<B>(sig.chain_values@, steps@),
            sig.auth_path@,
            sig.path_bits@,
        ),
{
    let ghost values = sig.chain_values@;
    let ghost st = steps@;
    let ghost total = chain_offset(st, V_CHAINS as int);
    let mut triples: Vec<Triple> = Vec::new();
    let mut wires: Vec<Wire> = Vec::new();
    let iv = B::iv();

    // 1. Winternitz chains (message-derived step counts).
    let mut top_idx: [Option<usize>; V_CHAINS] = [None; V_CHAINS];
    let mut top_val: [Digest; V_CHAINS] = [[0u32; 8]; V_CHAINS];
    let mut c: usize = 0;
    while c < V_CHAINS
        invariant
            c <= V_CHAINS,
            values == sig.chain_values@,
            st == steps@,
            total == chain_offset(st, V_CHAINS as int),
            total + LEAF_COMPRESSIONS + TREE_HEIGHT <= usize::MAX,
            iv == B::spec_iv(),
            triples@ == chain_triples::<B>(values, st, c as nat),
            wires@ == chain_wires(st, c as nat),
            triples@.len() == chain_offset(st, c as int),
            forall|k: int| 0 <= k < c ==> #[trigger] top_idx[k] == top_index(st, k),
            forall|k: int| 0 <= k < c ==> #[trigger] top_val[k] == chain_walk::<B>(values[k], st[k] as nat),
        decreases V_CHAINS - c,
    {
        proof {
            lemma_chain_offset_step(st, c as int);
            lemma_chain_offset_mono(st, c as int + 1, V_CHAINS as int);
        }
        let ghost off = chain_offset(st, c as int);
        let mut x = sig.chain_values[c];
        let mut s: usize = 0;
        while s < steps[c]
            invariant
                c < V_CHAINS,
                s <= steps[c as int],
                values == sig.chain_values@,
                st == steps@,
                iv == B::spec_iv(),
                off == chain_offset(st, c as int),
                off + st[c as int] <= usize::MAX,
                triples@ == chain_triples::<B>(values, st, c as nat) + Seq::new(
                    s as nat,
                    |j: int| chain_triple::<B>(values[c as int], j),
                ),
                wires@ == chain_wires(st, c as nat) + Seq::new(
                    s as nat,
                    |j: int| chain_wire(off, j),
                ),
                triples@.len() == off + s,
                x == chain_walk::<B>(values[c as int], s as nat),
            decreases steps[c as int] - s,
        {
            let ghost prev_t = triples@;
            let ghost prev_w = wires@;
            triples.push((iv, x, CHAIN_PAD));
            let prev = if s == 0 { None } else { Some(triples.len() - 2) };
            wires.push(Wire::ChainStep { prev });
            x = chain_step::<B>(&x);
            s = s + 1;
            assert(triples@ =~= chain_triples::<B>(values, st, c as nat) + Seq::new(
                s as nat,
                |j: int| chain_triple::<B>(values[c as int], j),
            ));
            assert(wires@ =~= chain_wires(st, c as nat) + Seq::new(
                s as nat,
                |j: int| chain_wire(off, j),
            ));
        }
        assert(triples@ =~= chain_triples::<B>(values, st, (c + 1) as nat));
        assert(wires@ =~= chain_wires(st, (c + 1) as nat));
        top_idx[c] = if steps[c] > 0 { Some(triples.len() - 1) } else { None };
        top_val[c] = x;
        c = c + 1;
    }
    proof {
        lemma_chain_lens::<B>(values, st, V_CHAINS as nat);
    }
    assert(top_val@ =~= chain_tops::<B>(values, st));

    // 2. Leaf: Merkle–Damgård over the chain tops (two tops per block).
    let ghost tops = top_val@;
    let ghost chain_t = triples@;
    let ghost chain_w = wires@;
    let mut acc = iv;
    let mut prev_leaf: Option<usize> = None;
    let mut pair: usize = 0;
    while pair < LEAF_COMPRESSIONS
        invariant
            pair <= LEAF_COMPRESSIONS,
            tops == top_val@,
            tops == chain_tops::<B>(values, st),
            iv == B::spec_iv(),
            total == chain_offset(st, V_CHAINS as int),
            total + LEAF_COMPRESSIONS + TREE_HEIGHT <= usize::MAX,
            forall|k: int| 0 <= k < V_CHAINS ==> #[trigger] top_idx[k] == top_index(st, k),
            chain_t.len() == total,
            triples@ == chain_t + leaf_triples::<B>(tops).take(pair as int),
            wires@ == chain_w + leaf_wires(st, total).take(pair as int),
            acc == leaf_acc::<B>(tops, pair as nat),
            prev_leaf == (if pair == 0 { None } else { Some((total + pair - 1) as usize) }),
        decreases LEAF_COMPRESSIONS - pair,
    {
        let li = top_idx[2 * pair];
        let ri = top_idx[2 * pair + 1];
        triples.push((acc, top_val[2 * pair], top_val[2 * pair + 1]));
        acc = B::compress(&acc, &top_val[2 * pair], &top_val[2 * pair + 1]);
        wires.push(Wire::LeafAbsorb { prev: prev_leaf, l: li, r: ri });
        prev_leaf = Some(triples.len() - 1);
        pair = pair + 1;
        assert(triples@ =~= chain_t + leaf_triples::<B>(tops).take(pair as int));
        assert(wires@ =~= chain_w + leaf_wires(st, total).take(pair as int));
    }
    assert(leaf_triples::<B>(tops).take(LEAF_COMPRESSIONS as int) =~= leaf_triples::<B>(tops));
    assert(leaf_wires(st, total).take(LEAF_COMPRESSIONS as int) =~= leaf_wires(st, total));

    // 3. Authentication path.
    let ghost leaf_t = triples@;
    let ghost leaf_w = wires@;
    let ghost leaf = acc;
    assert(leaf == compute_leaf_spec::<B>(values, st));
    let mut node = acc;
    let mut child = triples.len() - 1;
    let mut lvl: usize = 0;
    while lvl < TREE_HEIGHT
        invariant
            lvl <= TREE_HEIGHT,
            iv == B::spec_iv(),
            total + LEAF_COMPRESSIONS + TREE_HEIGHT <= usize::MAX,
            leaf_t.len() == total + LEAF_COMPRESSIONS,
            triples@ == leaf_t + path_triples::<B>(leaf, sig.auth_path@, sig.path_bits@).take(lvl as int),
            wires@ == leaf_w + path_wires(sig.path_bits@, total).take(lvl as int),
            node == path_climb::<B>(leaf, sig.auth_path@, sig.path_bits@, lvl as nat),
            child == total + LEAF_COMPRESSIONS + lvl - 1,
        decreases TREE_HEIGHT - lvl,
    {
        let sib = sig.auth_path[lvl];
        let out = if sig.path_bits[lvl] {
            triples.push((iv, sib, node));
            B::compress(&iv, &sib, &node)
        } else {
            triples.push((iv, node, sib));
            B::compress(&iv, &node, &sib)
        };
        wires.push(Wire::PathNode { child, right: sig.path_bits[lvl] });
        node = out;
        child = triples.len() - 1;
        lvl = lvl + 1;
        assert(triples@ =~= leaf_t + path_triples::<B>(leaf, sig.auth_path@, sig.path_bits@).take(lvl as int));
        assert(wires@ =~= leaf_w + path_wires(sig.path_bits@, total).take(lvl as int));
    }
    assert(path_triples::<B>(leaf, sig.auth_path@, sig.path_bits@).take(TREE_HEIGHT as int)
        =~= path_triples::<B>(leaf, sig.auth_path@, sig.path_bits@));
    assert(path_wires(sig.path_bits@, total).take(TREE_HEIGHT as int) =~= path_wires(sig.path_bits@, total));
    assert(triples@ =~= witness_triples::<B>(values, st, sig.auth_path@, sig.path_bits@));
    assert(wires@ =~= witness_wires(st, sig.path_bits@));

    let mut instances: Vec<B::Instance> = Vec::new();
    let mut k: usize = 0;
    while k < triples.len()
        invariant
            k <= triples@.len(),
            instances@.len() == k,
            forall|i: int|
                0 <= i < k ==> #[trigger] instances@[i] == B::spec_instance(
                    triples@[i].0,
                    triples@[i].1,
                    triples@[i].2,
                ),
        decreases triples@.len() - k,
    {
        let (h, lo, hi) = triples[k];
        instances.push(B::instance(&h, &lo, &hi));
        k = k + 1;
    }
    assert(instances@ =~= instances_of::<B>(triples@));
    SigWitness { triples, instances, wires, computed_root: node }
}

/// The root computed by the witness of one signature.
pub open spec fn witness_root<B: Backend>(sig: Signature, steps: Seq<usize>) -> Digest {
    path_root::<B>(compute_leaf_spec::<B>(sig.chain_values@, steps), sig.auth_path@, sig.path_bits@)
}

/// The prover instances of the witnesses of the first `n` signatures, in order.
pub open spec fn batch_instances<B: Backend>(
    sigs: Seq<Signature>,
    steps: Seq<[usize; V_CHAINS]>,
    n: nat,
) -> Seq<B::Instance>
    decreases n,
{
    if n == 0 {
        seq![]
    } else {
        batch_instances::<B>(sigs, steps, (n - 1) as nat) + instances_of::<B>(
            witness_triples::<B>(
                sigs[n - 1].chain_values@,
                steps[n - 1]@,
                sigs[n - 1].auth_path@,
                sigs[n - 1].path_bits@,
            ),
        )
    }
}

/// The chain-step count of every step table fits a witness in a `usize`.
pub open spec fn batch_fits(steps: Seq<[usize; V_CHAINS]>) -> bool {
    forall|k: int|
        0 <= k < steps.len() ==> chain_offset(#[trigger] steps[k]@, V_CHAINS as int)
            + LEAF_COMPRESSIONS + TREE_HEIGHT <= usize::MAX
}

/// Witnesses of several signatures: their instances concatenated in order,
/// and the root each witness computes.
pub fn build_batch_witness<B: Backend>(sigs: &[Signature], steps: &[[usize; V_CHAINS]]) -> (r: (
    Vec<B::Instance>,
    Vec<Digest>,
))
    requires
        sigs@.len() == steps@.len(),
        batch_fits(steps@),
    ensures
        r.0@ == batch_instances::<B>(sigs@, steps@, sigs@.len()),
        r.1@.len() == sigs@.len(),
        forall|k: int| 0 <= k < sigs@.len() ==> #[trigger] r.1@[k] == witness_root::<B>(sigs@[k], steps@[k]@),
{
    let mut instances: Vec<B::Instance> = Vec::new();
    let mut roots: Vec<Digest> = Vec::new();
    let mut k: usize = 0;
    while k < sigs.len()
        invariant
            k <= sigs@.len(),
            sigs@.len() == steps@.len(),
            batch_fits(steps@),
            instances@ == batch_instances::<B>(sigs@, steps@, k as nat),
            roots@.len() == k,
            forall|j: int| 0 <= j < k ==> #[trigger] roots@[j] == witness_root::<B>(sigs@[j], steps@[j]@),
        decreases sigs@.len() - k,
    {
        assert(chain_offset(steps@[k as int]@, V_CHAINS as int) + LEAF_COMPRESSIONS + TREE_HEIGHT <= usize::MAX);
        let mut w = build_sig_witness::<B>(&sigs[k], &steps[k]);
        roots.push(w.computed_root);
        instances.append(&mut w.instances);
        k = k + 1;
    }
    (instances, roots)
}

/// The output of one compression triple.
pub open spec fn triple_out<B: Backend>(t: Triple) -> Digest {
    B::spec_compress(t.0, t.1, t.2)
}

/// Instance `p` exists and its output is `v`.
pub open spec fn linked<B: Backend>(triples: Seq<Triple>, p: usize, v: Digest) -> bool {
    p < triples.len() && v == triple_out::<B>(triples[p as int])
}

/// The wiring invariant of instance `i` holds value-wise.
pub open spec fn wire_holds<B: Backend>(triples: Seq<Triple>, i: int, wire: Wire) -> bool {
    let t = triples[i];
    match wire {
        Wire::ChainStep { prev } => {
            &&& t.0 == B::spec_iv()
            &&& t.2 == CHAIN_PAD
            &&& (prev matches Some(p) ==> linked::<B>(triples, p, t.1))
        },
        Wire::LeafAbsorb { prev, l, r } => {
            &&& (match prev {
                None => t.0 == B::spec_iv(),
                Some(p) => linked::<B>(triples, p, t.0),
            })
            &&& (l matches Some(x) ==> linked::<B>(triples, x, t.1))
            &&& (r matches Some(y) ==> linked::<B>(triples, y, t.2))
        },
        Wire::PathNode { child, right } => {
            &&& t.0 == B::spec_iv()
            &&& linked::<B>(triples, child, if right { t.2 } else { t.1 })
        },
    }
}

/// The replay succeeds: there is a last instance, every wire has its
/// instance, and every wiring invariant holds.
pub open spec fn replay_ok<B: Backend>(triples: Seq<Triple>, wires: Seq<Wire>) -> bool {
    &&& 0 < triples.len()
    &&& wires.len() <= triples.len()
    &&& forall|i: int| 0 <= i < wires.len() ==> #[trigger] wire_holds::<B>(triples, i, wires[i])
}

/// Output of instance `p` if it exists and equals `v`.
fn check_link<B: Backend>(outs: &Vec<Digest>, p: usize, v: &Digest) -> (r: bool)
    ensures
        r == (p < outs@.len() && *v == outs@[p as int]),
{
    if p < outs.len() {
        crate::native::digest_eq(v, &outs[p])
    } else {
        false
    }
}

/// Independent replay: recompute every output from its own triple and check
/// that the wiring invariants hold value-wise. The replay succeeds exactly on
/// the witnesses `replay_and_check` accepts; this checks first and returns
/// the root (the last output) if every check passes, `None` where a wiring
/// invariant fails, a wire has no instance, a link points past the last
/// instance, or there are no instances.
pub fn try_replay_and_check<B: Backend>(w: &SigWitness<B>) -> (r: Option<Digest>)
    ensures
        r matches Some(d) ==> d == B::spec_compress(
            w.triples@.last().0,
            w.triples@.last().1,
            w.triples@.last().2,
        ),
        r == (if replay_ok::<B>(w.triples@, w.wires@) {
            Some(triple_out::<B>(w.triples@.last()))
        } else {
            None
        }),
{
    let ghost ts = w.triples@;
    let mut outs: Vec<Digest> = Vec::new();
    let mut k: usize = 0;
    while k < w.triples.len()
        invariant
            ts == w.triples@,
            k <= ts.len(),
            outs@.len() == k,
            forall|i: int| 0 <= i < k ==> #[trigger] outs@[i] == triple_out::<B>(ts[i]),
        decreases ts.len() - k,
    {
        let (h, lo, hi) = w.triples[k];
        outs.push(B::compress(&h, &lo, &hi));
        k = k + 1;
    }
    let iv = B::iv();
    if w.wires.len() > w.triples.len() {
        proof {
            assert(!replay_ok::<B>(ts, w.wires@));
        }
        return None;
    }
    let mut i: usize = 0;
    while i < w.wires.len()
        invariant
            ts == w.triples@,
            outs@.len() == ts.len(),
            forall|j: int| 0 <= j < ts.len() ==> #[trigger] outs@[j] == triple_out::<B>(ts[j]),
            w.wires@.len() <= ts.len(),
            i <= w.wires@.len(),
            iv == B::spec_iv(),
            forall|j: int| 0 <= j < i ==> #[trigger] wire_holds::<B>(ts, j, w.wires@[j]),
        decreases w.wires@.len() - i,
    {
        let (h, lo, hi) = w.triples[i];
        let ok = match w.wires[i] {
            Wire::ChainStep { prev } => {
                crate::native::digest_eq(&h, &iv) && crate::native::digest_eq(&hi, &CHAIN_PAD)
                    && match prev {
                    Some(p) => check_link::<B>(&outs, p, &lo),
                    None => true,
                }
            },
            Wire::LeafAbsorb { prev, l, r } => {
                (match prev {
                    None => crate::native::digest_eq(&h, &iv),
                    Some(p) => check_link::<B>(&outs, p, &h),
                }) && (match l {
                    Some(x) => check_link::<B>(&outs, x, &lo),
                    None => true,
                }) && (match r {
                    Some(y) => check_link::<B>(&outs, y, &hi),
                    None => true,
                })
            },
            Wire::PathNode { child, right } => {
                let half = if right { hi } else { lo };
                crate::native::digest_eq(&h, &iv) && check_link::<B>(&outs, child, &half)
            },
        };
        if !ok {
            proof {
                assert(!wire_holds::<B>(ts, i as int, w.wires@[i as int]));
                assert(!replay_ok::<B>(ts, w.wires@));
            }
            return None;
        }
        i = i + 1;
    }
    if w.triples.len() == 0 {
        return None;
    }
    Some(outs[w.triples.len() - 1])
}

/// What a successful replay means, instance by instance: a witness replays
/// exactly when it has an instance, every wire has its instance, and for each
/// wire `i` with triple `(h, lo, hi)`:
/// - a chain step has `h` the IV, `hi` the chain pad, and `lo` the output of
///   its previous step, if it has one;
/// - a leaf absorb has `h` the IV (first absorb) or the output of the previous
///   absorb, and `lo` / `hi` the outputs of the chain tops it names;
/// - a path node has `h` the IV and its running-hash half (`hi` for a right
///   child, `lo` otherwise) the output of its child instance.
/// Every linked instance exists; an output is the compression of its triple.
pub proof fn lemma_replay_ok_means<B: Backend>(ts: Seq<Triple>, ws: Seq<Wire>)
    ensures
        replay_ok::<B>(ts, ws) <==> {
            &&& 0 < ts.len()
            &&& ws.len() <= ts.len()
            &&& forall|i: int|
                0 <= i < ws.len() ==> match #[trigger] ws[i] {
                    Wire::ChainStep { prev } => {
                        &&& ts[i].0 == B::spec_iv()
                        &&& ts[i].2 == CHAIN_PAD
                        &&& (prev matches Some(p) ==> p < ts.len() && ts[i].1 == B::spec_compress(
                            ts[p as int].0,
                            ts[p as int].1,
                            ts[p as int].2,
                        ))
                    },
                    Wire::LeafAbsorb { prev, l, r } => {
                        &&& (prev is None ==> ts[i].0 == B::spec_iv())
                        &&& (prev matches Some(p) ==> p < ts.len() && ts[i].0 == B::spec_compress(
                            ts[p as int].0,
                            ts[p as int].1,
                            ts[p as int].2,
                        ))
                        &&& (l matches Some(x) ==> x < ts.len() && ts[i].1 == B::spec_compress(
                            ts[x as int].0,
                            ts[x as int].1,
                            ts[x as int].2,
                        ))
                        &&& (r matches Some(y) ==> y < ts.len() && ts[i].2 == B::spec_compress(
                            ts[y as int].0,
                            ts[y as int].1,
                            ts[y as int].2,
                        ))
                    },
                    Wire::PathNode { child, right } => {
                        &&& ts[i].0 == B::spec_iv()
                        &&& child < ts.len()
                        &&& (if right { ts[i].2 } else { ts[i].1 }) == B::spec_compress(
                            ts[child as int].0,
                            ts[child as int].1,
                            ts[child as int].2,
                        )
                    },
                }
        },
{
    assert forall|i: int| 0 <= i < ws.len() implies wire_holds::<B>(ts, i, ws[i]) == (match ws[i] {
        Wire::ChainStep { prev } => {
            &&& ts[i].0 == B::spec_iv()
            &&& ts[i].2 == CHAIN_PAD
            &&& (prev matches Some(p) ==> p < ts.len() && ts[i].1 == B::spec_compress(
                ts[p as int].0,
                ts[p as int].1,
                ts[p as int].2,
            ))
        },
        Wire::LeafAbsorb { prev, l, r } => {
            &&& (prev is None ==> ts[i].0 == B::spec_iv())
            &&& (prev matches Some(p) ==> p < ts.len() && ts[i].0 == B::spec_compress(
                ts[p as int].0,
                ts[p as int].1,
                ts[p as int].2,
            ))
            &&& (l matches Some(x) ==> x < ts.len() && ts[i].1 == B::spec_compress(
                ts[x as int].0,
                ts[x as int].1,
                ts[x as int].2,
            ))
            &&& (r matches Some(y) ==> y < ts.len() && ts[i].2 == B::spec_compress(
                ts[y as int].0,
                ts[y as int].1,
                ts[y as int].2,
            ))
        },
        Wire::PathNode { child, right } => {
            &&& ts[i].0 == B::spec_iv()
            &&& child < ts.len()
            &&& (if right { ts[i].2 } else { ts[i].1 }) == B::spec_compress(
                ts[child as int].0,
                ts[child as int].1,
                ts[child as int].2,
            )
        },
    }) by {
        match ws[i] {
            Wire::ChainStep { prev } => {},
            Wire::LeafAbsorb { prev, l, r } => {},
            Wire::PathNode { child, right } => {},
        }
    }
}

/// Independent replay: recompute every output from its own triple and confirm
/// the wiring invariants hold value-wise. Returns the root, the last output.
/// Defined on witnesses whose wiring invariants all hold; a tampered witness
/// does not replay (`try_replay_and_check` tells the two apart).
pub fn replay_and_check<B: Backend>(w: &SigWitness<B>) -> (r: Digest)
    requires
        replay_ok::<B>(w.triples@, w.wires@),
    ensures
        r == triple_out::<B>(w.triples@.last()),
        r == B::spec_compress(w.triples@.last().0, w.triples@.last().1, w.triples@.last().2),
{
    try_replay_and_check::<B>(w).unwrap()
}

/// Step `s` of chain `c` sits at index `chain_offset(c) + s` of the chain
/// triples and wires of every longer prefix.
pub proof fn lemma_chain_index<B: Backend>(
    values: Seq<Digest>,
    steps: Seq<usize>,
    n: nat,
    c: int,
    s: int,
)
    requires
        n <= steps.len(),
        0 <= c < n,
        0 <= s < steps[c],
    ensures
        chain_triples::<B>(values, steps, n)[chain_offset(steps, c) + s] == chain_triple::<B>(
            values[c],
            s,
        ),
        chain_wires(steps, n)[chain_offset(steps, c) + s] == chain_wire(chain_offset(steps, c), s),
    decreases n,
{
    lemma_chain_lens::<B>(values, steps, (n - 1) as nat);
    lemma_chain_offset_nonneg(steps, c);
    let prev_t = chain_triples::<B>(values, steps, (n - 1) as nat);
    let prev_w = chain_wires(steps, (n - 1) as nat);
    let new_t = Seq::new(steps[n - 1] as nat, |j: int| chain_triple::<B>(values[n - 1], j));
    let new_w = Seq::new(steps[n - 1] as nat, |j: int| chain_wire(chain_offset(steps, n - 1), j));
    assert(chain_triples::<B>(values, steps, n) == prev_t + new_t);
    assert(chain_wires(steps, n) == prev_w + new_w);
    if c < n - 1 {
        lemma_chain_index::<B>(values, steps, (n - 1) as nat, c, s);
        lemma_chain_offset_step(steps, c);
        lemma_chain_offset_mono(steps, c + 1, n - 1);
    } else {
        assert(new_w[s] == chain_wire(chain_offset(steps, c), s));
    }
}

/// Every index of the chain part is step `s` of some chain `c`.
pub proof fn lemma_chain_locate<B: Backend>(values: Seq<Digest>, steps: Seq<usize>, n: nat, i: int) -> (cs: (
    int,
    int,
))
    requires
        n <= steps.len(),
        0 <= i < chain_offset(steps, n as int),
    ensures
        0 <= cs.0 < n,
        0 <= cs.1 < steps[cs.0],
        i == chain_offset(steps, cs.0) + cs.1,
    decreases n,
{
    if n == 0 {
        assert(steps.take(0) =~= Seq::<usize>::empty());
        (0, 0)
    } else {
        lemma_chain_offset_step(steps, n - 1);
        if i < chain_offset(steps, n - 1) {
            lemma_chain_locate::<B>(values, steps, (n - 1) as nat, i)
        } else {
            (n - 1, i - chain_offset(steps, n - 1))
        }
    }
}

/// The witness's last leaf absorb outputs the leaf the native `compute_leaf`
/// recomputes, and its last path level outputs the root the native verifier
/// compares.
pub proof fn lemma_witness_matches_native<B: Backend>(
    values: Seq<Digest>,
    steps: Seq<usize>,
    auth: Seq<Digest>,
    bits: Seq<bool>,
)
    requires
        values.len() == V_CHAINS,
        steps.len() == V_CHAINS,
        auth.len() == TREE_HEIGHT,
        bits.len() == TREE_HEIGHT,
    ensures
        triple_out::<B>(
            witness_triples::<B>(values, steps, auth, bits)[chain_offset(steps, V_CHAINS as int)
                + LEAF_COMPRESSIONS - 1],
        ) == compute_leaf_spec::<B>(values, steps),
        triple_out::<B>(witness_triples::<B>(values, steps, auth, bits).last()) == path_root::<B>(
            compute_leaf_spec::<B>(values, steps),
            auth,
            bits,
        ),
{
    let ts = witness_triples::<B>(values, steps, auth, bits);
    let t = chain_offset(steps, V_CHAINS as int);
    let tops = chain_tops::<B>(values, steps);
    let leaf = compute_leaf_spec::<B>(values, steps);
    lemma_chain_lens::<B>(values, steps, V_CHAINS as nat);
    lemma_chain_offset_nonneg(steps, V_CHAINS as int);
    assert(ts[t + LEAF_COMPRESSIONS - 1] == leaf_triples::<B>(tops)[LEAF_COMPRESSIONS - 1]);
    assert(ts.last() == path_triples::<B>(leaf, auth, bits)[TREE_HEIGHT - 1]);
}

/// The witness of a verification replays: every wiring invariant holds, and
/// the last output is the root the verifier computes.
pub proof fn lemma_witness_replays<B: Backend>(
    values: Seq<Digest>,
    steps: Seq<usize>,
    auth: Seq<Digest>,
    bits: Seq<bool>,
)
    requires
        values.len() == V_CHAINS,
        steps.len() == V_CHAINS,
        auth.len() == TREE_HEIGHT,
        bits.len() == TREE_HEIGHT,
        chain_offset(steps, V_CHAINS as int) + LEAF_COMPRESSIONS + TREE_HEIGHT <= usize::MAX,
    ensures
        replay_ok::<B>(witness_triples::<B>(values, steps, auth, bits), witness_wires(steps, bits)),
        triple_out::<B>(witness_triples::<B>(values, steps, auth, bits).last()) == path_root::<B>(
            compute_leaf_spec::<B>(values, steps),
            auth,
            bits,
        ),
{
    let ts = witness_triples::<B>(values, steps, auth, bits);
    let ws = witness_wires(steps, bits);
    let t = chain_offset(steps, V_CHAINS as int);
    let tops = chain_tops::<B>(values, steps);
    let leaf = compute_leaf_spec::<B>(values, steps);
    let ct = chain_triples::<B>(values, steps, V_CHAINS as nat);
    let cw = chain_wires(steps, V_CHAINS as nat);
    lemma_chain_lens::<B>(values, steps, V_CHAINS as nat);
    lemma_chain_offset_nonneg(steps, V_CHAINS as int);
    assert(ts.len() == t + LEAF_COMPRESSIONS + TREE_HEIGHT);
    assert(ws.len() == ts.len());
    assert forall|i: int| 0 <= i < ws.len() implies #[trigger] wire_holds::<B>(ts, i, ws[i]) by {
        if i < t {
            let (c, s) = lemma_chain_locate::<B>(values, steps, V_CHAINS as nat, i);
            lemma_chain_offset_nonneg(steps, c);
            lemma_chain_index::<B>(values, steps, V_CHAINS as nat, c, s);
            assert(ts[i] == ct[i]);
            assert(ws[i] == cw[i]);
            if s > 0 {
                lemma_chain_index::<B>(values, steps, V_CHAINS as nat, c, s - 1);
                assert(ts[i - 1] == ct[i - 1]);
                assert(chain_walk::<B>(values[c], s as nat) == chain_step_spec::<B>(
                    chain_walk::<B>(values[c], (s - 1) as nat),
                ));
            }
            assert(wire_holds::<B>(ts, i, ws[i]));
        } else if i < t + LEAF_COMPRESSIONS {
            let j = i - t;
            assert(ts[i] == leaf_triples::<B>(tops)[j]);
            assert(ws[i] == leaf_wires(steps, t)[j]);
            if j > 0 {
                assert(ts[i - 1] == leaf_triples::<B>(tops)[j - 1]);
            }
            if steps[2 * j] > 0 {
                lemma_chain_offset_nonneg(steps, 2 * j);
                lemma_chain_offset_step(steps, 2 * j);
                lemma_chain_offset_mono(steps, 2 * j + 1, V_CHAINS as int);
                lemma_chain_index::<B>(values, steps, V_CHAINS as nat, 2 * j, steps[2 * j] - 1);
                let x = chain_offset(steps, 2 * j + 1) - 1;
                assert(ts[x] == ct[x]);
                assert(chain_walk::<B>(values[2 * j], steps[2 * j] as nat) == chain_step_spec::<B>(
                    chain_walk::<B>(values[2 * j], (steps[2 * j] - 1) as nat),
                ));
            }
            if steps[2 * j + 1] > 0 {
                lemma_chain_offset_nonneg(steps, 2 * j + 1);
                lemma_chain_offset_step(steps, 2 * j + 1);
                lemma_chain_offset_mono(steps, 2 * j + 2, V_CHAINS as int);
                lemma_chain_index::<B>(values, steps, V_CHAINS as nat, 2 * j + 1, steps[2 * j + 1] - 1);
                let y = chain_offset(steps, 2 * j + 2) - 1;
                assert(ts[y] == ct[y]);
                assert(chain_walk::<B>(values[2 * j + 1], steps[2 * j + 1] as nat)
                    == chain_step_spec::<B>(
                    chain_walk::<B>(values[2 * j + 1], (steps[2 * j + 1] - 1) as nat),
                ));
            }
            assert(wire_holds::<B>(ts, i, ws[i]));
        } else {
            let l = i - t - LEAF_COMPRESSIONS;
            assert(ts[i] == path_triples::<B>(leaf, auth, bits)[l]);
            assert(ws[i] == path_wires(bits, t)[l]);
            if l > 0 {
                assert(ts[i - 1] == path_triples::<B>(leaf, auth, bits)[l - 1]);
            } else {
                assert(ts[i - 1] == leaf_triples::<B>(tops)[LEAF_COMPRESSIONS - 1]);
            }
            assert(wire_holds::<B>(ts, i, ws[i]));
        }
    }
    assert(ts.last() == path_triples::<B>(leaf, auth, bits)[TREE_HEIGHT - 1]);
}

} // verus!
