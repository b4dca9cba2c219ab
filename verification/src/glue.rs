//! Wiring specification for the linkage glue.
//!
//! Every wiring constraint between compression instances becomes one scalar
//! equation over per-instance slot values:
//!
//!   Link:  slot `xs` of instance `xi` equals slot `ys` of instance `yi`
//!   Pin:   slot `xs` of instance `xi` equals a constant (IV, CHAIN_PAD, domain)
//!   Root:  the OUT slot of instance `xi` equals the public root of `sig`
//!
//! Instances of signature `k` start at `k * COMPRESSIONS_PER_SIG`.
use vstd::prelude::*;

use crate::backend::{Backend, Digest};
use crate::native::{
    chain_step_spec, chain_tops, chain_walk, compute_leaf_spec, encode_steps, leaf_acc,
    path_climb, path_root, path_step, verify_spec, Signature, CHAIN_PAD,
};
use crate::params::{COMPRESSIONS_PER_SIG, LEAF_COMPRESSIONS, TARGET_SUM, TREE_HEIGHT, V_CHAINS};
use crate::witness::{
    chain_offset, chain_wire, chain_wires, lemma_chain_index, lemma_chain_lens,
    lemma_chain_offset_mono, lemma_chain_offset_nonneg, lemma_chain_offset_step,
    lemma_witness_replays, leaf_wires, path_wires, top_index, triple_out, wire_holds,
    witness_root, witness_triples, witness_wires, Triple, Wire, batch_instances, instances_of,
};

verus! {

/// Slot of the chaining input.
pub const SLOT_H: usize = 0;

/// Slot of the output.
pub const SLOT_OUT: usize = 1;

/// Slot of the low message half.
pub const SLOT_LO: usize = 2;

/// Slot of the high message half.
pub const SLOT_HI: usize = 3;

/// Slot of the BLAKE3 domain words (counter, block length, flags).
pub const SLOT_DOMAIN: usize = 4;

/// Placeholder slot for path links, resolved by the public path bit.
pub const SLOT_BY_PATH_BIT: usize = usize::MAX;

/// Constant pinned by a `Pin`: the IV.
pub const KONST_IV: usize = 0;

/// Constant pinned by a `Pin`: the chain pad.
pub const KONST_PAD: usize = 1;

/// Constant pinned by a `Pin`: the BLAKE3 domain.
pub const KONST_DOMAIN: usize = 2;

/// One wiring equation.
#[derive(Clone, Copy, Debug)]
pub enum Eq {
    Link { xs: usize, xi: usize, ys: usize, yi: usize },
    Pin { xs: usize, xi: usize, konst: usize },
    Root { xi: usize, sig: usize },
}

/// Link: slot `xs` of `xi` equals the OUT slot of `yi`.
pub open spec fn link_out(xs: usize, xi: int, yi: int) -> Eq {
    Eq::Link { xs, xi: xi as usize, ys: SLOT_OUT, yi: yi as usize }
}

/// Pin: slot `xs` of `xi` equals constant `konst`.
pub open spec fn pin(xs: usize, xi: int, konst: usize) -> Eq {
    Eq::Pin { xs, xi: xi as usize, konst }
}

/// Equations of chain step `s`, at instance `idx`.
pub open spec fn step_eqs(idx: int, s: int) -> Seq<Eq> {
    (if s > 0 {
        seq![link_out(SLOT_LO, idx, idx - 1)]
    } else {
        seq![]
    }) + seq![pin(SLOT_HI, idx, KONST_PAD), pin(SLOT_H, idx, KONST_IV)]
}

/// Equations of the first `n` steps of a chain starting at instance `start`.
pub open spec fn chain_eqs(start: int, n: nat) -> Seq<Eq>
    decreases n,
{
    if n == 0 {
        seq![]
    } else {
        chain_eqs(start, (n - 1) as nat) + step_eqs(start + n - 1, n - 1)
    }
}

/// Equations of the first `c` chains of a signature starting at `base`.
pub open spec fn chains_eqs(base: int, steps: Seq<usize>, c: nat) -> Seq<Eq>
    decreases c,
{
    if c == 0 {
        seq![]
    } else {
        chains_eqs(base, steps, (c - 1) as nat) + chain_eqs(
            base + chain_offset(steps, c - 1),
            steps[c - 1] as nat,
        )
    }
}

/// The instance producing chain `c`'s top, if the chain has steps.
pub open spec fn top_instance(base: int, steps: Seq<usize>, c: int) -> Option<usize> {
    if steps[c] > 0 {
        Some((base + chain_offset(steps, c + 1) - 1) as usize)
    } else {
        None
    }
}

/// Equations binding slot `xs` of `idx` to a chain top, if it has one.
pub open spec fn top_eqs(xs: usize, idx: int, top: Option<usize>) -> Seq<Eq> {
    match top {
        Some(t) => seq![Eq::Link { xs, xi: idx as usize, ys: SLOT_OUT, yi: t }],
        None => seq![],
    }
}

/// Equations of leaf absorb `j` of a signature starting at `base`.
pub open spec fn leaf_block_eqs(base: int, steps: Seq<usize>, j: int) -> Seq<Eq> {
    let idx = base + chain_offset(steps, V_CHAINS as int) + j;
    (if j == 0 {
        seq![pin(SLOT_H, idx, KONST_IV)]
    } else {
        seq![link_out(SLOT_H, idx, idx - 1)]
    }) + top_eqs(SLOT_LO, idx, top_instance(base, steps, 2 * j)) + top_eqs(
        SLOT_HI,
        idx,
        top_instance(base, steps, 2 * j + 1),
    )
}

/// Equations of the first `n` leaf absorbs.
pub open spec fn leaf_eqs(base: int, steps: Seq<usize>, n: nat) -> Seq<Eq>
    decreases n,
{
    if n == 0 {
        seq![]
    } else {
        leaf_eqs(base, steps, (n - 1) as nat) + leaf_block_eqs(base, steps, n - 1)
    }
}

/// Equations of the path level at instance `idx`. `routed` adds the link of
/// the running hash into the half chosen by the public path bit.
pub open spec fn path_block_eqs(idx: int, routed: bool) -> Seq<Eq> {
    if routed {
        seq![pin(SLOT_H, idx, KONST_IV), link_out(SLOT_BY_PATH_BIT, idx, idx - 1)]
    } else {
        seq![pin(SLOT_H, idx, KONST_IV)]
    }
}

/// Equations of the first `n` path levels, the first at instance `start`.
pub open spec fn path_eqs(start: int, n: nat, routed: bool) -> Seq<Eq>
    decreases n,
{
    if n == 0 {
        seq![]
    } else {
        path_eqs(start, (n - 1) as nat, routed) + path_block_eqs(start + n - 1, routed)
    }
}

/// All equations of signature `sig`.
pub open spec fn sig_eqs(sig: int, steps: Seq<usize>, routed: bool) -> Seq<Eq> {
    let base = sig * COMPRESSIONS_PER_SIG;
    let t = chain_offset(steps, V_CHAINS as int);
    chains_eqs(base, steps, V_CHAINS as nat) + leaf_eqs(base, steps, LEAF_COMPRESSIONS as nat)
        + path_eqs(base + t + LEAF_COMPRESSIONS, TREE_HEIGHT as nat, routed) + seq![
        Eq::Root {
            xi: (base + t + LEAF_COMPRESSIONS + TREE_HEIGHT - 1) as usize,
            sig: sig as usize,
        },
    ]
}

/// Equations of the first `n` signatures.
pub open spec fn sigs_eqs(steps_per_sig: Seq<[usize; V_CHAINS]>, n: nat, routed: bool) -> Seq<Eq>
    decreases n,
{
    if n == 0 {
        seq![]
    } else {
        sigs_eqs(steps_per_sig, (n - 1) as nat, routed) + sig_eqs(
            n - 1,
            steps_per_sig[n - 1]@,
            routed,
        )
    }
}

/// Every instance index of the wiring fits in a `usize`.
pub open spec fn wiring_fits(steps_per_sig: Seq<[usize; V_CHAINS]>) -> bool {
    forall|k: int|
        0 <= k < steps_per_sig.len() ==> k * COMPRESSIONS_PER_SIG + chain_offset(
            #[trigger] steps_per_sig[k]@,
            V_CHAINS as int,
        ) + LEAF_COMPRESSIONS + TREE_HEIGHT <= usize::MAX
}

/// Append the equations of signature `sig`.
pub fn push_sig_eqs(eqs: &mut Vec<Eq>, sig: usize, steps: &[usize; V_CHAINS], routed: bool)
    requires
        sig * COMPRESSIONS_PER_SIG + chain_offset(steps@, V_CHAINS as int) + LEAF_COMPRESSIONS
            + TREE_HEIGHT <= usize::MAX,
    ensures
        final(eqs)@ == old(eqs)@ + sig_eqs(sig as int, steps@, routed),
{
    let ghost st = steps@;
    let ghost start = eqs@;
    let ghost total = chain_offset(st, V_CHAINS as int);
    proof {
        lemma_chain_offset_nonneg(st, V_CHAINS as int);
    }
    let base = sig * COMPRESSIONS_PER_SIG;
    let mut idx = base;
    let mut top_idx: [Option<usize>; V_CHAINS] = [None; V_CHAINS];
    let mut c: usize = 0;
    while c < V_CHAINS
        invariant
            c <= V_CHAINS,
            st == steps@,
            total == chain_offset(st, V_CHAINS as int),
            base == sig * COMPRESSIONS_PER_SIG,
            base + total + LEAF_COMPRESSIONS + TREE_HEIGHT <= usize::MAX,
            idx == base + chain_offset(st, c as int),
            eqs@ == start + chains_eqs(base as int, st, c as nat),
            forall|k: int| 0 <= k < c ==> #[trigger] top_idx[k] == top_instance(base as int, st, k),
        decreases V_CHAINS - c,
    {
        proof {
            lemma_chain_offset_step(st, c as int);
            lemma_chain_offset_mono(st, c as int + 1, V_CHAINS as int);
            lemma_chain_offset_nonneg(st, c as int);
        }
        let ghost chain_start = idx as int;
        let ghost before = eqs@;
        let mut s: usize = 0;
        while s < steps[c]
            invariant
                c < V_CHAINS,
                s <= steps[c as int],
                st == steps@,
                chain_start + st[c as int] <= usize::MAX,
                chain_start >= 0,
                idx == chain_start + s,
                eqs@ == before + chain_eqs(chain_start, s as nat),
            decreases steps[c as int] - s,
        {
            if s > 0 {
                eqs.push(Eq::Link { xs: SLOT_LO, xi: idx, ys: SLOT_OUT, yi: idx - 1 });
            }
            eqs.push(Eq::Pin { xs: SLOT_HI, xi: idx, konst: KONST_PAD });
            eqs.push(Eq::Pin { xs: SLOT_H, xi: idx, konst: KONST_IV });
            idx = idx + 1;
            s = s + 1;
            assert(eqs@ =~= before + chain_eqs(chain_start, s as nat));
        }
        top_idx[c] = if steps[c] > 0 { Some(idx - 1) } else { None };
        c = c + 1;
        assert(eqs@ =~= start + chains_eqs(base as int, st, c as nat));
    }

    let ghost leaf_start = eqs@;
    let mut j: usize = 0;
    while j < LEAF_COMPRESSIONS
        invariant
            j <= LEAF_COMPRESSIONS,
            st == steps@,
            total == chain_offset(st, V_CHAINS as int),
            base == sig * COMPRESSIONS_PER_SIG,
            base + total + LEAF_COMPRESSIONS + TREE_HEIGHT <= usize::MAX,
            total >= 0,
            idx == base + total + j,
            forall|k: int| 0 <= k < V_CHAINS ==> #[trigger] top_idx[k] == top_instance(base as int, st, k),
            eqs@ == leaf_start + leaf_eqs(base as int, st, j as nat),
        decreases LEAF_COMPRESSIONS - j,
    {
        let ghost before = eqs@;
        if j == 0 {
            eqs.push(Eq::Pin { xs: SLOT_H, xi: idx, konst: KONST_IV });
        } else {
            eqs.push(Eq::Link { xs: SLOT_H, xi: idx, ys: SLOT_OUT, yi: idx - 1 });
        }
        if let Some(t) = top_idx[2 * j] {
            eqs.push(Eq::Link { xs: SLOT_LO, xi: idx, ys: SLOT_OUT, yi: t });
        }
        if let Some(t) = top_idx[2 * j + 1] {
            eqs.push(Eq::Link { xs: SLOT_HI, xi: idx, ys: SLOT_OUT, yi: t });
        }
        assert(eqs@ =~= before + leaf_block_eqs(base as int, st, j as int));
        idx = idx + 1;
        j = j + 1;
        assert(eqs@ =~= leaf_start + leaf_eqs(base as int, st, j as nat));
    }

    let ghost path_start = eqs@;
    let ghost first_level = idx as int;
    let mut l: usize = 0;
    while l < TREE_HEIGHT
        invariant
            l <= TREE_HEIGHT,
            first_level == base + total + LEAF_COMPRESSIONS,
            base + total + LEAF_COMPRESSIONS + TREE_HEIGHT <= usize::MAX,
            total >= 0,
            idx == first_level + l,
            eqs@ == path_start + path_eqs(first_level, l as nat, routed),
        decreases TREE_HEIGHT - l,
    {
        eqs.push(Eq::Pin { xs: SLOT_H, xi: idx, konst: KONST_IV });
        if routed {
            eqs.push(Eq::Link { xs: SLOT_BY_PATH_BIT, xi: idx, ys: SLOT_OUT, yi: idx - 1 });
        }
        idx = idx + 1;
        l = l + 1;
        assert(eqs@ =~= path_start + path_eqs(first_level, l as nat, routed));
    }
    eqs.push(Eq::Root { xi: idx - 1, sig });
    assert(eqs@ =~= start + sig_eqs(sig as int, st, routed));
}

/// Deterministic wiring for the signatures, driven by each signature's
/// message-derived per-chain step counts. Path links are routed by the public
/// path bits.
pub fn wiring(steps_per_sig: &[[usize; V_CHAINS]]) -> (eqs: Vec<Eq>)
    requires
        wiring_fits(steps_per_sig@),
    ensures
        eqs@ == sigs_eqs(steps_per_sig@, steps_per_sig@.len(), true),
{
    let mut eqs: Vec<Eq> = Vec::new();
    let mut sig: usize = 0;
    while sig < steps_per_sig.len()
        invariant
            sig <= steps_per_sig@.len(),
            wiring_fits(steps_per_sig@),
            eqs@ == sigs_eqs(steps_per_sig@, sig as nat, true),
        decreases steps_per_sig@.len() - sig,
    {
        assert(sig * COMPRESSIONS_PER_SIG + chain_offset(steps_per_sig@[sig as int]@, V_CHAINS as int)
            + LEAF_COMPRESSIONS + TREE_HEIGHT <= usize::MAX);
        push_sig_eqs(&mut eqs, sig, &steps_per_sig[sig], true);
        sig = sig + 1;
    }
    eqs
}

/// The value of slot `slot` of instance `i`: its chaining input, output, or
/// a message half.
pub open spec fn slot_value<B: Backend>(ts: Seq<Triple>, slot: usize, i: int) -> Digest {
    if slot == SLOT_H {
        ts[i].0
    } else if slot == SLOT_OUT {
        triple_out::<B>(ts[i])
    } else if slot == SLOT_LO {
        ts[i].1
    } else if slot == SLOT_HI {
        ts[i].2
    } else {
        arbitrary()
    }
}

/// A slot that a compression triple carries: H, OUT, LO or HI.
pub open spec fn is_triple_slot(slot: usize) -> bool {
    slot == SLOT_H || slot == SLOT_OUT || slot == SLOT_LO || slot == SLOT_HI
}

/// A constant a triple slot can be pinned to: the IV or the chain pad.
pub open spec fn is_triple_konst(konst: usize) -> bool {
    konst == KONST_IV || konst == KONST_PAD
}

/// A placeholder slot resolved by the public path bit of the instance's
/// signature and Merkle level; any other slot as is.
pub open spec fn resolve_slot(xs: usize, xi: int, bits: Seq<[bool; TREE_HEIGHT]>) -> usize {
    if xs == SLOT_BY_PATH_BIT {
        let sig = xi / (COMPRESSIONS_PER_SIG as int);
        let lvl = xi % (COMPRESSIONS_PER_SIG as int) - (COMPRESSIONS_PER_SIG - TREE_HEIGHT);
        if bits[sig][lvl] {
            SLOT_HI
        } else {
            SLOT_LO
        }
    } else {
        xs
    }
}

/// The slot a path link binds at a level whose path bit is `right`: the
/// running hash fills the high half where the node is the right child, the
/// low half otherwise. This is how `resolve_slot` resolves the placeholder.
pub fn path_bit_slot(right: bool) -> (s: usize)
    ensures
        s == (if right { SLOT_HI } else { SLOT_LO }),
        forall|xi: int, bits: Seq<[bool; TREE_HEIGHT]>|
            bits[xi / (COMPRESSIONS_PER_SIG as int)][xi % (COMPRESSIONS_PER_SIG as int) - (
            COMPRESSIONS_PER_SIG - TREE_HEIGHT)] == right ==> #[trigger] resolve_slot(
                SLOT_BY_PATH_BIT,
                xi,
                bits,
            ) == s,
{
    if right {
        SLOT_HI
    } else {
        SLOT_LO
    }
}

/// The digest a `Pin` fixes a slot to.
pub open spec fn pinned_value<B: Backend>(konst: usize) -> Digest {
    if konst == KONST_IV {
        B::spec_iv()
    } else if konst == KONST_PAD {
        CHAIN_PAD
    } else {
        arbitrary()
    }
}

/// Equation `eq` holds on the batch's compressions, public roots and path
/// bits. This is the meaning of the equations over compression triples only:
/// a domain pin (slot `SLOT_DOMAIN`, constant `KONST_DOMAIN`) constrains a
/// BLAKE3 instance's domain words (counter, block length, flags), which a
/// triple does not carry, so it is outside this relation and `eq_holds` is
/// false of it. Domain pins are enforced on the prover's instances.
pub open spec fn eq_holds<B: Backend>(
    eq: Eq,
    ts: Seq<Triple>,
    roots: Seq<Digest>,
    bits: Seq<[bool; TREE_HEIGHT]>,
) -> bool {
    match eq {
        Eq::Link { xs, xi, ys, yi } => {
            &&& xi < ts.len()
            &&& yi < ts.len()
            &&& is_triple_slot(resolve_slot(xs, xi as int, bits))
            &&& is_triple_slot(ys)
            &&& slot_value::<B>(ts, resolve_slot(xs, xi as int, bits), xi as int) == slot_value::<B>(
                ts,
                ys,
                yi as int,
            )
        },
        Eq::Pin { xs, xi, konst } => {
            &&& xi < ts.len()
            &&& is_triple_slot(xs)
            &&& is_triple_konst(konst)
            &&& slot_value::<B>(ts, xs, xi as int) == pinned_value::<B>(konst)
        },
        Eq::Root { xi, sig } => {
            &&& xi < ts.len()
            &&& sig < roots.len()
            &&& triple_out::<B>(ts[xi as int]) == roots[sig as int]
        },
    }
}

/// Every equation of `es` holds.
pub open spec fn all_hold<B: Backend>(
    es: Seq<Eq>,
    ts: Seq<Triple>,
    roots: Seq<Digest>,
    bits: Seq<[bool; TREE_HEIGHT]>,
) -> bool {
    forall|p: int| 0 <= p < es.len() ==> #[trigger] eq_holds::<B>(es[p], ts, roots, bits)
}

/// The compressions of one signature's verification.
pub open spec fn sig_triples<B: Backend>(sig: Signature, steps: Seq<usize>) -> Seq<Triple> {
    witness_triples::<B>(sig.chain_values@, steps, sig.auth_path@, sig.path_bits@)
}

/// The compressions of the first `n` signatures, in order.
pub open spec fn batch_triples<B: Backend>(
    sigs: Seq<Signature>,
    steps: Seq<[usize; V_CHAINS]>,
    n: nat,
) -> Seq<Triple>
    decreases n,
{
    if n == 0 {
        seq![]
    } else {
        batch_triples::<B>(sigs, steps, (n - 1) as nat) + sig_triples::<B>(sigs[n - 1], steps[n - 1]@)
    }
}

/// The batch witness's prover instances are exactly the instances of the
/// batch's compressions, in order.
pub proof fn lemma_batch_instances_of_triples<B: Backend>(
    sigs: Seq<Signature>,
    steps: Seq<[usize; V_CHAINS]>,
    n: nat,
)
    ensures
        batch_instances::<B>(sigs, steps, n) == instances_of::<B>(batch_triples::<B>(sigs, steps, n)),
    decreases n,
{
    if n > 0 {
        lemma_batch_instances_of_triples::<B>(sigs, steps, (n - 1) as nat);
        let a = batch_triples::<B>(sigs, steps, (n - 1) as nat);
        let b = sig_triples::<B>(sigs[n - 1], steps[n - 1]@);
        assert(instances_of::<B>(a + b) =~= instances_of::<B>(a) + instances_of::<B>(b));
    }
}

/// Every signature takes exactly `TARGET_SUM` chain steps, as message-derived
/// steps do.
pub open spec fn target_sum_steps(steps: Seq<[usize; V_CHAINS]>) -> bool {
    forall|k: int| 0 <= k < steps.len() ==> chain_offset(#[trigger] steps[k]@, V_CHAINS as int) == TARGET_SUM
}

/// Message-derived step tables take `TARGET_SUM` steps each, so their
/// witnesses and wiring fit whenever the instance count does.
pub proof fn lemma_message_steps_fit<B: Backend>(steps: Seq<[usize; V_CHAINS]>, msgs: Seq<Digest>)
    requires
        steps.len() == msgs.len(),
        steps.len() * COMPRESSIONS_PER_SIG <= usize::MAX,
        forall|k: int| 0 <= k < msgs.len() ==> crate::native::encode_converges::<B>(#[trigger] msgs[k]),
        forall|k: int| 0 <= k < msgs.len() ==> (#[trigger] steps[k])@ == encode_steps::<B>(msgs[k]),
    ensures
        target_sum_steps(steps),
        wiring_fits(steps),
        crate::witness::batch_fits(steps),
{
    assert forall|k: int| 0 <= k < steps.len() implies chain_offset(#[trigger] steps[k]@, V_CHAINS as int)
        == TARGET_SUM by {
        assert(crate::native::encode_converges::<B>(msgs[k]));
        crate::native::lemma_encode_counter::<B>(msgs[k]);
        assert(steps[k]@.take(V_CHAINS as int) =~= steps[k]@);
    }
    assert forall|k: int| 0 <= k < steps.len() implies k * COMPRESSIONS_PER_SIG + chain_offset(
        #[trigger] steps[k]@,
        V_CHAINS as int,
    ) + LEAF_COMPRESSIONS + TREE_HEIGHT <= usize::MAX by {
        assert(chain_offset(steps[k]@, V_CHAINS as int) == TARGET_SUM);
        assert(k * COMPRESSIONS_PER_SIG + COMPRESSIONS_PER_SIG <= steps.len() * COMPRESSIONS_PER_SIG)
            by (nonlinear_arith)
            requires
                k + 1 <= steps.len(),
        ;
    }
}

/// Both halves of a concatenation hold, so the whole does.
proof fn lemma_all_hold_concat<B: Backend>(
    a: Seq<Eq>,
    b: Seq<Eq>,
    ts: Seq<Triple>,
    roots: Seq<Digest>,
    bits: Seq<[bool; TREE_HEIGHT]>,
)
    requires
        all_hold::<B>(a, ts, roots, bits),
        all_hold::<B>(b, ts, roots, bits),
    ensures
        all_hold::<B>(a + b, ts, roots, bits),
{
    assert forall|p: int| 0 <= p < (a + b).len() implies #[trigger] eq_holds::<B>(
        (a + b)[p],
        ts,
        roots,
        bits,
    ) by {
        if p < a.len() {
            assert((a + b)[p] == a[p]);
        } else {
            assert((a + b)[p] == b[p - a.len()]);
        }
    }
}

/// Signature `k`'s compressions occupy instances `k * 168 ..` of the batch.
pub proof fn lemma_batch_layout<B: Backend>(sigs: Seq<Signature>, steps: Seq<[usize; V_CHAINS]>, n: nat)
    requires
        n <= sigs.len(),
        n <= steps.len(),
        target_sum_steps(steps),
    ensures
        batch_triples::<B>(sigs, steps, n).len() == n * COMPRESSIONS_PER_SIG,
        forall|k: int, i: int|
            0 <= k < n && 0 <= i < COMPRESSIONS_PER_SIG ==> batch_triples::<B>(sigs, steps, n)[k
                * COMPRESSIONS_PER_SIG + i] == #[trigger] sig_triples::<B>(sigs[k], steps[k]@)[i],
    decreases n,
{
    if n > 0 {
        lemma_batch_layout::<B>(sigs, steps, (n - 1) as nat);
        let st = steps[n - 1]@;
        lemma_chain_lens::<B>(sigs[n - 1].chain_values@, st, V_CHAINS as nat);
        assert(chain_offset(st, V_CHAINS as int) == TARGET_SUM);
        assert(sig_triples::<B>(sigs[n - 1], st).len() == COMPRESSIONS_PER_SIG);
        assert(n * 168 == (n - 1) * 168 + 168) by (nonlinear_arith)
            requires
                n > 0,
        ;
        let prev = batch_triples::<B>(sigs, steps, (n - 1) as nat);
        assert forall|k: int, i: int|
            0 <= k < n && 0 <= i < COMPRESSIONS_PER_SIG implies batch_triples::<B>(sigs, steps, n)[k
            * COMPRESSIONS_PER_SIG + i] == #[trigger] sig_triples::<B>(sigs[k], steps[k]@)[i] by {
            assert(k * COMPRESSIONS_PER_SIG + i == k * 168 + i);
            if k < n - 1 {
                assert(k * 168 + i < (n - 1) * 168) by (nonlinear_arith)
                    requires
                        k < n - 1,
                        0 <= i < 168,
                ;
            } else {
                assert(k * 168 == (n - 1) * 168);
            }
        }
    }
}

/// The context of one signature inside an honest batch.
pub open spec fn sig_in_batch<B: Backend>(
    ts: Seq<Triple>,
    roots: Seq<Digest>,
    bits: Seq<[bool; TREE_HEIGHT]>,
    k: int,
    sig: Signature,
    steps: Seq<usize>,
) -> bool {
    &&& 0 <= k
    &&& k * COMPRESSIONS_PER_SIG + COMPRESSIONS_PER_SIG <= ts.len()
    &&& k * COMPRESSIONS_PER_SIG + COMPRESSIONS_PER_SIG <= usize::MAX
    &&& steps.len() == V_CHAINS
    &&& chain_offset(steps, V_CHAINS as int) == TARGET_SUM
    &&& forall|i: int|
        0 <= i < COMPRESSIONS_PER_SIG ==> ts[k * COMPRESSIONS_PER_SIG + i] == #[trigger] sig_triples::<
            B,
        >(sig, steps)[i]
    &&& k < roots.len()
    &&& roots[k] == witness_root::<B>(sig, steps)
    &&& k < bits.len()
    &&& bits[k] == sig.path_bits
}

/// The local wiring invariant at instance `i` of one signature.
proof fn lemma_local_wire<B: Backend>(sig: Signature, steps: Seq<usize>, i: int)
    requires
        steps.len() == V_CHAINS,
        chain_offset(steps, V_CHAINS as int) == TARGET_SUM,
        0 <= i < COMPRESSIONS_PER_SIG,
    ensures
        wire_holds::<B>(sig_triples::<B>(sig, steps), i, witness_wires(steps, sig.path_bits@)[i]),
        witness_wires(steps, sig.path_bits@).len() == COMPRESSIONS_PER_SIG,
        sig_triples::<B>(sig, steps).len() == COMPRESSIONS_PER_SIG,
{
    lemma_witness_replays::<B>(sig.chain_values@, steps, sig.auth_path@, sig.path_bits@);
    lemma_chain_lens::<B>(sig.chain_values@, steps, V_CHAINS as nat);
}

/// The equations of the chain steps of one signature hold.
proof fn lemma_chain_eqs_hold<B: Backend>(
    ts: Seq<Triple>,
    roots: Seq<Digest>,
    bits: Seq<[bool; TREE_HEIGHT]>,
    k: int,
    sig: Signature,
    steps: Seq<usize>,
    c: nat,
)
    requires
        sig_in_batch::<B>(ts, roots, bits, k, sig, steps),
        c <= V_CHAINS,
    ensures
        all_hold::<B>(chains_eqs(k * COMPRESSIONS_PER_SIG, steps, c), ts, roots, bits),
    decreases c,
{
    let base = k * COMPRESSIONS_PER_SIG;
    if c > 0 {
        lemma_chain_eqs_hold::<B>(ts, roots, bits, k, sig, steps, (c - 1) as nat);
        let ch = (c - 1) as int;
        lemma_chain_offset_nonneg(steps, ch);
        lemma_chain_offset_step(steps, ch);
        lemma_chain_offset_mono(steps, ch + 1, V_CHAINS as int);
        lemma_chain_steps_hold::<B>(ts, roots, bits, k, sig, steps, ch, steps[ch] as nat);
        lemma_all_hold_concat::<B>(
            chains_eqs(base, steps, (c - 1) as nat),
            chain_eqs(base + chain_offset(steps, ch), steps[ch] as nat),
            ts,
            roots,
            bits,
        );
    }
}

/// The equations of the first `n` steps of chain `c` hold.
proof fn lemma_chain_steps_hold<B: Backend>(
    ts: Seq<Triple>,
    roots: Seq<Digest>,
    bits: Seq<[bool; TREE_HEIGHT]>,
    k: int,
    sig: Signature,
    steps: Seq<usize>,
    c: int,
    n: nat,
)
    requires
        sig_in_batch::<B>(ts, roots, bits, k, sig, steps),
        0 <= c < V_CHAINS,
        n <= steps[c],
    ensures
        all_hold::<B>(
            chain_eqs(k * COMPRESSIONS_PER_SIG + chain_offset(steps, c), n),
            ts,
            roots,
            bits,
        ),
    decreases n,
{
    let base = k * COMPRESSIONS_PER_SIG;
    let start = base + chain_offset(steps, c);
    if n > 0 {
        lemma_chain_steps_hold::<B>(ts, roots, bits, k, sig, steps, c, (n - 1) as nat);
        let s = n - 1;
        let local = chain_offset(steps, c) + s;
        lemma_chain_offset_nonneg(steps, c);
        lemma_chain_offset_step(steps, c);
        lemma_chain_offset_mono(steps, c + 1, V_CHAINS as int);
        lemma_local_wire::<B>(sig, steps, local);
        lemma_chain_index::<B>(sig.chain_values@, steps, V_CHAINS as nat, c, s);
        lemma_chain_lens::<B>(sig.chain_values@, steps, V_CHAINS as nat);
        let w = sig_triples::<B>(sig, steps);
        let ws = witness_wires(steps, sig.path_bits@);
        assert(ws[local] == chain_wire(chain_offset(steps, c), s));
        assert(wire_holds::<B>(w, local, ws[local]));
        assert(ts[base + local] == w[local]);
        if s > 0 {
            assert(ts[base + local - 1] == w[local - 1]);
        }
        assert(all_hold::<B>(step_eqs(start + n - 1, s), ts, roots, bits));
        lemma_all_hold_concat::<B>(
            chain_eqs(start, (n - 1) as nat),
            step_eqs(start + n - 1, s),
            ts,
            roots,
            bits,
        );
    }
}

/// The equations of the first `n` leaf absorbs of one signature hold.
proof fn lemma_leaf_eqs_hold<B: Backend>(
    ts: Seq<Triple>,
    roots: Seq<Digest>,
    bits: Seq<[bool; TREE_HEIGHT]>,
    k: int,
    sig: Signature,
    steps: Seq<usize>,
    n: nat,
)
    requires
        sig_in_batch::<B>(ts, roots, bits, k, sig, steps),
        n <= LEAF_COMPRESSIONS,
    ensures
        all_hold::<B>(leaf_eqs(k * COMPRESSIONS_PER_SIG, steps, n), ts, roots, bits),
    decreases n,
{
    let base = k * COMPRESSIONS_PER_SIG;
    if n > 0 {
        lemma_leaf_eqs_hold::<B>(ts, roots, bits, k, sig, steps, (n - 1) as nat);
        let j = n - 1;
        let local = TARGET_SUM + j;
        lemma_local_wire::<B>(sig, steps, local);
        lemma_chain_lens::<B>(sig.chain_values@, steps, V_CHAINS as nat);
        let w = sig_triples::<B>(sig, steps);
        let ws = witness_wires(steps, sig.path_bits@);
        assert(ws[local] == leaf_wires(steps, TARGET_SUM as int)[j]);
        assert(wire_holds::<B>(w, local, ws[local]));
        assert(ts[base + local] == w[local]);
        if j > 0 {
            assert(ts[base + local - 1] == w[local - 1]);
        }
        if steps[2 * j] > 0 {
            lemma_chain_offset_nonneg(steps, 2 * j);
            lemma_chain_offset_step(steps, 2 * j);
            lemma_chain_offset_mono(steps, 2 * j + 1, V_CHAINS as int);
            let x = chain_offset(steps, 2 * j + 1) - 1;
            assert(top_index(steps, 2 * j) == Some(x as usize));
            assert(ts[base + x] == w[x]);
            assert(top_instance(base, steps, 2 * j) == Some((base + x) as usize));
        }
        if steps[2 * j + 1] > 0 {
            lemma_chain_offset_nonneg(steps, 2 * j + 1);
            lemma_chain_offset_step(steps, 2 * j + 1);
            lemma_chain_offset_mono(steps, 2 * j + 2, V_CHAINS as int);
            let y = chain_offset(steps, 2 * j + 2) - 1;
            assert(top_index(steps, 2 * j + 1) == Some(y as usize));
            assert(ts[base + y] == w[y]);
            assert(top_instance(base, steps, 2 * j + 1) == Some((base + y) as usize));
        }
        assert(all_hold::<B>(leaf_block_eqs(base, steps, j), ts, roots, bits));
        lemma_all_hold_concat::<B>(
            leaf_eqs(base, steps, (n - 1) as nat),
            leaf_block_eqs(base, steps, j),
            ts,
            roots,
            bits,
        );
    }
}

/// The equations of the first `n` path levels of one signature hold.
proof fn lemma_path_eqs_hold<B: Backend>(
    ts: Seq<Triple>,
    roots: Seq<Digest>,
    bits: Seq<[bool; TREE_HEIGHT]>,
    k: int,
    sig: Signature,
    steps: Seq<usize>,
    n: nat,
    routed: bool,
)
    requires
        sig_in_batch::<B>(ts, roots, bits, k, sig, steps),
        n <= TREE_HEIGHT,
    ensures
        all_hold::<B>(
            path_eqs(k * COMPRESSIONS_PER_SIG + TARGET_SUM + LEAF_COMPRESSIONS, n, routed),
            ts,
            roots,
            bits,
        ),
    decreases n,
{
    let base = k * COMPRESSIONS_PER_SIG;
    let start = base + TARGET_SUM + LEAF_COMPRESSIONS;
    if n > 0 {
        lemma_path_eqs_hold::<B>(ts, roots, bits, k, sig, steps, (n - 1) as nat, routed);
        let l = n - 1;
        let local = TARGET_SUM + LEAF_COMPRESSIONS + l;
        lemma_local_wire::<B>(sig, steps, local);
        lemma_chain_lens::<B>(sig.chain_values@, steps, V_CHAINS as nat);
        let w = sig_triples::<B>(sig, steps);
        let ws = witness_wires(steps, sig.path_bits@);
        assert(ws[local] == path_wires(sig.path_bits@, TARGET_SUM as int)[l]);
        assert(wire_holds::<B>(w, local, ws[local]));
        assert(ts[base + local] == w[local]);
        assert(ts[base + local - 1] == w[local - 1]);
        vstd::arithmetic::div_mod::lemma_fundamental_div_mod_converse(
            base + local,
            COMPRESSIONS_PER_SIG as int,
            k,
            local,
        );
        assert(all_hold::<B>(path_block_eqs(start + n - 1, routed), ts, roots, bits));
        lemma_all_hold_concat::<B>(
            path_eqs(start, (n - 1) as nat, routed),
            path_block_eqs(start + n - 1, routed),
            ts,
            roots,
            bits,
        );
    }
}

/// All equations of one signature hold.
proof fn lemma_sig_eqs_hold<B: Backend>(
    ts: Seq<Triple>,
    roots: Seq<Digest>,
    bits: Seq<[bool; TREE_HEIGHT]>,
    k: int,
    sig: Signature,
    steps: Seq<usize>,
    routed: bool,
)
    requires
        sig_in_batch::<B>(ts, roots, bits, k, sig, steps),
    ensures
        all_hold::<B>(sig_eqs(k, steps, routed), ts, roots, bits),
{
    let base = k * COMPRESSIONS_PER_SIG;
    lemma_chain_eqs_hold::<B>(ts, roots, bits, k, sig, steps, V_CHAINS as nat);
    lemma_leaf_eqs_hold::<B>(ts, roots, bits, k, sig, steps, LEAF_COMPRESSIONS as nat);
    lemma_path_eqs_hold::<B>(ts, roots, bits, k, sig, steps, TREE_HEIGHT as nat, routed);
    let last = COMPRESSIONS_PER_SIG - 1;
    lemma_witness_replays::<B>(sig.chain_values@, steps, sig.auth_path@, sig.path_bits@);
    lemma_chain_lens::<B>(sig.chain_values@, steps, V_CHAINS as nat);
    let w = sig_triples::<B>(sig, steps);
    assert(ts[base + last] == w[last]);
    assert(w.len() == COMPRESSIONS_PER_SIG);
    assert(w.last() == w[last]);
    assert(triple_out::<B>(ts[base + last]) == roots[k]);
    assert(k <= k * COMPRESSIONS_PER_SIG) by (nonlinear_arith)
        requires
            k >= 0,
    ;
    let root_eq = seq![
        Eq::Root {
            xi: (base + TARGET_SUM + LEAF_COMPRESSIONS + TREE_HEIGHT - 1) as usize,
            sig: k as usize,
        },
    ];
    assert(eq_holds::<B>(root_eq[0], ts, roots, bits));
    assert(all_hold::<B>(root_eq, ts, roots, bits));
    let a = chains_eqs(base, steps, V_CHAINS as nat);
    let b = leaf_eqs(base, steps, LEAF_COMPRESSIONS as nat);
    let c = path_eqs(base + TARGET_SUM + LEAF_COMPRESSIONS, TREE_HEIGHT as nat, routed);
    lemma_all_hold_concat::<B>(a, b, ts, roots, bits);
    lemma_all_hold_concat::<B>(a + b, c, ts, roots, bits);
    lemma_all_hold_concat::<B>(a + b + c, root_eq, ts, roots, bits);
}

/// Honest wiring: for signatures whose chains take `TARGET_SUM` steps in all
/// (as message-derived steps do), every wiring equation holds on the batch of
/// their witnesses' compressions, against the roots those witnesses compute
/// and the signatures' own path bits.
pub proof fn lemma_honest_wiring_holds<B: Backend>(
    sigs: Seq<Signature>,
    steps: Seq<[usize; V_CHAINS]>,
    roots: Seq<Digest>,
    bits: Seq<[bool; TREE_HEIGHT]>,
    routed: bool,
)
    requires
        sigs.len() == steps.len(),
        roots.len() == sigs.len(),
        bits.len() == sigs.len(),
        sigs.len() * COMPRESSIONS_PER_SIG <= usize::MAX,
        target_sum_steps(steps),
        forall|k: int| 0 <= k < sigs.len() ==> #[trigger] roots[k] == witness_root::<B>(sigs[k], steps[k]@),
        forall|k: int| 0 <= k < sigs.len() ==> #[trigger] bits[k] == sigs[k].path_bits,
    ensures
        all_hold::<B>(
            sigs_eqs(steps, sigs.len(), routed),
            batch_triples::<B>(sigs, steps, sigs.len()),
            roots,
            bits,
        ),
{
    let n = sigs.len();
    let ts = batch_triples::<B>(sigs, steps, n);
    lemma_batch_layout::<B>(sigs, steps, n);
    lemma_sigs_eqs_hold::<B>(sigs, steps, roots, bits, routed, ts, n);
}

/// The equations of the first `m` signatures hold on the whole batch.
proof fn lemma_sigs_eqs_hold<B: Backend>(
    sigs: Seq<Signature>,
    steps: Seq<[usize; V_CHAINS]>,
    roots: Seq<Digest>,
    bits: Seq<[bool; TREE_HEIGHT]>,
    routed: bool,
    ts: Seq<Triple>,
    m: nat,
)
    requires
        sigs.len() == steps.len(),
        roots.len() == sigs.len(),
        bits.len() == sigs.len(),
        m <= sigs.len(),
        sigs.len() * COMPRESSIONS_PER_SIG <= usize::MAX,
        target_sum_steps(steps),
        ts.len() == sigs.len() * COMPRESSIONS_PER_SIG,
        forall|k: int, i: int|
            0 <= k < sigs.len() && 0 <= i < COMPRESSIONS_PER_SIG ==> ts[k * COMPRESSIONS_PER_SIG + i]
                == #[trigger] sig_triples::<B>(sigs[k], steps[k]@)[i],
        forall|k: int| 0 <= k < sigs.len() ==> #[trigger] roots[k] == witness_root::<B>(sigs[k], steps[k]@),
        forall|k: int| 0 <= k < sigs.len() ==> #[trigger] bits[k] == sigs[k].path_bits,
    ensures
        all_hold::<B>(sigs_eqs(steps, m, routed), ts, roots, bits),
    decreases m,
{
    if m > 0 {
        lemma_sigs_eqs_hold::<B>(sigs, steps, roots, bits, routed, ts, (m - 1) as nat);
        let k = m - 1;
        assert(k * COMPRESSIONS_PER_SIG + COMPRESSIONS_PER_SIG <= sigs.len() * COMPRESSIONS_PER_SIG)
            by (nonlinear_arith)
            requires
                k + 1 <= sigs.len(),
        ;
        assert(chain_offset(steps[k]@, V_CHAINS as int) == TARGET_SUM);
        assert(sig_in_batch::<B>(ts, roots, bits, k, sigs[k], steps[k]@));
        lemma_sig_eqs_hold::<B>(ts, roots, bits, k, sigs[k], steps[k]@, routed);
        lemma_all_hold_concat::<B>(
            sigs_eqs(steps, (m - 1) as nat, routed),
            sig_eqs(k, steps[k]@, routed),
            ts,
            roots,
            bits,
        );
    }
}

/// Splitting a concatenation that holds gives two halves that hold.
proof fn lemma_all_hold_split<B: Backend>(
    a: Seq<Eq>,
    b: Seq<Eq>,
    ts: Seq<Triple>,
    roots: Seq<Digest>,
    bits: Seq<[bool; TREE_HEIGHT]>,
)
    requires
        all_hold::<B>(a + b, ts, roots, bits),
    ensures
        all_hold::<B>(a, ts, roots, bits),
        all_hold::<B>(b, ts, roots, bits),
{
    assert forall|p: int| 0 <= p < a.len() implies #[trigger] eq_holds::<B>(a[p], ts, roots, bits) by {
        assert((a + b)[p] == a[p]);
    }
    assert forall|p: int| 0 <= p < b.len() implies #[trigger] eq_holds::<B>(b[p], ts, roots, bits) by {
        assert((a + b)[a.len() + p] == b[p]);
    }
}

/// The chaining inputs, message halves and outputs of one chain's steps
/// follow from its equations: every step hashes the previous output with the
/// pad under the IV.
proof fn lemma_chain_sound<B: Backend>(
    ts: Seq<Triple>,
    roots: Seq<Digest>,
    bits: Seq<[bool; TREE_HEIGHT]>,
    start: int,
    n: nat,
)
    requires
        0 <= start,
        start + n <= ts.len(),
        start + n <= usize::MAX,
        all_hold::<B>(chain_eqs(start, n), ts, roots, bits),
    ensures
        forall|s: int|
            0 <= s < n ==> #[trigger] triple_out::<B>(ts[start + s]) == chain_walk::<B>(
                ts[start].1,
                (s + 1) as nat,
            ),
    decreases n,
{
    if n > 0 {
        let s = n - 1;
        lemma_all_hold_split::<B>(chain_eqs(start, (n - 1) as nat), step_eqs(start + s, s), ts, roots, bits);
        lemma_chain_sound::<B>(ts, roots, bits, start, (n - 1) as nat);
        let es = step_eqs(start + s, s);
        let t = ts[start + s];
        if s > 0 {
            assert(eq_holds::<B>(es[0], ts, roots, bits));
            assert(eq_holds::<B>(es[1], ts, roots, bits));
            assert(eq_holds::<B>(es[2], ts, roots, bits));
            assert(t.1 == triple_out::<B>(ts[start + s - 1]));
            assert(triple_out::<B>(ts[start + (s - 1)]) == chain_walk::<B>(ts[start].1, s as nat));
        } else {
            assert(eq_holds::<B>(es[0], ts, roots, bits));
            assert(eq_holds::<B>(es[1], ts, roots, bits));
        }
        assert(t.0 == B::spec_iv());
        assert(t.2 == CHAIN_PAD);
        assert(triple_out::<B>(t) == chain_step_spec::<B>(t.1));
        assert(chain_walk::<B>(ts[start].1, (s + 1) as nat) == chain_step_spec::<B>(
            chain_walk::<B>(ts[start].1, s as nat),
        ));
        assert(t.1 == chain_walk::<B>(ts[start].1, s as nat));
    }
}

/// The chain values a wiring-satisfying batch reveals for signature `k`: the
/// first step's input of each chain, or for a chain without steps the value
/// its leaf absorb takes directly.
pub open spec fn sound_values(ts: Seq<Triple>, base: int, steps: Seq<usize>) -> Seq<Digest> {
    Seq::new(
        V_CHAINS as nat,
        |c: int|
            if steps[c] > 0 {
                ts[base + chain_offset(steps, c)].1
            } else if c % 2 == 0 {
                ts[base + TARGET_SUM + c / 2].1
            } else {
                ts[base + TARGET_SUM + c / 2].2
            },
    )
}

/// The authentication path a wiring-satisfying batch reveals: at each level,
/// the half of the path instance that the running hash does not fill.
pub open spec fn sound_auth(ts: Seq<Triple>, base: int, bits: Seq<bool>) -> Seq<Digest> {
    Seq::new(
        TREE_HEIGHT as nat,
        |l: int|
            if bits[l] {
                ts[base + TARGET_SUM + LEAF_COMPRESSIONS + l].1
            } else {
                ts[base + TARGET_SUM + LEAF_COMPRESSIONS + l].2
            },
    )
}

/// The chain equations of the first `c` chains hold, chain by chain; and each
/// chain's last output is its top.
proof fn lemma_chains_sound<B: Backend>(
    ts: Seq<Triple>,
    roots: Seq<Digest>,
    bits: Seq<[bool; TREE_HEIGHT]>,
    base: int,
    steps: Seq<usize>,
    c: nat,
)
    requires
        0 <= base,
        steps.len() == V_CHAINS,
        chain_offset(steps, V_CHAINS as int) == TARGET_SUM,
        base + COMPRESSIONS_PER_SIG <= ts.len(),
        base + COMPRESSIONS_PER_SIG <= usize::MAX,
        c <= V_CHAINS,
        all_hold::<B>(chains_eqs(base, steps, c), ts, roots, bits),
    ensures
        forall|j: int|
            0 <= j < c && steps[j] > 0 ==> triple_out::<B>(
                ts[base + chain_offset(steps, j + 1) - 1],
            ) == #[trigger] chain_tops::<B>(sound_values(ts, base, steps), steps)[j],
    decreases c,
{
    if c > 0 {
        let j = c - 1;
        lemma_chain_offset_nonneg(steps, j);
        lemma_chain_offset_step(steps, j);
        lemma_chain_offset_mono(steps, j + 1, V_CHAINS as int);
        let start = base + chain_offset(steps, j);
        lemma_all_hold_split::<B>(
            chains_eqs(base, steps, (c - 1) as nat),
            chain_eqs(start, steps[j] as nat),
            ts,
            roots,
            bits,
        );
        lemma_chains_sound::<B>(ts, roots, bits, base, steps, (c - 1) as nat);
        lemma_chain_sound::<B>(ts, roots, bits, start, steps[j] as nat);
        if steps[j] > 0 {
            assert(triple_out::<B>(ts[start + (steps[j] - 1)]) == chain_walk::<B>(
                ts[start].1,
                steps[j] as nat,
            ));
        }
    }
}

/// Leaf absorbs: each absorb's chaining input is the accumulator and its
/// halves are the chain tops.
proof fn lemma_leaf_sound<B: Backend>(
    ts: Seq<Triple>,
    roots: Seq<Digest>,
    bits: Seq<[bool; TREE_HEIGHT]>,
    base: int,
    steps: Seq<usize>,
    n: nat,
)
    requires
        0 <= base,
        steps.len() == V_CHAINS,
        chain_offset(steps, V_CHAINS as int) == TARGET_SUM,
        base + COMPRESSIONS_PER_SIG <= ts.len(),
        base + COMPRESSIONS_PER_SIG <= usize::MAX,
        n <= LEAF_COMPRESSIONS,
        all_hold::<B>(chains_eqs(base, steps, V_CHAINS as nat), ts, roots, bits),
        all_hold::<B>(leaf_eqs(base, steps, n), ts, roots, bits),
    ensures
        n > 0 ==> triple_out::<B>(ts[base + TARGET_SUM + n - 1]) == leaf_acc::<B>(
            chain_tops::<B>(sound_values(ts, base, steps), steps),
            n,
        ),
    decreases n,
{
    if n > 0 {
        let j = n - 1;
        let tops = chain_tops::<B>(sound_values(ts, base, steps), steps);
        lemma_all_hold_split::<B>(leaf_eqs(base, steps, j as nat), leaf_block_eqs(base, steps, j), ts, roots, bits);
        lemma_leaf_sound::<B>(ts, roots, bits, base, steps, j as nat);
        lemma_chains_sound::<B>(ts, roots, bits, base, steps, V_CHAINS as nat);
        let idx = base + TARGET_SUM + j;
        let t = ts[idx];
        let es = leaf_block_eqs(base, steps, j);
        let first = if j == 0 {
            seq![pin(SLOT_H, idx, KONST_IV)]
        } else {
            seq![link_out(SLOT_H, idx, idx - 1)]
        };
        let lo = top_eqs(SLOT_LO, idx, top_instance(base, steps, 2 * j));
        let hi = top_eqs(SLOT_HI, idx, top_instance(base, steps, 2 * j + 1));
        assert(es == first + lo + hi);
        lemma_all_hold_split::<B>(first + lo, hi, ts, roots, bits);
        lemma_all_hold_split::<B>(first, lo, ts, roots, bits);
        assert(eq_holds::<B>(first[0], ts, roots, bits));
        assert(t.0 == leaf_acc::<B>(tops, j as nat));
        if steps[2 * j] > 0 {
            lemma_chain_offset_nonneg(steps, 2 * j);
            lemma_chain_offset_step(steps, 2 * j);
            lemma_chain_offset_mono(steps, 2 * j + 1, V_CHAINS as int);
            assert(eq_holds::<B>(lo[0], ts, roots, bits));
            assert(tops[2 * j] == triple_out::<B>(ts[base + chain_offset(steps, 2 * j + 1) - 1]));
        }
        if steps[2 * j + 1] > 0 {
            lemma_chain_offset_nonneg(steps, 2 * j + 1);
            lemma_chain_offset_step(steps, 2 * j + 1);
            lemma_chain_offset_mono(steps, 2 * j + 2, V_CHAINS as int);
            assert(eq_holds::<B>(hi[0], ts, roots, bits));
            assert(tops[2 * j + 1] == triple_out::<B>(ts[base + chain_offset(steps, 2 * j + 2) - 1]));
        }
        assert(t.1 == tops[2 * j]);
        assert(t.2 == tops[2 * j + 1]);
    }
}

/// Path levels: each level hashes the running node with the revealed sibling
/// in the order its path bit says.
proof fn lemma_path_sound<B: Backend>(
    ts: Seq<Triple>,
    roots: Seq<Digest>,
    bits: Seq<[bool; TREE_HEIGHT]>,
    k: int,
    n: nat,
)
    requires
        0 <= k,
        k < bits.len(),
        k * COMPRESSIONS_PER_SIG + COMPRESSIONS_PER_SIG <= ts.len(),
        k * COMPRESSIONS_PER_SIG + COMPRESSIONS_PER_SIG <= usize::MAX,
        n <= TREE_HEIGHT,
        all_hold::<B>(
            path_eqs(k * COMPRESSIONS_PER_SIG + TARGET_SUM + LEAF_COMPRESSIONS, n, true),
            ts,
            roots,
            bits,
        ),
    ensures
        triple_out::<B>(ts[k * COMPRESSIONS_PER_SIG + TARGET_SUM + LEAF_COMPRESSIONS + n - 1])
            == path_climb::<B>(
            triple_out::<B>(ts[k * COMPRESSIONS_PER_SIG + TARGET_SUM + LEAF_COMPRESSIONS - 1]),
            sound_auth(ts, k * COMPRESSIONS_PER_SIG, bits[k]@),
            bits[k]@,
            n,
        ),
    decreases n,
{
    let base = k * COMPRESSIONS_PER_SIG;
    let start = base + TARGET_SUM + LEAF_COMPRESSIONS;
    if n > 0 {
        let l = n - 1;
        lemma_all_hold_split::<B>(path_eqs(start, l as nat, true), path_block_eqs(start + l, true), ts, roots, bits);
        lemma_path_sound::<B>(ts, roots, bits, k, l as nat);
        let idx = start + l;
        let es = path_block_eqs(idx, true);
        assert(eq_holds::<B>(es[0], ts, roots, bits));
        assert(eq_holds::<B>(es[1], ts, roots, bits));
        vstd::arithmetic::div_mod::lemma_fundamental_div_mod_converse(
            idx,
            COMPRESSIONS_PER_SIG as int,
            k,
            TARGET_SUM + LEAF_COMPRESSIONS + l,
        );
        assert(resolve_slot(SLOT_BY_PATH_BIT, idx, bits) == if bits[k][l] { SLOT_HI } else { SLOT_LO });
        let t = ts[idx];
        let auth = sound_auth(ts, base, bits[k]@);
        assert(bits[k]@[l] == bits[k][l]);
        assert(triple_out::<B>(t) == path_step::<B>(triple_out::<B>(ts[idx - 1]), auth[l], bits[k][l]));
    }
}

/// Soundness of the wiring: if every equation of signature `k` holds on a
/// batch (each OUT slot being the compression of its instance's inputs), the
/// batch is the verification of a signature (the chain values and path the
/// batch reveals, with the public path bits) whose recomputed root is the
/// public root of `k`.
pub proof fn lemma_wiring_sound<B: Backend>(
    ts: Seq<Triple>,
    roots: Seq<Digest>,
    bits: Seq<[bool; TREE_HEIGHT]>,
    k: int,
    steps: Seq<usize>,
)
    requires
        0 <= k,
        k < roots.len(),
        k < bits.len(),
        k * COMPRESSIONS_PER_SIG + COMPRESSIONS_PER_SIG <= ts.len(),
        k * COMPRESSIONS_PER_SIG + COMPRESSIONS_PER_SIG <= usize::MAX,
        steps.len() == V_CHAINS,
        chain_offset(steps, V_CHAINS as int) == TARGET_SUM,
        all_hold::<B>(sig_eqs(k, steps, true), ts, roots, bits),
    ensures
        path_root::<B>(
            compute_leaf_spec::<B>(sound_values(ts, k * COMPRESSIONS_PER_SIG, steps), steps),
            sound_auth(ts, k * COMPRESSIONS_PER_SIG, bits[k]@),
            bits[k]@,
        ) == roots[k],
{
    let base = k * COMPRESSIONS_PER_SIG;
    let a = chains_eqs(base, steps, V_CHAINS as nat);
    let b = leaf_eqs(base, steps, LEAF_COMPRESSIONS as nat);
    let c = path_eqs(base + TARGET_SUM + LEAF_COMPRESSIONS, TREE_HEIGHT as nat, true);
    let last = COMPRESSIONS_PER_SIG - 1;
    let root_eq = seq![Eq::Root { xi: (base + last) as usize, sig: k as usize }];
    assert(sig_eqs(k, steps, true) == a + b + c + root_eq);
    lemma_all_hold_split::<B>(a + b + c, root_eq, ts, roots, bits);
    lemma_all_hold_split::<B>(a + b, c, ts, roots, bits);
    lemma_all_hold_split::<B>(a, b, ts, roots, bits);
    lemma_leaf_sound::<B>(ts, roots, bits, base, steps, LEAF_COMPRESSIONS as nat);
    lemma_path_sound::<B>(ts, roots, bits, k, TREE_HEIGHT as nat);
    assert(k <= k * COMPRESSIONS_PER_SIG) by (nonlinear_arith)
        requires
            k >= 0,
    ;
    assert(eq_holds::<B>(root_eq[0], ts, roots, bits));
}

/// With message-derived steps, a signature satisfying the wiring verifies:
/// the chain values and path the batch reveals form a signature that
/// verifies for `msg` against the public root of `k`.
pub proof fn lemma_wiring_sound_for_message<B: Backend>(
    ts: Seq<Triple>,
    roots: Seq<Digest>,
    bits: Seq<[bool; TREE_HEIGHT]>,
    k: int,
    msg: Digest,
)
    requires
        crate::native::encode_converges::<B>(msg),
        0 <= k,
        k < roots.len(),
        k < bits.len(),
        k * COMPRESSIONS_PER_SIG + COMPRESSIONS_PER_SIG <= ts.len(),
        k * COMPRESSIONS_PER_SIG + COMPRESSIONS_PER_SIG <= usize::MAX,
        all_hold::<B>(sig_eqs(k, encode_steps::<B>(msg), true), ts, roots, bits),
    ensures
        verify_spec::<B>(
            sound_values(ts, k * COMPRESSIONS_PER_SIG, encode_steps::<B>(msg)),
            sound_auth(ts, k * COMPRESSIONS_PER_SIG, bits[k]@),
            bits[k]@,
            msg,
            roots[k],
        ),
{
    let steps = encode_steps::<B>(msg);
    crate::native::lemma_encode_counter::<B>(msg);
    assert(steps.take(V_CHAINS as int) =~= steps);
    lemma_wiring_sound::<B>(ts, roots, bits, k, steps);
}

/// At every Merkle level of signature `k` the running hash (the previous
/// output) is one of the level's two halves: what the hiding zerocheck
/// enforces in place of public path bits.
pub open spec fn merkle_choice<B: Backend>(ts: Seq<Triple>, base: int) -> bool {
    forall|l: int|
        #![trigger ts[base + TARGET_SUM + LEAF_COMPRESSIONS + l]]
        0 <= l < TREE_HEIGHT ==> {
            ||| triple_out::<B>(ts[base + TARGET_SUM + LEAF_COMPRESSIONS + l - 1])
                == ts[base + TARGET_SUM + LEAF_COMPRESSIONS + l].1
            ||| triple_out::<B>(ts[base + TARGET_SUM + LEAF_COMPRESSIONS + l - 1])
                == ts[base + TARGET_SUM + LEAF_COMPRESSIONS + l].2
        }
}

/// The path bits a Merkle-choice batch reveals: the running hash is the
/// right child where it is not the low half.
pub open spec fn chosen_bits<B: Backend>(ts: Seq<Triple>, base: int) -> Seq<bool> {
    Seq::new(
        TREE_HEIGHT as nat,
        |l: int|
            triple_out::<B>(ts[base + TARGET_SUM + LEAF_COMPRESSIONS + l - 1]) != ts[base + TARGET_SUM
                + LEAF_COMPRESSIONS + l].1,
    )
}

/// An honest witness makes the Merkle choice at every level: the running
/// hash is one of the two halves of each path instance.
pub proof fn lemma_honest_merkle_choice<B: Backend>(
    sigs: Seq<Signature>,
    steps: Seq<[usize; V_CHAINS]>,
    k: int,
)
    requires
        sigs.len() == steps.len(),
        0 <= k < sigs.len(),
        target_sum_steps(steps),
    ensures
        merkle_choice::<B>(batch_triples::<B>(sigs, steps, sigs.len()), k * COMPRESSIONS_PER_SIG),
{
    let ts = batch_triples::<B>(sigs, steps, sigs.len());
    let base = k * COMPRESSIONS_PER_SIG;
    let st = steps[k]@;
    lemma_batch_layout::<B>(sigs, steps, sigs.len());
    assert(chain_offset(st, V_CHAINS as int) == TARGET_SUM);
    lemma_witness_replays::<B>(sigs[k].chain_values@, st, sigs[k].auth_path@, sigs[k].path_bits@);
    lemma_chain_lens::<B>(sigs[k].chain_values@, st, V_CHAINS as nat);
    assert((k + 1) * COMPRESSIONS_PER_SIG <= sigs.len() * COMPRESSIONS_PER_SIG) by (nonlinear_arith)
        requires
            k + 1 <= sigs.len(),
    ;
    let w = sig_triples::<B>(sigs[k], st);
    let ws = witness_wires(st, sigs[k].path_bits@);
    assert forall|l: int|
        #![trigger ts[base + TARGET_SUM + LEAF_COMPRESSIONS + l]]
        0 <= l < TREE_HEIGHT implies {
        ||| triple_out::<B>(ts[base + TARGET_SUM + LEAF_COMPRESSIONS + l - 1])
            == ts[base + TARGET_SUM + LEAF_COMPRESSIONS + l].1
        ||| triple_out::<B>(ts[base + TARGET_SUM + LEAF_COMPRESSIONS + l - 1])
            == ts[base + TARGET_SUM + LEAF_COMPRESSIONS + l].2
    } by {
        let local = TARGET_SUM + LEAF_COMPRESSIONS + l;
        assert(ts[base + local] == w[local]);
        assert(ts[base + local - 1] == w[local - 1]);
        assert(ws[local] == path_wires(sigs[k].path_bits@, TARGET_SUM as int)[l]);
        assert(wire_holds::<B>(w, local, ws[local]));
    }
}

/// Path levels under the Merkle choice: each level hashes the running node
/// with the other half, in the order the chosen bit says.
proof fn lemma_path_sound_hidden<B: Backend>(
    ts: Seq<Triple>,
    roots: Seq<Digest>,
    bits: Seq<[bool; TREE_HEIGHT]>,
    base: int,
    n: nat,
)
    requires
        0 <= base,
        base + COMPRESSIONS_PER_SIG <= ts.len(),
        base + COMPRESSIONS_PER_SIG <= usize::MAX,
        n <= TREE_HEIGHT,
        merkle_choice::<B>(ts, base),
        all_hold::<B>(path_eqs(base + TARGET_SUM + LEAF_COMPRESSIONS, n, false), ts, roots, bits),
    ensures
        triple_out::<B>(ts[base + TARGET_SUM + LEAF_COMPRESSIONS + n - 1]) == path_climb::<B>(
            triple_out::<B>(ts[base + TARGET_SUM + LEAF_COMPRESSIONS - 1]),
            sound_auth(ts, base, chosen_bits::<B>(ts, base)),
            chosen_bits::<B>(ts, base),
            n,
        ),
    decreases n,
{
    let start = base + TARGET_SUM + LEAF_COMPRESSIONS;
    if n > 0 {
        let l = n - 1;
        lemma_all_hold_split::<B>(path_eqs(start, l as nat, false), path_block_eqs(start + l, false), ts, roots, bits);
        lemma_path_sound_hidden::<B>(ts, roots, bits, base, l as nat);
        let idx = start + l;
        let es = path_block_eqs(idx, false);
        assert(eq_holds::<B>(es[0], ts, roots, bits));
        let t = ts[idx];
        let cb = chosen_bits::<B>(ts, base);
        let auth = sound_auth(ts, base, cb);
        assert(triple_out::<B>(ts[idx - 1]) == t.1 || triple_out::<B>(ts[idx - 1]) == t.2);
        assert(triple_out::<B>(t) == path_step::<B>(triple_out::<B>(ts[idx - 1]), auth[l], cb[l]));
    }
}

/// Soundness of the hidden-path wiring: if every equation of signature `k`
/// holds and the running hash is one of the two halves at each Merkle level,
/// the batch is the verification of a signature (the chain values the batch
/// reveals, and the path and bits its Merkle levels determine) whose
/// recomputed root is the public root of `k`.
pub proof fn lemma_hidden_wiring_sound<B: Backend>(
    ts: Seq<Triple>,
    roots: Seq<Digest>,
    bits: Seq<[bool; TREE_HEIGHT]>,
    k: int,
    steps: Seq<usize>,
)
    requires
        0 <= k,
        k < roots.len(),
        k * COMPRESSIONS_PER_SIG + COMPRESSIONS_PER_SIG <= ts.len(),
        k * COMPRESSIONS_PER_SIG + COMPRESSIONS_PER_SIG <= usize::MAX,
        steps.len() == V_CHAINS,
        chain_offset(steps, V_CHAINS as int) == TARGET_SUM,
        all_hold::<B>(sig_eqs(k, steps, false), ts, roots, bits),
        merkle_choice::<B>(ts, k * COMPRESSIONS_PER_SIG),
    ensures
        path_root::<B>(
            compute_leaf_spec::<B>(sound_values(ts, k * COMPRESSIONS_PER_SIG, steps), steps),
            sound_auth(ts, k * COMPRESSIONS_PER_SIG, chosen_bits::<B>(ts, k * COMPRESSIONS_PER_SIG)),
            chosen_bits::<B>(ts, k * COMPRESSIONS_PER_SIG),
        ) == roots[k],
{
    let base = k * COMPRESSIONS_PER_SIG;
    let a = chains_eqs(base, steps, V_CHAINS as nat);
    let b = leaf_eqs(base, steps, LEAF_COMPRESSIONS as nat);
    let c = path_eqs(base + TARGET_SUM + LEAF_COMPRESSIONS, TREE_HEIGHT as nat, false);
    let last = COMPRESSIONS_PER_SIG - 1;
    let root_eq = seq![Eq::Root { xi: (base + last) as usize, sig: k as usize }];
    assert(k <= k * COMPRESSIONS_PER_SIG) by (nonlinear_arith)
        requires
            k >= 0,
    ;
    assert(sig_eqs(k, steps, false) == a + b + c + root_eq);
    lemma_all_hold_split::<B>(a + b + c, root_eq, ts, roots, bits);
    lemma_all_hold_split::<B>(a + b, c, ts, roots, bits);
    lemma_all_hold_split::<B>(a, b, ts, roots, bits);
    lemma_leaf_sound::<B>(ts, roots, bits, base, steps, LEAF_COMPRESSIONS as nat);
    lemma_path_sound_hidden::<B>(ts, roots, bits, base, TREE_HEIGHT as nat);
    assert(eq_holds::<B>(root_eq[0], ts, roots, bits));
}

/// The equations one witness wire stands for, for the instance at `i` of a
/// signature whose instances start at `base`: each link of the wire becomes a
/// `Link` into the producing instance's OUT slot, each pinned input a `Pin`.
pub open spec fn wire_eqs(wire: Wire, i: int, base: int, routed: bool) -> Seq<Eq> {
    let idx = base + i;
    match wire {
        Wire::ChainStep { prev } => (match prev {
            Some(p) => seq![link_out(SLOT_LO, idx, base + p)],
            None => seq![],
        }) + seq![pin(SLOT_HI, idx, KONST_PAD), pin(SLOT_H, idx, KONST_IV)],
        Wire::LeafAbsorb { prev, l, r } => (match prev {
            Some(p) => seq![link_out(SLOT_H, idx, base + p)],
            None => seq![pin(SLOT_H, idx, KONST_IV)],
        }) + (match l {
            Some(t) => seq![link_out(SLOT_LO, idx, base + t)],
            None => seq![],
        }) + (match r {
            Some(t) => seq![link_out(SLOT_HI, idx, base + t)],
            None => seq![],
        }),
        Wire::PathNode { child, right } => if routed {
            seq![pin(SLOT_H, idx, KONST_IV), link_out(SLOT_BY_PATH_BIT, idx, base + child)]
        } else {
            seq![pin(SLOT_H, idx, KONST_IV)]
        },
    }
}

/// The equations of a run of wires, the first at instance `start`, in order.
pub open spec fn wires_eqs(ws: Seq<Wire>, start: int, base: int, routed: bool) -> Seq<Eq>
    decreases ws.len(),
{
    if ws.len() == 0 {
        seq![]
    } else {
        wires_eqs(ws.drop_last(), start, base, routed) + wire_eqs(
            ws.last(),
            start + ws.len() - 1,
            base,
            routed,
        )
    }
}

/// The equations of two runs of wires are the equations of each, in order.
proof fn lemma_wires_eqs_concat(a: Seq<Wire>, b: Seq<Wire>, start: int, base: int, routed: bool)
    ensures
        wires_eqs(a + b, start, base, routed) == wires_eqs(a, start, base, routed) + wires_eqs(
            b,
            start + a.len(),
            base,
            routed,
        ),
    decreases b.len(),
{
    if b.len() == 0 {
        assert(a + b =~= a);
        assert(wires_eqs(b, start + a.len(), base, routed) =~= Seq::<Eq>::empty());
        assert(wires_eqs(a, start, base, routed) + Seq::<Eq>::empty() =~= wires_eqs(
            a,
            start,
            base,
            routed,
        ));
    } else {
        assert((a + b).drop_last() =~= a + b.drop_last());
        lemma_wires_eqs_concat(a, b.drop_last(), start, base, routed);
        assert((a + b).last() == b.last());
        let x = wires_eqs(a, start, base, routed);
        let y = wires_eqs(b.drop_last(), start + a.len(), base, routed);
        let z = wire_eqs(b.last(), start + a.len() + b.len() - 1, base, routed);
        assert(x + y + z =~= x + (y + z));
    }
}

/// The equations of the first `n` steps of one chain are its wires' equations.
proof fn lemma_chain_eqs_mirror(base: int, off: int, n: nat, routed: bool)
    requires
        0 <= off,
        off + n <= usize::MAX,
    ensures
        chain_eqs(base + off, n) == wires_eqs(
            Seq::new(n, |s: int| chain_wire(off, s)),
            off,
            base,
            routed,
        ),
    decreases n,
{
    if n > 0 {
        lemma_chain_eqs_mirror(base, off, (n - 1) as nat, routed);
        let ws = Seq::new(n, |s: int| chain_wire(off, s));
        assert(ws.drop_last() =~= Seq::new((n - 1) as nat, |s: int| chain_wire(off, s)));
        let s = n - 1;
        assert(step_eqs(base + off + s, s) =~= wire_eqs(ws.last(), off + s, base, routed));
    }
}

/// The equations of the first `c` chains are their wires' equations.
proof fn lemma_chains_eqs_mirror<B: Backend>(base: int, steps: Seq<usize>, c: nat, routed: bool)
    requires
        steps.len() == V_CHAINS,
        c <= V_CHAINS,
        chain_offset(steps, V_CHAINS as int) <= usize::MAX,
    ensures
        chains_eqs(base, steps, c) == wires_eqs(chain_wires(steps, c), 0, base, routed),
    decreases c,
{
    if c > 0 {
        let ch = (c - 1) as int;
        lemma_chains_eqs_mirror::<B>(base, steps, (c - 1) as nat, routed);
        lemma_chain_offset_nonneg(steps, ch);
        lemma_chain_offset_step(steps, ch);
        lemma_chain_offset_mono(steps, ch + 1, V_CHAINS as int);
        lemma_chain_lens::<B>(Seq::empty(), steps, (c - 1) as nat);
        let run = Seq::new(steps[ch] as nat, |s: int| chain_wire(chain_offset(steps, ch), s));
        lemma_chain_eqs_mirror(base, chain_offset(steps, ch), steps[ch] as nat, routed);
        lemma_wires_eqs_concat(chain_wires(steps, (c - 1) as nat), run, 0, base, routed);
    } else {
        assert(wires_eqs(chain_wires(steps, 0), 0, base, routed) =~= Seq::<Eq>::empty());
    }
}

/// The equations of the first `n` leaf absorbs are their wires' equations.
proof fn lemma_leaf_eqs_mirror(base: int, steps: Seq<usize>, n: nat, routed: bool)
    requires
        steps.len() == V_CHAINS,
        n <= LEAF_COMPRESSIONS,
        chain_offset(steps, V_CHAINS as int) + LEAF_COMPRESSIONS <= usize::MAX,
    ensures
        leaf_eqs(base, steps, n) == wires_eqs(
            leaf_wires(steps, chain_offset(steps, V_CHAINS as int)).take(n as int),
            chain_offset(steps, V_CHAINS as int),
            base,
            routed,
        ),
    decreases n,
{
    let t = chain_offset(steps, V_CHAINS as int);
    let lw = leaf_wires(steps, t);
    lemma_chain_offset_nonneg(steps, V_CHAINS as int);
    if n > 0 {
        let j = n - 1;
        lemma_leaf_eqs_mirror(base, steps, (n - 1) as nat, routed);
        assert(lw.take(n as int).drop_last() =~= lw.take(j as int));
        assert(lw.take(n as int).last() == lw[j]);
        if steps[2 * j] > 0 {
            lemma_chain_offset_nonneg(steps, 2 * j);
            lemma_chain_offset_step(steps, 2 * j);
            lemma_chain_offset_mono(steps, 2 * j + 1, V_CHAINS as int);
        }
        if steps[2 * j + 1] > 0 {
            lemma_chain_offset_nonneg(steps, 2 * j + 1);
            lemma_chain_offset_step(steps, 2 * j + 1);
            lemma_chain_offset_mono(steps, 2 * j + 2, V_CHAINS as int);
        }
        assert(leaf_block_eqs(base, steps, j) =~= wire_eqs(lw[j], t + j, base, routed));
    } else {
        assert(lw.take(0) =~= Seq::<Wire>::empty());
    }
}

/// The equations of the first `n` path levels are their wires' equations.
proof fn lemma_path_eqs_mirror(base: int, t: int, bits: Seq<bool>, n: nat, routed: bool)
    requires
        0 <= t,
        n <= TREE_HEIGHT,
        t + LEAF_COMPRESSIONS + TREE_HEIGHT <= usize::MAX,
    ensures
        path_eqs(base + t + LEAF_COMPRESSIONS, n, routed) == wires_eqs(
            path_wires(bits, t).take(n as int),
            t + LEAF_COMPRESSIONS,
            base,
            routed,
        ),
    decreases n,
{
    let pw = path_wires(bits, t);
    if n > 0 {
        let l = n - 1;
        lemma_path_eqs_mirror(base, t, bits, (n - 1) as nat, routed);
        assert(pw.take(n as int).drop_last() =~= pw.take(l as int));
        assert(pw.take(n as int).last() == pw[l]);
        assert(path_block_eqs(base + t + LEAF_COMPRESSIONS + l, routed) =~= wire_eqs(
            pw[l],
            t + LEAF_COMPRESSIONS + l,
            base,
            routed,
        ));
    } else {
        assert(pw.take(0) =~= Seq::<Wire>::empty());
    }
}

/// The wiring mirrors the witness: the equations of signature `k` are, in
/// order and one wire at a time, the equations of the wires
/// `build_sig_witness` records for it (each linked input becomes a `Link` into
/// the producing instance's OUT slot, shifted to the signature's first
/// instance `k * COMPRESSIONS_PER_SIG`, each pinned input a `Pin`; a path
/// node's link is routed by the path bit only in the routed wiring), followed
/// by the `Root` equation on the signature's last instance.
#[verifier::spinoff_prover]
pub proof fn lemma_wiring_mirrors_witness<B: Backend>(
    k: int,
    steps: Seq<usize>,
    bits: Seq<bool>,
    routed: bool,
)
    requires
        steps.len() == V_CHAINS,
        chain_offset(steps, V_CHAINS as int) + LEAF_COMPRESSIONS + TREE_HEIGHT <= usize::MAX,
    ensures
        sig_eqs(k, steps, routed) == wires_eqs(
            witness_wires(steps, bits),
            0,
            k * COMPRESSIONS_PER_SIG,
            routed,
        ) + seq![
            Eq::Root {
                xi: (k * COMPRESSIONS_PER_SIG + witness_wires(steps, bits).len() - 1) as usize,
                sig: k as usize,
            },
        ],
{
    let base = k * COMPRESSIONS_PER_SIG;
    let t = chain_offset(steps, V_CHAINS as int);
    lemma_chain_offset_nonneg(steps, V_CHAINS as int);
    lemma_chain_lens::<B>(Seq::empty(), steps, V_CHAINS as nat);
    let cw = chain_wires(steps, V_CHAINS as nat);
    let lw = leaf_wires(steps, t);
    let pw = path_wires(bits, t);
    lemma_chains_eqs_mirror::<B>(base, steps, V_CHAINS as nat, routed);
    lemma_leaf_eqs_mirror(base, steps, LEAF_COMPRESSIONS as nat, routed);
    lemma_path_eqs_mirror(base, t, bits, TREE_HEIGHT as nat, routed);
    assert(lw.take(LEAF_COMPRESSIONS as int) =~= lw);
    assert(pw.take(TREE_HEIGHT as int) =~= pw);
    lemma_wires_eqs_concat(cw, lw, 0, base, routed);
    lemma_wires_eqs_concat(cw + lw, pw, 0, base, routed);
    assert(witness_wires(steps, bits) == cw + lw + pw);
}

/// The equations of the first `n` signatures' witnesses: for each signature
/// `k`, the equations of the wires `build_sig_witness` records for it, at its
/// first instance `k * COMPRESSIONS_PER_SIG`, then its `Root` equation.
pub open spec fn batch_wire_eqs(
    sigs: Seq<Signature>,
    steps: Seq<[usize; V_CHAINS]>,
    n: nat,
    routed: bool,
) -> Seq<Eq>
    decreases n,
{
    if n == 0 {
        seq![]
    } else {
        let k = n - 1;
        let ws = witness_wires(steps[k]@, sigs[k].path_bits@);
        batch_wire_eqs(sigs, steps, (n - 1) as nat, routed) + wires_eqs(
            ws,
            0,
            k * COMPRESSIONS_PER_SIG,
            routed,
        ) + seq![
            Eq::Root { xi: (k * COMPRESSIONS_PER_SIG + ws.len() - 1) as usize, sig: k as usize },
        ]
    }
}

/// The wiring of a batch mirrors its witnesses: for every batch whose
/// witnesses can be built, the equations `wiring` produces (routed, and
/// without the domain pins in the hidden wiring) are, signature by signature
/// and in order, the equations of the wires each signature's witness records,
/// shifted to its first instance, each followed by its `Root` equation.
pub proof fn lemma_wiring_mirrors_batch<B: Backend>(
    sigs: Seq<Signature>,
    steps: Seq<[usize; V_CHAINS]>,
    routed: bool,
)
    requires
        crate::witness::batch_fits(steps),
    ensures
        sigs_eqs(steps, steps.len(), routed) == batch_wire_eqs(sigs, steps, steps.len(), routed),
{
    lemma_wiring_mirrors_prefix::<B>(sigs, steps, steps.len(), routed);
}

/// The first `n` signatures' equations mirror their witnesses.
proof fn lemma_wiring_mirrors_prefix<B: Backend>(
    sigs: Seq<Signature>,
    steps: Seq<[usize; V_CHAINS]>,
    n: nat,
    routed: bool,
)
    requires
        crate::witness::batch_fits(steps),
        n <= steps.len(),
    ensures
        sigs_eqs(steps, n, routed) == batch_wire_eqs(sigs, steps, n, routed),
    decreases n,
{
    if n > 0 {
        let k = n - 1;
        lemma_wiring_mirrors_prefix::<B>(sigs, steps, (n - 1) as nat, routed);
        assert(chain_offset(steps[k]@, V_CHAINS as int) + LEAF_COMPRESSIONS + TREE_HEIGHT
            <= usize::MAX);
        lemma_wiring_mirrors_witness::<B>(k, steps[k]@, sigs[k].path_bits@, routed);
        let ws = witness_wires(steps[k]@, sigs[k].path_bits@);
        let a = batch_wire_eqs(sigs, steps, (n - 1) as nat, routed);
        let b = wires_eqs(ws, 0, k * COMPRESSIONS_PER_SIG, routed);
        let c = seq![
            Eq::Root { xi: (k * COMPRESSIONS_PER_SIG + ws.len() - 1) as usize, sig: k as usize },
        ];
        assert(a + (b + c) =~= a + b + c);
    }
}

} // verus!
