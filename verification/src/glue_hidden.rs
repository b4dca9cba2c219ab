//! Wiring for the sound aggregation with a hidden Merkle path.
//!
//! The Merkle levels carry no public path-bit routing: the running hash being
//! one of the two children is enforced privately by the hiding zerocheck. For
//! BLAKE3 each compression additionally pins its domain slot.
use vstd::prelude::*;

use crate::backend::{Backend, Digest};
use crate::glue::{pin, push_sig_eqs, sigs_eqs, wiring_fits, KONST_DOMAIN, SLOT_DOMAIN};
use crate::native::{
    build_validator_set, compute_leaf, compute_leaf_spec, lemma_vset_paths_reach_root, vset_auth,
    vset_bit, vset_root, Signature, MAX_VALIDATORS,
};
use crate::params::{COMPRESSIONS_PER_SIG, LEAF_COMPRESSIONS, TARGET_SUM, TREE_HEIGHT, V_CHAINS};
use crate::witness::{chain_offset, witness_root};

verus! {

/// Domain pins of the first `m` instances.
pub open spec fn domain_pins(m: nat) -> Seq<crate::glue::Eq> {
    Seq::new(m, |xi: int| pin(SLOT_DOMAIN, xi, KONST_DOMAIN))
}

/// The equations `wiring` produces.
pub open spec fn wiring_hidden_spec(steps_per_sig: Seq<[usize; V_CHAINS]>, has_domain: bool) -> Seq<crate::glue::Eq> {
    sigs_eqs(steps_per_sig, steps_per_sig.len(), false) + if has_domain {
        domain_pins((steps_per_sig.len() * COMPRESSIONS_PER_SIG) as nat)
    } else {
        Seq::empty()
    }
}

/// Deterministic wiring for the signatures, driven by each signature's
/// message-derived per-chain step counts; `has_domain` adds a domain-slot pin
/// for every compression.
pub fn wiring(steps_per_sig: &[[usize; V_CHAINS]], has_domain: bool) -> (eqs: Vec<crate::glue::Eq>)
    requires
        wiring_fits(steps_per_sig@),
        steps_per_sig@.len() * COMPRESSIONS_PER_SIG <= usize::MAX,
    ensures
        eqs@ == wiring_hidden_spec(steps_per_sig@, has_domain),
{
    let mut eqs: Vec<crate::glue::Eq> = Vec::new();
    let mut sig: usize = 0;
    while sig < steps_per_sig.len()
        invariant
            sig <= steps_per_sig@.len(),
            wiring_fits(steps_per_sig@),
            eqs@ == sigs_eqs(steps_per_sig@, sig as nat, false),
        decreases steps_per_sig@.len() - sig,
    {
        assert(sig * COMPRESSIONS_PER_SIG + chain_offset(steps_per_sig@[sig as int]@, V_CHAINS as int)
            + crate::params::LEAF_COMPRESSIONS + crate::params::TREE_HEIGHT <= usize::MAX);
        push_sig_eqs(&mut eqs, sig, &steps_per_sig[sig], false);
        sig = sig + 1;
    }
    let ghost eqs_sigs = eqs@;
    if has_domain {
        let n = steps_per_sig.len() * COMPRESSIONS_PER_SIG;
        let mut xi: usize = 0;
        while xi < n
            invariant
                xi <= n,
                eqs@ == eqs_sigs + domain_pins(xi as nat),
            decreases n - xi,
        {
            eqs.push(crate::glue::Eq::Pin { xs: SLOT_DOMAIN, xi, konst: KONST_DOMAIN });
            xi = xi + 1;
            assert(eqs@ =~= eqs_sigs + domain_pins(xi as nat));
        }
    } else {
        assert(eqs@ =~= eqs_sigs + Seq::<crate::glue::Eq>::empty());
    }
    eqs
}

/// The domain pins: with `has_domain`, the hidden wiring pins the domain slot
/// of every instance of the batch to the domain constant; without it, the
/// hidden wiring is the signatures' equations alone.
pub proof fn lemma_domain_pins_every_instance(steps_per_sig: Seq<[usize; V_CHAINS]>, xi: int)
    requires
        0 <= xi < steps_per_sig.len() * COMPRESSIONS_PER_SIG,
    ensures
        wiring_hidden_spec(steps_per_sig, true).contains(pin(SLOT_DOMAIN, xi, KONST_DOMAIN)),
        wiring_hidden_spec(steps_per_sig, false) == sigs_eqs(
            steps_per_sig,
            steps_per_sig.len(),
            false,
        ),
{
    let a = sigs_eqs(steps_per_sig, steps_per_sig.len(), false);
    let m = (steps_per_sig.len() * COMPRESSIONS_PER_SIG) as nat;
    assert(wiring_hidden_spec(steps_per_sig, true)[a.len() + xi] == pin(SLOT_DOMAIN, xi, KONST_DOMAIN));
    assert(wiring_hidden_spec(steps_per_sig, false) =~= a);
}

/// Little-endian bytes of a sequence of words.
pub open spec fn words_le_bytes(ws: Seq<u32>) -> Seq<u8>
    decreases ws.len(),
{
    if ws.len() == 0 {
        seq![]
    } else {
        words_le_bytes(ws.drop_last()) + vstd::bytes::spec_u32_to_le_bytes(ws.last())
    }
}

/// The words of a sequence of digests, in order.
pub open spec fn digests_words(ds: Seq<Digest>) -> Seq<u32>
    decreases ds.len(),
{
    if ds.len() == 0 {
        seq![]
    } else {
        digests_words(ds.drop_last()) + ds.last()@
    }
}

/// The step counts of a sequence of step tables, each as a `u32`, in order.
pub open spec fn steps_words(ss: Seq<[usize; V_CHAINS]>) -> Seq<u32>
    decreases ss.len(),
{
    if ss.len() == 0 {
        seq![]
    } else {
        steps_words(ss.drop_last()) + ss.last()@.map_values(|s: usize| s as u32)
    }
}

/// The public statement as transcript bytes: every root word, then every
/// per-chain step count, each as four little-endian bytes.
pub open spec fn statement_bytes_spec(roots: Seq<Digest>, steps: Seq<[usize; V_CHAINS]>) -> Seq<u8> {
    words_le_bytes(digests_words(roots) + steps_words(steps))
}

/// Four bytes per word.
proof fn lemma_words_le_bytes_len(ws: Seq<u32>)
    ensures
        words_le_bytes(ws).len() == 4 * ws.len(),
    decreases ws.len(),
{
    vstd::bytes::lemma_auto_spec_u32_to_from_le_bytes();
    if ws.len() > 0 {
        lemma_words_le_bytes_len(ws.drop_last());
    }
}

/// Equally long word sequences with equal bytes are equal.
proof fn lemma_words_le_bytes_injective(a: Seq<u32>, b: Seq<u32>)
    requires
        a.len() == b.len(),
        words_le_bytes(a) == words_le_bytes(b),
    ensures
        a == b,
    decreases a.len(),
{
    vstd::bytes::lemma_auto_spec_u32_to_from_le_bytes();
    if a.len() > 0 {
        let pa = words_le_bytes(a.drop_last());
        let pb = words_le_bytes(b.drop_last());
        let la = vstd::bytes::spec_u32_to_le_bytes(a.last());
        let lb = vstd::bytes::spec_u32_to_le_bytes(b.last());
        lemma_words_le_bytes_len(a.drop_last());
        lemma_words_le_bytes_len(b.drop_last());
        assert(pa =~= (pa + la).take(pa.len() as int));
        assert(pb =~= (pb + lb).take(pb.len() as int));
        assert(la =~= (pa + la).skip(pa.len() as int));
        assert(lb =~= (pb + lb).skip(pb.len() as int));
        lemma_words_le_bytes_injective(a.drop_last(), b.drop_last());
        assert(vstd::bytes::spec_u32_from_le_bytes(la) == a.last());
        assert(a =~= a.drop_last().push(a.last()));
        assert(b =~= b.drop_last().push(b.last()));
    }
}

/// Eight words per digest; equally many digests with equal words are equal.
proof fn lemma_digests_words_injective(a: Seq<Digest>, b: Seq<Digest>)
    requires
        a.len() == b.len(),
        digests_words(a) == digests_words(b),
    ensures
        a == b,
        digests_words(a).len() == 8 * a.len(),
    decreases a.len(),
{
    if a.len() > 0 {
        lemma_digests_words_len(a.drop_last());
        lemma_digests_words_len(b.drop_last());
        let pa = digests_words(a.drop_last());
        let pb = digests_words(b.drop_last());
        assert(pa =~= (pa + a.last()@).take(pa.len() as int));
        assert(pb =~= (pb + b.last()@).take(pb.len() as int));
        assert(a.last()@ =~= (pa + a.last()@).skip(pa.len() as int));
        assert(b.last()@ =~= (pb + b.last()@).skip(pb.len() as int));
        lemma_digests_words_injective(a.drop_last(), b.drop_last());
        assert(a.last() =~= b.last());
        assert(a =~= a.drop_last().push(a.last()));
        assert(b =~= b.drop_last().push(b.last()));
    }
}

/// Eight words per digest.
proof fn lemma_digests_words_len(a: Seq<Digest>)
    ensures
        digests_words(a).len() == 8 * a.len(),
    decreases a.len(),
{
    if a.len() > 0 {
        lemma_digests_words_len(a.drop_last());
    }
}

/// `V_CHAINS` words per step table; equally many tables whose counts fit in
/// 32 bits with equal words are equal.
proof fn lemma_steps_words_injective(a: Seq<[usize; V_CHAINS]>, b: Seq<[usize; V_CHAINS]>)
    requires
        a.len() == b.len(),
        steps_fit_u32(a),
        steps_fit_u32(b),
        steps_words(a) == steps_words(b),
    ensures
        a == b,
    decreases a.len(),
{
    if a.len() > 0 {
        lemma_steps_words_len(a.drop_last());
        lemma_steps_words_len(b.drop_last());
        let pa = steps_words(a.drop_last());
        let pb = steps_words(b.drop_last());
        let wa = a.last()@.map_values(|s: usize| s as u32);
        let wb = b.last()@.map_values(|s: usize| s as u32);
        assert(pa =~= (pa + wa).take(pa.len() as int));
        assert(pb =~= (pb + wb).take(pb.len() as int));
        assert(wa =~= (pa + wa).skip(pa.len() as int));
        assert(wb =~= (pb + wb).skip(pb.len() as int));
        assert(steps_fit_u32(a.drop_last()));
        assert(steps_fit_u32(b.drop_last()));
        lemma_steps_words_injective(a.drop_last(), b.drop_last());
        assert forall|c: int| 0 <= c < V_CHAINS implies a.last()[c] == b.last()[c] by {
            assert(a[a.len() - 1][c] < 0x1_0000_0000);
            assert(b[b.len() - 1][c] < 0x1_0000_0000);
            assert(wa[c] == wb[c]);
        }
        assert(a.last() =~= b.last());
        assert(a =~= a.drop_last().push(a.last()));
        assert(b =~= b.drop_last().push(b.last()));
    }
}

/// `V_CHAINS` words per step table.
proof fn lemma_steps_words_len(a: Seq<[usize; V_CHAINS]>)
    ensures
        steps_words(a).len() == V_CHAINS * a.len(),
    decreases a.len(),
{
    if a.len() > 0 {
        lemma_steps_words_len(a.drop_last());
    }
}

/// Every step count fits in 32 bits.
pub open spec fn steps_fit_u32(steps: Seq<[usize; V_CHAINS]>) -> bool {
    forall|k: int, c: int| 0 <= k < steps.len() && 0 <= c < V_CHAINS ==> #[trigger] steps[k][c] < 0x1_0000_0000
}

/// The statement bytes bind the statement: two statements with as many
/// signatures (and step counts that fit in 32 bits, as message-derived counts
/// do) whose bytes agree have the same roots and the same step counts.
pub proof fn lemma_statement_bytes_binding(
    roots_a: Seq<Digest>,
    steps_a: Seq<[usize; V_CHAINS]>,
    roots_b: Seq<Digest>,
    steps_b: Seq<[usize; V_CHAINS]>,
)
    requires
        roots_a.len() == roots_b.len(),
        steps_a.len() == steps_b.len(),
        steps_fit_u32(steps_a),
        steps_fit_u32(steps_b),
        statement_bytes_spec(roots_a, steps_a) == statement_bytes_spec(roots_b, steps_b),
    ensures
        roots_a == roots_b,
        steps_a == steps_b,
{
    let ra = digests_words(roots_a);
    let rb = digests_words(roots_b);
    let sa = steps_words(steps_a);
    let sb = steps_words(steps_b);
    lemma_digests_words_len(roots_a);
    lemma_digests_words_len(roots_b);
    lemma_steps_words_len(steps_a);
    lemma_steps_words_len(steps_b);
    lemma_words_le_bytes_injective(ra + sa, rb + sb);
    assert(ra =~= (ra + sa).take(ra.len() as int));
    assert(rb =~= (rb + sb).take(rb.len() as int));
    assert(sa =~= (ra + sa).skip(ra.len() as int));
    assert(sb =~= (rb + sb).skip(rb.len() as int));
    lemma_digests_words_injective(roots_a, roots_b);
    lemma_steps_words_injective(steps_a, steps_b);
}

/// Append one word's little-endian bytes.
fn push_word_le(bytes: &mut Vec<u8>, w: u32, words: Ghost<Seq<u32>>)
    requires
        old(bytes)@ == words_le_bytes(words@),
    ensures
        final(bytes)@ == words_le_bytes(words@.push(w)),
{
    let mut le = vstd::bytes::u32_to_le_bytes(w);
    bytes.append(&mut le);
    assert(words@.push(w).drop_last() =~= words@);
}

/// The bytes absorbed into the transcript to bind the public statement
/// (per-signature roots and message-derived chain positions).
pub fn statement_bytes(roots: &[Digest], steps: &[[usize; V_CHAINS]]) -> (r: Vec<u8>)
    ensures
        r@ == statement_bytes_spec(roots@, steps@),
{
    let mut bytes: Vec<u8> = Vec::new();
    let ghost mut words: Seq<u32> = seq![];
    let mut a: usize = 0;
    while a < roots.len()
        invariant
            a <= roots@.len(),
            words == digests_words(roots@.take(a as int)),
            bytes@ == words_le_bytes(words),
        decreases roots@.len() - a,
    {
        let ghost prefix = words;
        let mut b: usize = 0;
        while b < 8
            invariant
                a < roots@.len(),
                b <= 8,
                words == prefix + roots@[a as int]@.take(b as int),
                bytes@ == words_le_bytes(words),
            decreases 8 - b,
        {
            push_word_le(&mut bytes, roots[a][b], Ghost(words));
            proof {
                words = words.push(roots@[a as int][b as int]);
            }
            b = b + 1;
            assert(words =~= prefix + roots@[a as int]@.take(b as int));
        }
        assert(roots@.take(a + 1).drop_last() =~= roots@.take(a as int));
        assert(roots@[a as int]@.take(8) =~= roots@[a as int]@);
        a = a + 1;
        assert(words =~= digests_words(roots@.take(a as int)));
    }
    assert(roots@.take(roots@.len() as int) =~= roots@);
    let ghost root_words = words;
    let mut a: usize = 0;
    while a < steps.len()
        invariant
            a <= steps@.len(),
            root_words == digests_words(roots@),
            words == root_words + steps_words(steps@.take(a as int)),
            bytes@ == words_le_bytes(words),
        decreases steps@.len() - a,
    {
        let ghost prefix = words;
        let mut b: usize = 0;
        while b < V_CHAINS
            invariant
                a < steps@.len(),
                b <= V_CHAINS,
                words == prefix + steps@[a as int]@.map_values(|s: usize| s as u32).take(b as int),
                bytes@ == words_le_bytes(words),
            decreases V_CHAINS - b,
        {
            let w = steps[a][b] as u32;
            push_word_le(&mut bytes, w, Ghost(words));
            proof {
                words = words.push(w);
            }
            b = b + 1;
            assert(words =~= prefix + steps@[a as int]@.map_values(|s: usize| s as u32).take(b as int));
        }
        assert(steps@.take(a + 1).drop_last() =~= steps@.take(a as int));
        assert(steps@[a as int]@.map_values(|s: usize| s as u32).take(V_CHAINS as int)
            =~= steps@[a as int]@.map_values(|s: usize| s as u32));
        a = a + 1;
        assert(words =~= root_words + steps_words(steps@.take(a as int)));
    }
    assert(steps@.take(steps@.len() as int) =~= steps@);
    bytes
}

/// Whether instance `i` is a Merkle level of one of the first `k_sigs`
/// signatures (the last `TREE_HEIGHT` compressions of each).
pub open spec fn is_merkle_instance(k_sigs: int, i: int) -> bool {
    i < k_sigs * COMPRESSIONS_PER_SIG && i % (COMPRESSIONS_PER_SIG as int) >= COMPRESSIONS_PER_SIG
        - TREE_HEIGHT
}

/// The mask is set exactly on the path levels of the signatures: instance
/// `i` is masked iff it is level `l < TREE_HEIGHT` of the path of some
/// signature `k < k_sigs`, at `k * COMPRESSIONS_PER_SIG + TARGET_SUM + LEAF_COMPRESSIONS + l`.
pub proof fn lemma_merkle_instances_are_path_levels(k_sigs: int, i: int)
    requires
        0 <= k_sigs,
        0 <= i,
    ensures
        is_merkle_instance(k_sigs, i) <==> {
            let k = i / (COMPRESSIONS_PER_SIG as int);
            let l = i % (COMPRESSIONS_PER_SIG as int) - (TARGET_SUM + LEAF_COMPRESSIONS);
            &&& k < k_sigs
            &&& 0 <= l < TREE_HEIGHT
            &&& i == k * COMPRESSIONS_PER_SIG + TARGET_SUM + LEAF_COMPRESSIONS + l
        },
{
    let k = i / (COMPRESSIONS_PER_SIG as int);
    let r = i % (COMPRESSIONS_PER_SIG as int);
    vstd::arithmetic::div_mod::lemma_fundamental_div_mod(i, COMPRESSIONS_PER_SIG as int);
    assert(0 <= r < COMPRESSIONS_PER_SIG);
    if k < k_sigs {
        assert(i < k_sigs * COMPRESSIONS_PER_SIG) by (nonlinear_arith)
            requires
                i == k * 168 + r,
                r < 168,
                k + 1 <= k_sigs,
        ;
    } else {
        assert(i >= k_sigs * COMPRESSIONS_PER_SIG) by (nonlinear_arith)
            requires
                i == k * 168 + r,
                r >= 0,
                k >= k_sigs,
                k_sigs >= 0,
        ;
    }
}

/// Public mask over the instance cube: set on Merkle-level instances, clear
/// elsewhere.
pub fn merkle_mask(k_sigs: usize, n: usize) -> (m: Vec<bool>)
    requires
        k_sigs * COMPRESSIONS_PER_SIG <= n,
    ensures
        m@.len() == n,
        forall|i: int| 0 <= i < n ==> #[trigger] m@[i] == is_merkle_instance(k_sigs as int, i),
{
    let lim = k_sigs * COMPRESSIONS_PER_SIG;
    let mut m: Vec<bool> = Vec::new();
    let mut i: usize = 0;
    while i < n
        invariant
            i <= n,
            lim == k_sigs * COMPRESSIONS_PER_SIG,
            m@.len() == i,
            forall|j: int| 0 <= j < i ==> #[trigger] m@[j] == is_merkle_instance(k_sigs as int, j),
        decreases n - i,
    {
        m.push(i < lim && i % COMPRESSIONS_PER_SIG >= COMPRESSIONS_PER_SIG - TREE_HEIGHT);
        i = i + 1;
    }
    m
}

/// The opening point of a claim: `[tau_pos.., slot_bits.., 0^high, instance..]`,
/// where the first `n_slots_log` coordinates of `sc_point` are the slot bits
/// and `high = k_log - log_packing - |tau_pos| - n_slots_log`.
pub open spec fn claim_point_spec<T>(
    tau_pos: Seq<T>,
    sc_point: Seq<T>,
    high: nat,
    n_slots_log: int,
    zero: T,
) -> Seq<T> {
    tau_pos + sc_point.take(n_slots_log) + Seq::new(high, |i: int| zero) + sc_point.skip(
        n_slots_log,
    )
}

/// Claim point (row-major): `[tau_pos.., slot_bits.., 0^high, instance..]`.
pub fn claim_point<T: Copy>(
    tau_pos: &[T],
    sc_point: &[T],
    k_log: usize,
    n_slots_log: usize,
    log_packing: usize,
    zero: T,
) -> (r: Vec<T>)
    requires
        n_slots_log <= sc_point@.len(),
        log_packing + tau_pos@.len() + n_slots_log <= k_log,
    ensures
        r@ == claim_point_spec(
            tau_pos@,
            sc_point@,
            (k_log - log_packing - tau_pos@.len() - n_slots_log) as nat,
            n_slots_log as int,
            zero,
        ),
{
    let high = k_log - log_packing - tau_pos.len() - n_slots_log;
    let mut pt: Vec<T> = Vec::new();
    let mut i: usize = 0;
    while i < tau_pos.len()
        invariant
            i <= tau_pos@.len(),
            pt@ == tau_pos@.take(i as int),
        decreases tau_pos@.len() - i,
    {
        pt.push(tau_pos[i]);
        i = i + 1;
        assert(pt@ =~= tau_pos@.take(i as int));
    }
    assert(tau_pos@.take(tau_pos@.len() as int) =~= tau_pos@);
    let mut i: usize = 0;
    while i < n_slots_log
        invariant
            n_slots_log <= sc_point@.len(),
            i <= n_slots_log,
            pt@ == tau_pos@ + sc_point@.take(i as int),
        decreases n_slots_log - i,
    {
        pt.push(sc_point[i]);
        i = i + 1;
        assert(pt@ =~= tau_pos@ + sc_point@.take(i as int));
    }
    let mut i: usize = 0;
    while i < high
        invariant
            i <= high,
            pt@ == tau_pos@ + sc_point@.take(n_slots_log as int) + Seq::new(i as nat, |j: int| zero),
        decreases high - i,
    {
        pt.push(zero);
        i = i + 1;
        assert(pt@ =~= tau_pos@ + sc_point@.take(n_slots_log as int) + Seq::new(i as nat, |j: int| zero));
    }
    let ghost head = pt@;
    let mut i: usize = n_slots_log;
    while i < sc_point.len()
        invariant
            n_slots_log <= i <= sc_point@.len(),
            pt@ == head + sc_point@.subrange(n_slots_log as int, i as int),
        decreases sc_point@.len() - i,
    {
        pt.push(sc_point[i]);
        i = i + 1;
        assert(pt@ =~= head + sc_point@.subrange(n_slots_log as int, i as int));
    }
    assert(sc_point@.subrange(n_slots_log as int, sc_point@.len() as int) =~= sc_point@.skip(
        n_slots_log as int,
    ));
    pt
}

/// The leaves of the validator set: each signer's recomputed XMSS leaf.
pub open spec fn membership_leaves<B: Backend>(
    sigs: Seq<Signature>,
    steps: Seq<[usize; V_CHAINS]>,
) -> Seq<Digest> {
    Seq::new(sigs.len(), |i: int| compute_leaf_spec::<B>(sigs[i].chain_values@, steps[i]@))
}

/// Membership statement: each signer's XMSS pubkey (its leaf) becomes a leaf
/// of one validator-set tree. Returns the signatures rebuilt with their
/// membership paths (leaf to `V`) and the validator-set root `V`.
pub fn membership_signatures<B: Backend>(sigs: &[Signature], steps: &[[usize; V_CHAINS]]) -> (r: (
    Vec<Signature>,
    Digest,
))
    requires
        sigs@.len() == steps@.len(),
        sigs@.len() <= MAX_VALIDATORS,
    ensures
        r.1 == vset_root::<B>(membership_leaves::<B>(sigs@, steps@)),
        r.0@.len() == sigs@.len(),
        forall|i: int|
            0 <= i < sigs@.len() ==> (#[trigger] r.0@[i]).chain_values == sigs@[i].chain_values,
        forall|i: int, l: int|
            0 <= i < sigs@.len() && 0 <= l < TREE_HEIGHT ==> #[trigger] r.0@[i].auth_path[l]
                == vset_auth::<B>(membership_leaves::<B>(sigs@, steps@), i, l as nat),
        forall|i: int, l: int|
            0 <= i < sigs@.len() && 0 <= l < TREE_HEIGHT ==> #[trigger] r.0@[i].path_bits[l]
                == vset_bit(i, l as nat),
        forall|i: int| 0 <= i < sigs@.len() ==> witness_root::<B>(#[trigger] r.0@[i], steps@[i]@) == r.1,
{
    let ghost leaves_spec = membership_leaves::<B>(sigs@, steps@);
    let mut leaves: Vec<Digest> = Vec::new();
    let mut i: usize = 0;
    while i < sigs.len()
        invariant
            i <= sigs@.len(),
            sigs@.len() == steps@.len(),
            leaves_spec == membership_leaves::<B>(sigs@, steps@),
            leaves@ == leaves_spec.take(i as int),
        decreases sigs@.len() - i,
    {
        leaves.push(compute_leaf::<B>(&sigs[i], &steps[i]));
        i = i + 1;
        assert(leaves@ =~= leaves_spec.take(i as int));
    }
    assert(leaves_spec.take(sigs@.len() as int) =~= leaves_spec);
    let (v, paths) = build_validator_set::<B>(leaves.as_slice());
    let mut members: Vec<Signature> = Vec::new();
    let mut i: usize = 0;
    while i < sigs.len()
        invariant
            i <= sigs@.len(),
            sigs@.len() == steps@.len(),
            sigs@.len() <= MAX_VALIDATORS,
            leaves@ == leaves_spec,
            leaves_spec == membership_leaves::<B>(sigs@, steps@),
            v == vset_root::<B>(leaves_spec),
            paths@.len() == sigs@.len(),
            forall|a: int, b: int|
                0 <= a < sigs@.len() && 0 <= b < TREE_HEIGHT ==> #[trigger] paths@[a].0[b]
                    == vset_auth::<B>(leaves_spec, a, b as nat),
            forall|a: int, b: int|
                0 <= a < sigs@.len() && 0 <= b < TREE_HEIGHT ==> #[trigger] paths@[a].1[b]
                    == vset_bit(a, b as nat),
            members@.len() == i,
            forall|a: int| 0 <= a < i ==> (#[trigger] members@[a]).chain_values == sigs@[a].chain_values,
            forall|a: int| 0 <= a < i ==> (#[trigger] members@[a]).auth_path == paths@[a].0,
            forall|a: int| 0 <= a < i ==> (#[trigger] members@[a]).path_bits == paths@[a].1,
            forall|a: int| 0 <= a < i ==> witness_root::<B>(#[trigger] members@[a], steps@[a]@) == v,
        decreases sigs@.len() - i,
    {
        let m = Signature {
            chain_values: sigs[i].chain_values,
            auth_path: paths[i].0,
            path_bits: paths[i].1,
        };
        proof {
            lemma_vset_paths_reach_root::<B>(leaves_spec, i as int, m.auth_path@, m.path_bits@);
        }
        members.push(m);
        i = i + 1;
    }
    (members, v)
}

} // verus!
