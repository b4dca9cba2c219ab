//! Witnesses, replay, batch and membership witnesses, and the wiring
//! equations evaluated on them, over a stand-in compression backend.
use flock_xmss::backend::{Backend, Digest};
use flock_xmss::glue::{
    KONST_IV, KONST_PAD, SLOT_BY_PATH_BIT, SLOT_H, SLOT_HI, SLOT_LO, SLOT_OUT,
};
use flock_xmss::glue_hidden::membership_signatures;
use flock_xmss::native::{encode_message, keygen, node_hash, sign, Rng, Signature, CHAIN_PAD};
use flock_xmss::params::{COMPRESSIONS_PER_SIG, LEAF_COMPRESSIONS, TARGET_SUM, TREE_HEIGHT, V_CHAINS};
use flock_xmss::witness::{
    build_batch_witness, build_sig_witness, replay_and_check, try_replay_and_check, SigWitness, Triple, Wire,
};

fn mix64(mut z: u64) -> u64 {
    z = (z ^ (z >> 30)).wrapping_mul(0xBF58_476D_1CE4_E5B9);
    z = (z ^ (z >> 27)).wrapping_mul(0x94D0_49BB_1331_11EB);
    z ^ (z >> 31)
}

fn mix_compress(h: &Digest, lo: &Digest, hi: &Digest) -> Digest {
    let mut st = 7u64;
    for w in h.iter().chain(lo.iter()).chain(hi.iter()) {
        st = mix64(st ^ (*w as u64)).wrapping_add(0x9E37_79B9_7F4A_7C15);
    }
    let mut out = [0u32; 8];
    for (k, o) in out.iter_mut().enumerate() {
        st = mix64(st.wrapping_add(k as u64 + 1));
        *o = st as u32;
    }
    out
}

const IV: Digest = [1, 2, 3, 4, 5, 6, 7, 8];

/// A stand-in backend whose instance is the triple itself.
struct Mix;

impl Backend for Mix {
    type Instance = Triple;
    const NAME: &'static str = "mix";
    fn spec_iv() -> Digest { IV }
    fn spec_compress(h: Digest, lo: Digest, hi: Digest) -> Digest { mix_compress(&h, &lo, &hi) }
    fn spec_instance(h: Digest, lo: Digest, hi: Digest) -> Triple { (h, lo, hi) }
    fn iv() -> Digest { IV }
    fn compress(h: &Digest, lo: &Digest, hi: &Digest) -> Digest { mix_compress(h, lo, hi) }
    fn instance(h: &Digest, lo: &Digest, hi: &Digest) -> Triple { (*h, *lo, *hi) }
}

fn out(t: &Triple) -> Digest {
    mix_compress(&t.0, &t.1, &t.2)
}

fn slot(ts: &[Triple], s: usize, i: usize) -> Digest {
    match s {
        SLOT_H => ts[i].0,
        SLOT_OUT => out(&ts[i]),
        SLOT_LO => ts[i].1,
        _ => ts[i].2,
    }
}

/// Evaluate one wiring equation on a batch.
fn holds(eq: &flock_xmss::glue::Eq, ts: &[Triple], roots: &[Digest], bits: &[[bool; TREE_HEIGHT]]) -> bool {
    match *eq {
        flock_xmss::glue::Eq::Link { xs, xi, ys, yi } => {
            let xs = if xs == SLOT_BY_PATH_BIT {
                let lvl = xi % COMPRESSIONS_PER_SIG - (COMPRESSIONS_PER_SIG - TREE_HEIGHT);
                if bits[xi / COMPRESSIONS_PER_SIG][lvl] { SLOT_HI } else { SLOT_LO }
            } else {
                xs
            };
            slot(ts, xs, xi) == slot(ts, ys, yi)
        }
        flock_xmss::glue::Eq::Pin { xs, xi, konst } => {
            slot(ts, xs, xi) == if konst == KONST_IV { IV } else { CHAIN_PAD }
        }
        flock_xmss::glue::Eq::Root { xi, sig } => out(&ts[xi]) == roots[sig],
    }
}

fn fixtures(k: usize) -> (Vec<Signature>, Vec<Digest>, Vec<[usize; V_CHAINS]>, Vec<Digest>) {
    let keys: Vec<_> = (0..k).map(|i| keygen::<Mix>(0x600D + i as u64)).collect();
    let msgs: Vec<Digest> = (0..k).map(|i| Rng(0xCD00 + i as u64).digest()).collect();
    let sigs: Vec<Signature> = keys.iter().zip(&msgs).map(|(kp, m)| sign::<Mix>(kp, m)).collect();
    let steps: Vec<[usize; V_CHAINS]> = msgs.iter().map(|m| encode_message::<Mix>(m).0).collect();
    let roots = keys.iter().map(|kp| kp.root).collect();
    (sigs, msgs, steps, roots)
}

#[test]
fn batch_witness_concatenates_signature_witnesses() {
    let (sigs, _msgs, steps, roots) = fixtures(3);
    let (instances, computed) = build_batch_witness::<Mix>(&sigs, &steps);
    assert_eq!(instances.len(), 3 * COMPRESSIONS_PER_SIG);
    assert_eq!(computed, roots);
    for (k, (sig, st)) in sigs.iter().zip(&steps).enumerate() {
        let w: SigWitness<Mix> = build_sig_witness::<Mix>(sig, st);
        assert_eq!(&instances[k * COMPRESSIONS_PER_SIG..(k + 1) * COMPRESSIONS_PER_SIG], &w.triples[..]);
    }
}

#[test]
fn honest_batch_satisfies_every_wiring_equation() {
    let (sigs, _msgs, steps, roots) = fixtures(3);
    let (ts, _) = build_batch_witness::<Mix>(&sigs, &steps);
    let bits: Vec<[bool; TREE_HEIGHT]> = sigs.iter().map(|s| s.path_bits).collect();
    let eqs = flock_xmss::glue::wiring(&steps);
    assert!(eqs.iter().all(|e| holds(e, &ts, &roots, &bits)));
    let hidden = flock_xmss::glue_hidden::wiring(&steps, false);
    assert!(hidden.iter().all(|e| holds(e, &ts, &roots, &bits)));
}

#[test]
fn forged_chain_link_breaks_an_equation() {
    let (sigs, _msgs, steps, roots) = fixtures(2);
    let (mut ts, _) = build_batch_witness::<Mix>(&sigs, &steps);
    let bits: Vec<[bool; TREE_HEIGHT]> = sigs.iter().map(|s| s.path_bits).collect();
    // Instance 1 is the second step of the first chain (every chain has steps
    // here or not: find one that continues a chain).
    let w = build_sig_witness::<Mix>(&sigs[0], &steps[0]);
    let i = w.wires.iter().position(|x| matches!(x, Wire::ChainStep { prev: Some(_) })).unwrap();
    ts[i].1[0] ^= 1;
    let eqs = flock_xmss::glue::wiring(&steps);
    assert!(!eqs.iter().all(|e| holds(e, &ts, &roots, &bits)));
}

#[test]
fn forged_pad_breaks_an_equation() {
    let (sigs, _msgs, steps, roots) = fixtures(2);
    let (mut ts, _) = build_batch_witness::<Mix>(&sigs, &steps);
    let bits: Vec<[bool; TREE_HEIGHT]> = sigs.iter().map(|s| s.path_bits).collect();
    ts[7].2[4] ^= 0xdead_beef;
    let eqs = flock_xmss::glue::wiring(&steps);
    assert!(!eqs.iter().all(|e| holds(e, &ts, &roots, &bits)));
}

#[test]
fn wrong_root_breaks_the_root_equation() {
    let (sigs, _msgs, steps, mut roots) = fixtures(4);
    let (ts, _) = build_batch_witness::<Mix>(&sigs, &steps);
    let bits: Vec<[bool; TREE_HEIGHT]> = sigs.iter().map(|s| s.path_bits).collect();
    roots[2][0] ^= 1;
    let eqs = flock_xmss::glue::wiring(&steps);
    let failing: Vec<_> = eqs.iter().filter(|e| !holds(e, &ts, &roots, &bits)).collect();
    assert_eq!(failing.len(), 1);
    assert!(matches!(failing[0], flock_xmss::glue::Eq::Root { sig: 2, .. }));
}

#[test]
fn wiring_layout_matches_witness_wires() {
    let (sigs, _msgs, steps, _roots) = fixtures(1);
    let w = build_sig_witness::<Mix>(&sigs[0], &steps[0]);
    assert_eq!(w.wires.len(), COMPRESSIONS_PER_SIG);
    assert!(matches!(w.wires[0], Wire::ChainStep { prev: None }));
    assert!(matches!(w.wires[TARGET_SUM], Wire::LeafAbsorb { prev: None, .. }));
    assert!(matches!(w.wires[TARGET_SUM + 1], Wire::LeafAbsorb { prev: Some(p), .. } if p == TARGET_SUM));
    let first_path = TARGET_SUM + LEAF_COMPRESSIONS;
    assert!(matches!(w.wires[first_path], Wire::PathNode { child, .. } if child == first_path - 1));
    assert_eq!(replay_and_check::<Mix>(&w), w.computed_root);
}

#[test]
fn replay_rejects_missing_instances() {
    let (sigs, _msgs, steps, _roots) = fixtures(1);
    let mut w = build_sig_witness::<Mix>(&sigs[0], &steps[0]);
    w.triples.truncate(10);
    assert_eq!(try_replay_and_check::<Mix>(&w), None);
    let empty: SigWitness<Mix> =
        SigWitness { triples: vec![], instances: vec![], wires: vec![], computed_root: IV };
    assert_eq!(try_replay_and_check::<Mix>(&empty), None);
    let mut bad_link = build_sig_witness::<Mix>(&sigs[0], &steps[0]);
    bad_link.wires[0] = Wire::ChainStep { prev: Some(10_000) };
    assert_eq!(try_replay_and_check::<Mix>(&bad_link), None);
}

#[test]
fn membership_paths_reach_a_single_root() {
    let (sigs, _msgs, steps, _roots) = fixtures(4);
    let (members, v) = membership_signatures::<Mix>(&sigs, &steps);
    assert_eq!(members.len(), 4);
    for (m, (sig, st)) in members.iter().zip(sigs.iter().zip(&steps)) {
        assert_eq!(m.chain_values, sig.chain_values);
        let w = build_sig_witness::<Mix>(m, st);
        assert_eq!(w.computed_root, v, "membership path must reach V");
        assert_eq!(replay_and_check::<Mix>(&w), v);
    }
    // Leaf 0's first sibling is leaf 1.
    let leaf1 = build_sig_witness::<Mix>(&sigs[1], &steps[1]).triples[TARGET_SUM + LEAF_COMPRESSIONS - 1];
    assert_eq!(members[0].auth_path[0], out(&leaf1));
    assert!(!members[0].path_bits[0]);
    assert!(members[1].path_bits[0]);
    // The level-1 node over leaves 0 and 1 is leaf 2's first-level sibling's parent.
    let n01 = node_hash::<Mix>(&out(&build_sig_witness::<Mix>(&sigs[0], &steps[0]).triples[TARGET_SUM + LEAF_COMPRESSIONS - 1]), &out(&leaf1));
    assert_eq!(members[2].auth_path[1], n01);
}

/// The equations one wire stands for, at instance `i` of a signature starting at `base`.
fn wire_equations(w: &Wire, i: usize, base: usize, routed: bool) -> Vec<flock_xmss::glue::Eq> {
    let idx = base + i;
    let link = |xs: usize, t: usize| flock_xmss::glue::Eq::Link { xs, xi: idx, ys: SLOT_OUT, yi: base + t };
    let mut v = Vec::new();
    match *w {
        Wire::ChainStep { prev } => {
            if let Some(p) = prev {
                v.push(link(SLOT_LO, p));
            }
            v.push(flock_xmss::glue::Eq::Pin { xs: SLOT_HI, xi: idx, konst: KONST_PAD });
            v.push(flock_xmss::glue::Eq::Pin { xs: SLOT_H, xi: idx, konst: KONST_IV });
        }
        Wire::LeafAbsorb { prev, l, r } => {
            match prev {
                Some(p) => v.push(link(SLOT_H, p)),
                None => v.push(flock_xmss::glue::Eq::Pin { xs: SLOT_H, xi: idx, konst: KONST_IV }),
            }
            if let Some(t) = l {
                v.push(link(SLOT_LO, t));
            }
            if let Some(t) = r {
                v.push(link(SLOT_HI, t));
            }
        }
        Wire::PathNode { child, .. } => {
            v.push(flock_xmss::glue::Eq::Pin { xs: SLOT_H, xi: idx, konst: KONST_IV });
            if routed {
                v.push(link(SLOT_BY_PATH_BIT, child));
            }
        }
    }
    v
}

#[test]
fn wiring_mirrors_witness_wires() {
    let (sigs, _msgs, steps, _roots) = fixtures(2);
    for routed in [true, false] {
        let eqs = if routed {
            flock_xmss::glue::wiring(&steps)
        } else {
            flock_xmss::glue_hidden::wiring(&steps, false)
        };
        let mut expected = Vec::new();
        for (k, (sig, st)) in sigs.iter().zip(&steps).enumerate() {
            let base = k * COMPRESSIONS_PER_SIG;
            let w = build_sig_witness::<Mix>(sig, st);
            for (i, wire) in w.wires.iter().enumerate() {
                expected.extend(wire_equations(wire, i, base, routed));
            }
            expected.push(flock_xmss::glue::Eq::Root { xi: base + w.wires.len() - 1, sig: k });
        }
        assert_eq!(format!("{eqs:?}"), format!("{expected:?}"));
    }
}
