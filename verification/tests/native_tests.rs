//! Native XMSS over two stand-in compression backends: the verifier logic is
//! hash-agnostic, so every property here holds for any compression function.
use flock_xmss::backend::{Backend, Digest};
use flock_xmss::native::{
    build_validator_set, chain_step, compute_leaf, digest_eq, encode_message, try_encode_message,
    keygen, leaf_hash, node_hash, sign, verify, Rng, Signature, CHAIN_PAD, VSET_PAD,
};
use flock_xmss::params::{TARGET_SUM, TREE_HEIGHT, V_CHAINS, W};
use flock_xmss::witness::{build_sig_witness, replay_and_check, try_replay_and_check};

fn mix64(mut z: u64) -> u64 {
    z = (z ^ (z >> 30)).wrapping_mul(0xBF58_476D_1CE4_E5B9);
    z = (z ^ (z >> 27)).wrapping_mul(0x94D0_49BB_1331_11EB);
    z ^ (z >> 31)
}

fn mix_compress(key: u64, h: &Digest, lo: &Digest, hi: &Digest) -> Digest {
    let mut st = key;
    for w in h.iter().chain(lo.iter()).chain(hi.iter()) {
        st = mix64(st ^ (*w as u64)).wrapping_add(0x9E37_79B9_7F4A_7C15);
    }
    let mut out = [0u32; 8];
    for (k, o) in out.iter_mut().enumerate() {
        st = mix64(st.wrapping_add(k as u64 + 1));
        *o = st as u32;
    }
    out
}

const IV: Digest = [
    0x6A09_E667, 0xBB67_AE85, 0x3C6E_F372, 0xA54F_F53A,
    0x510E_527F, 0x9B05_688C, 0x1F83_D9AB, 0x5BE0_CD19,
];

/// First stand-in backend.
struct MixA;
/// Second stand-in backend (a different compression function).
struct MixB;

impl Backend for MixA {
    type Instance = ([u32; 8], [u32; 16]);
    const NAME: &'static str = "mix-a";
    fn spec_iv() -> Digest { IV }
    fn spec_compress(h: Digest, lo: Digest, hi: Digest) -> Digest { mix_compress(1, &h, &lo, &hi) }
    fn spec_instance(h: Digest, lo: Digest, hi: Digest) -> Self::Instance {
        let mut m = [0u32; 16];
        m[..8].copy_from_slice(&lo);
        m[8..].copy_from_slice(&hi);
        (h, m)
    }
    fn iv() -> Digest { IV }
    fn compress(h: &Digest, lo: &Digest, hi: &Digest) -> Digest { mix_compress(1, h, lo, hi) }
    fn instance(h: &Digest, lo: &Digest, hi: &Digest) -> Self::Instance {
        Self::spec_instance(*h, *lo, *hi)
    }
}

impl Backend for MixB {
    type Instance = ([u32; 8], [u32; 16], u64, u32, u32);
    const NAME: &'static str = "mix-b";
    fn spec_iv() -> Digest { IV }
    fn spec_compress(h: Digest, lo: Digest, hi: Digest) -> Digest { mix_compress(2, &h, &lo, &hi) }
    fn spec_instance(h: Digest, lo: Digest, hi: Digest) -> Self::Instance {
        let mut m = [0u32; 16];
        m[..8].copy_from_slice(&lo);
        m[8..].copy_from_slice(&hi);
        (h, m, 0, 64, 11)
    }
    fn iv() -> Digest { IV }
    fn compress(h: &Digest, lo: &Digest, hi: &Digest) -> Digest { mix_compress(2, h, lo, hi) }
    fn instance(h: &Digest, lo: &Digest, hi: &Digest) -> Self::Instance {
        Self::spec_instance(*h, *lo, *hi)
    }
}

fn roundtrip<B: Backend>() {
    let kp = keygen::<B>(0xC0FFEE);
    let msg = Rng(0xABCD).digest();
    let sig = sign::<B>(&kp, &msg);
    assert!(verify::<B>(&sig, &msg, &kp.root), "{} honest verify", B::NAME);

    let mut bad = sign::<B>(&kp, &msg);
    bad.chain_values[7][0] ^= 1;
    assert!(!verify::<B>(&bad, &msg, &kp.root), "{} tampered must fail", B::NAME);

    let (steps, _ctr) = encode_message::<B>(&msg);
    let w = build_sig_witness::<B>(&sig, &steps);
    assert_eq!(w.instances.len(), flock_xmss::params::COMPRESSIONS_PER_SIG);
    assert_eq!(w.computed_root, kp.root, "{} witness root", B::NAME);
    assert_eq!(replay_and_check::<B>(&w), kp.root, "{} replay root", B::NAME);
}

fn tamper_detected<B: Backend>() {
    let kp = keygen::<B>(0xBAD_5EED);
    let msg = Rng(0x1234).digest();
    let sig = sign::<B>(&kp, &msg);
    let (steps, _ctr) = encode_message::<B>(&msg);
    let mut w = build_sig_witness::<B>(&sig, &steps);
    w.triples[5].1[0] ^= 1; // corrupt one chain input value
    // A tampered witness is outside what `replay_and_check` accepts: the
    // checking replay reports that it does not replay.
    assert_eq!(try_replay_and_check::<B>(&w), None, "{} tampered wiring must not replay", B::NAME);
}

// The SHA-256 and BLAKE3 backends compress through the Flock prover crate,
// which these tests cannot link. Each of the next five tests therefore runs on
// a stand-in backend: `MixA` where the name says SHA-256 (a 16-word message
// instance, as SHA-256 has) and `MixB` where it says BLAKE3 (an instance that
// also carries the counter, block length and flags).

#[test]
fn sha256_roundtrip() { roundtrip::<MixA>(); }
#[test]
fn blake3_roundtrip() { roundtrip::<MixB>(); }
#[test]
fn sha256_tamper() { tamper_detected::<MixA>(); }
#[test]
fn blake3_tamper() { tamper_detected::<MixB>(); }
#[test]
fn backends_produce_distinct_roots() {
    assert_ne!(keygen::<MixA>(1).root, keygen::<MixB>(1).root);
}

// Runs on the BLAKE3 stand-in `MixB`, for the reason given above.
#[test]
fn auth_paths_recompute_to_v() {
    let mut rng = Rng(0x5E7);
    let leaves: Vec<Digest> = (0..390).map(|_| rng.digest()).collect();
    let (v, paths) = build_validator_set::<MixB>(&leaves);
    for (i, (ap, pb)) in paths.iter().enumerate() {
        let mut node = leaves[i];
        for lvl in 0..TREE_HEIGHT {
            node = if pb[lvl] {
                node_hash::<MixB>(&ap[lvl], &node)
            } else {
                node_hash::<MixB>(&node, &ap[lvl])
            };
        }
        assert_eq!(node, v, "leaf {i} auth path must recompute to V");
    }
}

#[test]
fn validator_set_of_one_leaf() {
    let leaf = [7u32; 8];
    let (v, paths) = build_validator_set::<MixA>(&[leaf]);
    assert_eq!(paths.len(), 1);
    let mut pad = VSET_PAD;
    let mut node = leaf;
    for lvl in 0..TREE_HEIGHT {
        assert_eq!(paths[0].0[lvl], pad);
        assert!(!paths[0].1[lvl]);
        node = node_hash::<MixA>(&node, &pad);
        pad = node_hash::<MixA>(&pad, &pad);
    }
    assert_eq!(v, node);
}

#[test]
fn empty_validator_set_root_is_padding() {
    let (v, paths) = build_validator_set::<MixA>(&[]);
    assert!(paths.is_empty());
    let mut pad = VSET_PAD;
    for _ in 0..TREE_HEIGHT {
        pad = node_hash::<MixA>(&pad, &pad);
    }
    assert_eq!(v, pad);
}

#[test]
fn rng_matches_splitmix64() {
    let mut rng = Rng(0);
    // splitmix64 reference outputs for seed 0.
    assert_eq!(rng.next_u64(), 0xE220_A839_7B1D_CDAF);
    assert_eq!(rng.next_u64(), 0x6E78_9E6A_A1B9_65F4);
    assert_eq!(rng.0, 0x9E37_79B9_7F4A_7C15u64.wrapping_mul(2));
}

#[test]
fn rng_digest_takes_low_words_of_eight_draws() {
    let mut a = Rng(42);
    let mut b = Rng(42);
    let d = a.digest();
    for k in 0..8 {
        assert_eq!(d[k], b.next_u64() as u32);
    }
    assert_eq!(a.0, b.0);
    let bit = a.bit();
    assert_eq!(bit, b.next_u64() & 1 == 1);
}

#[test]
fn encoding_reaches_target_sum_with_first_counter() {
    let msg = Rng(0xCD00).digest();
    let (steps, ctr) = encode_message::<MixA>(&msg);
    assert_eq!(steps.iter().sum::<usize>(), TARGET_SUM);
    assert!(steps.iter().all(|s| *s < W));
    // Every earlier counter is rejected.
    for c in 0..ctr {
        let mut hi = [0u32; 8];
        hi[0] = c;
        hi[1..].copy_from_slice(&[0x6c65_616e, 0x2d78_6d73, 0x732d_656e, 0x636f_6465, 2, 2, 2]);
        let d = MixA::compress(&MixA::iv(), &msg, &hi);
        let sum: usize = (0..V_CHAINS).map(|i| (W - 1) - ((d[i / 16] >> (2 * (i % 16))) & 3) as usize).sum();
        assert_ne!(sum, TARGET_SUM);
    }
    assert_eq!(try_encode_message::<MixA>(&msg), Some((steps, ctr)));
}

#[test]
fn wrong_message_rejected() {
    let kp = keygen::<MixA>(3);
    let msg = Rng(10).digest();
    let sig = sign::<MixA>(&kp, &msg);
    let other = Rng(11).digest();
    assert!(verify::<MixA>(&sig, &msg, &kp.root));
    assert!(!verify::<MixA>(&sig, &other, &kp.root));
    let mut wrong_root = kp.root;
    wrong_root[0] ^= 1;
    assert!(!verify::<MixA>(&sig, &msg, &wrong_root));
}

#[test]
fn keygen_draws_secrets_then_path_then_bits() {
    let kp = keygen::<MixA>(99);
    let mut rng = Rng(99);
    for i in 0..V_CHAINS {
        assert_eq!(kp.secrets[i], rng.digest());
    }
    for l in 0..TREE_HEIGHT {
        assert_eq!(kp.auth_path[l], rng.digest());
    }
    for l in 0..TREE_HEIGHT {
        assert_eq!(kp.path_bits[l], rng.bit());
    }
}

#[test]
fn signature_reveals_chain_positions() {
    let kp = keygen::<MixB>(5);
    let msg = Rng(6).digest();
    let (steps, _) = encode_message::<MixB>(&msg);
    let sig: Signature = sign::<MixB>(&kp, &msg);
    for c in 0..V_CHAINS {
        let mut x = kp.secrets[c];
        for _ in 0..(W - 1 - steps[c]) {
            x = chain_step::<MixB>(&x);
        }
        assert_eq!(sig.chain_values[c], x);
    }
    assert_eq!(sig.auth_path, kp.auth_path);
    assert_eq!(sig.path_bits, kp.path_bits);
    // The leaf recomputed from the signature equals the key's leaf.
    let mut tops = [[0u32; 8]; V_CHAINS];
    for c in 0..V_CHAINS {
        let mut x = kp.secrets[c];
        for _ in 0..(W - 1) {
            x = chain_step::<MixB>(&x);
        }
        tops[c] = x;
    }
    assert_eq!(compute_leaf::<MixB>(&sig, &steps), leaf_hash::<MixB>(&tops));
}

#[test]
fn chain_step_pads_with_chain_pad() {
    let x = [3u32; 8];
    assert_eq!(chain_step::<MixA>(&x), MixA::compress(&IV, &x, &CHAIN_PAD));
    assert_ne!(chain_step::<MixA>(&x), chain_step::<MixB>(&x));
}

#[test]
fn digest_equality_is_wordwise() {
    let a = [1u32, 2, 3, 4, 5, 6, 7, 8];
    let mut b = a;
    assert!(digest_eq(&a, &b));
    b[7] = 9;
    assert!(!digest_eq(&a, &b));
}
