//! Wiring equations, transcript statement bytes, the Merkle mask and claim
//! points.
use flock_xmss::glue::{
    wiring, KONST_IV, KONST_PAD, SLOT_BY_PATH_BIT, SLOT_H, SLOT_HI, SLOT_LO, SLOT_OUT,
};
use flock_xmss::glue_hidden::{claim_point, merkle_mask, statement_bytes};
use flock_xmss::hiding::running_hash;
use flock_xmss::params::{COMPRESSIONS_PER_SIG, LEAF_COMPRESSIONS, TREE_HEIGHT, V_CHAINS};

/// Steps summing to the target: 51 chains of 2 steps, 15 chains of 1.
fn target_steps() -> [usize; V_CHAINS] {
    let mut s = [1usize; V_CHAINS];
    for x in s.iter_mut().take(51) {
        *x = 2;
    }
    s
}

fn count(eqs: &[flock_xmss::glue::Eq], f: impl Fn(&flock_xmss::glue::Eq) -> bool) -> usize {
    eqs.iter().filter(|e| f(e)).count()
}

#[test]
fn wiring_counts_for_one_signature() {
    let steps = target_steps();
    let eqs = wiring(&[steps]);
    // Chain steps: one link per non-first step, two pins per step.
    let chain_links = 117 - V_CHAINS;
    let leaf_eqs = LEAF_COMPRESSIONS + 2 * LEAF_COMPRESSIONS;
    let path_eqs = 2 * TREE_HEIGHT;
    assert_eq!(eqs.len(), chain_links + 2 * 117 + leaf_eqs + path_eqs + 1);
    assert_eq!(count(&eqs, |e| matches!(e, flock_xmss::glue::Eq::Root { .. })), 1);
    assert_eq!(
        count(&eqs, |e| matches!(e, flock_xmss::glue::Eq::Link { xs, .. } if *xs == SLOT_BY_PATH_BIT)),
        TREE_HEIGHT
    );
    assert_eq!(
        count(&eqs, |e| matches!(e, flock_xmss::glue::Eq::Pin { konst, .. } if *konst == KONST_PAD)),
        117
    );
    match eqs.last() {
        Some(flock_xmss::glue::Eq::Root { xi, sig }) => {
            assert_eq!(*xi, COMPRESSIONS_PER_SIG - 1);
            assert_eq!(*sig, 0);
        }
        other => panic!("unexpected last equation {other:?}"),
    }
}

#[test]
fn wiring_first_chain_and_leaf_links() {
    let steps = target_steps();
    let eqs = wiring(&[steps, steps]);
    // Chain 0, step 0 of signature 0: two pins, no link.
    assert!(matches!(eqs[0], flock_xmss::glue::Eq::Pin { xs, xi: 0, konst } if xs == SLOT_HI && konst == KONST_PAD));
    assert!(matches!(eqs[1], flock_xmss::glue::Eq::Pin { xs, xi: 0, konst } if xs == SLOT_H && konst == KONST_IV));
    // Chain 0, step 1: link LO(1) = OUT(0).
    assert!(matches!(eqs[2], flock_xmss::glue::Eq::Link { xs, xi: 1, ys, yi: 0 } if xs == SLOT_LO && ys == SLOT_OUT));
    // Signature 1 starts at instance 168 and ends with its root.
    let first_of_second = eqs.iter().position(|e| matches!(e, flock_xmss::glue::Eq::Pin { xi, .. } if *xi == COMPRESSIONS_PER_SIG)).unwrap();
    assert!(matches!(eqs[first_of_second - 1], flock_xmss::glue::Eq::Root { xi: 167, sig: 0 }));
    assert!(matches!(eqs[eqs.len() - 1], flock_xmss::glue::Eq::Root { xi: 335, sig: 1 }));
    // The first leaf absorb pins H to the IV and links both tops.
    let leaf0 = 117;
    let pos = eqs.iter().position(|e| matches!(e, flock_xmss::glue::Eq::Pin { xs, xi, .. } if *xs == SLOT_H && *xi == leaf0)).unwrap();
    assert!(matches!(eqs[pos + 1], flock_xmss::glue::Eq::Link { xs, xi, ys, yi: 1 } if xs == SLOT_LO && xi == leaf0 && ys == SLOT_OUT));
    assert!(matches!(eqs[pos + 2], flock_xmss::glue::Eq::Link { xs, xi, ys, yi: 3 } if xs == SLOT_HI && xi == leaf0 && ys == SLOT_OUT));
}

#[test]
fn zero_step_chain_has_no_top_link() {
    let mut steps = target_steps();
    steps[0] = 0;
    steps[51] = 2;
    steps[52] = 2;
    let eqs = flock_xmss::glue::wiring(&[steps]);
    let leaf0 = 117;
    let pos = eqs.iter().position(|e| matches!(e, flock_xmss::glue::Eq::Pin { xs, xi, .. } if *xs == SLOT_H && *xi == leaf0)).unwrap();
    // Only the right top (chain 1, ending at instance 1) is linked.
    assert!(matches!(eqs[pos + 1], flock_xmss::glue::Eq::Link { xs, xi, yi: 1, .. } if xs == SLOT_HI && xi == leaf0));
    assert!(matches!(eqs[pos + 2], flock_xmss::glue::Eq::Link { xs: SLOT_H, .. }));
}

#[test]
fn hidden_wiring_has_no_routed_links_and_pins_domains() {
    let steps = target_steps();
    let plain = flock_xmss::glue_hidden::wiring(&[steps], false);
    let with_domain = flock_xmss::glue_hidden::wiring(&[steps], true);
    assert_eq!(count(&plain, |e| matches!(e, flock_xmss::glue::Eq::Link { xs, .. } if *xs == SLOT_BY_PATH_BIT)), 0);
    assert_eq!(with_domain.len(), plain.len() + COMPRESSIONS_PER_SIG);
    for (xi, e) in with_domain[plain.len()..].iter().enumerate() {
        assert!(matches!(e, flock_xmss::glue::Eq::Pin { xs: 4, xi: x, konst: 2 } if *x == xi));
    }
    let routed = wiring(&[steps]);
    assert_eq!(routed.len(), plain.len() + TREE_HEIGHT);
}

#[test]
fn statement_bytes_are_little_endian_roots_then_steps() {
    let roots = [[0x0403_0201u32, 5, 6, 7, 8, 9, 10, 11]];
    let mut steps = [0usize; V_CHAINS];
    steps[0] = 3;
    steps[65] = 0x1_0000_0002;
    let b = statement_bytes(&roots, &[steps]);
    assert_eq!(b.len(), 4 * (8 + V_CHAINS));
    assert_eq!(&b[..4], &[1, 2, 3, 4]);
    assert_eq!(&b[4..8], &[5, 0, 0, 0]);
    assert_eq!(&b[32..36], &[3, 0, 0, 0]);
    // Step counts are absorbed as 32-bit words.
    assert_eq!(&b[b.len() - 4..], &[2, 0, 0, 0]);
    assert!(statement_bytes(&[], &[]).is_empty());
}

#[test]
fn merkle_mask_marks_last_levels() {
    let m = merkle_mask(2, 512);
    assert_eq!(m.len(), 512);
    let on: Vec<usize> = (0..512).filter(|i| m[*i]).collect();
    assert_eq!(on.len(), 2 * TREE_HEIGHT);
    assert_eq!(on[0], COMPRESSIONS_PER_SIG - TREE_HEIGHT);
    assert_eq!(*on.last().unwrap(), 2 * COMPRESSIONS_PER_SIG - 1);
    assert!(!m[2 * COMPRESSIONS_PER_SIG]);
}

#[test]
fn claim_point_layout() {
    let tau = [10u32, 11];
    let sc = [1u32, 2, 3, 4, 5];
    let pt = claim_point(&tau, &sc, 9, 2, 3, 0);
    // high = 9 - 3 - 2 - 2 = 2
    assert_eq!(pt, vec![10, 11, 1, 2, 0, 0, 3, 4, 5]);
}

#[test]
fn running_hash_shifts_by_one() {
    assert_eq!(running_hash(&[7u8, 8, 9], 0), vec![0, 7, 8]);
    assert!(running_hash::<u8>(&[], 0).is_empty());
}

#[test]
fn instant_without_clock_measures_nothing() {
    let t = flock_xmss::ztime::Instant::now();
    assert_eq!(t.elapsed(), std::time::Duration::ZERO);
}
