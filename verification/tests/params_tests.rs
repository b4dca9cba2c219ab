use flock_xmss::params::{
    COMPRESSIONS_PER_SIG, LEAF_COMPRESSIONS, TARGET_SUM, TREE_HEIGHT, V_CHAINS, W,
};

#[test]
fn counts() {
    assert_eq!(LEAF_COMPRESSIONS, 33);
    assert_eq!(COMPRESSIONS_PER_SIG, 168);
    assert!(TARGET_SUM <= V_CHAINS * (W - 1));
}

#[test]
fn compressions_per_sig_is_chains_leaf_and_path() {
    assert_eq!(COMPRESSIONS_PER_SIG, TARGET_SUM + LEAF_COMPRESSIONS + TREE_HEIGHT);
    assert_eq!(2 * LEAF_COMPRESSIONS, V_CHAINS);
}
