//! Control-flow-hiding Merkle constraint: the running-hash table.
//!
//! Per Merkle level the running hash `d` (the previous compression's OUT)
//! must equal one of the two children; `d[i]` is `g_out[i - 1]`.
use vstd::prelude::*;

verus! {

/// The running hash `d[i] = g_out[i - 1]`, with `d[0] = zero` (instance 0 is
/// never a Merkle level).
pub open spec fn running_hash_spec<T>(g_out: Seq<T>, zero: T) -> Seq<T> {
    Seq::new(g_out.len(), |i: int| if i == 0 { zero } else { g_out[i - 1] })
}

/// Build the running-hash array: `g_out` shifted down by one instance.
pub fn running_hash<T: Copy>(g_out: &[T], zero: T) -> (d: Vec<T>)
    ensures
        d@ == running_hash_spec(g_out@, zero),
{
    let n = g_out.len();
    let mut d: Vec<T> = Vec::new();
    let mut i: usize = 0;
    while i < n
        invariant
            n == g_out@.len(),
            i <= n,
            d@ == running_hash_spec(g_out@, zero).take(i as int),
        decreases n - i,
    {
        if i == 0 {
            d.push(zero);
        } else {
            d.push(g_out[i - 1]);
        }
        i = i + 1;
        assert(d@ =~= running_hash_spec(g_out@, zero).take(i as int));
    }
    assert(running_hash_spec(g_out@, zero).take(n as int) =~= running_hash_spec(g_out@, zero));
    d
}

} // verus!
