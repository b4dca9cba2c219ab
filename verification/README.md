# flock-xmss

XMSS hash-based signature verification and aggregation logic over standard
hashes, written in Verus and proved against its contracts.

The verifier structure is hash-agnostic: Winternitz chains, the leaf
Merkle–Damgård over the chain tops, and the Merkle authentication path are all
compressions `(h, lo || hi) -> digest`. The library is generic over a
`Backend` that supplies that compression.

## Layout

- `src/params.rs` — parameter set (66 chains, base 4, target sum 117, height-18
  tree, 168 compressions per signature).
- `src/backend.rs` — the `Backend` trait and the digest type.
- `src/native.rs` — splitmix64 generator, message encoding by target-sum
  rejection sampling, keygen, signing, verification, and the validator-set
  Merkle tree; sign-then-verify and validator-path laws.
- `src/witness.rs` — one verification as an ordered list of compressions with
  its wiring, the batch witness, and the independent replay; the replay law.
- `src/glue.rs` — the wiring equations of the linkage glue, with the laws that
  an honest batch satisfies them and that a batch satisfying them is the
  verification of a signature against the public root.
- `src/glue_hidden.rs` — wiring with a hidden Merkle path, the transcript
  statement bytes, the Merkle mask, claim points, and membership signatures
  for a validator-set root.
- `src/hiding.rs` — the running-hash table of the hiding constraint.
- `src/ztime.rs` — an instant for targets without a clock.
- `app/` — the Flock-facing side: the SHA-256 and BLAKE3 backends, the batch
  prover, and the field-arithmetic sumchecks of the glue and hiding proofs.
