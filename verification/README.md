# kaspa_merkle

Merkle roots and inclusion witnesses over 32-byte hashes, verified with Verus.

- `src/hash.rs`: the `Hash32` value, and the calls into `kaspa_hashes`
  (`MerkleBranchHash`, `ZERO_HASH`) behind trusted wrappers.
- `src/model.rs`: the tree as levels of optional nodes, its root, witnesses and
  their evaluation, and the laws proved about them.
- `src/merkle.rs`: `calc_merkle_root`, `create_merkle_witness`,
  `verify_merkle_witness`, each with a contract over the model.
