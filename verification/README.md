# pg_bart

Array-based binary decision trees for Bayesian Additive Regression Trees, with
their contracts proved by Verus.

- `src/tree.rs`: the tree (`DecisionTree`, its abstract `TreeModel`), the
  invariant that `new`, `add_node` and `split_node` keep, and the traversals
  behind prediction (`predict_leaf`, `excluded_mask_leaves`).
- `src/codec.rs`, `src/forest.rs`: the little-endian binary format of a forest;
  `deserialize_forest` succeeds exactly on encodings of forests and gives them
  back (`lemma_forest_bytes_injective`).
- `src/posterior.rs`: posterior draws, their byte export and import, and the
  plan of a posterior-predictive sample.
- `src/rules.rs`: the names of the split rules a sampler is configured with.
- `app/`: the Python module (pyo3/numpy) and the floating-point parts of
  prediction. Doubles are held in the library by their bit patterns.
