//! A binary hash tree (Merkle tree) over an ordered list of leaf hashes, with
//! roots, inclusion paths and localized leaf updates. The function that joins
//! two hashes into one is handed in by the caller.

mod error;
mod lemmas;
mod model;
mod proofs;
mod tree;

pub use error::MerkleError;
pub use model::{
    ancestor, build_fails_with, callable, combined, combines, deterministic, fold_path,
    is_parent_layer, is_tree, layers_from, never_fails, pair_fails, parent_ok, path_from,
    path_steps, path_values_ok, sibling, step_fails, step_ok, update_fails_with, with_path_values,
};
pub use tree::{layer_views, MerkleTree};
pub use proofs::{
    lemma_build_deterministic, lemma_four_leaves, lemma_path_verifies, lemma_single_leaf,
    lemma_three_leaves, lemma_update_keeps_other_paths, lemma_update_matches_rebuild,
};
