//! A Merkle tree engine: root computation over an ordered sequence of data
//! blocks, single-leaf inclusion proofs, and compact multiproofs that prove
//! membership of several leaves at once while sharing internal hashes.

mod answers;
mod hashing;
mod multiproof;
mod single_proof;
mod sorting;
mod tree;

pub use answers::ShortAnswer;
pub use answers::how_hard_was_this_section;
pub use answers::short_answer_1;
pub use answers::short_answer_2;
pub use hashing::HashValue;
pub use hashing::combine_of;
pub use hashing::concatenate_hash_values;
pub use hashing::hash;
pub use hashing::hex_le;
pub use hashing::str_hash;
pub use hashing::words_of;
pub use multiproof::CompactMerkleMultiProof;
pub use multiproof::check_layers;
pub use multiproof::frontier_bounded;
pub use multiproof::frontier_of;
pub use multiproof::frontier_strict;
pub use multiproof::generate_compact_multiproof;
pub use multiproof::lemma_multiproof_compactness;
pub use multiproof::lemma_multiproof_round_trip;
pub use multiproof::multiproof_check;
pub use multiproof::multiproof_hashes;
pub use multiproof::seed_pairs;
pub use multiproof::try_generate_compact_multiproof;
pub use multiproof::validate_compact_multiproof;
pub use multiproof::word_at;
pub use single_proof::MerkleProof;
pub use single_proof::ProofError;
pub use single_proof::SiblingNode;
pub use single_proof::generate_proof;
pub use single_proof::lemma_generated_proof_validates;
pub use single_proof::lemma_proof_path_len;
pub use single_proof::proof_path;
pub use single_proof::rebuild_root;
pub use single_proof::try_generate_proof;
pub use single_proof::validate_proof;
pub use sorting::int_view;
pub use sorting::sort_ints;
pub use sorting::sort_pairs;
pub use tree::calculate_merkle_root;
pub use tree::clog2;
pub use tree::is_pow2;
pub use tree::lemma_root_of_deterministic;
pub use tree::next_layer_spec;
pub use tree::pad_base_layer;
pub use tree::pad_len;
pub use tree::padded_count;
pub use tree::padded_leaf_hashes;
pub use tree::root_of_hashes;
pub use tree::sentence_root;
