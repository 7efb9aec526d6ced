use merkle_tree::CompactMerkleMultiProof;
use merkle_tree::ProofError;
use merkle_tree::SiblingNode;
use merkle_tree::calculate_merkle_root;
use merkle_tree::concatenate_hash_values;
use merkle_tree::generate_compact_multiproof;
use merkle_tree::generate_proof;
use merkle_tree::hash;
use merkle_tree::try_generate_compact_multiproof;
use merkle_tree::try_generate_proof;
use merkle_tree::validate_compact_multiproof;
use merkle_tree::validate_proof;

#[test]
fn root_is_deterministic() {
    let sentence = "the quick brown fox jumps over the lazy dog";
    assert_eq!(calculate_merkle_root(sentence), calculate_merkle_root(sentence));
}

#[test]
fn root_of_empty_sentence_is_zero() {
    assert_eq!(0, calculate_merkle_root(""));
    assert_eq!(0, calculate_merkle_root("   \t  "));
}

#[test]
fn root_of_single_word_is_its_hash() {
    assert_eq!(hash("hello"), calculate_merkle_root("hello"));
}

#[test]
fn root_matches_manual_pairwise_combination() {
    // four words: two pairwise combinations, then one
    let sentence = "You trust me, right?";
    let bottom_left = concatenate_hash_values(hash("You"), hash("trust"));
    let bottom_right = concatenate_hash_values(hash("me,"), hash("right?"));
    let root = concatenate_hash_values(bottom_left, bottom_right);
    assert_eq!(root, calculate_merkle_root(sentence));
}

#[test]
fn root_pads_with_empty_blocks() {
    let sentence = "a b c";
    let bottom_left = concatenate_hash_values(hash("a"), hash("b"));
    let bottom_right = concatenate_hash_values(hash("c"), hash(""));
    let root = concatenate_hash_values(bottom_left, bottom_right);
    assert_eq!(root, calculate_merkle_root(sentence));
}

#[test]
fn generated_proof_validates_for_every_index() {
    let sentence = "apex rite gite mite gleg meno merl nard bile ills hili";
    let words: Vec<&str> = sentence.split_whitespace().collect();
    for (i, word) in words.iter().enumerate() {
        let (root, proof) = generate_proof(sentence, i);
        assert_eq!(root, calculate_merkle_root(sentence));
        assert!(validate_proof(&root, word, proof));
    }
}

#[test]
fn tampered_word_fails_validation() {
    let sentence = "You trust me, right?";
    let (root, proof) = generate_proof(sentence, 1);
    // flip the lowest bit of the last byte of "trust": 't' becomes 'u'
    let tampered = "trusu";
    assert!(!validate_proof(&root, tampered, proof));
}

#[test]
fn flipped_sibling_tag_fails_validation() {
    let sentence = "You trust me, right?";
    let (root, proof) = generate_proof(sentence, 1);
    assert_eq!(2, proof.len());
    for flip_at in 0..proof.len() {
        let mut mangled = Vec::new();
        for (k, node) in proof.iter().enumerate() {
            if k == flip_at {
                match node {
                    SiblingNode::Left(h) => mangled.push(SiblingNode::Right(*h)),
                    SiblingNode::Right(h) => mangled.push(SiblingNode::Left(*h)),
                }
            } else {
                mangled.push(node.clone());
            }
        }
        assert!(!validate_proof(&root, "trust", mangled));
    }
}

#[test]
fn out_of_range_index_is_an_error() {
    let sentence = "You trust me, right?";
    // four words pad to four leaves, so the first bad index is four
    assert!(try_generate_proof(sentence, 3).is_ok());
    assert_eq!(Err(ProofError::IndexOutOfRange), try_generate_proof(sentence, 4));
    assert_eq!(
        Err(ProofError::IndexOutOfRange),
        try_generate_compact_multiproof(sentence, vec![0, 4])
    );
    assert_eq!(
        Err(ProofError::IndexOutOfRange),
        try_generate_proof("", 0)
    );
}

#[test]
fn duplicate_index_is_an_error() {
    let sentence = "Here's an eight word sentence, special for you.";
    assert_eq!(
        Err(ProofError::DuplicateIndex),
        try_generate_compact_multiproof(sentence, vec![1, 6, 1])
    );
}

#[test]
fn padding_index_is_accepted() {
    // five words pad to eight leaves; the padded range holds empty blocks
    let sentence = "one two three four five";
    let (root, proof) = generate_proof(sentence, 6);
    assert!(validate_proof(&root, "", proof));
}

#[test]
fn multiproof_round_trip_in_caller_order() {
    let sentence = "apex rite gite mite gleg meno merl nard bile ills hili";
    let words: Vec<&str> = sentence.split_whitespace().collect();
    let indices = vec![5usize, 2, 9];
    let (root, proof) = try_generate_compact_multiproof(sentence, indices.clone()).unwrap();
    assert_eq!(root, calculate_merkle_root(sentence));
    let chosen: Vec<&str> = indices.iter().map(|&i| words[i]).collect();
    assert!(validate_compact_multiproof(&root, chosen, proof));
}

#[test]
fn multiproof_of_all_leaves_needs_no_hashes() {
    let sentence = "You trust me, right?";
    let (root, proof) = generate_compact_multiproof(sentence, vec![0, 1, 2, 3]);
    assert_eq!(0, proof.hashes.len());
    let words = vec!["You", "trust", "me,", "right?"];
    assert!(validate_compact_multiproof(&root, words, proof));
}

#[test]
fn empty_multiproof_validates_only_an_empty_word_list() {
    let sentence = "You trust me, right?";
    let (root, proof) = generate_compact_multiproof(sentence, vec![]);
    assert_eq!(0, proof.hashes.len());
    assert_eq!(0, proof.leaf_indices.len());
    assert!(validate_compact_multiproof(&root, vec![], proof));
    let empty_proof = CompactMerkleMultiProof {
        leaf_indices: vec![],
        hashes: vec![],
    };
    assert!(!validate_compact_multiproof(&root, vec!["You"], empty_proof));
}

#[test]
fn multiproof_carries_exactly_the_underivable_hashes() {
    // eight leaves, positions 0, 1 and 6: the pair (0, 1) needs nothing at
    // the bottom, position 6 needs its right sibling, and each of the two
    // half-known pairs one layer up needs its missing side — three in all
    let sentence = "Here's an eight word sentence, special for you.";
    let (_, proof) = generate_compact_multiproof(sentence, vec![0, 1, 6]);
    assert_eq!(3, proof.hashes.len());
}

#[test]
fn multiproof_is_never_larger_than_single_proofs() {
    let sentence = "Here's an eight word sentence, special for you.";
    let indices = vec![0usize, 1, 6];
    let (_, compact) = generate_compact_multiproof(sentence, indices.clone());
    let mut single_total = 0;
    for &i in &indices {
        let (_, proof) = generate_proof(sentence, i);
        single_total += proof.len();
    }
    assert!(compact.hashes.len() <= single_total);
    // positions zero and one share a parent, so the saving is strict
    assert!(compact.hashes.len() < single_total);
}

#[test]
fn wrong_root_fails_multiproof_validation() {
    let sentence = "Here's an eight word sentence, special for you.";
    let (root, proof) = generate_compact_multiproof(sentence, vec![0, 1, 6]);
    let wrong = root ^ 1;
    let words = vec!["Here's", "an", "for"];
    assert!(!validate_compact_multiproof(&wrong, words, proof));
}

#[test]
fn truncated_multiproof_fails_validation() {
    let sentence = "Here's an eight word sentence, special for you.";
    let (root, mut proof) = generate_compact_multiproof(sentence, vec![0, 1, 6]);
    proof.hashes.pop();
    let words = vec!["Here's", "an", "for"];
    assert!(!validate_compact_multiproof(&root, words, proof));
}

#[test]
fn duplicate_indices_fail_multiproof_validation() {
    let sentence = "Here's an eight word sentence, special for you.";
    let (root, proof) = generate_compact_multiproof(sentence, vec![0, 1, 6]);
    let forged = CompactMerkleMultiProof {
        leaf_indices: vec![0, 0, 6],
        hashes: proof.hashes,
    };
    let words = vec!["Here's", "Here's", "for"];
    assert!(!validate_compact_multiproof(&root, words, forged));
}

#[test]
fn word_count_mismatch_fails_multiproof_validation() {
    let sentence = "Here's an eight word sentence, special for you.";
    let (root, proof) = generate_compact_multiproof(sentence, vec![0, 1, 6]);
    let words = vec!["Here's", "an"];
    assert!(!validate_compact_multiproof(&root, words, proof));
}

#[test]
fn wrong_word_fails_multiproof_validation() {
    let sentence = "Here's an eight word sentence, special for you.";
    let (root, proof) = generate_compact_multiproof(sentence, vec![0, 1, 6]);
    let words = vec!["Here's", "an", "you"];
    assert!(!validate_compact_multiproof(&root, words, proof));
}
