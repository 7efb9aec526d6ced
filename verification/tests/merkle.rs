use merkle_tree::CompactMerkleMultiProof;
use merkle_tree::ShortAnswer;
use merkle_tree::SiblingNode;
use merkle_tree::calculate_merkle_root;
use merkle_tree::concatenate_hash_values;
use merkle_tree::generate_compact_multiproof;
use merkle_tree::generate_proof;
use merkle_tree::hash;
use merkle_tree::pad_base_layer;
use merkle_tree::short_answer_1;
use merkle_tree::short_answer_2;
use merkle_tree::validate_compact_multiproof;
use merkle_tree::validate_proof;

#[test]
fn pad_base_layer_sanity_check() {
    let mut data = vec!["a", "b", "c"];
    let expected = vec!["a", "b", "c", ""];
    pad_base_layer(&mut data);
    assert_eq!(expected, data);
}

#[test]
fn concatenate_hash_values_sanity_check() {
    let left = hash("a");
    let right = hash("b");
    assert_eq!(13491948173500414413, concatenate_hash_values(left, right));
}

#[test]
fn calculate_merkle_root_sanity_check() {
    let sentence = "You trust me, right?";
    assert_eq!(4373588283528574023, calculate_merkle_root(sentence));
}

#[test]
fn proof_generation_sanity_check_2() {
    let sentence = "apex rite gite mite gleg meno merl nard bile ills hili";
    generate_proof(sentence, 1);
}

#[test]
fn proof_generation_sanity_check() {
    let sentence = "You trust me, right?";
    let expected = (
        4373588283528574023,
        vec![
            SiblingNode::Left(4099928055547683737),
            SiblingNode::Right(2769272874327709143),
        ],
    );
    assert_eq!(expected, generate_proof(sentence, 1));
}

#[test]
fn validate_proof_sanity_check() {
    let word = "trust";
    let root = 4373588283528574023;
    let proof = vec![
        SiblingNode::Left(4099928055547683737),
        SiblingNode::Right(2769272874327709143),
    ];
    assert!(validate_proof(&root, word, proof));
}

#[test]
fn calculate_merkle_root_sanity_check_2() {
    let sentence = "You trust me?";
    assert_eq!(8656240816105094750, calculate_merkle_root(sentence));
}

#[test]
fn generate_compact_multiproof_sanity_check() {
    let sentence = "Here's an eight word sentence, special for you.";
    let indices = vec![0, 1, 6];
    let expected = (
        14965309246218747603,
        CompactMerkleMultiProof {
            leaf_indices: vec![0, 1, 6],
            hashes: vec![
                1513025021886310739,
                7640678380001893133,
                5879108026335697459,
            ],
        },
    );
    assert_eq!(expected, generate_compact_multiproof(sentence, indices));
}

#[test]
fn validate_compact_multiproof_sanity_check() {
    let proof = (
        14965309246218747603u64,
        CompactMerkleMultiProof {
            leaf_indices: vec![0, 1, 6],
            hashes: vec![
                1513025021886310739,
                7640678380001893133,
                5879108026335697459,
            ],
        },
    );
    let words = vec!["Here's", "an", "for"];
    assert_eq!(true, validate_compact_multiproof(&proof.0, words, proof.1));
}

#[test]
fn short_answer_1_has_answer() {
    assert_ne!(
        ShortAnswer {
            answer: 0,
            explanation: "".to_string(),
        },
        short_answer_1()
    )
}

#[test]
fn short_answer_2_has_answer() {
    assert_ne!(
        ShortAnswer {
            answer: 0,
            explanation: "".to_string(),
        },
        short_answer_2()
    )
}
