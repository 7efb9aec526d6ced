//! Single-leaf inclusion proofs: the sibling path from one leaf to the root,
//! its generator and its validator.

use vstd::prelude::*;
use crate::hashing::HashValue;
use crate::hashing::combine_of;
use crate::hashing::hash;
use crate::hashing::split_into_words;
use crate::hashing::str_hash;
use crate::hashing::words_of;
use crate::tree::clog2;
use crate::tree::is_pow2;
use crate::tree::lemma_pad_len_bounds;
use crate::tree::next_layer;
use crate::tree::next_layer_spec;
use crate::tree::padded_count;
use crate::tree::padded_layer_of_words;
use crate::tree::padded_leaf_hashes;
use crate::tree::padded_length;
use crate::tree::root_of_hashes;
use crate::tree::sentence_root;

verus! {

/// A sibling along the path from a leaf to the root, tagged with the side it
/// sits on relative to the path node. The side fixes the combination order,
/// so it must be preserved exactly.
#[derive(Debug, PartialEq, Eq, Clone)]
pub enum SiblingNode {
    Left(HashValue),
    Right(HashValue),
}

/// A proof is an ordered sequence of sibling nodes, leaf layer first.
pub type MerkleProof = Vec<SiblingNode>;

/// The caller errors of proof generation: an index beyond the padded leaf
/// count, or a repeated index in a multiproof request.
#[derive(Debug, PartialEq, Eq, Clone, Copy)]
pub enum ProofError {
    IndexOutOfRange,
    DuplicateIndex,
}

/// The sibling path for position `i` of the given layer: at each layer the
/// sibling of the current position, tagged `Right` when the position is even
/// and `Left` when it is odd, then the position halves.
pub open spec fn proof_path(h: Seq<HashValue>, i: int) -> Seq<SiblingNode>
    decreases h.len(),
{
    if h.len() <= 1 {
        seq![]
    } else {
        let node = if i % 2 == 0 {
            SiblingNode::Right(h[i + 1])
        } else {
            SiblingNode::Left(h[i - 1])
        };
        seq![node] + proof_path(next_layer_spec(h), i / 2)
    }
}

/// The hash a verifier reaches by folding a proof over a starting hash: each
/// `Left` sibling is combined in front, each `Right` sibling behind.
pub open spec fn rebuild_root(start: HashValue, proof: Seq<SiblingNode>) -> HashValue
    decreases proof.len(),
{
    if proof.len() == 0 {
        start
    } else {
        match proof[0] {
            SiblingNode::Left(sibling) => rebuild_root(combine_of(sibling, start), proof.drop_first()),
            SiblingNode::Right(sibling) => rebuild_root(combine_of(start, sibling), proof.drop_first()),
        }
    }
}

/// A power of two above one is even, and its half is again a power of two.
pub(crate) proof fn lemma_pow2_halves(n: nat)
    requires
        is_pow2(n),
        n >= 2,
    ensures
        n % 2 == 0,
        is_pow2(n / 2),
{
}

/// Generates a Merkle proof that the block at `index` is contained in the
/// sentence: returns the root together with the sibling path for that index.
pub fn generate_proof(sentence: &str, index: usize) -> (r: (HashValue, MerkleProof))
    requires
        (index as nat) < padded_count(sentence@),
    ensures
        r.0 == sentence_root(sentence@),
        r.1@ == proof_path(padded_leaf_hashes(words_of(sentence@)), index as int),
{
    let words = split_into_words(sentence);
    proof {
        assert(words@.map_values(|w: String| w@).len() == words@.len());
        lemma_pad_len_bounds(words_of(sentence@).len());
    }
    let mut hashes = padded_layer_of_words(&words);
    let ghost h0 = hashes@;
    let mut proof_nodes: Vec<SiblingNode> = Vec::new();
    let mut idx: usize = index;
    proof {
        assert(proof_nodes@ + proof_path(h0, index as int) =~= proof_path(h0, index as int));
    }
    while hashes.len() > 1
        invariant
            is_pow2(hashes@.len()),
            (idx as int) < hashes@.len(),
            root_of_hashes(hashes@) == root_of_hashes(h0),
            proof_nodes@ + proof_path(hashes@, idx as int) == proof_path(h0, index as int),
        decreases hashes@.len(),
    {
        proof {
            lemma_pow2_halves(hashes@.len());
        }
        let ghost before = hashes@;
        let ghost oidx: int = idx as int;
        if idx % 2 == 0 {
            proof {
                assert(idx + 1 < hashes@.len());
            }
            proof_nodes.push(SiblingNode::Right(hashes[idx + 1]));
        } else {
            proof_nodes.push(SiblingNode::Left(hashes[idx - 1]));
        }
        idx = idx / 2;
        let parent_level = next_layer(&hashes);
        hashes = parent_level;
        proof {
            let node = if oidx % 2 == 0 {
                SiblingNode::Right(before[oidx + 1])
            } else {
                SiblingNode::Left(before[oidx - 1])
            };
            assert((before.len() + 1) / 2 == before.len() / 2);
            assert(proof_path(before, oidx) =~= seq![node] + proof_path(hashes@, oidx / 2));
            assert(proof_nodes@ + proof_path(hashes@, idx as int) =~= proof_path(
                h0,
                index as int,
            ));
        }
    }
    proof {
        assert(proof_path(hashes@, idx as int) =~= Seq::<SiblingNode>::empty());
        assert(proof_nodes@ =~= proof_path(h0, index as int));
    }
    (hashes[0], proof_nodes)
}

/// Generates a proof after checking the index against the padded leaf count;
/// an index at or beyond it is answered with a range error instead of being
/// clamped.
pub fn try_generate_proof(sentence: &str, index: usize) -> (r: Result<
    (HashValue, MerkleProof),
    ProofError,
>)
    ensures
        match r {
            Ok(p) => (index as nat) < padded_count(sentence@) && p.0 == sentence_root(sentence@)
                && p.1@ == proof_path(padded_leaf_hashes(words_of(sentence@)), index as int),
            Err(e) => e == ProofError::IndexOutOfRange && (index as nat) >= padded_count(
                sentence@,
            ),
        },
{
    let words = split_into_words(sentence);
    proof {
        assert(words@.map_values(|w: String| w@).len() == words@.len());
    }
    if words.len() == 0 {
        return Err(ProofError::IndexOutOfRange);
    }
    let padded = padded_length(words.len());
    if index >= padded {
        return Err(ProofError::IndexOutOfRange);
    }
    Ok(generate_proof(sentence, index))
}

/// Checks whether a block is contained in a sentence, knowing only the
/// sentence's root and a proof: folds the proof over the block's hash and
/// compares the result with the root. A malformed proof simply fails the
/// comparison; the check never panics.
pub fn validate_proof(root: &HashValue, word: &str, proof: MerkleProof) -> (r: bool)
    ensures
        r == (rebuild_root(str_hash(word@), proof@) == *root),
{
    let mut h = hash(word);
    let mut i: usize = 0;
    proof {
        assert(proof@.skip(0) =~= proof@);
    }
    while i < proof.len()
        invariant
            i <= proof@.len(),
            rebuild_root(h, proof@.skip(i as int)) == rebuild_root(str_hash(word@), proof@),
        decreases proof@.len() - i,
    {
        let ghost before = proof@.skip(i as int);
        h = match &proof[i] {
            SiblingNode::Left(sibling) => crate::hashing::concatenate_hash_values(*sibling, h),
            SiblingNode::Right(sibling) => crate::hashing::concatenate_hash_values(h, *sibling),
        };
        i = i + 1;
        proof {
            assert(before.drop_first() =~= proof@.skip(i as int));
        }
    }
    proof {
        assert(proof@.skip(i as int) =~= Seq::<SiblingNode>::empty());
    }
    h == *root
}

/// Folding the sibling path of position `i` over that position's own hash
/// yields the layer's root.
proof fn lemma_proof_path_rebuilds(h: Seq<HashValue>, i: int)
    requires
        is_pow2(h.len()),
        0 <= i < h.len(),
    ensures
        rebuild_root(h[i], proof_path(h, i)) == root_of_hashes(h),
    decreases h.len(),
{
    if h.len() == 1 {
    } else {
        lemma_pow2_halves(h.len());
        let nl = next_layer_spec(h);
        let path = proof_path(h, i);
        let rest = proof_path(nl, i / 2);
        assert(path.drop_first() =~= rest);
        if i % 2 == 0 {
            assert(nl[i / 2] == combine_of(h[i], h[i + 1]));
        } else {
            assert(nl[i / 2] == combine_of(h[i - 1], h[i]));
        }
        lemma_proof_path_rebuilds(nl, i / 2);
    }
}

/// Every sibling path over a power-of-two layer has exactly one node per
/// layer folded, the ceiling logarithm of the layer's width.
pub proof fn lemma_proof_path_len(h: Seq<HashValue>, i: int)
    requires
        is_pow2(h.len()),
    ensures
        proof_path(h, i).len() == clog2(h.len()),
    decreases h.len(),
{
    if h.len() >= 2 {
        lemma_pow2_halves(h.len());
        lemma_proof_path_len(next_layer_spec(h), i / 2);
    }
}

/// Law: a proof generated for a valid block index rebuilds exactly the
/// sentence's root from that block's hash, so validating a generated proof
/// against the generated root always succeeds.
pub proof fn lemma_generated_proof_validates(s: Seq<char>, i: int)
    requires
        0 <= i < words_of(s).len(),
    ensures
        rebuild_root(
            str_hash(words_of(s)[i]),
            proof_path(padded_leaf_hashes(words_of(s)), i),
        ) == sentence_root(s),
{
    let ws = words_of(s);
    lemma_pad_len_bounds(ws.len());
    assert(padded_leaf_hashes(ws)[i] == str_hash(ws[i]));
    lemma_proof_path_rebuilds(padded_leaf_hashes(ws), i);
}

} // verus!
