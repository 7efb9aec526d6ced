//! Compact multiproofs: one proof for several leaves at once. The generator
//! walks the tree layer by layer, tracking which node positions the verifier
//! can derive (the knowledge frontier), and emits only the sibling hashes the
//! verifier cannot compute itself. The validator mirrors the same walk,
//! consuming the emitted hashes in order, and compares the reconstructed root.

use vstd::prelude::*;
use crate::hashing::HashValue;
use crate::hashing::combine_of;
use crate::hashing::hash;
use crate::hashing::split_into_words;
use crate::hashing::str_hash;
use crate::hashing::words_of;
use crate::single_proof::ProofError;
use crate::sorting::fsts;
use crate::sorting::int_view;
use crate::sorting::lemma_sort_ints_props;
use crate::sorting::lemma_sort_pairs_props;
use crate::sorting::pair_view;
use crate::sorting::sort_hash_pairs;
use crate::sorting::sort_indices;
use crate::sorting::sort_ints;
use crate::sorting::sort_pairs;
use crate::tree::clog2;
use crate::tree::is_pow2;
use crate::tree::lemma_pad_len_bounds;
use crate::tree::next_layer;
use crate::tree::next_layer_spec;
use crate::tree::pad_len;
use crate::tree::padded_count;
use crate::tree::padded_layer_of_words;
use crate::tree::padded_leaf_hashes;
use crate::tree::padded_length;
use crate::tree::root_of_hashes;
use crate::tree::sentence_root;
use crate::single_proof::lemma_pow2_halves;

verus! {

/// A compact multiproof: the requested leaf positions in the caller's order,
/// and the additional hashes the verifier cannot derive, ordered from lower
/// to higher layer and left to right within a layer.
#[derive(Debug, PartialEq, Eq)]
pub struct CompactMerkleMultiProof {
    /// The indices requested when the proof was generated.
    pub leaf_indices: Vec<usize>,
    /// The sibling hashes the verifier has to be given.
    pub hashes: Vec<HashValue>,
}

/// An ascending knowledge frontier: strictly increasing node positions.
pub open spec fn frontier_strict(f: Seq<int>) -> bool {
    forall|j: int, k: int| 0 <= j < k < f.len() ==> f[j] < f[k]
}

/// All frontier positions lie in the current layer.
pub open spec fn frontier_bounded(f: Seq<int>, n: int) -> bool {
    forall|j: int| 0 <= j < f.len() ==> 0 <= #[trigger] f[j] < n
}

/// The hashes one layer of the generator's walk emits: scanning the frontier
/// left to right, a pair of adjacent known siblings emits nothing, while a
/// known position with an unknown sibling emits that sibling's hash.
pub open spec fn layer_emits(nodes: Seq<HashValue>, f: Seq<int>) -> Seq<HashValue>
    decreases f.len(),
{
    if f.len() == 0 {
        seq![]
    } else if f[0] % 2 == 0 && f.len() > 1 && f[1] == f[0] + 1 {
        layer_emits(nodes, f.skip(2))
    } else if f[0] % 2 == 0 {
        seq![nodes[f[0] + 1]] + layer_emits(nodes, f.skip(1))
    } else {
        seq![nodes[f[0] - 1]] + layer_emits(nodes, f.skip(1))
    }
}

/// The frontier one layer up: every known position's parent, once.
pub open spec fn promote_frontier(f: Seq<int>) -> Seq<int>
    decreases f.len(),
{
    if f.len() == 0 {
        seq![]
    } else if f[0] % 2 == 0 && f.len() > 1 && f[1] == f[0] + 1 {
        seq![f[0] / 2] + promote_frontier(f.skip(2))
    } else {
        seq![f[0] / 2] + promote_frontier(f.skip(1))
    }
}

/// All hashes the generator emits for the given base layer and frontier,
/// lower layers first.
pub open spec fn multiproof_hashes(nodes: Seq<HashValue>, f: Seq<int>) -> Seq<HashValue>
    decreases nodes.len(),
{
    if nodes.len() <= 1 {
        seq![]
    } else {
        layer_emits(nodes, f) + multiproof_hashes(next_layer_spec(nodes), promote_frontier(f))
    }
}

/// `x` clamped to the non-negative integers.
pub open spec fn clamp_val(x: int) -> nat {
    if x > 0 {
        x as nat
    } else {
        0
    }
}

/// The largest clamped position of a frontier with hashes; zero when empty.
pub open spec fn clamp_max(fv: Seq<(int, u64)>) -> nat
    decreases fv.len(),
{
    if fv.len() == 0 {
        0
    } else {
        let h = clamp_val(fv[0].0);
        let t = clamp_max(fv.skip(1));
        if h > t {
            h
        } else {
            t
        }
    }
}

/// One layer of the validator's walk over a frontier of positions with their
/// known hashes: adjacent known siblings combine directly; a position with an
/// unknown sibling consumes the next proof hash on the missing side. `None`
/// when a needed hash is missing.
pub open spec fn check_layer(fv: Seq<(int, u64)>, rem: Seq<u64>) -> Option<
    (Seq<(int, u64)>, Seq<u64>),
>
    decreases fv.len(),
{
    if fv.len() == 0 {
        Some((seq![], rem))
    } else {
        let idx = fv[0].0;
        if idx % 2 == 0 && fv.len() > 1 && fv[1].0 == idx + 1 {
            match check_layer(fv.skip(2), rem) {
                Some(next) => Some(
                    (seq![(idx / 2, combine_of(fv[0].1, fv[1].1))] + next.0, next.1),
                ),
                None => None,
            }
        } else if idx % 2 == 0 {
            if rem.len() == 0 {
                None
            } else {
                match check_layer(fv.skip(1), rem.skip(1)) {
                    Some(next) => Some(
                        (seq![(idx / 2, combine_of(fv[0].1, rem[0]))] + next.0, next.1),
                    ),
                    None => None,
                }
            }
        } else {
            if rem.len() == 0 {
                None
            } else {
                match check_layer(fv.skip(1), rem.skip(1)) {
                    Some(next) => Some(
                        (seq![(idx / 2, combine_of(rem[0], fv[0].1))] + next.0, next.1),
                    ),
                    None => None,
                }
            }
        }
    }
}

proof fn lemma_clamp_max_cons(p: (int, u64), s: Seq<(int, u64)>)
    ensures
        clamp_max(seq![p] + s) == if clamp_val(p.0) > clamp_max(s) {
            clamp_val(p.0)
        } else {
            clamp_max(s)
        },
{
    assert((seq![p] + s).skip(1) =~= s);
    assert((seq![p] + s)[0] == p);
}

proof fn lemma_clamp_max_skip(s: Seq<(int, u64)>, k: int)
    requires
        0 <= k <= s.len(),
    ensures
        clamp_max(s.skip(k)) <= clamp_max(s),
    decreases k,
{
    if k > 0 {
        if s.len() > 0 {
            assert(s.skip(1).skip(k - 1) =~= s.skip(k));
            lemma_clamp_max_skip(s.skip(1), k - 1);
        }
    } else {
        assert(s.skip(0) =~= s);
    }
}

proof fn lemma_clamp_max_head(s: Seq<(int, u64)>)
    requires
        s.len() > 0,
    ensures
        clamp_val(s[0].0) <= clamp_max(s),
{
}

/// Shape facts of one validator layer: it never grows the proof-hash
/// remainder, it never grows the frontier, a non-empty frontier promotes to a
/// non-empty one, a layer that consumes nothing was made of adjacent pairs
/// only, and the largest position never grows.
proof fn lemma_check_layer_shape(fv: Seq<(int, u64)>, rem: Seq<u64>)
    ensures
        match check_layer(fv, rem) {
            Some(next) => {
                &&& next.1.len() <= rem.len()
                &&& next.0.len() <= fv.len()
                &&& (fv.len() > 0 ==> next.0.len() > 0)
                &&& (next.1.len() == rem.len() ==> next.0.len() * 2 == fv.len())
                &&& clamp_max(next.0) <= clamp_max(fv)
            },
            None => true,
        },
    decreases fv.len(),
{
    if fv.len() == 0 {
    } else {
        let idx = fv[0].0;
        if idx % 2 == 0 && fv.len() > 1 && fv[1].0 == idx + 1 {
            lemma_check_layer_shape(fv.skip(2), rem);
            match check_layer(fv.skip(2), rem) {
                Some(next2) => {
                    let head = (idx / 2, combine_of(fv[0].1, fv[1].1));
                    lemma_clamp_max_cons(head, next2.0);
                    lemma_clamp_max_skip(fv, 2);
                    lemma_clamp_max_head(fv);
                },
                None => {},
            }
        } else if idx % 2 == 0 {
            if rem.len() > 0 {
                lemma_check_layer_shape(fv.skip(1), rem.skip(1));
                match check_layer(fv.skip(1), rem.skip(1)) {
                    Some(next2) => {
                        let head = (idx / 2, combine_of(fv[0].1, rem[0]));
                        lemma_clamp_max_cons(head, next2.0);
                        lemma_clamp_max_skip(fv, 1);
                        lemma_clamp_max_head(fv);
                    },
                    None => {},
                }
            }
        } else {
            if rem.len() > 0 {
                lemma_check_layer_shape(fv.skip(1), rem.skip(1));
                match check_layer(fv.skip(1), rem.skip(1)) {
                    Some(next2) => {
                        let head = (idx / 2, combine_of(rem[0], fv[0].1));
                        lemma_clamp_max_cons(head, next2.0);
                        lemma_clamp_max_skip(fv, 1);
                        lemma_clamp_max_head(fv);
                    },
                    None => {},
                }
            }
        }
    }
}

/// The validator's whole walk: layers are checked until a single known
/// position, the root's, remains with no proof hashes left; its hash is the
/// candidate root. `None` when the walk gets stuck.
pub open spec fn check_layers(fv: Seq<(int, u64)>, rem: Seq<u64>) -> Option<HashValue>
    decreases clamp_max(fv), rem.len(), fv.len(),
    via check_layers_decreases
{
    if fv.len() == 0 {
        None
    } else if fv.len() == 1 && fv[0].0 == 0 && rem.len() == 0 {
        Some(fv[0].1)
    } else {
        match check_layer(fv, rem) {
            Some(next) => check_layers(next.0, next.1),
            None => None,
        }
    }
}

#[via_fn]
proof fn check_layers_decreases(fv: Seq<(int, u64)>, rem: Seq<u64>) {
    if fv.len() == 0 {
    } else if fv.len() == 1 && fv[0].0 == 0 && rem.len() == 0 {
    } else {
        lemma_check_layer_shape(fv, rem);
        match check_layer(fv, rem) {
            Some(next) => {
                if next.1.len() == rem.len() {
                    assert(next.0.len() * 2 == fv.len());
                    assert(next.0.len() < fv.len());
                }
            },
            None => {},
        }
    }
}

/// Promotion keeps the frontier strictly increasing, halves its bound, never
/// grows it, and keeps it non-empty.
proof fn lemma_promote_frontier_props(f: Seq<int>, n: int)
    requires
        frontier_strict(f),
        frontier_bounded(f, n),
        n % 2 == 0,
    ensures
        frontier_strict(promote_frontier(f)),
        frontier_bounded(promote_frontier(f), n / 2),
        promote_frontier(f).len() <= f.len(),
        f.len() > 0 ==> promote_frontier(f).len() > 0,
        f.len() > 0 ==> promote_frontier(f)[0] == f[0] / 2,
    decreases f.len(),
{
    if f.len() == 0 {
    } else {
        let step: int = if f[0] % 2 == 0 && f.len() > 1 && f[1] == f[0] + 1 {
            2
        } else {
            1
        };
        let tail = f.skip(step);
        assert(forall|j: int| 0 <= j < tail.len() ==> tail[j] == f[j + step]);
        assert(frontier_strict(tail));
        assert(frontier_bounded(tail, n));
        lemma_promote_frontier_props(tail, n);
        let rest = promote_frontier(tail);
        let whole = seq![f[0] / 2] + rest;
        assert(promote_frontier(f) == whole);
        if tail.len() > 0 {
            // the next promoted position comes from a position at least two
            // beyond an even head, or one beyond an odd head, so it is
            // strictly above the head's parent
            assert(rest[0] == tail[0] / 2);
            if f[0] % 2 == 0 {
                assert(tail[0] >= f[0] + 2);
            } else {
                assert(tail[0] >= f[0] + 1);
            }
            assert(f[0] / 2 < rest[0]);
        }
        assert forall|j: int, k: int| 0 <= j < k < whole.len() implies whole[j] < whole[k] by {
            if j == 0 {
                if k - 1 > 0 {
                    assert(rest[0] < rest[k - 1]);
                }
            } else {
                assert(rest[j - 1] < rest[k - 1]);
            }
        }
        assert forall|j: int| 0 <= j < whole.len() implies 0 <= #[trigger] whole[j] < n / 2 by {
            if j > 0 {
                assert(rest[j - 1] < n / 2);
            }
        }
    }
}

/// Generates a compact multiproof that the blocks at `indices` are contained
/// in the sentence: the root, the indices in the caller's order, and exactly
/// the sibling hashes the verifier cannot derive, lower layers first.
pub fn generate_compact_multiproof(sentence: &str, indices: Vec<usize>) -> (r: (
    HashValue,
    CompactMerkleMultiProof,
))
    requires
        int_view(indices@).no_duplicates(),
        forall|p: int|
            0 <= p < indices@.len() ==> (#[trigger] indices@[p] as nat) < padded_count(sentence@),
    ensures
        r.0 == sentence_root(sentence@),
        r.1.leaf_indices@ == indices@,
        r.1.hashes@ == multiproof_hashes(
            padded_leaf_hashes(words_of(sentence@)),
            sort_ints(int_view(indices@)),
        ),
{
    let words = split_into_words(sentence);
    proof {
        assert(words@.map_values(|w: String| w@).len() == words@.len());
    }
    if words.len() == 0 {
        proof {
            assert(padded_leaf_hashes(words_of(sentence@)).len() == 1);
        }
        return (
            0,
            CompactMerkleMultiProof { leaf_indices: indices, hashes: Vec::new() },
        );
    }
    let mut nodes = padded_layer_of_words(&words);
    let ghost nodes0 = nodes@;
    let ghost iv = int_view(indices@);
    let ghost f0 = sort_ints(iv);
    let frontier = sort_indices(&indices);
    proof {
        lemma_pad_len_bounds(words_of(sentence@).len());
        lemma_sort_ints_props(iv);
        assert forall|j: int, k: int|
            0 <= j < k < f0.len() implies #[trigger] f0[j] < #[trigger] f0[k] by {
            assert(f0[j] <= f0[k]);
            assert(f0[j] != f0[k]);
        }
        assert forall|j: int| 0 <= j < f0.len() implies 0 <= #[trigger] f0[j]
            < nodes0.len() as int by {
            assert(f0.contains(f0[j]));
            assert(iv.contains(f0[j]));
            let p = choose|p: int| 0 <= p < iv.len() && iv[p] == f0[j];
            assert((indices@[p] as nat) < padded_count(sentence@));
        }
        assert(int_view(frontier@) == f0);
        assert(Seq::<HashValue>::empty() + multiproof_hashes(nodes0, f0) =~= multiproof_hashes(
            nodes0,
            f0,
        ));
    }
    let mut out: Vec<HashValue> = Vec::new();
    let mut frontier = frontier;
    while nodes.len() > 1
        invariant
            is_pow2(nodes@.len()),
            frontier_strict(int_view(frontier@)),
            frontier_bounded(int_view(frontier@), nodes@.len() as int),
            root_of_hashes(nodes@) == root_of_hashes(nodes0),
            out@ + multiproof_hashes(nodes@, int_view(frontier@)) == multiproof_hashes(
                nodes0,
                f0,
            ),
        decreases nodes@.len(),
    {
        proof {
            lemma_pow2_halves(nodes@.len());
        }
        let ghost lnodes = nodes@;
        let ghost lf = int_view(frontier@);
        let ghost rest_hashes = multiproof_hashes(next_layer_spec(lnodes), promote_frontier(lf));
        proof {
            assert(lf.skip(0) =~= lf);
            assert(multiproof_hashes(lnodes, lf) == layer_emits(lnodes, lf) + rest_hashes);
            assert(out@ + layer_emits(lnodes, lf) + rest_hashes =~= out@ + (layer_emits(lnodes, lf)
                + rest_hashes));
            assert(int_view(Seq::<usize>::empty()) + promote_frontier(lf) =~= promote_frontier(
                lf,
            ));
        }
        let mut next_frontier: Vec<usize> = Vec::new();
        let mut j: usize = 0;
        while j < frontier.len()
            invariant
                j <= frontier@.len(),
                lnodes == nodes@,
                lf == int_view(frontier@),
                is_pow2(lnodes.len()),
                lnodes.len() >= 2,
                frontier_strict(lf),
                frontier_bounded(lf, lnodes.len() as int),
                rest_hashes == multiproof_hashes(next_layer_spec(lnodes), promote_frontier(lf)),
                int_view(next_frontier@) + promote_frontier(lf.skip(j as int))
                    == promote_frontier(lf),
                out@ + layer_emits(lnodes, lf.skip(j as int)) + rest_hashes == multiproof_hashes(
                    nodes0,
                    f0,
                ),
            decreases frontier@.len() - j,
        {
            let ghost tail = lf.skip(j as int);
            let ghost nf_before = int_view(next_frontier@);
            let ghost out_before = out@;
            proof {
                assert(forall|t: int| 0 <= t < tail.len() ==> tail[t] == lf[j + t]);
            }
            let idx = frontier[j];
            if idx % 2 == 0 && j + 1 < frontier.len() && frontier[j + 1] == idx + 1 {
                next_frontier.push(idx / 2);
                j = j + 2;
                proof {
                    assert(tail.skip(2) =~= lf.skip(j as int));
                    assert(layer_emits(lnodes, tail) == layer_emits(lnodes, lf.skip(j as int)));
                    assert(promote_frontier(tail) == seq![tail[0] / 2] + promote_frontier(
                        lf.skip(j as int),
                    ));
                    assert(int_view(next_frontier@) =~= nf_before + seq![idx as int / 2]);
                    assert(int_view(next_frontier@) + promote_frontier(lf.skip(j as int))
                        =~= nf_before + promote_frontier(tail));
                }
            } else if idx % 2 == 0 {
                proof {
                    assert(idx as int + 1 < lnodes.len());
                }
                out.push(nodes[idx + 1]);
                next_frontier.push(idx / 2);
                j = j + 1;
                proof {
                    assert(tail.skip(1) =~= lf.skip(j as int));
                    assert(layer_emits(lnodes, tail) == seq![lnodes[idx as int + 1]]
                        + layer_emits(lnodes, lf.skip(j as int)));
                    assert(promote_frontier(tail) == seq![tail[0] / 2] + promote_frontier(
                        lf.skip(j as int),
                    ));
                    assert(int_view(next_frontier@) =~= nf_before + seq![idx as int / 2]);
                    assert(int_view(next_frontier@) + promote_frontier(lf.skip(j as int))
                        =~= nf_before + promote_frontier(tail));
                    assert(out@ + layer_emits(lnodes, lf.skip(j as int)) =~= out_before
                        + layer_emits(lnodes, tail));
                    assert(out@ + layer_emits(lnodes, lf.skip(j as int)) + rest_hashes
                        =~= out_before + layer_emits(lnodes, tail) + rest_hashes);
                }
            } else {
                out.push(nodes[idx - 1]);
                next_frontier.push(idx / 2);
                j = j + 1;
                proof {
                    assert(tail.skip(1) =~= lf.skip(j as int));
                    assert(layer_emits(lnodes, tail) == seq![lnodes[idx as int - 1]]
                        + layer_emits(lnodes, lf.skip(j as int)));
                    assert(promote_frontier(tail) == seq![tail[0] / 2] + promote_frontier(
                        lf.skip(j as int),
                    ));
                    assert(int_view(next_frontier@) =~= nf_before + seq![idx as int / 2]);
                    assert(int_view(next_frontier@) + promote_frontier(lf.skip(j as int))
                        =~= nf_before + promote_frontier(tail));
                    assert(out@ + layer_emits(lnodes, lf.skip(j as int)) =~= out_before
                        + layer_emits(lnodes, tail));
                    assert(out@ + layer_emits(lnodes, lf.skip(j as int)) + rest_hashes
                        =~= out_before + layer_emits(lnodes, tail) + rest_hashes);
                }
            }
        }
        proof {
            assert(lf.skip(j as int) =~= Seq::<int>::empty());
            assert(layer_emits(lnodes, lf.skip(j as int)) =~= Seq::<HashValue>::empty());
            assert(promote_frontier(lf.skip(j as int)) =~= Seq::<int>::empty());
            assert(int_view(next_frontier@) + Seq::<int>::empty() =~= int_view(next_frontier@));
            assert(int_view(next_frontier@) == promote_frontier(lf));
            assert(out@ + Seq::<HashValue>::empty() =~= out@);
            assert(out@ + rest_hashes == multiproof_hashes(nodes0, f0));
            lemma_promote_frontier_props(lf, lnodes.len() as int);
        }
        frontier = next_frontier;
        let parent_level = next_layer(&nodes);
        nodes = parent_level;
        proof {
            assert((lnodes.len() + 1) / 2 == lnodes.len() / 2);
        }
    }
    proof {
        assert(multiproof_hashes(nodes@, int_view(frontier@)) =~= Seq::<HashValue>::empty());
        assert(out@ + Seq::<HashValue>::empty() =~= out@);
        assert(out@ == multiproof_hashes(nodes0, f0));
    }
    (nodes[0], CompactMerkleMultiProof { leaf_indices: indices, hashes: out })
}

/// Generates a compact multiproof after checking the request: an index at or
/// beyond the padded leaf count is answered with a range error, a repeated
/// index with a duplicate error; neither is silently repaired.
pub fn try_generate_compact_multiproof(sentence: &str, indices: Vec<usize>) -> (r: Result<
    (HashValue, CompactMerkleMultiProof),
    ProofError,
>)
    ensures
        match r {
            Ok(p) => int_view(indices@).no_duplicates() && (forall|q: int|
                0 <= q < indices@.len() ==> (#[trigger] indices@[q] as nat) < padded_count(
                    sentence@,
                )) && p.0 == sentence_root(sentence@) && p.1.leaf_indices@ == indices@
                && p.1.hashes@ == multiproof_hashes(
                padded_leaf_hashes(words_of(sentence@)),
                sort_ints(int_view(indices@)),
            ),
            Err(e) => match e {
                ProofError::IndexOutOfRange => exists|q: int|
                    0 <= q < indices@.len() && (#[trigger] indices@[q] as nat) >= padded_count(
                        sentence@,
                    ),
                ProofError::DuplicateIndex => !int_view(indices@).no_duplicates() && (forall|
                    q: int,
                |
                    0 <= q < indices@.len() ==> (#[trigger] indices@[q] as nat) < padded_count(
                        sentence@,
                    )),
            },
        },
{
    let words = split_into_words(sentence);
    proof {
        assert(words@.map_values(|w: String| w@).len() == words@.len());
    }
    let padded: usize = if words.len() == 0 {
        0
    } else {
        padded_length(words.len())
    };
    proof {
        assert(padded as nat == padded_count(sentence@));
    }
    let mut p: usize = 0;
    while p < indices.len()
        invariant
            p <= indices@.len(),
            padded as nat == padded_count(sentence@),
            forall|q: int| 0 <= q < p ==> (#[trigger] indices@[q] as nat) < padded as nat,
        decreases indices@.len() - p,
    {
        if indices[p] >= padded {
            return Err(ProofError::IndexOutOfRange);
        }
        p = p + 1;
    }
    let mut a: usize = 0;
    while a < indices.len()
        invariant
            a <= indices@.len(),
            forall|q: int|
                0 <= q < indices@.len() ==> (#[trigger] indices@[q] as nat) < padded_count(
                    sentence@,
                ),
            forall|j: int, k: int|
                0 <= j < a && j < k < indices@.len() ==> int_view(indices@)[j] != int_view(
                    indices@,
                )[k],
        decreases indices@.len() - a,
    {
        let mut b: usize = a + 1;
        while b < indices.len()
            invariant
                a < b || a + 1 == b,
                a < indices@.len(),
                a + 1 <= b <= indices@.len(),
                forall|q: int|
                    0 <= q < indices@.len() ==> (#[trigger] indices@[q] as nat) < padded_count(
                        sentence@,
                    ),
                forall|k: int| a < k < b ==> int_view(indices@)[a as int] != int_view(indices@)[k],
            decreases indices@.len() - b,
        {
            if indices[a] == indices[b] {
                proof {
                    assert(int_view(indices@)[a as int] == int_view(indices@)[b as int]);
                    assert(!int_view(indices@).no_duplicates());
                    assert(forall|q: int|
                        0 <= q < indices@.len() ==> (#[trigger] indices@[q] as nat) < padded_count(
                            sentence@,
                        ));
                }
                return Err(ProofError::DuplicateIndex);
            }
            b = b + 1;
        }
        a = a + 1;
    }
    proof {
        let iv = int_view(indices@);
        assert forall|j: int, k: int|
            0 <= j < iv.len() && 0 <= k < iv.len() && j != k implies iv[j] != iv[k] by {
            if j < k {
                assert(iv[j] != iv[k]);
            } else {
                assert(iv[k] != iv[j]);
            }
        }
    }
    Ok(generate_compact_multiproof(sentence, indices))
}

/// The seed of a validation: each requested position paired with the hash of
/// the block supplied for it, in the caller's order.
pub open spec fn seed_pairs(indices: Seq<int>, ws: Seq<Seq<char>>) -> Seq<(int, u64)> {
    Seq::new(indices.len(), |p: int| (indices[p], str_hash(ws[p])))
}

/// What validation of a compact multiproof decides: the supplied blocks must
/// match the positions one to one, a repeated position is rejected, an empty
/// request accepts exactly the empty proof, and otherwise the layer walk over
/// the sorted seed must consume the proof hashes completely and end in the
/// given root.
pub open spec fn multiproof_check(
    root: HashValue,
    ws: Seq<Seq<char>>,
    indices: Seq<int>,
    hashes: Seq<u64>,
) -> bool {
    if indices.len() != ws.len() {
        false
    } else if indices.len() == 0 {
        hashes.len() == 0
    } else if !indices.no_duplicates() {
        false
    } else {
        check_layers(sort_pairs(seed_pairs(indices, ws)), hashes) == Some(root)
    }
}

/// Validates a compact multiproof against a root: reconstructs the tree
/// upward from the supplied blocks, consuming the proof's hashes in order,
/// and compares the reconstructed root. Malformed or adversarial input is
/// answered with `false`, never with a panic.
#[verifier::rlimit(60)]
pub fn validate_compact_multiproof(
    root: &HashValue,
    words: Vec<&str>,
    proof: CompactMerkleMultiProof,
) -> (r: bool)
    ensures
        r == multiproof_check(
            *root,
            words@.map_values(|w: &str| w@),
            int_view(proof.leaf_indices@),
            proof.hashes@,
        ),
{
    let ghost ws = words@.map_values(|w: &str| w@);
    let ghost iv = int_view(proof.leaf_indices@);
    if proof.leaf_indices.len() != words.len() {
        return false;
    }
    if proof.leaf_indices.len() == 0 {
        return proof.hashes.len() == 0;
    }
    let mut a: usize = 0;
    while a < proof.leaf_indices.len()
        invariant
            a <= proof.leaf_indices@.len(),
            iv == int_view(proof.leaf_indices@),
            forall|j: int, k: int| 0 <= j < a && j < k < iv.len() ==> iv[j] != iv[k],
        decreases proof.leaf_indices@.len() - a,
    {
        let mut b: usize = a + 1;
        while b < proof.leaf_indices.len()
            invariant
                a < proof.leaf_indices@.len(),
                a + 1 <= b <= proof.leaf_indices@.len(),
                iv == int_view(proof.leaf_indices@),
                forall|k: int| a < k < b ==> iv[a as int] != iv[k],
            decreases proof.leaf_indices@.len() - b,
        {
            if proof.leaf_indices[a] == proof.leaf_indices[b] {
                proof {
                    assert(iv[a as int] == iv[b as int]);
                    assert(!iv.no_duplicates());
                }
                return false;
            }
            b = b + 1;
        }
        a = a + 1;
    }
    proof {
        assert forall|j: int, k: int|
            0 <= j < iv.len() && 0 <= k < iv.len() && j != k implies iv[j] != iv[k] by {
            if j < k {
                assert(iv[j] != iv[k]);
            } else {
                assert(iv[k] != iv[j]);
            }
        }
    }
    let mut pairs: Vec<(usize, u64)> = Vec::new();
    let mut p: usize = 0;
    while p < words.len()
        invariant
            p <= words@.len(),
            proof.leaf_indices@.len() == words@.len(),
            ws == words@.map_values(|w: &str| w@),
            iv == int_view(proof.leaf_indices@),
            pair_view(pairs@) == seed_pairs(iv, ws).take(p as int),
        decreases words@.len() - p,
    {
        let ghost pp = p as int;
        let ghost prev = pairs@;
        let h = hash(words[p]);
        pairs.push((proof.leaf_indices[p], h));
        p = p + 1;
        proof {
            assert(pairs@ == prev.push((proof.leaf_indices@[pp], h)));
            assert(pair_view(pairs@) =~= pair_view(prev) + seq![
                (proof.leaf_indices@[pp] as int, h),
            ]);
            assert(ws[pp] == words@[pp]@);
            assert(h == str_hash(ws[pp]));
            assert(iv[pp] == proof.leaf_indices@[pp] as int);
            assert(seed_pairs(iv, ws)[pp] == (iv[pp], str_hash(ws[pp])));
            assert(seed_pairs(iv, ws).take(pp + 1) =~= seed_pairs(iv, ws).take(pp) + seq![
                seed_pairs(iv, ws)[pp],
            ]);
            assert(pair_view(pairs@) =~= seed_pairs(iv, ws).take(pp + 1));
        }
    }
    proof {
        assert(pair_view(pairs@) =~= seed_pairs(iv, ws));
    }
    let mut fv = sort_hash_pairs(pairs);
    let ghost fv0 = sort_pairs(seed_pairs(iv, ws));
    let ghost rem0 = proof.hashes@;
    let mut pos: usize = 0;
    proof {
        lemma_sort_pairs_props(seed_pairs(iv, ws));
        assert(proof.hashes@.skip(0) =~= rem0);
    }
    while !(fv.len() == 1 && fv[0].0 == 0 && pos == proof.hashes.len())
        invariant
            fv@.len() >= 1,
            pos <= proof.hashes@.len(),
            rem0 == proof.hashes@,
            ws == words@.map_values(|w: &str| w@),
            iv == int_view(proof.leaf_indices@),
            iv.len() == ws.len(),
            iv.len() > 0,
            iv.no_duplicates(),
            fv0 == sort_pairs(seed_pairs(iv, ws)),
            check_layers(pair_view(fv@), proof.hashes@.skip(pos as int)) == check_layers(
                fv0,
                rem0,
            ),
        decreases clamp_max(pair_view(fv@)), proof.hashes@.len() - pos, fv@.len(),
    {
        let ghost lfv = pair_view(fv@);
        let ghost lrem = proof.hashes@.skip(pos as int);
        let ghost target = check_layer(lfv, lrem);
        proof {
            assert(!(lfv.len() == 1 && lfv[0].0 == 0 && lrem.len() == 0));
            assert(check_layers(lfv, lrem) == match target {
                Some(next) => check_layers(next.0, next.1),
                None => None,
            });
            assert(lfv.skip(0) =~= lfv);
        }
        let mut next_fv: Vec<(usize, u64)> = Vec::new();
        let mut j: usize = 0;
        proof {
            assert(target == match check_layer(lfv.skip(0), proof.hashes@.skip(pos as int)) {
                Some(n) => Some((pair_view(next_fv@) + n.0, n.1)),
                None => None,
            }) by {
                match check_layer(lfv, lrem) {
                    Some(n) => {
                        assert(pair_view(next_fv@) + n.0 =~= n.0);
                    },
                    None => {},
                }
            }
        }
        while j < fv.len()
            invariant
                j <= fv@.len(),
                lfv == pair_view(fv@),
                pos <= proof.hashes@.len(),
                rem0 == proof.hashes@,
                ws == words@.map_values(|w: &str| w@),
                iv == int_view(proof.leaf_indices@),
                iv.len() == ws.len(),
                iv.len() > 0,
                iv.no_duplicates(),
                fv0 == sort_pairs(seed_pairs(iv, ws)),
                target == check_layer(lfv, lrem),
                check_layers(fv0, rem0) == (match target {
                    Some(next) => check_layers(next.0, next.1),
                    None => None,
                }),
                target == (match check_layer(lfv.skip(j as int), proof.hashes@.skip(pos as int)) {
                    Some(n) => Some((pair_view(next_fv@) + n.0, n.1)),
                    None => None,
                }),
            decreases fv@.len() - j,
        {
            let ghost tail = lfv.skip(j as int);
            let ghost rem_here = proof.hashes@.skip(pos as int);
            let ghost nf_before = pair_view(next_fv@);
            proof {
                assert(forall|t: int| 0 <= t < tail.len() ==> tail[t] == lfv[j + t]);
                assert(tail[0] == (fv@[j as int].0 as int, fv@[j as int].1));
            }
            let idx = fv[j].0;
            let val = fv[j].1;
            if idx % 2 == 0 && j + 1 < fv.len() && fv[j + 1].0 > idx && fv[j + 1].0 - idx == 1 {
                let sibling_val = fv[j + 1].1;
                let combined = crate::hashing::concatenate_hash_values(val, sibling_val);
                next_fv.push((idx / 2, combined));
                j = j + 2;
                proof {
                    let head = (idx as int / 2, combine_of(tail[0].1, tail[1].1));
                    assert(tail[1] == (fv@[j as int - 1].0 as int, fv@[j as int - 1].1));
                    assert(tail.skip(2) =~= lfv.skip(j as int));
                    assert(check_layer(tail, rem_here) == match check_layer(
                        lfv.skip(j as int),
                        rem_here,
                    ) {
                        Some(n) => Some((seq![head] + n.0, n.1)),
                        None => None,
                    });
                    assert(pair_view(next_fv@) =~= nf_before + seq![head]);
                    match check_layer(lfv.skip(j as int), rem_here) {
                        Some(n) => {
                            assert((nf_before + seq![head]) + n.0 =~= nf_before + (seq![head]
                                + n.0));
                        },
                        None => {},
                    }
                }
            } else if idx % 2 == 0 {
                if pos == proof.hashes.len() {
                    proof {
                        assert(proof.hashes@.skip(pos as int).len() == 0);
                        assert(check_layer(tail, rem_here) is None);
                        assert(target is None);
                        assert(check_layers(fv0, rem0) is None);
                    }
                    return false;
                }
                let consumed = proof.hashes[pos];
                let combined = crate::hashing::concatenate_hash_values(val, consumed);
                next_fv.push((idx / 2, combined));
                pos = pos + 1;
                j = j + 1;
                proof {
                    let head = (idx as int / 2, combine_of(tail[0].1, rem_here[0]));
                    assert(rem_here[0] == consumed);
                    assert(tail.skip(1) =~= lfv.skip(j as int));
                    assert(rem_here.skip(1) =~= proof.hashes@.skip(pos as int));
                    assert(check_layer(tail, rem_here) == match check_layer(
                        lfv.skip(j as int),
                        proof.hashes@.skip(pos as int),
                    ) {
                        Some(n) => Some((seq![head] + n.0, n.1)),
                        None => None,
                    });
                    assert(pair_view(next_fv@) =~= nf_before + seq![head]);
                    match check_layer(lfv.skip(j as int), proof.hashes@.skip(pos as int)) {
                        Some(n) => {
                            assert((nf_before + seq![head]) + n.0 =~= nf_before + (seq![head]
                                + n.0));
                        },
                        None => {},
                    }
                }
            } else {
                if pos == proof.hashes.len() {
                    proof {
                        assert(proof.hashes@.skip(pos as int).len() == 0);
                        assert(check_layer(tail, rem_here) is None);
                        assert(target is None);
                        assert(check_layers(fv0, rem0) is None);
                    }
                    return false;
                }
                let consumed = proof.hashes[pos];
                let combined = crate::hashing::concatenate_hash_values(consumed, val);
                next_fv.push((idx / 2, combined));
                pos = pos + 1;
                j = j + 1;
                proof {
                    let head = (idx as int / 2, combine_of(rem_here[0], tail[0].1));
                    assert(rem_here[0] == consumed);
                    assert(tail.skip(1) =~= lfv.skip(j as int));
                    assert(rem_here.skip(1) =~= proof.hashes@.skip(pos as int));
                    assert(check_layer(tail, rem_here) == match check_layer(
                        lfv.skip(j as int),
                        proof.hashes@.skip(pos as int),
                    ) {
                        Some(n) => Some((seq![head] + n.0, n.1)),
                        None => None,
                    });
                    assert(pair_view(next_fv@) =~= nf_before + seq![head]);
                    match check_layer(lfv.skip(j as int), proof.hashes@.skip(pos as int)) {
                        Some(n) => {
                            assert((nf_before + seq![head]) + n.0 =~= nf_before + (seq![head]
                                + n.0));
                        },
                        None => {},
                    }
                }
            }
        }
        proof {
            assert(lfv.skip(j as int) =~= Seq::<(int, u64)>::empty());
            assert(check_layer(lfv.skip(j as int), proof.hashes@.skip(pos as int)) == Some((
                Seq::<(int, u64)>::empty(),
                proof.hashes@.skip(pos as int),
            )));
            match target {
                Some(next) => {
                    assert(pair_view(next_fv@) + Seq::<(int, u64)>::empty() =~= pair_view(
                        next_fv@,
                    ));
                    assert(next.0 == pair_view(next_fv@));
                    assert(next.1 == proof.hashes@.skip(pos as int));
                },
                None => {
                    assert(false);
                },
            }
            lemma_check_layer_shape(lfv, lrem);
        }
        fv = next_fv;
    }
    proof {
        assert(proof.hashes@.skip(pos as int).len() == 0);
        let lfv = pair_view(fv@);
        assert(lfv.len() == 1 && lfv[0].0 == 0);
        assert(check_layers(lfv, proof.hashes@.skip(pos as int)) == Some(lfv[0].1));
        assert(check_layers(fv0, rem0) == Some(fv@[0].1));
    }
    fv[0].1 == *root
}

/// The frontier over a layer whose hashes are all known from the layer
/// itself: each position paired with the layer's hash at it.
pub open spec fn frontier_of(nodes: Seq<HashValue>, f: Seq<int>) -> Seq<(int, u64)> {
    Seq::new(f.len(), |j: int| (f[j], nodes[f[j]]))
}

/// A frontier with no requested positions emits nothing at any layer.
proof fn lemma_multiproof_hashes_empty(nodes: Seq<HashValue>)
    ensures
        multiproof_hashes(nodes, Seq::<int>::empty()).len() == 0,
    decreases nodes.len(),
{
    if nodes.len() > 1 {
        assert(layer_emits(nodes, Seq::<int>::empty()) =~= Seq::<HashValue>::empty());
        assert(promote_frontier(Seq::<int>::empty()) =~= Seq::<int>::empty());
        lemma_multiproof_hashes_empty(next_layer_spec(nodes));
    }
}

/// One validator layer over a truthful frontier, fed exactly the hashes the
/// generator emits for that layer, consumes them completely and yields the
/// truthful frontier of the layer above.
#[verifier::rlimit(100)]
#[verifier::spinoff_prover]
proof fn lemma_check_layer_of_emits(nodes: Seq<HashValue>, f: Seq<int>, tail: Seq<u64>)
    requires
        nodes.len() % 2 == 0,
        nodes.len() >= 2,
        frontier_strict(f),
        frontier_bounded(f, nodes.len() as int),
    ensures
        check_layer(frontier_of(nodes, f), layer_emits(nodes, f) + tail) == Some(
            (frontier_of(next_layer_spec(nodes), promote_frontier(f)), tail),
        ),
    decreases f.len(),
{
    let fv = frontier_of(nodes, f);
    let nl = next_layer_spec(nodes);
    if f.len() == 0 {
        assert(layer_emits(nodes, f) + tail =~= tail);
        assert(frontier_of(nl, promote_frontier(f)) =~= Seq::<(int, u64)>::empty());
        assert(check_layer(fv, tail) == Some((Seq::<(int, u64)>::empty(), tail)));
    } else {
        let idx = f[0];
        let rem = layer_emits(nodes, f) + tail;
        if idx % 2 == 0 && f.len() > 1 && f[1] == idx + 1 {
            let fs = f.skip(2);
            assert(forall|t: int| 0 <= t < fs.len() ==> fs[t] == f[t + 2]);
            assert(frontier_strict(fs));
            assert(frontier_bounded(fs, nodes.len() as int));
            lemma_check_layer_of_emits(nodes, fs, tail);
            assert(fv.skip(2) =~= frontier_of(nodes, fs));
            assert(layer_emits(nodes, f) == layer_emits(nodes, fs));
            assert(rem == layer_emits(nodes, fs) + tail);
            let head = (idx / 2, combine_of(nodes[idx], nodes[idx + 1]));
            assert(fv[0] == (idx, nodes[idx]) && fv[1] == (idx + 1, nodes[idx + 1]));
            assert(check_layer(fv, rem) == Some(
                (seq![head] + frontier_of(nl, promote_frontier(fs)), tail),
            ));
            assert(nl[idx / 2] == combine_of(nodes[idx], nodes[idx + 1]));
            assert(promote_frontier(f) == seq![idx / 2] + promote_frontier(fs));
            assert(seq![head] + frontier_of(nl, promote_frontier(fs)) =~= frontier_of(
                nl,
                promote_frontier(f),
            ));
        } else if idx % 2 == 0 {
            let fs = f.skip(1);
            assert(forall|t: int| 0 <= t < fs.len() ==> fs[t] == f[t + 1]);
            assert(frontier_strict(fs));
            assert(frontier_bounded(fs, nodes.len() as int));
            lemma_check_layer_of_emits(nodes, fs, tail);
            assert(fv.skip(1) =~= frontier_of(nodes, fs));
            assert(idx + 1 < nodes.len());
            assert(layer_emits(nodes, f) == seq![nodes[idx + 1]] + layer_emits(nodes, fs));
            assert(rem[0] == nodes[idx + 1]);
            assert(rem.skip(1) =~= layer_emits(nodes, fs) + tail);
            let head = (idx / 2, combine_of(nodes[idx], nodes[idx + 1]));
            assert(check_layer(fv, rem) == Some(
                (seq![head] + frontier_of(nl, promote_frontier(fs)), tail),
            ));
            assert(nl[idx / 2] == combine_of(nodes[idx], nodes[idx + 1]));
            assert(promote_frontier(f) == seq![idx / 2] + promote_frontier(fs));
            assert(seq![head] + frontier_of(nl, promote_frontier(fs)) =~= frontier_of(
                nl,
                promote_frontier(f),
            ));
        } else {
            let fs = f.skip(1);
            assert(forall|t: int| 0 <= t < fs.len() ==> fs[t] == f[t + 1]);
            assert(frontier_strict(fs));
            assert(frontier_bounded(fs, nodes.len() as int));
            lemma_check_layer_of_emits(nodes, fs, tail);
            assert(fv.skip(1) =~= frontier_of(nodes, fs));
            assert(layer_emits(nodes, f) == seq![nodes[idx - 1]] + layer_emits(nodes, fs));
            assert(rem[0] == nodes[idx - 1]);
            assert(rem.skip(1) =~= layer_emits(nodes, fs) + tail);
            let head = (idx / 2, combine_of(nodes[idx - 1], nodes[idx]));
            assert(check_layer(fv, rem) == Some(
                (seq![head] + frontier_of(nl, promote_frontier(fs)), tail),
            ));
            assert(2 * (idx / 2) == idx - 1);
            assert(nl[idx / 2] == combine_of(nodes[idx - 1], nodes[idx]));
            assert(promote_frontier(f) == seq![idx / 2] + promote_frontier(fs));
            assert(seq![head] + frontier_of(nl, promote_frontier(fs)) =~= frontier_of(
                nl,
                promote_frontier(f),
            ));
        }
    }
}

/// The validator's whole walk over a truthful frontier, fed exactly the
/// generated hashes, ends in the layer's root.
proof fn lemma_check_layers_of_multiproof(nodes: Seq<HashValue>, f: Seq<int>)
    requires
        is_pow2(nodes.len()),
        frontier_strict(f),
        frontier_bounded(f, nodes.len() as int),
        f.len() >= 1,
    ensures
        check_layers(frontier_of(nodes, f), multiproof_hashes(nodes, f)) == Some(
            root_of_hashes(nodes),
        ),
    decreases nodes.len(),
{
    let fv = frontier_of(nodes, f);
    let rem = multiproof_hashes(nodes, f);
    if nodes.len() == 1 {
        assert(f.len() == 1) by {
            if f.len() >= 2 {
                assert(f[0] < f[1]);
            }
        }
        assert(f[0] == 0);
        assert(rem.len() == 0);
        assert(check_layers(fv, rem) == Some(nodes[0]));
    } else {
        lemma_pow2_halves(nodes.len());
        let nl = next_layer_spec(nodes);
        let pf = promote_frontier(f);
        assert(rem == layer_emits(nodes, f) + multiproof_hashes(nl, pf));
        if fv.len() == 1 && fv[0].0 == 0 {
            assert(layer_emits(nodes, f) == seq![nodes[1]] + layer_emits(nodes, f.skip(1)));
            assert(rem.len() > 0);
        }
        lemma_check_layer_of_emits(nodes, f, multiproof_hashes(nl, pf));
        lemma_promote_frontier_props(f, nodes.len() as int);
        assert((nodes.len() + 1) / 2 == nodes.len() / 2);
        lemma_check_layers_of_multiproof(nl, pf);
        assert(check_layers(fv, rem) == check_layers(frontier_of(nl, pf), multiproof_hashes(
            nl,
            pf,
        )));
    }
}

/// The block standing at a position of the padded tree: the sentence's block
/// there, or the empty block in the padding range.
pub open spec fn word_at(s: Seq<char>, i: int) -> Seq<char> {
    if 0 <= i < words_of(s).len() {
        words_of(s)[i]
    } else {
        Seq::empty()
    }
}

/// Law: a generated compact multiproof validates. For every sentence and
/// every duplicate-free sequence of positions below the padded leaf count,
/// the validator, given the blocks standing at those positions and exactly
/// the hashes the generator emits, accepts against the generated root — and
/// that root is the sentence's own.
pub proof fn lemma_multiproof_round_trip(s: Seq<char>, indices: Seq<int>, ws: Seq<Seq<char>>)
    requires
        indices.len() == ws.len(),
        indices.no_duplicates(),
        forall|p: int| 0 <= p < indices.len() ==> 0 <= #[trigger] indices[p] < padded_count(s),
        forall|p: int| 0 <= p < indices.len() ==> #[trigger] ws[p] == word_at(s, indices[p]),
    ensures
        multiproof_check(
            sentence_root(s),
            ws,
            indices,
            multiproof_hashes(padded_leaf_hashes(words_of(s)), sort_ints(indices)),
        ),
{
    let nodes = padded_leaf_hashes(words_of(s));
    let hashes = multiproof_hashes(nodes, sort_ints(indices));
    if indices.len() == 0 {
        lemma_sort_ints_props(indices);
        assert(sort_ints(indices) =~= Seq::<int>::empty());
        lemma_multiproof_hashes_empty(nodes);
    } else {
        assert(padded_count(s) > 0);
        let wn = words_of(s).len();
        assert(wn >= 1);
        lemma_pad_len_bounds(wn);
        assert(nodes.len() == pad_len(wn));
        assert(padded_count(s) == nodes.len());
        let f = sort_ints(indices);
        lemma_sort_ints_props(indices);
        assert forall|j: int, k: int| 0 <= j < k < f.len() implies #[trigger] f[j] < #[trigger] f[k] by {
            assert(f[j] <= f[k]);
            assert(f[j] != f[k]);
        }
        assert forall|j: int| 0 <= j < f.len() implies 0 <= #[trigger] f[j] < nodes.len() as int by {
            assert(f.contains(f[j]));
            assert(indices.contains(f[j]));
            let p = choose|p: int| 0 <= p < indices.len() && indices[p] == f[j];
            assert(0 <= indices[p] < padded_count(s));
        }
        let ps = seed_pairs(indices, ws);
        assert forall|p: int| 0 <= p < ps.len() implies #[trigger] ps[p].1 == nodes[ps[p].0]
            && 0 <= ps[p].0 < nodes.len() as int by {
            assert(ws[p] == word_at(s, indices[p]));
            if indices[p] < wn {
                assert(nodes[indices[p]] == str_hash(words_of(s)[indices[p]]));
            } else {
                assert(nodes[indices[p]] == str_hash(Seq::<char>::empty()));
            }
        }
        let sp = sort_pairs(ps);
        lemma_sort_pairs_props(ps);
        assert(fsts(ps) =~= indices);
        assert(sp.len() == indices.len());
        assert(sp =~= frontier_of(nodes, f)) by {
            assert forall|j: int| 0 <= j < sp.len() implies sp[j] == (f[j], nodes[f[j]]) by {
                assert(fsts(sp)[j] == f[j]);
                assert(sp[j].0 == f[j]);
                assert(sp.contains(sp[j]));
                assert(ps.contains(sp[j]));
                let p = choose|p: int| 0 <= p < ps.len() && ps[p] == sp[j];
                assert(sp[j].1 == nodes[sp[j].0]);
            }
        }
        lemma_check_layers_of_multiproof(nodes, f);
        assert(check_layers(sp, hashes) == Some(root_of_hashes(nodes)));
        assert(sentence_root(s) == root_of_hashes(nodes));
    }
}

proof fn lemma_promote_frontier_len(f: Seq<int>)
    ensures
        promote_frontier(f).len() <= f.len(),
    decreases f.len(),
{
    if f.len() > 0 {
        if f[0] % 2 == 0 && f.len() > 1 && f[1] == f[0] + 1 {
            lemma_promote_frontier_len(f.skip(2));
        } else {
            lemma_promote_frontier_len(f.skip(1));
        }
    }
}

proof fn lemma_layer_emits_len(nodes: Seq<HashValue>, f: Seq<int>)
    ensures
        layer_emits(nodes, f).len() <= f.len(),
    decreases f.len(),
{
    if f.len() > 0 {
        if f[0] % 2 == 0 && f.len() > 1 && f[1] == f[0] + 1 {
            lemma_layer_emits_len(nodes, f.skip(2));
        } else {
            lemma_layer_emits_len(nodes, f.skip(1));
        }
    }
}

/// A layer whose frontier holds two adjacent siblings emits at least two
/// hashes fewer than the frontier's size.
proof fn lemma_layer_emits_with_pair(nodes: Seq<HashValue>, f: Seq<int>, j: int)
    requires
        frontier_strict(f),
        0 <= j < f.len() - 1,
        f[j] % 2 == 0,
        f[j + 1] == f[j] + 1,
    ensures
        layer_emits(nodes, f).len() + 2 <= f.len(),
    decreases f.len(),
{
    if f[0] % 2 == 0 && f.len() > 1 && f[1] == f[0] + 1 {
        lemma_layer_emits_len(nodes, f.skip(2));
    } else {
        // the head cannot be the left half of the shared pair, so the pair
        // sits wholly in the tail
        assert(j >= 1);
        let fs = f.skip(1);
        assert(forall|t: int| 0 <= t < fs.len() ==> fs[t] == f[t + 1]);
        assert(frontier_strict(fs));
        lemma_layer_emits_with_pair(nodes, fs, j - 1);
    }
}

/// Law: compactness. Over `k` requested positions of a power-of-two layer,
/// the multiproof carries at most `k` hashes per layer — never more than `k`
/// single proofs would (each single proof carries exactly one node per layer,
/// see `lemma_proof_path_len`) — and strictly fewer as soon as two requested
/// positions share a parent.
pub proof fn lemma_multiproof_compactness(nodes: Seq<HashValue>, f: Seq<int>)
    requires
        is_pow2(nodes.len()),
        frontier_strict(f),
        frontier_bounded(f, nodes.len() as int),
    ensures
        multiproof_hashes(nodes, f).len() <= f.len() * clog2(nodes.len()),
        (exists|j: int| 0 <= j < f.len() - 1 && f[j] % 2 == 0 && #[trigger] f[j + 1] == f[j] + 1)
            ==> multiproof_hashes(nodes, f).len() < f.len() * clog2(nodes.len()),
    decreases nodes.len(),
{
    if nodes.len() <= 1 {
        if f.len() >= 2 {
            assert(f[0] < f[1]);
            assert(false);
        }
    } else {
        lemma_pow2_halves(nodes.len());
        let nl = next_layer_spec(nodes);
        let pf = promote_frontier(f);
        assert((nodes.len() + 1) / 2 == nodes.len() / 2);
        let lower = clog2((nodes.len() / 2) as nat);
        assert(clog2(nodes.len()) == 1 + lower);
        lemma_promote_frontier_props(f, nodes.len() as int);
        lemma_promote_frontier_len(f);
        lemma_layer_emits_len(nodes, f);
        lemma_multiproof_compactness(nl, pf);
        assert(multiproof_hashes(nl, pf).len() <= pf.len() * lower);
        assert(pf.len() * lower <= f.len() * lower) by (nonlinear_arith)
            requires
                pf.len() <= f.len(),
        ;
        assert(f.len() + f.len() * lower == f.len() * (1 + lower)) by (nonlinear_arith);
        if exists|j: int|
            0 <= j < f.len() - 1 && f[j] % 2 == 0 && #[trigger] f[j + 1] == f[j] + 1 {
            let j = choose|j: int|
                0 <= j < f.len() - 1 && f[j] % 2 == 0 && #[trigger] f[j + 1] == f[j] + 1;
            lemma_layer_emits_with_pair(nodes, f, j);
            assert(lower >= 0);
        }
    }
}

} // verus!
