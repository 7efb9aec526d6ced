//! The tree builder: padding of the base layer to a power of two and the
//! layer-by-layer fold of leaf hashes into a single root.

use vstd::prelude::*;
use crate::hashing::HashValue;
use crate::hashing::combine_of;
use crate::hashing::hash;
use crate::hashing::split_into_words;
use crate::hashing::str_hash;
use crate::hashing::words_of;

verus! {

/// Whether `n` is a power of two (zero is not).
pub open spec fn is_pow2(n: nat) -> bool
    decreases n,
{
    if n == 0 {
        false
    } else if n == 1 {
        true
    } else {
        n % 2 == 0 && is_pow2(n / 2)
    }
}

/// Two to the `k`.
pub open spec fn pow2(k: nat) -> nat
    decreases k,
{
    if k == 0 {
        1
    } else {
        2 * pow2((k - 1) as nat)
    }
}

/// The ceiling of the base-two logarithm.
pub open spec fn clog2(n: nat) -> nat
    decreases n,
{
    if n <= 1 {
        0
    } else {
        1 + clog2(((n + 1) / 2) as nat)
    }
}

/// The padded length of a base layer of `n` blocks: the least power of two
/// that is at least `n` (and at least one).
pub open spec fn pad_len(n: nat) -> nat {
    pow2(clog2(if n == 0 { 1 } else { n }))
}

proof fn lemma_pow2_is_pow2(k: nat)
    ensures
        is_pow2(pow2(k)),
        pow2(k) >= 1,
    decreases k,
{
    if k > 0 {
        lemma_pow2_is_pow2((k - 1) as nat);
    }
}

pub(crate) proof fn lemma_pad_len_bounds(n: nat)
    requires
        n >= 1,
    ensures
        n <= pad_len(n) < 2 * n,
        is_pow2(pad_len(n)),
    decreases n,
{
    lemma_pow2_is_pow2(clog2(n));
    if n >= 2 {
        let m = ((n + 1) / 2) as nat;
        lemma_pad_len_bounds(m);
        assert(pad_len(n) == 2 * pad_len(m));
        assert(2 * m >= n);
        if n % 2 == 1 {
            // `pad_len(m)` is even while `n` is odd, so they differ and
            // `pad_len(m) < 2 * m == n + 1` tightens to `pad_len(m) < n`.
            assert(m >= 2);
            assert(clog2(m) >= 1);
            assert(pad_len(m) == 2 * pow2((clog2(m) - 1) as nat));
        }
    }
}

pub(crate) proof fn lemma_pow2_ordering(a: nat, b: nat)
    requires
        is_pow2(a),
        is_pow2(b),
        a < b,
    ensures
        2 * a <= b,
    decreases a,
{
    if a >= 2 {
        lemma_pow2_ordering(a / 2, b / 2);
    }
}

pub(crate) proof fn lemma_pad_len_exact(n: nat, p: nat)
    requires
        n >= 1,
        is_pow2(p),
        n <= p,
        p < 2 * n,
    ensures
        p == pad_len(n),
{
    lemma_pad_len_bounds(n);
    if p < pad_len(n) {
        lemma_pow2_ordering(p, pad_len(n));
    }
    if pad_len(n) < p {
        lemma_pow2_ordering(pad_len(n), p);
    }
}

/// Whether `n` is a power of two, decided by halving.
fn is_power_of_two(n: usize) -> (r: bool)
    ensures
        r == is_pow2(n as nat),
{
    if n == 0 {
        return false;
    }
    let mut m: usize = n;
    while m % 2 == 0
        invariant
            m >= 1,
            is_pow2(n as nat) == is_pow2(m as nat),
        decreases m,
    {
        m = m / 2;
    }
    m == 1
}

/// Appends empty blocks to the base layer until its length is a power of two.
pub fn pad_base_layer(blocks: &mut Vec<&str>)
    requires
        old(blocks)@.len() <= usize::MAX / 2,
    ensures
        final(blocks)@.len() == pad_len(old(blocks)@.len()),
        forall|i: int| 0 <= i < old(blocks)@.len() ==> final(blocks)@[i] == old(blocks)@[i],
        forall|i: int|
            old(blocks)@.len() <= i < final(blocks)@.len() ==> final(blocks)@[i]@
                == Seq::<char>::empty(),
{
    proof {
        reveal_strlit("");
        if old(blocks)@.len() >= 1 {
            lemma_pad_len_bounds(old(blocks)@.len());
        }
    }
    while !is_power_of_two(blocks.len())
        invariant
            old(blocks)@.len() <= usize::MAX / 2,
            old(blocks)@.len() <= blocks@.len() <= pad_len(old(blocks)@.len()),
            forall|i: int| 0 <= i < old(blocks)@.len() ==> blocks@[i] == old(blocks)@[i],
            forall|i: int|
                old(blocks)@.len() <= i < blocks@.len() ==> blocks@[i]@ == Seq::<char>::empty(),
        decreases pad_len(old(blocks)@.len()) - blocks@.len(),
    {
        proof {
            if old(blocks)@.len() >= 1 {
                lemma_pad_len_bounds(old(blocks)@.len());
            }
            assert(blocks@.len() < pad_len(old(blocks)@.len()));
        }
        blocks.push("");
        proof {
            reveal_strlit("");
        }
    }
    proof {
        let n0 = old(blocks)@.len();
        if n0 == 0 {
            assert(blocks@.len() == 1);
        } else {
            lemma_pad_len_exact(n0, blocks@.len());
        }
    }
}

/// One layer up: adjacent pairs combined left to right; a leftover block at
/// the end of an odd layer is promoted unchanged.
pub open spec fn next_layer_spec(h: Seq<HashValue>) -> Seq<HashValue> {
    Seq::new(((h.len() + 1) / 2) as nat, |k: int|
        if 2 * k + 1 < h.len() {
            combine_of(h[2 * k], h[2 * k + 1])
        } else {
            h[2 * k]
        })
}

/// The root of a layer of hashes: zero for an empty layer, the hash itself
/// for a single block, and otherwise the root of the folded layer above.
pub open spec fn root_of_hashes(h: Seq<HashValue>) -> HashValue
    decreases h.len(),
{
    if h.len() == 0 {
        0
    } else if h.len() == 1 {
        h[0]
    } else {
        root_of_hashes(next_layer_spec(h))
    }
}

/// Builds the layer above the given one.
pub(crate) fn next_layer(hashes: &Vec<HashValue>) -> (r: Vec<HashValue>)
    requires
        hashes@.len() >= 2,
    ensures
        r@ == next_layer_spec(hashes@),
{
    let mut r: Vec<HashValue> = Vec::new();
    let half: usize = hashes.len() / 2 + hashes.len() % 2;
    let mut k: usize = 0;
    while k < half
        invariant
            half == ((hashes@.len() + 1) / 2) as nat,
            k <= half,
            r@ == next_layer_spec(hashes@).take(k as int),
        decreases half - k,
    {
        proof {
            assert(2 * (k as int) < hashes@.len());
        }
        if hashes.len() - 2 * k >= 2 {
            let combined = crate::hashing::concatenate_hash_values(hashes[2 * k], hashes[2 * k + 1]);
            r.push(combined);
        } else {
            r.push(hashes[2 * k]);
        }
        k = k + 1;
        proof {
            assert(r@ =~= next_layer_spec(hashes@).take(k as int));
        }
    }
    proof {
        assert(r@ =~= next_layer_spec(hashes@));
    }
    r
}

/// Folds a layer of hashes upward until a single root remains.
fn calculate_merkle_root_rec(hashes: Vec<HashValue>) -> (r: HashValue)
    ensures
        r == root_of_hashes(hashes@),
    decreases hashes@.len(),
{
    if hashes.len() == 0 {
        0
    } else if hashes.len() == 1 {
        hashes[0]
    } else {
        let parent_level_hashes = next_layer(&hashes);
        calculate_merkle_root_rec(parent_level_hashes)
    }
}

/// The hashes of a sequence of blocks, in order.
pub open spec fn leaf_hashes(ws: Seq<Seq<char>>) -> Seq<HashValue> {
    ws.map_values(|w: Seq<char>| str_hash(w))
}

/// The base layer of the tree for the given blocks: their hashes, padded with
/// the empty block's hash up to the padded length.
pub open spec fn padded_leaf_hashes(ws: Seq<Seq<char>>) -> Seq<HashValue> {
    leaf_hashes(ws) + Seq::new((pad_len(ws.len()) - ws.len()) as nat, |i: int|
        str_hash(Seq::<char>::empty()))
}

/// How many leaves the padded tree over a sentence has: zero for a sentence
/// without blocks, otherwise the padded length of its block count.
pub open spec fn padded_count(s: Seq<char>) -> nat {
    if words_of(s).len() == 0 {
        0
    } else {
        pad_len(words_of(s).len())
    }
}

/// The Merkle root of a sentence: zero for a sentence without blocks,
/// otherwise the fold of its padded leaf hashes.
pub open spec fn sentence_root(s: Seq<char>) -> HashValue {
    if words_of(s).len() == 0 {
        0
    } else {
        root_of_hashes(padded_leaf_hashes(words_of(s)))
    }
}

/// Hashes each block of a list.
pub(crate) fn hash_words(words: &Vec<String>) -> (r: Vec<HashValue>)
    ensures
        r@ == leaf_hashes(words@.map_values(|w: String| w@)),
{
    let ghost ws = words@.map_values(|w: String| w@);
    let mut r: Vec<HashValue> = Vec::new();
    let mut i: usize = 0;
    while i < words.len()
        invariant
            i <= words@.len(),
            ws == words@.map_values(|w: String| w@),
            r@ == leaf_hashes(ws).take(i as int),
        decreases words@.len() - i,
    {
        let h = hash(words[i].as_str());
        r.push(h);
        i = i + 1;
        proof {
            assert(r@ =~= leaf_hashes(ws).take(i as int));
        }
    }
    proof {
        assert(r@ =~= leaf_hashes(ws));
    }
    r
}

/// Appends `fill` to the layer until its length is a power of two.
pub(crate) fn pad_hashes(hashes: &mut Vec<HashValue>, fill: HashValue)
    requires
        old(hashes)@.len() >= 1,
        old(hashes)@.len() <= usize::MAX / 2,
    ensures
        final(hashes)@.len() == pad_len(old(hashes)@.len()),
        final(hashes)@ == old(hashes)@ + Seq::new(
            (pad_len(old(hashes)@.len()) - old(hashes)@.len()) as nat,
            |i: int| fill,
        ),
{
    proof {
        lemma_pad_len_bounds(old(hashes)@.len());
    }
    while !is_power_of_two(hashes.len())
        invariant
            1 <= old(hashes)@.len() <= usize::MAX / 2,
            old(hashes)@.len() <= hashes@.len() <= pad_len(old(hashes)@.len()),
            hashes@ == old(hashes)@ + Seq::new(
                (hashes@.len() - old(hashes)@.len()) as nat,
                |i: int| fill,
            ),
        decreases pad_len(old(hashes)@.len()) - hashes@.len(),
    {
        proof {
            lemma_pad_len_bounds(old(hashes)@.len());
            assert(hashes@.len() < pad_len(old(hashes)@.len()));
        }
        hashes.push(fill);
        proof {
            assert(hashes@ =~= old(hashes)@ + Seq::new(
                (hashes@.len() - old(hashes)@.len()) as nat,
                |i: int| fill,
            ));
        }
    }
    proof {
        lemma_pad_len_exact(old(hashes)@.len(), hashes@.len());
    }
}

/// Builds the padded base layer of a block list: leaf hashes padded with the
/// empty block's hash up to the padded length.
pub(crate) fn padded_layer_of_words(words: &Vec<String>) -> (r: Vec<HashValue>)
    requires
        words@.len() >= 1,
        words@.len() <= usize::MAX / 2,
    ensures
        r@ == padded_leaf_hashes(words@.map_values(|w: String| w@)),
{
    let mut hashes = hash_words(words);
    let empty_hash = hash("");
    proof {
        reveal_strlit("");
        assert(""@ =~= Seq::<char>::empty());
    }
    pad_hashes(&mut hashes, empty_hash);
    proof {
        assert(hashes@ =~= padded_leaf_hashes(words@.map_values(|w: String| w@)));
    }
    hashes
}

/// Computes the padded length of a base layer of `n` blocks by doubling.
pub(crate) fn padded_length(n: usize) -> (r: usize)
    requires
        1 <= n <= usize::MAX / 2,
    ensures
        r as nat == pad_len(n as nat),
{
    proof {
        lemma_pad_len_bounds(n as nat);
    }
    let mut p: usize = 1;
    while p < n
        invariant
            1 <= p,
            n <= usize::MAX / 2,
            is_pow2(p as nat),
            p as nat <= pad_len(n as nat),
        decreases pad_len(n as nat) - p,
    {
        proof {
            lemma_pad_len_bounds(n as nat);
            lemma_pow2_ordering(p as nat, pad_len(n as nat));
        }
        p = p * 2;
    }
    proof {
        lemma_pad_len_exact(n as nat, p as nat);
    }
    p
}

/// Calculates the Merkle root of a sentence. Each whitespace-separated block
/// of the sentence is one leaf; a sentence without blocks has the degenerate
/// root zero.
pub fn calculate_merkle_root(sentence: &str) -> (r: HashValue)
    ensures
        r == sentence_root(sentence@),
{
    let words = split_into_words(sentence);
    if words.len() == 0 {
        return 0;
    }
    let hashes = padded_layer_of_words(&words);
    calculate_merkle_root_rec(hashes)
}

/// Law: the root of a sentence is deterministic — it is a function of the
/// sentence's characters alone, so two computations over equal input always
/// agree.
pub proof fn lemma_root_of_deterministic(s1: Seq<char>, s2: Seq<char>)
    requires
        s1 == s2,
    ensures
        sentence_root(s1) == sentence_root(s2),
{
}

} // verus!
