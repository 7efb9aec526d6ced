//! Ordering helpers: insertion sort over leaf positions, alone and paired
//! with their hashes, used to canonicalise a multiproof request into an
//! ascending knowledge frontier.

use vstd::prelude::*;

verus! {

/// Non-decreasing order of a position sequence.
pub open spec fn sorted_ints(s: Seq<int>) -> bool {
    forall|j: int, k: int| 0 <= j < k < s.len() ==> s[j] <= s[k]
}

/// `x` inserted in front of the first entry that is not below it.
pub open spec fn insert_sorted_int(x: int, s: Seq<int>) -> Seq<int>
    decreases s.len(),
{
    if s.len() == 0 {
        seq![x]
    } else if x <= s[0] {
        seq![x] + s
    } else {
        seq![s[0]] + insert_sorted_int(x, s.drop_first())
    }
}

/// The positions rearranged into non-decreasing order.
pub open spec fn sort_ints(s: Seq<int>) -> Seq<int>
    decreases s.len(),
{
    if s.len() == 0 {
        seq![]
    } else {
        insert_sorted_int(s[0], sort_ints(s.drop_first()))
    }
}

/// A pair inserted by its position, in front of the first entry whose
/// position is not below it.
pub open spec fn insert_sorted_pair(p: (int, u64), s: Seq<(int, u64)>) -> Seq<(int, u64)>
    decreases s.len(),
{
    if s.len() == 0 {
        seq![p]
    } else if p.0 <= s[0].0 {
        seq![p] + s
    } else {
        seq![s[0]] + insert_sorted_pair(p, s.drop_first())
    }
}

/// The pairs rearranged into non-decreasing order of their positions.
pub open spec fn sort_pairs(s: Seq<(int, u64)>) -> Seq<(int, u64)>
    decreases s.len(),
{
    if s.len() == 0 {
        seq![]
    } else {
        insert_sorted_pair(s[0], sort_pairs(s.drop_first()))
    }
}

/// The positions of a pair sequence, in order.
pub open spec fn fsts(s: Seq<(int, u64)>) -> Seq<int> {
    s.map_values(|p: (int, u64)| p.0)
}

/// A position vector seen as a sequence of mathematical integers.
pub open spec fn int_view(xs: Seq<usize>) -> Seq<int> {
    xs.map_values(|x: usize| x as int)
}

/// A pair vector seen with its positions as mathematical integers.
pub open spec fn pair_view(ps: Seq<(usize, u64)>) -> Seq<(int, u64)> {
    ps.map_values(|p: (usize, u64)| (p.0 as int, p.1))
}

proof fn lemma_cons_contains<A>(x: A, s: Seq<A>, y: A)
    ensures
        (seq![x] + s).contains(y) <==> (y == x || s.contains(y)),
{
    if (seq![x] + s).contains(y) {
        let k = choose|k: int| 0 <= k < (seq![x] + s).len() && (seq![x] + s)[k] == y;
        if k > 0 {
            assert(s[k - 1] == y);
        }
    }
    if y == x {
        assert((seq![x] + s)[0] == y);
    }
    if s.contains(y) {
        let k = choose|k: int| 0 <= k < s.len() && s[k] == y;
        assert((seq![x] + s)[k + 1] == y);
    }
}

pub(crate) proof fn lemma_insert_sorted_int_props(x: int, s: Seq<int>)
    ensures
        insert_sorted_int(x, s).len() == s.len() + 1,
        forall|y: int| insert_sorted_int(x, s).contains(y) <==> (y == x || s.contains(y)),
        sorted_ints(s) ==> sorted_ints(insert_sorted_int(x, s)),
        sorted_ints(s) && !s.contains(x) && s.no_duplicates() ==> insert_sorted_int(
            x,
            s,
        ).no_duplicates(),
    decreases s.len(),
{
    if s.len() == 0 {
        assert forall|y: int| insert_sorted_int(x, s).contains(y) implies (y == x || s.contains(
            y,
        )) by {
            lemma_cons_contains(x, s, y);
        }
        assert(insert_sorted_int(x, s).contains(x)) by {
            assert(insert_sorted_int(x, s)[0] == x);
        }
    } else if x <= s[0] {
        assert forall|y: int| #![all_triggers] insert_sorted_int(x, s).contains(y) <==> (y == x
            || s.contains(y)) by {
            lemma_cons_contains(x, s, y);
        }
        if sorted_ints(s) {
            let t = seq![x] + s;
            assert forall|j: int, k: int| 0 <= j < k < t.len() implies t[j] <= t[k] by {
                if j > 0 {
                    assert(s[j - 1] <= s[k - 1]);
                }
            }
            if !s.contains(x) && s.no_duplicates() {
                assert forall|j: int, k: int|
                    0 <= j < t.len() && 0 <= k < t.len() && j != k implies t[j] != t[k] by {
                    if j == 0 && k > 0 {
                        assert(s.contains(s[k - 1]));
                    } else if k == 0 && j > 0 {
                        assert(s.contains(s[j - 1]));
                    } else if j > 0 && k > 0 {
                        assert(s[j - 1] != s[k - 1]);
                    }
                }
            }
        }
    } else {
        let rest = insert_sorted_int(x, s.drop_first());
        lemma_insert_sorted_int_props(x, s.drop_first());
        let t = seq![s[0]] + rest;
        assert forall|y: int| #![all_triggers] t.contains(y) <==> (y == x || s.contains(y)) by {
            lemma_cons_contains(s[0], rest, y);
            lemma_cons_contains(s[0], s.drop_first(), y);
            assert(s =~= seq![s[0]] + s.drop_first());
        }
        if sorted_ints(s) {
            assert forall|j: int, k: int|
                0 <= j < k < s.drop_first().len() implies s.drop_first()[j] <= s.drop_first()[k] by {
                assert(s[j + 1] <= s[k + 1]);
            }
            assert(sorted_ints(s.drop_first()));
            // every entry of `rest` is `x` or an entry of the tail, so the
            // head stays the least
            assert forall|j: int, k: int| 0 <= j < k < t.len() implies t[j] <= t[k] by {
                if j == 0 {
                    assert(rest.contains(rest[k - 1]));
                    lemma_insert_sorted_int_props(x, s.drop_first());
                    if rest[k - 1] != x {
                        assert(s.drop_first().contains(rest[k - 1]));
                        let m = choose|m: int|
                            0 <= m < s.drop_first().len() && s.drop_first()[m] == rest[k - 1];
                        assert(s.drop_first()[m] == s[m + 1]);
                        assert(s[0] <= s[m + 1]);
                    }
                } else {
                    assert(sorted_ints(rest));
                    assert(rest[j - 1] <= rest[k - 1]);
                }
            }
            if !s.contains(x) && s.no_duplicates() {
                assert(!s.drop_first().contains(x)) by {
                    if s.drop_first().contains(x) {
                        let m = choose|m: int|
                            0 <= m < s.drop_first().len() && s.drop_first()[m] == x;
                        assert(s[m + 1] == x);
                    }
                }
                assert(s.drop_first().no_duplicates()) by {
                    assert forall|j: int, k: int|
                        0 <= j < s.drop_first().len() && 0 <= k < s.drop_first().len() && j
                            != k implies s.drop_first()[j] != s.drop_first()[k] by {
                        assert(s[j + 1] != s[k + 1]);
                    }
                }
                assert(!rest.contains(s[0])) by {
                    if s.drop_first().contains(s[0]) {
                        let m = choose|m: int|
                            0 <= m < s.drop_first().len() && s.drop_first()[m] == s[0];
                        assert(s[m + 1] == s[0]);
                    }
                }
                assert forall|j: int, k: int|
                    0 <= j < t.len() && 0 <= k < t.len() && j != k implies t[j] != t[k] by {
                    if j == 0 && k > 0 {
                        assert(rest.contains(rest[k - 1]));
                    } else if k == 0 && j > 0 {
                        assert(rest.contains(rest[j - 1]));
                    } else if j > 0 && k > 0 {
                        assert(rest[j - 1] != rest[k - 1]);
                    }
                }
            }
        }
    }
}

pub(crate) proof fn lemma_sort_ints_props(s: Seq<int>)
    ensures
        sort_ints(s).len() == s.len(),
        forall|y: int| sort_ints(s).contains(y) <==> s.contains(y),
        sorted_ints(sort_ints(s)),
        s.no_duplicates() ==> sort_ints(s).no_duplicates(),
    decreases s.len(),
{
    if s.len() == 0 {
        assert forall|y: int| sort_ints(s).contains(y) <==> s.contains(y) by {}
    } else {
        let rest = s.drop_first();
        lemma_sort_ints_props(rest);
        lemma_insert_sorted_int_props(s[0], sort_ints(rest));
        assert forall|y: int| #![all_triggers] sort_ints(s).contains(y) <==> s.contains(y) by {
            lemma_cons_contains(s[0], rest, y);
            assert(s =~= seq![s[0]] + rest);
        }
        if s.no_duplicates() {
            assert(rest.no_duplicates()) by {
                assert forall|j: int, k: int|
                    0 <= j < rest.len() && 0 <= k < rest.len() && j != k implies rest[j]
                    != rest[k] by {
                    assert(s[j + 1] != s[k + 1]);
                }
            }
            assert(!sort_ints(rest).contains(s[0])) by {
                if rest.contains(s[0]) {
                    let m = choose|m: int| 0 <= m < rest.len() && rest[m] == s[0];
                    assert(s[m + 1] == s[0]);
                }
            }
        }
    }
}

pub(crate) proof fn lemma_insert_sorted_pair_props(p: (int, u64), s: Seq<(int, u64)>)
    ensures
        insert_sorted_pair(p, s).len() == s.len() + 1,
        forall|e: (int, u64)| #![all_triggers] insert_sorted_pair(p, s).contains(e) <==> (e == p
            || s.contains(e)),
        fsts(insert_sorted_pair(p, s)) == insert_sorted_int(p.0, fsts(s)),
    decreases s.len(),
{
    assert(fsts(s).len() == s.len());
    if s.len() == 0 {
        assert forall|e: (int, u64)| #![all_triggers] insert_sorted_pair(p, s).contains(e) <==> (e
            == p || s.contains(e)) by {
            lemma_cons_contains(p, s, e);
        }
        assert(fsts(seq![p]) =~= seq![p.0]);
    } else if p.0 <= s[0].0 {
        assert forall|e: (int, u64)| #![all_triggers] insert_sorted_pair(p, s).contains(e) <==> (e
            == p || s.contains(e)) by {
            lemma_cons_contains(p, s, e);
        }
        assert(fsts(seq![p] + s) =~= seq![p.0] + fsts(s));
    } else {
        lemma_insert_sorted_pair_props(p, s.drop_first());
        let rest = insert_sorted_pair(p, s.drop_first());
        assert forall|e: (int, u64)| #![all_triggers] insert_sorted_pair(p, s).contains(e) <==> (e
            == p || s.contains(e)) by {
            lemma_cons_contains(s[0], rest, e);
            lemma_cons_contains(s[0], s.drop_first(), e);
            assert(s =~= seq![s[0]] + s.drop_first());
        }
        assert(fsts(s.drop_first()) =~= fsts(s).drop_first());
        assert(fsts(seq![s[0]] + rest) =~= seq![s[0].0] + fsts(rest));
        assert(fsts(insert_sorted_pair(p, s)) =~= insert_sorted_int(p.0, fsts(s)));
    }
}

pub(crate) proof fn lemma_sort_pairs_props(s: Seq<(int, u64)>)
    ensures
        sort_pairs(s).len() == s.len(),
        forall|e: (int, u64)| sort_pairs(s).contains(e) <==> s.contains(e),
        fsts(sort_pairs(s)) == sort_ints(fsts(s)),
    decreases s.len(),
{
    assert(fsts(s).len() == s.len());
    if s.len() == 0 {
        assert(fsts(sort_pairs(s)) =~= sort_ints(fsts(s)));
        assert forall|e: (int, u64)| sort_pairs(s).contains(e) <==> s.contains(e) by {}
    } else {
        let rest = s.drop_first();
        lemma_sort_pairs_props(rest);
        lemma_insert_sorted_pair_props(s[0], sort_pairs(rest));
        assert forall|e: (int, u64)| #![all_triggers] sort_pairs(s).contains(e) <==> s.contains(
            e,
        ) by {
            lemma_cons_contains(s[0], rest, e);
            assert(s =~= seq![s[0]] + rest);
            assert(sort_pairs(s) == insert_sorted_pair(s[0], sort_pairs(rest)));
            assert(insert_sorted_pair(s[0], sort_pairs(rest)).contains(e) <==> (e == s[0]
                || sort_pairs(rest).contains(e))) by {
                lemma_insert_sorted_pair_props(s[0], sort_pairs(rest));
            }
        }
        assert(fsts(rest) =~= fsts(s).drop_first());
        assert(fsts(sort_pairs(s)) =~= sort_ints(fsts(s)));
    }
}

proof fn lemma_insert_sorted_int_at(x: int, s: Seq<int>, pos: int)
    requires
        0 <= pos <= s.len(),
        forall|j: int| 0 <= j < pos ==> s[j] < x,
        pos < s.len() ==> x <= s[pos],
    ensures
        insert_sorted_int(x, s) == s.insert(pos, x),
    decreases pos,
{
    if pos == 0 {
        assert(insert_sorted_int(x, s) =~= s.insert(0, x));
    } else {
        lemma_insert_sorted_int_at(x, s.drop_first(), pos - 1);
        assert(insert_sorted_int(x, s) =~= s.insert(pos, x)) by {
            s.drop_first().insert_ensures(pos - 1, x);
            s.insert_ensures(pos, x);
            assert(seq![s[0]] + s.drop_first().insert(pos - 1, x) =~= s.insert(pos, x));
        }
    }
}

proof fn lemma_insert_sorted_pair_at(p: (int, u64), s: Seq<(int, u64)>, pos: int)
    requires
        0 <= pos <= s.len(),
        forall|j: int| 0 <= j < pos ==> s[j].0 < p.0,
        pos < s.len() ==> p.0 <= s[pos].0,
    ensures
        insert_sorted_pair(p, s) == s.insert(pos, p),
    decreases pos,
{
    if pos == 0 {
        assert(insert_sorted_pair(p, s) =~= s.insert(0, p));
    } else {
        lemma_insert_sorted_pair_at(p, s.drop_first(), pos - 1);
        assert(insert_sorted_pair(p, s) =~= s.insert(pos, p)) by {
            s.drop_first().insert_ensures(pos - 1, p);
            s.insert_ensures(pos, p);
            assert(seq![s[0]] + s.drop_first().insert(pos - 1, p) =~= s.insert(pos, p));
        }
    }
}

/// Rearranges the requested leaf positions into ascending order.
pub(crate) fn sort_indices(xs: &Vec<usize>) -> (r: Vec<usize>)
    ensures
        int_view(r@) == sort_ints(int_view(xs@)),
{
    let mut r: Vec<usize> = Vec::new();
    let mut i: usize = xs.len();
    proof {
        assert(int_view(xs@).skip(i as int) =~= Seq::<int>::empty());
        assert(int_view(r@) =~= sort_ints(int_view(xs@).skip(i as int)));
    }
    while i > 0
        invariant
            i <= xs@.len(),
            int_view(r@) == sort_ints(int_view(xs@).skip(i as int)),
        decreases i,
    {
        i = i - 1;
        let x = xs[i];
        let mut pos: usize = 0;
        while pos < r.len() && r[pos] < x
            invariant
                pos <= r@.len(),
                forall|j: int| 0 <= j < pos ==> int_view(r@)[j] < x as int,
            decreases r@.len() - pos,
        {
            pos = pos + 1;
        }
        let ghost before = int_view(r@);
        r.insert(pos, x);
        proof {
            lemma_insert_sorted_int_at(x as int, before, pos as int);
            before.insert_ensures(pos as int, x as int);
            assert(int_view(r@) =~= before.insert(pos as int, x as int));
            let t = int_view(xs@).skip(i as int);
            assert(t[0] == x as int);
            assert(t.drop_first() =~= int_view(xs@).skip(i as int + 1));
            assert(int_view(r@) == sort_ints(t));
        }
    }
    proof {
        assert(int_view(xs@).skip(0) =~= int_view(xs@));
    }
    r
}

/// Rearranges position-hash pairs into ascending order of position.
pub(crate) fn sort_hash_pairs(ps: Vec<(usize, u64)>) -> (r: Vec<(usize, u64)>)
    ensures
        pair_view(r@) == sort_pairs(pair_view(ps@)),
{
    let mut r: Vec<(usize, u64)> = Vec::new();
    let mut i: usize = ps.len();
    proof {
        assert(pair_view(ps@).skip(i as int) =~= Seq::<(int, u64)>::empty());
        assert(pair_view(r@) =~= sort_pairs(pair_view(ps@).skip(i as int)));
    }
    while i > 0
        invariant
            i <= ps@.len(),
            pair_view(r@) == sort_pairs(pair_view(ps@).skip(i as int)),
        decreases i,
    {
        i = i - 1;
        let p = ps[i];
        let mut pos: usize = 0;
        while pos < r.len() && r[pos].0 < p.0
            invariant
                pos <= r@.len(),
                forall|j: int| 0 <= j < pos ==> pair_view(r@)[j].0 < p.0 as int,
            decreases r@.len() - pos,
        {
            pos = pos + 1;
        }
        let ghost before = pair_view(r@);
        let ghost pm = (p.0 as int, p.1);
        r.insert(pos, p);
        proof {
            lemma_insert_sorted_pair_at(pm, before, pos as int);
            before.insert_ensures(pos as int, pm);
            assert(pair_view(r@) =~= before.insert(pos as int, pm));
            let t = pair_view(ps@).skip(i as int);
            assert(t[0] == pm);
            assert(t.drop_first() =~= pair_view(ps@).skip(i as int + 1));
            assert(pair_view(r@) == sort_pairs(t));
        }
    }
    proof {
        assert(pair_view(ps@).skip(0) =~= pair_view(ps@));
    }
    r
}

} // verus!
