//! Fuzzy matcher: scores every glossary key against a query by normalized
//! edit distance and returns the best-ranked key above a fixed similarity
//! threshold, breaking ties by key length and then by key order.

use vstd::prelude::*;
use crate::text::views;

verus! {

/// Similarity scores are reckoned in thousandths; a candidate below this
/// floor is discarded. It is the integer form of the 0.65 cut-off.
pub const SCORE_FLOOR: u128 = 650;

/// The least of three quantities.
pub open spec fn min3(x: int, y: int, z: int) -> int {
    if x <= y && x <= z {
        x
    } else if y <= z {
        y
    } else {
        z
    }
}

/// The Levenshtein edit distance between two texts: the least number of
/// single-character insertions, deletions and substitutions that turns one
/// into the other, by the standard recurrence.
pub open spec fn lev(a: Seq<char>, b: Seq<char>) -> int
    decreases a.len() + b.len(),
{
    if a.len() == 0 {
        b.len() as int
    } else if b.len() == 0 {
        a.len() as int
    } else {
        let cost: int = if a.last() == b.last() {
            0
        } else {
            1
        };
        min3(
            lev(a.drop_last(), b) + 1,
            lev(a, b.drop_last()) + 1,
            lev(a.drop_last(), b.drop_last()) + cost,
        )
    }
}

/// The edit distance lies between zero and the longer length.
pub proof fn lemma_lev_bounds(a: Seq<char>, b: Seq<char>)
    ensures
        0 <= lev(a, b),
        lev(a, b) <= a.len() + b.len(),
        a.len() >= b.len() ==> lev(a, b) <= a.len(),
        b.len() >= a.len() ==> lev(a, b) <= b.len(),
    decreases a.len() + b.len(),
{
    if a.len() == 0 || b.len() == 0 {
    } else {
        lemma_lev_bounds(a.drop_last(), b);
        lemma_lev_bounds(a, b.drop_last());
        lemma_lev_bounds(a.drop_last(), b.drop_last());
    }
}

/// A text is at edit distance zero from itself.
pub proof fn lemma_lev_self(a: Seq<char>)
    ensures
        lev(a, a) == 0,
    decreases a.len(),
{
    if a.len() == 0 {
    } else {
        lemma_lev_self(a.drop_last());
        lemma_lev_bounds(a.drop_last(), a);
        lemma_lev_bounds(a, a.drop_last());
    }
}

/// Only a text itself is at edit distance zero from it.
pub proof fn lemma_lev_zero(a: Seq<char>, b: Seq<char>)
    requires
        lev(a, b) == 0,
    ensures
        a == b,
    decreases a.len() + b.len(),
{
    if a.len() == 0 {
        assert(a =~= b);
    } else if b.len() == 0 {
        assert(a =~= b);
    } else {
        lemma_lev_bounds(a.drop_last(), b);
        lemma_lev_bounds(a, b.drop_last());
        lemma_lev_bounds(a.drop_last(), b.drop_last());
        lemma_lev_zero(a.drop_last(), b.drop_last());
        assert(a =~= a.drop_last().push(a.last()));
        assert(b =~= b.drop_last().push(b.last()));
    }
}

/// The similarity of a candidate key to a query, in thousandths: the share of
/// the longer length that is not taken up by edit distance. Identical texts
/// score 1000; texts with nothing in common score near 0; the score falls as
/// the edit distance grows.
pub open spec fn sim_score(q: Seq<char>, k: Seq<char>) -> int {
    let m: int = if q.len() >= k.len() {
        q.len() as int
    } else {
        k.len() as int
    };
    if m == 0 {
        1000
    } else {
        1000 * (m - lev(q, k)) / m
    }
}

/// The similarity score always lies between 0 and 1000.
pub proof fn lemma_score_bounds(q: Seq<char>, k: Seq<char>)
    ensures
        0 <= sim_score(q, k) <= 1000,
{
    let m: int = if q.len() >= k.len() {
        q.len() as int
    } else {
        k.len() as int
    };
    if m == 0 {
    } else {
        lemma_lev_bounds(q, k);
        assert(0 <= 1000 * (m - lev(q, k)) <= 1000 * m) by (nonlinear_arith)
            requires
                0 <= lev(q, k) <= m,
        ;
        assert(1000 * (m - lev(q, k)) / m <= 1000 * m / m) by (nonlinear_arith)
            requires
                m > 0,
                1000 * (m - lev(q, k)) <= 1000 * m,
        ;
        assert(1000 * m / m == 1000) by (nonlinear_arith)
            requires
                m > 0,
        ;
        assert(1000 * (m - lev(q, k)) / m >= 0) by (nonlinear_arith)
            requires
                m > 0,
                1000 * (m - lev(q, k)) >= 0,
        ;
    }
}

/// A query scores 1000 against itself.
pub proof fn lemma_score_self(q: Seq<char>)
    ensures
        sim_score(q, q) == 1000,
{
    lemma_lev_self(q);
    let m = q.len() as int;
    if m > 0 {
        assert(1000 * (m - 0) / m == 1000) by (nonlinear_arith)
            requires
                m > 0,
        ;
    }
}

/// A full score of 1000 is had only at edit distance zero, that is, only by
/// the query itself.
pub proof fn lemma_full_score(q: Seq<char>, k: Seq<char>)
    requires
        sim_score(q, k) == 1000,
    ensures
        k == q,
{
    let m: int = if q.len() >= k.len() {
        q.len() as int
    } else {
        k.len() as int
    };
    lemma_lev_bounds(q, k);
    if m == 0 {
        assert(q =~= k);
    } else {
        let l = lev(q, k);
        assert(l == 0) by (nonlinear_arith)
            requires
                m > 0,
                0 <= l <= m,
                1000 * (m - l) / m == 1000,
        ;
        lemma_lev_zero(q, k);
    }
}

/// Ranking of candidate keys: key `i` ranks at least as well as key `j` when
/// it scores higher, or scores the same and is shorter, or scores the same at
/// the same length and comes no later in the key order.
pub open spec fn ranks_no_worse(q: Seq<char>, keys: Seq<Seq<char>>, i: int, j: int) -> bool {
    let si = sim_score(q, keys[i]);
    let sj = sim_score(q, keys[j]);
    si > sj || (si == sj && (keys[i].len() < keys[j].len() || (keys[i].len() == keys[j].len() && i
        <= j)))
}

/// The best match: a candidate at or above the similarity floor that ranks no
/// worse than every candidate.
pub open spec fn is_best(q: Seq<char>, keys: Seq<Seq<char>>, i: int) -> bool {
    &&& 0 <= i < keys.len()
    &&& sim_score(q, keys[i]) >= SCORE_FLOOR
    &&& forall|j: int| 0 <= j < keys.len() ==> ranks_no_worse(q, keys, i, j)
}

/// The Levenshtein edit distance, computed row by row.
fn levenshtein(a: &Vec<char>, b: &Vec<char>) -> (r: u128)
    ensures
        r == lev(a@, b@),
{
    let alen = a.len();
    let blen = b.len();
    let mut prev: Vec<u128> = Vec::new();
    while prev.len() <= blen
        invariant
            blen == b@.len(),
            prev@.len() <= blen + 1,
            forall|j: int| 0 <= j < prev@.len() ==> prev@[j] == lev(Seq::<char>::empty(), b@.take(j)),
        decreases blen + 1 - prev@.len(),
    {
        let v = prev.len() as u128;
        prev.push(v);
    }
    let mut i: usize = 0;
    proof {
        assert(a@.take(0) =~= Seq::<char>::empty());
    }
    while i < alen
        invariant
            alen == a@.len(),
            blen == b@.len(),
            i <= alen,
            prev@.len() == blen + 1,
            forall|j: int| 0 <= j <= blen ==> prev@[j] == lev(a@.take(i as int), b@.take(j)),
        decreases alen - i,
    {
        let mut curr: Vec<u128> = Vec::new();
        proof {
            lemma_lev_bounds(a@.take(i + 1 as int), b@.take(0));
            assert(b@.take(0) =~= Seq::<char>::empty());
        }
        curr.push((i as u128) + 1);
        let mut j: usize = 0;
        while j < blen
            invariant
                alen == a@.len(),
                blen == b@.len(),
                i < alen,
                j <= blen,
                prev@.len() == blen + 1,
                forall|jj: int| 0 <= jj <= blen ==> prev@[jj] == lev(a@.take(i as int), b@.take(jj)),
                curr@.len() == j + 1,
                forall|jj: int| 0 <= jj <= j ==> curr@[jj] == lev(a@.take(i + 1), b@.take(jj)),
            decreases blen - j,
        {
            let ghost ap = a@.take(i + 1);
            let ghost bp = b@.take(j + 1);
            proof {
                assert(ap.drop_last() =~= a@.take(i as int));
                assert(bp.drop_last() =~= b@.take(j as int));
                assert(ap.last() == a@[i as int]);
                assert(bp.last() == b@[j as int]);
                lemma_lev_bounds(a@.take(i as int), bp);
                lemma_lev_bounds(ap, b@.take(j as int));
                lemma_lev_bounds(a@.take(i as int), b@.take(j as int));
            }
            let cost: u128 = if a[i] == b[j] {
                0
            } else {
                1
            };
            let del = prev[j + 1] + 1;
            let ins = curr[j] + 1;
            let diag = prev[j] + cost;
            let mut cell = del;
            if ins < cell {
                cell = ins;
            }
            if diag < cell {
                cell = diag;
            }
            curr.push(cell);
            j += 1;
        }
        prev = curr;
        i += 1;
    }
    proof {
        assert(a@.take(alen as int) =~= a@);
        assert(b@.take(blen as int) =~= b@);
    }
    prev[blen]
}

/// The similarity score of a candidate key against a query, in thousandths.
pub fn score(query: &Vec<char>, key: &Vec<char>) -> (r: u128)
    ensures
        r == sim_score(query@, key@),
{
    let d = levenshtein(query, key);
    let m: usize = if query.len() >= key.len() {
        query.len()
    } else {
        key.len()
    };
    proof {
        lemma_lev_bounds(query@, key@);
    }
    if m == 0 {
        1000
    } else {
        (1000 * ((m as u128) - d)) / (m as u128)
    }
}

/// Scores every key against the query and returns the index of the
/// best-ranked key at or above the similarity floor, or `None` when every key
/// falls below it. Ties in score go to the shorter key; ties in score and
/// length go to the earlier key, so the outcome is determined by the key
/// order alone.
pub fn best_match(query: &Vec<char>, keys: &Vec<String>) -> (r: Option<usize>)
    ensures
        match r {
            Some(i) => is_best(query@, views(keys@), i as int),
            None => forall|j: int|
                0 <= j < keys@.len() ==> sim_score(query@, views(keys@)[j]) < SCORE_FLOOR,
        },
{
    let ghost kvs = views(keys@);
    let mut best: Option<(u128, usize, usize)> = None;
    let mut idx: usize = 0;
    while idx < keys.len()
        invariant
            kvs == views(keys@),
            idx <= keys@.len(),
            match best {
                Some((bs, bi, bl)) => {
                    &&& (bi as int) < idx
                    &&& bs == sim_score(query@, kvs[bi as int])
                    &&& bl == kvs[bi as int].len()
                    &&& bs >= SCORE_FLOOR
                    &&& forall|j: int| 0 <= j < idx ==> ranks_no_worse(query@, kvs, bi as int, j)
                },
                None => forall|j: int| 0 <= j < idx ==> sim_score(query@, kvs[j]) < SCORE_FLOOR,
            },
        decreases keys@.len() - idx,
    {
        let kchars = str_chars_of(&keys[idx]);
        let s = score(query, &kchars);
        proof {
            assert(kvs[idx as int] == keys@[idx as int]@);
        }
        match best {
            None => {
                if s >= SCORE_FLOOR {
                    best = Some((s, idx, kchars.len()));
                }
            },
            Some((bs, bi, bl)) => {
                if s > bs || (s == bs && kchars.len() < bl) {
                    proof {
                        assert forall|j: int| 0 <= j < idx + 1 implies ranks_no_worse(
                            query@,
                            kvs,
                            idx as int,
                            j,
                        ) by {
                            if j < idx {
                                assert(ranks_no_worse(query@, kvs, bi as int, j));
                            }
                        }
                    }
                    best = Some((s, idx, kchars.len()));
                }
            },
        }
        idx += 1;
    }
    match best {
        None => None,
        Some((_, bi, _)) => Some(bi),
    }
}

/// The characters of a string, as a buffer.
fn str_chars_of(s: &String) -> (r: Vec<char>)
    ensures
        r@ == s@,
{
    crate::text::str_chars(s.as_str())
}

/// Exact match always wins: whenever the query itself stands among the keys,
/// the best-ranked key is the query, whatever the other keys are.
pub proof fn lemma_exact_match_wins(q: Seq<char>, keys: Seq<Seq<char>>, e: int, i: int)
    requires
        q.len() > 0,
        0 <= e < keys.len(),
        keys[e] == q,
        is_best(q, keys, i),
    ensures
        keys[i] == q,
{
    lemma_score_self(q);
    lemma_score_bounds(q, keys[i]);
    assert(ranks_no_worse(q, keys, i, e));
    assert(sim_score(q, keys[i]) == 1000);
    lemma_full_score(q, keys[i]);
}

/// A key that itself stands among the keys is always a candidate: its own
/// score of 1000 clears the floor, so the match never comes back empty.
pub proof fn lemma_exact_match_above_floor(q: Seq<char>, keys: Seq<Seq<char>>, e: int)
    requires
        0 <= e < keys.len(),
        keys[e] == q,
    ensures
        sim_score(q, keys[e]) >= SCORE_FLOOR,
{
    lemma_score_self(q);
}

/// Among the first `n` keys, some candidate at or above the floor ranks no
/// worse than every one of them: the ranking is total over a finite range.
proof fn lemma_best_prefix(q: Seq<char>, keys: Seq<Seq<char>>, n: int)
    requires
        0 < n <= keys.len(),
        exists|j: int| 0 <= j < n && sim_score(q, #[trigger] keys[j]) >= SCORE_FLOOR,
    ensures
        exists|i: int|
            0 <= i < n && sim_score(q, #[trigger] keys[i]) >= SCORE_FLOOR && (forall|j: int|
                0 <= j < n ==> ranks_no_worse(q, keys, i, j)),
    decreases n,
{
    let m = n - 1;
    if m == 0 {
        assert(sim_score(q, keys[0]) >= SCORE_FLOOR);
        assert(forall|j: int| 0 <= j < n ==> ranks_no_worse(q, keys, 0, j));
    } else if exists|j: int| 0 <= j < m && sim_score(q, #[trigger] keys[j]) >= SCORE_FLOOR {
        lemma_best_prefix(q, keys, m);
        let i = choose|i: int|
            0 <= i < m && sim_score(q, #[trigger] keys[i]) >= SCORE_FLOOR && (forall|j: int|
                0 <= j < m ==> ranks_no_worse(q, keys, i, j));
        if ranks_no_worse(q, keys, i, m) {
            assert(forall|j: int| 0 <= j < n ==> ranks_no_worse(q, keys, i, j));
        } else {
            assert forall|j: int| 0 <= j < n implies ranks_no_worse(q, keys, m, j) by {
                if j < m {
                    assert(ranks_no_worse(q, keys, i, j));
                }
            }
            assert(sim_score(q, keys[m]) >= SCORE_FLOOR);
        }
    } else {
        assert(sim_score(q, keys[m]) >= SCORE_FLOOR);
        assert forall|j: int| 0 <= j < n implies ranks_no_worse(q, keys, m, j) by {
            if j < m {
                assert(sim_score(q, keys[j]) < SCORE_FLOOR);
            }
        }
    }
}

/// Whenever some key clears the similarity floor, a best-ranked key exists,
/// so the match never comes back empty on such a key set.
pub proof fn lemma_best_exists(q: Seq<char>, keys: Seq<Seq<char>>)
    requires
        exists|j: int| 0 <= j < keys.len() && sim_score(q, #[trigger] keys[j]) >= SCORE_FLOOR,
    ensures
        exists|i: int| is_best(q, keys, i),
{
    lemma_best_prefix(q, keys, keys.len() as int);
    let i = choose|i: int|
        0 <= i < keys.len() && sim_score(q, #[trigger] keys[i]) >= SCORE_FLOOR && (forall|j: int|
            0 <= j < keys.len() ==> ranks_no_worse(q, keys, i, j));
    assert(is_best(q, keys, i));
}

/// When every key scores below the similarity floor, no key is ever the best
/// match: the search comes back empty rather than stretching to a poor fit.
pub proof fn lemma_no_candidate(q: Seq<char>, keys: Seq<Seq<char>>, i: int)
    requires
        forall|j: int| 0 <= j < keys.len() ==> sim_score(q, #[trigger] keys[j]) < SCORE_FLOOR,
    ensures
        !is_best(q, keys, i),
{
}

/// Tie-break: of two candidates with equal scores, a strictly longer key is
/// never the best-ranked one.
pub proof fn lemma_tie_break_shorter(q: Seq<char>, keys: Seq<Seq<char>>, i: int, j: int)
    requires
        0 <= i < keys.len(),
        0 <= j < keys.len(),
        sim_score(q, keys[i]) == sim_score(q, keys[j]),
        keys[i].len() < keys[j].len(),
    ensures
        !is_best(q, keys, j),
{
    assert(!ranks_no_worse(q, keys, j, i));
}

/// The best-ranked key is unique: the ranking is a total order over the
/// candidates, so repeated runs over the same keys return the same match.
pub proof fn lemma_best_unique(q: Seq<char>, keys: Seq<Seq<char>>, i: int, j: int)
    requires
        is_best(q, keys, i),
        is_best(q, keys, j),
    ensures
        i == j,
{
    assert(ranks_no_worse(q, keys, i, j));
    assert(ranks_no_worse(q, keys, j, i));
}

} // verus!
