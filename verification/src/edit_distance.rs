//! The edit-distance engine: the Levenshtein distance as a specification,
//! lemmas giving its algebraic laws, and an executable dynamic-programming
//! implementation proved against the specification.

use vstd::prelude::*;
use crate::text::chars_of;

verus! {

/// The smaller of two naturals.
pub open spec fn min2(a: nat, b: nat) -> nat {
    if a <= b {
        a
    } else {
        b
    }
}

/// The larger of two naturals.
pub open spec fn max2(a: nat, b: nat) -> nat {
    if a <= b {
        b
    } else {
        a
    }
}

/// The smallest of three naturals.
pub open spec fn min3(a: nat, b: nat, c: nat) -> nat {
    min2(a, min2(b, c))
}

/// The Levenshtein edit distance between two character sequences: the least
/// number of single-character insertions, deletions and substitutions that
/// turn `a` into `b`.  Stated as the classic recurrence on prefixes: the
/// distance between the empty sequence and `b` is `b.len()`, and otherwise
/// the minimum of a deletion, an insertion, and a substitution (free when the
/// final characters agree).
pub open spec fn lev(a: Seq<char>, b: Seq<char>) -> nat
    decreases a.len(), b.len(),
{
    if a.len() == 0 {
        b.len()
    } else if b.len() == 0 {
        a.len()
    } else {
        let cost: nat = if a.last() == b.last() {
            0
        } else {
            1
        };
        min3(
            lev(a.drop_last(), b) + 1,
            lev(a, b.drop_last()) + 1,
            lev(a.drop_last(), b.drop_last()) + cost,
        )
    }
}

/// The distance never exceeds the longer of the two lengths.
pub proof fn lemma_lev_upper_bound(a: Seq<char>, b: Seq<char>)
    ensures
        lev(a, b) <= max2(a.len(), b.len()),
    decreases a.len(), b.len(),
{
    if a.len() == 0 || b.len() == 0 {
    } else {
        lemma_lev_upper_bound(a.drop_last(), b.drop_last());
    }
}

/// The distance is at least the difference of the two lengths.
pub proof fn lemma_lev_length_bound(a: Seq<char>, b: Seq<char>)
    ensures
        a.len() <= b.len() + lev(a, b),
        b.len() <= a.len() + lev(a, b),
    decreases a.len(), b.len(),
{
    if a.len() == 0 || b.len() == 0 {
    } else {
        lemma_lev_length_bound(a.drop_last(), b);
        lemma_lev_length_bound(a, b.drop_last());
        lemma_lev_length_bound(a.drop_last(), b.drop_last());
    }
}

/// The distance between two sequences is zero exactly when they are equal.
pub proof fn lemma_lev_zero_iff_eq(a: Seq<char>, b: Seq<char>)
    ensures
        (lev(a, b) == 0) <==> (a == b),
    decreases a.len(), b.len(),
{
    if a.len() == 0 {
        if b.len() == 0 {
            assert(a =~= b);
        }
    } else if b.len() == 0 {
    } else {
        lemma_lev_zero_iff_eq(a.drop_last(), b.drop_last());
        if a.last() == b.last() && a.drop_last() == b.drop_last() {
            assert(a =~= a.drop_last().push(a.last()));
            assert(b =~= b.drop_last().push(b.last()));
        }
        if a == b {
            assert(a.drop_last() == b.drop_last());
        }
    }
}

/// A word is at distance zero from itself.
pub proof fn lemma_lev_self_zero(w: Seq<char>)
    ensures
        lev(w, w) == 0,
{
    lemma_lev_zero_iff_eq(w, w);
}

/// The distance is symmetric in its two arguments.
pub proof fn lemma_lev_symmetric(a: Seq<char>, b: Seq<char>)
    ensures
        lev(a, b) == lev(b, a),
    decreases a.len() + b.len(),
{
    if a.len() == 0 || b.len() == 0 {
    } else {
        lemma_lev_symmetric(a.drop_last(), b);
        lemma_lev_symmetric(a, b.drop_last());
        lemma_lev_symmetric(a.drop_last(), b.drop_last());
    }
}

/// The distance from the empty sequence, on either side, is the other
/// sequence's length.
pub proof fn lemma_lev_empty(s: Seq<char>)
    ensures
        lev(Seq::<char>::empty(), s) == s.len(),
        lev(s, Seq::<char>::empty()) == s.len(),
{
}

/// Dropping the last character of the first argument lowers the distance by
/// at most one; keeping it costs at most one more than dropping it.
proof fn lemma_lev_drop_a_ub(a: Seq<char>, b: Seq<char>)
    requires
        a.len() > 0,
    ensures
        lev(a, b) <= lev(a.drop_last(), b) + 1,
{
    if b.len() == 0 {
        assert(a.drop_last().len() == a.len() - 1);
    }
}

/// Dropping the last character of the second argument costs at most one.
proof fn lemma_lev_drop_b_ub(a: Seq<char>, b: Seq<char>)
    requires
        b.len() > 0,
    ensures
        lev(a, b) <= lev(a, b.drop_last()) + 1,
{
    if a.len() == 0 {
        assert(b.drop_last().len() == b.len() - 1);
    }
}

/// Dropping the last character of the first argument raises the distance by
/// at most one.
proof fn lemma_lev_drop_a_lb(a: Seq<char>, b: Seq<char>)
    requires
        a.len() > 0,
    ensures
        lev(a.drop_last(), b) <= lev(a, b) + 1,
    decreases b.len(),
{
    if b.len() == 0 {
    } else {
        lemma_lev_drop_b_ub(a.drop_last(), b);
        lemma_lev_drop_a_lb(a, b.drop_last());
    }
}

/// Dropping the last character of the second argument raises the distance
/// by at most one.
proof fn lemma_lev_drop_b_lb(a: Seq<char>, b: Seq<char>)
    requires
        b.len() > 0,
    ensures
        lev(a, b.drop_last()) <= lev(a, b) + 1,
    decreases a.len(),
{
    if a.len() == 0 {
    } else {
        lemma_lev_drop_a_ub(a, b.drop_last());
        lemma_lev_drop_b_lb(a.drop_last(), b);
    }
}

/// When the final characters agree, the distance equals the distance of the
/// two shortened sequences: the free substitution arm is never beaten.
proof fn lemma_lev_eq_last(a: Seq<char>, b: Seq<char>)
    requires
        a.len() > 0,
        b.len() > 0,
        a.last() == b.last(),
    ensures
        lev(a, b) == lev(a.drop_last(), b.drop_last()),
{
    lemma_lev_drop_b_lb(a.drop_last(), b);
    lemma_lev_drop_a_lb(a, b.drop_last());
}

/// The triangle inequality: editing `a` into `b` and then `b` into `c`
/// never takes fewer operations than editing `a` into `c` directly.
pub proof fn lemma_lev_triangle(a: Seq<char>, b: Seq<char>, c: Seq<char>)
    ensures
        lev(a, c) <= lev(a, b) + lev(b, c),
    decreases a.len() + b.len() + c.len(),
{
    if b.len() == 0 {
        lemma_lev_upper_bound(a, c);
        lemma_lev_empty(a);
        lemma_lev_empty(c);
    } else if a.len() == 0 {
        lemma_lev_length_bound(b, c);
        lemma_lev_empty(b);
        lemma_lev_empty(c);
    } else if c.len() == 0 {
        lemma_lev_length_bound(a, b);
        lemma_lev_empty(a);
        lemma_lev_empty(b);
    } else {
        let a1 = a.drop_last();
        let b1 = b.drop_last();
        let c1 = c.drop_last();
        lemma_lev_triangle(a1, b, c);
        lemma_lev_triangle(a, b1, c);
        lemma_lev_triangle(a, b, c1);
        lemma_lev_triangle(a1, b1, c);
        lemma_lev_triangle(a1, b1, c1);
        lemma_lev_drop_a_lb(b, c);
        if a.last() == b.last() {
            lemma_lev_eq_last(a, b);
        }
    }
}

/// Computes the Levenshtein distance between two character vectors with the
/// dynamic-programming matrix, one row at a time: after row `i`, `row[j]`
/// holds the distance between `s[..i]` and `t[..j]`.
pub fn levenshtein_chars(s: &Vec<char>, t: &Vec<char>) -> (d: usize)
    requires
        s@.len() < usize::MAX,
        t@.len() < usize::MAX,
    ensures
        d == lev(s@, t@),
{
    let m = s.len();
    let n = t.len();
    let mut row: Vec<usize> = Vec::new();
    let mut j: usize = 0;
    while j <= n
        invariant
            j <= n + 1,
            n == t@.len() < usize::MAX,
            row@.len() == j,
            forall|k: int| 0 <= k < j ==> row@[k] == k,
        decreases n + 1 - j,
    {
        row.push(j);
        j = j + 1;
    }
    assert forall|k: int| 0 <= k <= n implies row@[k] == lev(s@.take(0), t@.take(k)) by {
        assert(s@.take(0) =~= Seq::<char>::empty());
        assert(t@.take(k).len() == k);
    }
    let mut i: usize = 1;
    while i <= m
        invariant
            1 <= i <= m + 1,
            m == s@.len() < usize::MAX,
            n == t@.len() < usize::MAX,
            row@.len() == n + 1,
            forall|k: int| 0 <= k <= n ==> row@[k] == lev(s@.take(i - 1), t@.take(k)),
        decreases m + 1 - i,
    {
        let mut prev_diag: usize = row[0];
        proof {
            assert(s@.take(i as int).len() == i);
            assert(s@.take(i as int).drop_last() =~= s@.take(i - 1));
            assert(t@.take(0) =~= Seq::<char>::empty());
            assert(lev(s@.take(i as int), t@.take(0)) == i);
        }
        row.set(0, i);
        let mut j: usize = 1;
        while j <= n
            invariant
                1 <= j <= n + 1,
                1 <= i <= m,
                m == s@.len() < usize::MAX,
                n == t@.len() < usize::MAX,
                row@.len() == n + 1,
                prev_diag == lev(s@.take(i - 1), t@.take(j - 1)),
                forall|k: int| 0 <= k < j ==> row@[k] == lev(s@.take(i as int), t@.take(k)),
                forall|k: int| j <= k <= n ==> row@[k] == lev(s@.take(i - 1), t@.take(k)),
            decreases n + 1 - j,
        {
            let cost: usize = if s[i - 1] == t[j - 1] {
                0
            } else {
                1
            };
            let tmp: usize = row[j];
            proof {
                lemma_lev_upper_bound(s@.take(i - 1), t@.take(j as int));
                lemma_lev_upper_bound(s@.take(i as int), t@.take(j - 1));
                lemma_lev_upper_bound(s@.take(i - 1), t@.take(j - 1));
            }
            let del: usize = row[j] + 1;
            let ins: usize = row[j - 1] + 1;
            let sub: usize = prev_diag + cost;
            let mut best: usize = del;
            if ins < best {
                best = ins;
            }
            if sub < best {
                best = sub;
            }
            proof {
                let a = s@.take(i as int);
                let b = t@.take(j as int);
                assert(a.len() == i);
                assert(b.len() == j);
                assert(a.drop_last() =~= s@.take(i - 1));
                assert(b.drop_last() =~= t@.take(j - 1));
                assert(a.last() == s@[i - 1]);
                assert(b.last() == t@[j - 1]);
                assert(best == lev(a, b));
            }
            row.set(j, best);
            prev_diag = tmp;
            j = j + 1;
        }
        i = i + 1;
    }
    proof {
        assert(s@.take(m as int) =~= s@);
        assert(t@.take(n as int) =~= t@);
    }
    row[n]
}

/// Computes the Levenshtein distance between two words, compared character
/// by character.
pub fn compute_levenshtein_distance(s: &str, t: &str) -> (d: usize)
    requires
        s@.len() < usize::MAX,
        t@.len() < usize::MAX,
    ensures
        d == lev(s@, t@),
{
    let sv = chars_of(s);
    let tv = chars_of(t);
    levenshtein_chars(&sv, &tv)
}

/// The index of the first candidate in `ws` at minimum distance from `w`,
/// scanning left to right: a later candidate displaces the best one only by
/// a strictly smaller distance.
pub open spec fn best_index(ws: Seq<Seq<char>>, w: Seq<char>) -> int
    decreases ws.len(),
{
    if ws.len() <= 1 {
        0
    } else {
        let b = best_index(ws.drop_last(), w);
        if lev(ws.last(), w) < lev(ws[b], w) {
            ws.len() - 1
        } else {
            b
        }
    }
}

/// The best index is in range, attains the minimum distance, and is the
/// first index to attain it.
pub proof fn lemma_best_index_minimal(ws: Seq<Seq<char>>, w: Seq<char>)
    requires
        ws.len() > 0,
    ensures
        0 <= best_index(ws, w) < ws.len(),
        forall|k: int|
            0 <= k < ws.len() ==> lev(ws[best_index(ws, w)], w) <= lev(#[trigger] ws[k], w),
        forall|k: int|
            0 <= k < best_index(ws, w) ==> lev(#[trigger] ws[k], w) > lev(
                ws[best_index(ws, w)],
                w,
            ),
    decreases ws.len(),
{
    if ws.len() <= 1 {
    } else {
        lemma_best_index_minimal(ws.drop_last(), w);
        assert(forall|k: int| 0 <= k < ws.len() - 1 ==> ws.drop_last()[k] == #[trigger] ws[k]);
    }
}

/// Extending the candidate list by one keeps the earlier best index unless
/// the new candidate is strictly closer.
proof fn lemma_best_index_step(ws: Seq<Seq<char>>, w: Seq<char>, k: int)
    requires
        1 <= k < ws.len(),
    ensures
        0 <= best_index(ws.take(k), w) < k,
        best_index(ws.take(k + 1), w) == (if lev(ws[k], w) < lev(
            ws[best_index(ws.take(k), w)],
            w,
        ) {
            k
        } else {
            best_index(ws.take(k), w)
        }),
{
    let t1 = ws.take(k + 1);
    let t0 = ws.take(k);
    lemma_best_index_minimal(t0, w);
    let b = best_index(t0, w);
    assert(t1.drop_last() =~= t0);
    assert(t1.last() == ws[k]);
    assert(t0[b] == ws[b]);
    assert(t1[b] == ws[b]);
}

/// Finds the first candidate at minimum distance from `w` by an exhaustive
/// scan, returning its position and that distance.
pub fn scan_best(ws: &Vec<Vec<char>>, w: &Vec<char>) -> (r: (usize, usize))
    requires
        ws@.len() > 0,
        w@.len() < usize::MAX,
        forall|k: int|
            0 <= k < ws.deep_view().len() ==> (#[trigger] ws.deep_view()[k]).len() < usize::MAX,
    ensures
        r.0 == best_index(ws.deep_view(), w@),
        r.1 == lev(ws.deep_view()[r.0 as int], w@),
{
    let ghost dv = ws.deep_view();
    let first = vstd::std_specs::vec::vec_index(ws, 0);
    proof {
        assert(first@ =~= dv[0]);
        assert(dv.take(1).len() <= 1);
        assert(dv.take(1)[0] == dv[0]);
    }
    let mut best_i: usize = 0;
    let mut best_d = levenshtein_chars(first, w);
    let mut k: usize = 1;
    while k < ws.len()
        invariant
            1 <= k <= ws@.len(),
            dv == ws.deep_view(),
            dv.len() == ws@.len(),
            w@.len() < usize::MAX,
            forall|k2: int| 0 <= k2 < dv.len() ==> (#[trigger] dv[k2]).len() < usize::MAX,
            best_i < k,
            best_i == best_index(dv.take(k as int), w@),
            best_d == lev(dv[best_i as int], w@),
        decreases ws@.len() - k,
    {
        let cand = vstd::std_specs::vec::vec_index(ws, k);
        proof {
            assert(cand@ =~= dv[k as int]);
        }
        let d = levenshtein_chars(cand, w);
        proof {
            lemma_best_index_step(dv, w@, k as int);
        }
        if d < best_d {
            best_d = d;
            best_i = k;
        }
        k = k + 1;
    }
    proof {
        assert(dv.take(dv.len() as int) =~= dv);
    }
    (best_i, best_d)
}

} // verus!
