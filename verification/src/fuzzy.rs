//! Edit distance between command names: the classic Levenshtein distance
//! (insertion, deletion and substitution each cost one), computed with a
//! single-row dynamic program over Unicode scalar sequences.

use vstd::prelude::*;

verus! {

/// The least of three natural numbers.
pub open spec fn min3(a: nat, b: nat, c: nat) -> nat {
    if a <= b && a <= c {
        a
    } else if b <= c {
        b
    } else {
        c
    }
}

/// Levenshtein distance between two character sequences: the least number
/// of single-character insertions, deletions and substitutions that turn
/// one into the other.
pub open spec fn lev(a: Seq<char>, b: Seq<char>) -> nat
    decreases a.len() + b.len(),
{
    if a.len() == 0 {
        b.len()
    } else if b.len() == 0 {
        a.len()
    } else {
        let sub_cost: nat = if a.last() == b.last() {
            0
        } else {
            1
        };
        min3(
            lev(a.drop_last(), b) + 1,
            lev(a, b.drop_last()) + 1,
            lev(a.drop_last(), b.drop_last()) + sub_cost,
        )
    }
}

/// The distance from a sequence to itself is zero.
pub proof fn lemma_lev_self(a: Seq<char>)
    ensures
        lev(a, a) == 0,
    decreases a.len(),
{
    if a.len() > 0 {
        lemma_lev_self(a.drop_last());
    }
}

/// The distance from the empty sequence to `b` is the length of `b`.
pub proof fn lemma_lev_empty(b: Seq<char>)
    ensures
        lev(Seq::<char>::empty(), b) == b.len(),
{
    assert(Seq::<char>::empty().len() == 0);
}

/// The distance is symmetric in its arguments.
pub proof fn lemma_lev_sym(a: Seq<char>, b: Seq<char>)
    ensures
        lev(a, b) == lev(b, a),
    decreases a.len() + b.len(),
{
    if a.len() > 0 && b.len() > 0 {
        lemma_lev_sym(a.drop_last(), b);
        lemma_lev_sym(a, b.drop_last());
        lemma_lev_sym(a.drop_last(), b.drop_last());
    }
}

/// The distance never exceeds the longer input.
pub proof fn lemma_lev_le_max(a: Seq<char>, b: Seq<char>)
    ensures
        lev(a, b) <= a.len() + b.len(),
        lev(a, b) <= if a.len() >= b.len() {
            a.len()
        } else {
            b.len()
        },
    decreases a.len() + b.len(),
{
    if a.len() > 0 && b.len() > 0 {
        lemma_lev_le_max(a.drop_last(), b);
        lemma_lev_le_max(a, b.drop_last());
        lemma_lev_le_max(a.drop_last(), b.drop_last());
    }
}

/// Returns `a` when `c` holds and `b` otherwise.
#[inline]
pub fn t<T>(c: bool, a: T, b: T) -> (r: T)
    ensures
        r == if c {
            a
        } else {
            b
        },
{
    if c {
        a
    } else {
        b
    }
}

/// Three-way minimum.
#[inline]
pub fn min(a: usize, b: usize, c: usize) -> (r: usize)
    ensures
        r == min3(a as nat, b as nat, c as nat),
{
    let ab = if a <= b {
        a
    } else {
        b
    };
    if ab <= c {
        ab
    } else {
        c
    }
}

/// Edit distance between two words, by the iterative single-row dynamic
/// program: row `i` holds the distances from each prefix of `second` to the
/// prefix of `first` of length `i`.
pub fn levenshtein_distance(first: &str, second: &str) -> (d: usize)
    ensures
        d == lev(first@, second@),
{
    let a = crate::text::chars_of(first);
    let b = crate::text::chars_of(second);
    let m: usize = a.len();
    let n: usize = b.len();

    // row[j] == lev(first prefix seen so far, second[..j])
    let mut row: Vec<usize> = Vec::new();
    row.push(0);
    let mut j: usize = 0;
    while j < n
        invariant
            0 <= j <= n,
            n == b@.len(),
            row@.len() == j + 1,
            forall|k: int| 0 <= k <= j ==> row@[k] == k,
        decreases n - j,
    {
        row.push(j + 1);
        j = j + 1;
    }
    proof {
        assert forall|k: int| 0 <= k <= n implies row@[k] == lev(a@.take(0), b@.take(k)) by {
            assert(a@.take(0) =~= Seq::<char>::empty());
            assert(b@.take(k).len() == k);
        }
    }

    let mut i: usize = 0;
    while i < m
        invariant
            0 <= i <= m,
            m == a@.len(),
            n == b@.len(),
            row@.len() == n + 1,
            forall|k: int| 0 <= k <= n ==> row@[k] == lev(a@.take(i as int), b@.take(k)),
        decreases m - i,
    {
        // prev_diag holds lev(first[..i], second[..j]) for the current j.
        let mut prev_diag: usize = row[0];
        row.set(0, i + 1);
        proof {
            assert(a@.take(i + 1).len() == i + 1);
            assert(b@.take(0) =~= Seq::<char>::empty());
            assert(row@[0] == lev(a@.take(i + 1), b@.take(0)));
        }
        let mut j: usize = 0;
        while j < n
            invariant
                0 <= j <= n,
                0 <= i < m,
                m == a@.len(),
                n == b@.len(),
                row@.len() == n + 1,
                prev_diag == lev(a@.take(i as int), b@.take(j as int)),
                forall|k: int| 0 <= k <= j ==> row@[k] == lev(a@.take(i + 1), b@.take(k)),
                forall|k: int| j < k <= n ==> row@[k] == lev(a@.take(i as int), b@.take(k)),
            decreases n - j,
        {
            let indicator: usize = t(a[i] != b[j], 1, 0);
            let above: usize = row[j + 1];
            let left: usize = row[j];

            proof {
                let ai = a@.take(i + 1);
                let bj = b@.take(j + 1);
                assert(ai.len() == i + 1 && bj.len() == j + 1);
                assert(ai.last() == a@[i as int] && bj.last() == b@[j as int]);
                assert(ai.drop_last() =~= a@.take(i as int));
                assert(bj.drop_last() =~= b@.take(j as int));
                lemma_lev_le_max(ai, bj);
                lemma_lev_le_max(ai.drop_last(), bj);
                lemma_lev_le_max(ai, bj.drop_last());
            }

            // The candidate costs are compared in a wider type, since the
            // two increments may exceed usize at its very top; the minimum
            // itself is a distance and always fits.
            let del: u128 = above as u128 + 1;
            let ins: u128 = left as u128 + 1;
            let sub: u128 = prev_diag as u128 + indicator as u128;
            let best128: u128 = if del <= ins && del <= sub {
                del
            } else if ins <= sub {
                ins
            } else {
                sub
            };
            proof {
                let ai = a@.take(i + 1);
                let bj = b@.take(j + 1);
                assert(best128 == min3((above + 1) as nat, (left + 1) as nat, (prev_diag + indicator) as nat));
                assert(best128 == lev(ai, bj));
                assert(best128 <= usize::MAX);
            }
            let best: usize = best128 as usize;
            prev_diag = above;
            row.set(j + 1, best);
            j = j + 1;
        }
        i = i + 1;
        proof {
            assert(forall|k: int|
                0 <= k <= n ==> row@[k] == lev(a@.take(i as int), b@.take(k)));
        }
    }
    let d = row[n];
    proof {
        assert(a@.take(m as int) =~= a@);
        assert(b@.take(n as int) =~= b@);
    }
    d
}

} // verus!
