//! Ranking of fuzzy suggestions: every registered name is paired with its
//! edit distance from the query, the pairs are ordered by ascending distance
//! with ties broken by name order, and the three best are kept.

use vstd::prelude::*;
use vstd::multiset::Multiset;
use vstd::relations::total_ordering;
use vstd::relations::sorted_by;
use vstd::seq_lib::lemma_multiset_commutative;
use vstd::seq_lib::lemma_sorted_unique;

use crate::fuzzy::lev;
use crate::fuzzy::levenshtein_distance;
use crate::text::lemma_seq_le_antisym;
use crate::text::lemma_seq_le_total;
use crate::text::lemma_seq_le_trans;
use crate::text::seq_le;
use crate::text::str_le;

verus! {

/// A candidate suggestion: a registered name and its edit distance from
/// the query.
pub struct RankedWord {
    pub ranking: usize,
    pub word: String,
}

impl View for RankedWord {
    type V = (int, Seq<char>);

    open spec fn view(&self) -> (int, Seq<char>) {
        (self.ranking as int, self.word@)
    }
}

/// The ranking order: ascending distance, ties broken by name order.
pub open spec fn key_le(x: (int, Seq<char>), y: (int, Seq<char>)) -> bool {
    x.0 < y.0 || (x.0 == y.0 && seq_le(x.1, y.1))
}

/// The ranking order as a function value, for use with `sort_by`.
pub open spec fn key_le_fn() -> spec_fn((int, Seq<char>), (int, Seq<char>)) -> bool {
    |x: (int, Seq<char>), y: (int, Seq<char>)| key_le(x, y)
}

/// The ranking order is a total order.
pub proof fn lemma_key_le_total_ordering()
    ensures
        total_ordering(key_le_fn()),
{
    let leq = key_le_fn();
    assert forall|x: (int, Seq<char>)| #[trigger] leq(x, x) by {
        lemma_seq_le_total(x.1, x.1);
    }
    assert forall|x: (int, Seq<char>), y: (int, Seq<char>)|
        #[trigger] leq(x, y) && #[trigger] leq(y, x) implies x == y by {
        if x.0 == y.0 {
            lemma_seq_le_antisym(x.1, y.1);
        }
    }
    assert forall|x: (int, Seq<char>), y: (int, Seq<char>), z: (int, Seq<char>)|
        #[trigger] leq(x, y) && #[trigger] leq(y, z) implies leq(x, z) by {
        if x.0 == y.0 && y.0 == z.0 {
            lemma_seq_le_trans(x.1, y.1, z.1);
        }
    }
    assert forall|x: (int, Seq<char>), y: (int, Seq<char>)|
        #[trigger] leq(x, y) || #[trigger] leq(y, x) by {
        if x.0 == y.0 {
            lemma_seq_le_total(x.1, y.1);
        }
    }
}

/// The views of a sequence of strings.
pub open spec fn name_views(names: Seq<String>) -> Seq<Seq<char>> {
    names.map_values(|s: String| s@)
}

/// The views of a sequence of ranked words.
pub open spec fn rank_views(rs: Seq<RankedWord>) -> Seq<(int, Seq<char>)> {
    rs.map_values(|r: RankedWord| r@)
}

/// Every candidate name paired with its distance from the query, in
/// registration order.
pub open spec fn ranked_pairs(q: Seq<char>, names: Seq<Seq<char>>) -> Seq<(int, Seq<char>)> {
    Seq::new(names.len(), |i: int| (lev(q, names[i]) as int, names[i]))
}

/// What `rank` returns: the candidate pairs in ranking order, cut down to
/// the three best.
pub open spec fn rank_spec(q: Seq<char>, names: Seq<Seq<char>>) -> Seq<(int, Seq<char>)> {
    let sorted = ranked_pairs(q, names).sort_by(key_le_fn());
    if sorted.len() <= 3 {
        sorted
    } else {
        sorted.take(3)
    }
}

/// Exec comparison deciding the ranking order.
fn rank_le(a: &RankedWord, b: &RankedWord) -> (r: bool)
    ensures
        r == key_le(a@, b@),
{
    if a.ranking < b.ranking {
        true
    } else if a.ranking == b.ranking {
        str_le(a.word.as_str(), b.word.as_str())
    } else {
        false
    }
}

proof fn lemma_rank_views_push(rs: Seq<RankedWord>, x: RankedWord)
    ensures
        rank_views(rs.push(x)) =~= rank_views(rs) + seq![x@],
{
}

proof fn lemma_rank_views_insert(rs: Seq<RankedWord>, k: int, x: RankedWord)
    requires
        0 <= k <= rs.len(),
    ensures
        rank_views(rs.insert(k, x)) =~= rank_views(rs).insert(k, x@),
{
    assert forall|j: int| 0 <= j < rs.len() + 1 implies rank_views(rs.insert(k, x))[j]
        == rank_views(rs).insert(k, x@)[j] by {
        if j < k {
            assert(rs.insert(k, x)[j] == rs[j]);
        } else if j == k {
            assert(rs.insert(k, x)[j] == x);
        } else {
            assert(rs.insert(k, x)[j] == rs[j - 1]);
        }
    }
}

proof fn lemma_rank_views_drop_last(rs: Seq<RankedWord>)
    requires
        rs.len() > 0,
    ensures
        rank_views(rs.drop_last()) =~= rank_views(rs).drop_last(),
{
}

/// Inserting an element anywhere in a sequence adds it to the multiset.
pub(crate) proof fn lemma_insert_to_multiset<A>(s: Seq<A>, k: int, x: A)
    requires
        0 <= k <= s.len(),
    ensures
        s.insert(k, x).to_multiset() =~= s.to_multiset().insert(x),
{
    broadcast use vstd::seq_lib::group_to_multiset_ensures;

    assert(s.insert(k, x) =~= s.take(k).push(x) + s.skip(k));
    lemma_multiset_commutative(s.take(k).push(x), s.skip(k));
    assert(s =~= s.take(k) + s.skip(k));
    lemma_multiset_commutative(s.take(k), s.skip(k));
    assert(s.take(k).push(x).to_multiset() =~= s.take(k).to_multiset().insert(x));
}

/// Removing the last element of a sequence removes it from the multiset.
pub(crate) proof fn lemma_drop_last_to_multiset<A>(s: Seq<A>)
    requires
        s.len() > 0,
    ensures
        s.drop_last().to_multiset() =~= s.to_multiset().remove(s.last()),
{
    broadcast use vstd::seq_lib::group_to_multiset_ensures;

    assert(s.drop_last() =~= s.remove(s.len() - 1));
    assert(s.remove(s.len() - 1).to_multiset() =~= s.to_multiset().remove(s[s.len() - 1]));
}

/// Ranks every candidate name by its edit distance from the query and
/// returns the best candidates: at most three, never more than there are
/// candidates, in ascending distance order with ties broken by name order.
pub fn rank(query: &str, names: &Vec<String>) -> (r: Vec<RankedWord>)
    ensures
        rank_views(r@) == rank_spec(query@, name_views(names@)),
        r@.len() == if names@.len() <= 3 {
            names@.len() as int
        } else {
            3
        },
        forall|p: int, q: int| 0 <= p < q < r@.len() ==> key_le(r@[p]@, r@[q]@),
{
    proof {
        lemma_key_le_total_ordering();
    }
    let ghost leq = key_le_fn();
    let ghost all = ranked_pairs(query@, name_views(names@));

    let n = names.len();
    let mut pairs: Vec<RankedWord> = Vec::new();
    let mut i: usize = 0;
    while i < n
        invariant
            0 <= i <= n,
            n == names@.len(),
            rank_views(pairs@) == all.take(i as int),
            all == ranked_pairs(query@, name_views(names@)),
        decreases n - i,
    {
        let ghost before = pairs@;
        let d = levenshtein_distance(query, names[i].as_str());
        let w = names[i].clone();
        pairs.push(RankedWord { ranking: d, word: w });
        proof {
            lemma_rank_views_push(before, pairs@.last());
            assert(all.take(i + 1) =~= all.take(i as int).push(all[i as int]));
            assert(pairs@.last()@ == all[i as int]);
            assert(rank_views(pairs@) =~= all.take(i + 1));
        }
        i = i + 1;
    }
    proof {
        broadcast use vstd::seq_lib::group_to_multiset_ensures;
        broadcast use vstd::multiset::group_multiset_axioms;

        assert(all.take(n as int) =~= all);
        assert(rank_views(Seq::<RankedWord>::empty()).to_multiset().len() == 0);
        assert(rank_views(Seq::<RankedWord>::empty()).to_multiset() =~= Multiset::<(
            int,
            Seq<char>,
        )>::empty());
        assert(all.to_multiset().add(Multiset::<(int, Seq<char>)>::empty()) =~= all.to_multiset());
    }

    let mut sorted: Vec<RankedWord> = Vec::new();
    while pairs.len() > 0
        invariant
            sorted_by(rank_views(sorted@), leq),
            rank_views(pairs@).to_multiset().add(rank_views(sorted@).to_multiset())
                =~= all.to_multiset(),
            leq == key_le_fn(),
            total_ordering(leq),
            forall|x: (int, Seq<char>), y: (int, Seq<char>)| #[trigger] leq(x, y) == key_le(x, y),
        decreases pairs@.len(),
    {
        let ghost pv = pairs@;
        let last_idx = pairs.len() - 1;
        let it = pairs.remove(last_idx);
        proof {
            assert(pv.remove(pv.len() - 1) =~= pv.drop_last());
            lemma_rank_views_drop_last(pv);
            lemma_drop_last_to_multiset(rank_views(pv));
        }

        let mut k: usize = 0;
        while k < sorted.len() && rank_le(&sorted[k], &it)
            invariant
                0 <= k <= sorted@.len(),
                forall|p: int| 0 <= p < k ==> key_le(#[trigger] sorted@[p]@, it@),
            decreases sorted@.len() - k,
        {
            k = k + 1;
        }

        let ghost sv = sorted@;
        let ghost itv = it@;
        proof {
            if k < sv.len() {
                assert(!key_le(sv[k as int]@, itv));
                assert(key_le(itv, sv[k as int]@)) by {
                    if itv.0 == sv[k as int]@.0 {
                        lemma_seq_le_total(itv.1, sv[k as int]@.1);
                    }
                }
                assert(leq(itv, sv[k as int]@));
            }
        }
        sorted.insert(k, it);
        proof {
            lemma_rank_views_insert(sv, k as int, sorted@[k as int]);
            lemma_insert_to_multiset(rank_views(sv), k as int, itv);
            // The inserted element sits between the scanned prefix and the
            // rest, so the sequence stays sorted.
            let nv = rank_views(sorted@);
            assert(nv =~= rank_views(sv).insert(k as int, itv));
            assert forall|p: int, q: int| 0 <= p < q < nv.len() implies leq(nv[p], nv[q]) by {
                if q < k {
                    assert(leq(nv[p], nv[q]));
                } else if p > k {
                    assert(nv[p] == rank_views(sv)[p - 1] && nv[q] == rank_views(sv)[q - 1]);
                } else if p == k {
                    assert(nv[p] == itv && nv[q] == rank_views(sv)[q - 1]);
                    assert(k < sv.len());
                    assert(leq(itv, sv[k as int]@));
                    if q - 1 > k {
                        assert(leq(rank_views(sv)[k as int], rank_views(sv)[q - 1]));
                    }
                } else if q == k {
                    assert(nv[p] == rank_views(sv)[p] && nv[q] == itv);
                    assert(key_le(sv[p]@, itv));
                } else {
                    // p < k < q
                    assert(nv[p] == rank_views(sv)[p] && nv[q] == rank_views(sv)[q - 1]);
                    assert(key_le(sv[p]@, itv));
                    if q - 1 > k - 1 && q - 1 < sv.len() && p < q - 1 {
                        assert(leq(rank_views(sv)[p], rank_views(sv)[q - 1]));
                    }
                }
            }
            // Restore the multiset invariant: the element moved from
            // `pairs` to `sorted`.
            broadcast use vstd::seq_lib::group_to_multiset_ensures;
            broadcast use vstd::multiset::group_multiset_axioms;

            assert(rank_views(pv).last() == itv);
            assert(rank_views(pv).contains(itv));
            assert(rank_views(pv).to_multiset().count(itv) > 0);
            assert(rank_views(pairs@).to_multiset().add(rank_views(sorted@).to_multiset())
                =~= all.to_multiset());
        }
    }

    proof {
        broadcast use vstd::seq_lib::group_to_multiset_ensures;
        broadcast use vstd::multiset::group_multiset_axioms;

        assert(rank_views(pairs@).to_multiset().len() == 0);
        assert(rank_views(pairs@).to_multiset() =~= Multiset::<(int, Seq<char>)>::empty());
        assert(rank_views(sorted@).to_multiset() =~= all.to_multiset());
        all.lemma_sort_by_ensures(leq);
        lemma_sorted_unique(rank_views(sorted@), all.sort_by(leq), leq);
        assert(rank_views(sorted@) == all.sort_by(leq));
        assert(all.sort_by(leq).len() == all.sort_by(leq).to_multiset().len());
        assert(all.len() == all.to_multiset().len());
        assert(sorted@.len() == all.len());
    }

    let ghost full = rank_views(sorted@);
    if sorted.len() > 3 {
        sorted.truncate(3);
        proof {
            assert(rank_views(sorted@) =~= full.take(3));
        }
    }
    proof {
        assert(rank_views(sorted@) =~= rank_spec(query@, name_views(names@)));
        assert forall|p: int, q: int| 0 <= p < q < sorted@.len() implies key_le(
            sorted@[p]@,
            sorted@[q]@,
        ) by {
            assert(leq(full[p], full[q]));
        }
    }
    sorted
}

} // verus!
