//! Graph traversal results the console and the layout engine consume: the
//! root set, a topological visit order with a cyclicity flag, and
//! breadth-first paths. All of it works on an indexed edge list.

use vstd::prelude::*;

verus! {

/// Every edge joins indices below `n`.
pub open spec fn edges_ok(n: int, es: Seq<(usize, usize)>) -> bool {
    forall|k: int| 0 <= k < es.len() ==> (#[trigger] es[k]).0 < n && es[k].1 < n
}

/// Whether the edge list has an edge from `u` to `v`.
pub open spec fn has_edge_idx(es: Seq<(usize, usize)>, u: int, v: int) -> bool {
    exists|k: int| 0 <= k < es.len() && (#[trigger] es[k]).0 == u && es[k].1 == v
}

/// A root: no edge points at `v`.
pub open spec fn is_root(es: Seq<(usize, usize)>, v: int) -> bool {
    forall|k: int| 0 <= k < es.len() ==> (#[trigger] es[k]).1 != v
}

/// No index occurs twice.
pub open spec fn distinct_idx(s: Seq<usize>) -> bool {
    forall|i: int, j: int| 0 <= i < j < s.len() ==> s[i] != s[j]
}

/// The order respects every edge among its members: an edge's source
/// comes before its target.
pub open spec fn respects_edges(es: Seq<(usize, usize)>, order: Seq<usize>) -> bool {
    forall|p: int, q: int|
        #![trigger order[p], order[q]]
        0 <= p < order.len() && 0 <= q < order.len() && has_edge_idx(
            es,
            order[p] as int,
            order[q] as int,
        ) ==> p < q
}

/// Every target of an ordered node is preceded by the matching source.
spec fn preds_before(es: Seq<(usize, usize)>, order: Seq<usize>) -> bool {
    forall|q: int, k: int|
        #![trigger order[q], es[k]]
        0 <= q < order.len() && 0 <= k < es.len() && es[k].1 == order[q] ==> exists|p: int|
            0 <= p < q && order[p] == es[k].0
}

/// Whether every incoming edge of `v` starts at an already placed node.
fn preds_placed(v: usize, edges: &Vec<(usize, usize)>, placed: &Vec<bool>) -> (r: bool)
    requires
        edges_ok(placed@.len() as int, edges@),
        v < placed@.len(),
    ensures
        r == (forall|k: int|
            0 <= k < edges@.len() ==> ((#[trigger] edges@[k]).1 == v
                ==> placed@[edges@[k].0 as int])),
{
    let m = edges.len();
    let mut k: usize = 0;
    while k < m
        invariant
            0 <= k <= m,
            m == edges@.len(),
            edges_ok(placed@.len() as int, edges@),
            v < placed@.len(),
            forall|j: int|
                0 <= j < k ==> ((#[trigger] edges@[j]).1 == v ==> placed@[edges@[j].0 as int]),
        decreases m - k,
    {
        if edges[k].1 == v && !placed[edges[k].0] {
            return false;
        }
        k = k + 1;
    }
    true
}

/// A distinct sequence of `n` indices below `n` holds every such index.
proof fn lemma_pigeonhole(s: Seq<usize>, n: int, v: int)
    requires
        distinct_idx(s),
        forall|k: int| 0 <= k < s.len() ==> (#[trigger] s[k]) < n,
        s.len() == n,
        0 <= v < n,
    ensures
        s.contains(v as usize),
{
    let ints = s.map_values(|u: usize| u as int);
    assert(ints.no_duplicates()) by {
        assert forall|i: int, j: int|
            0 <= i < ints.len() && 0 <= j < ints.len() && i != j implies ints[i] != ints[j] by {
            if i < j {
                assert(s[i] != s[j]);
            } else {
                assert(s[j] != s[i]);
            }
        }
    }
    if !s.contains(v as usize) {
        ints.unique_seq_to_set();
        let range = vstd::set_lib::set_int_range(0, n);
        vstd::set_lib::lemma_int_range(0, n);
        let small = range.remove(v);
        assert(ints.to_set().subset_of(small)) by {
            assert forall|x: int| ints.to_set().contains(x) implies small.contains(x) by {
                let k = choose|k: int| 0 <= k < ints.len() && ints[k] == x;
                assert(s[k] < n);
                if x == v {
                    assert(s[k] == v as usize);
                    assert(s.contains(v as usize));
                }
            }
        }
        assert(small.len() == n - 1) by {
            assert(range.contains(v));
        }
        vstd::set_lib::lemma_len_subset(ints.to_set(), small);
        assert(false);
    }
}

/// A distinct covering sequence of indices below `n` has at least `n`
/// entries, so a shorter one cannot cover them all.
proof fn lemma_distinct_bound_low(s: Seq<usize>, n: int)
    requires
        distinct_idx(s),
        forall|k: int| 0 <= k < s.len() ==> (#[trigger] s[k]) < n,
        forall|v: int| 0 <= v < n ==> s.contains(#[trigger] (v as usize)),
        0 <= n <= usize::MAX,
    ensures
        s.len() >= n,
{
    let ints = s.map_values(|u: usize| u as int);
    assert(ints.no_duplicates()) by {
        assert forall|i: int, j: int|
            0 <= i < ints.len() && 0 <= j < ints.len() && i != j implies ints[i] != ints[j] by {
            if i < j {
                assert(s[i] != s[j]);
            } else {
                assert(s[j] != s[i]);
            }
        }
    }
    ints.unique_seq_to_set();
    let range = vstd::set_lib::set_int_range(0, n);
    vstd::set_lib::lemma_int_range(0, n);
    assert(range.subset_of(ints.to_set())) by {
        assert forall|x: int| range.contains(x) implies ints.to_set().contains(x) by {
            assert(s.contains((x as usize)));
            let j = choose|j: int| 0 <= j < s.len() && s[j] == (x as usize);
            assert((x as usize) as int == x);
            assert(ints[j] == x);
        }
    }
    vstd::set_lib::lemma_len_subset(range, ints.to_set());
}

/// The roots among the first `v` nodes, ascending.
pub open spec fn roots_upto(es: Seq<(usize, usize)>, v: nat) -> Seq<usize>
    decreases v,
{
    if v == 0 {
        Seq::empty()
    } else {
        roots_upto(es, (v - 1) as nat) + if is_root(es, v - 1) {
            seq![((v - 1) as usize)]
        } else {
            Seq::empty()
        }
    }
}

/// A complete visit order over `n` nodes that respects every edge.
pub open spec fn full_topo_order(n: int, es: Seq<(usize, usize)>, ord: Seq<usize>) -> bool {
    &&& ord.len() == n
    &&& distinct_idx(ord)
    &&& (forall|k: int| 0 <= k < ord.len() ==> (#[trigger] ord[k]) < n)
    &&& respects_edges(es, ord)
}

/// An order with an unsatisfied position has an earliest one.
proof fn lemma_first_unplaced(ord: Seq<usize>, placed: Seq<bool>, k: int)
    requires
        0 <= k < ord.len(),
        forall|j: int| 0 <= j < ord.len() ==> (#[trigger] ord[j]) < placed.len(),
        !placed[ord[k] as int],
    ensures
        exists|p0: int|
            {
                &&& 0 <= p0 <= k
                &&& !placed[(#[trigger] ord[p0]) as int]
                &&& (forall|q: int| 0 <= q < p0 ==> placed[(#[trigger] ord[q]) as int])
            },
    decreases k,
{
    if exists|q: int| 0 <= q < k && !placed[(#[trigger] ord[q]) as int] {
        let q = choose|q: int| 0 <= q < k && !placed[(#[trigger] ord[q]) as int];
        lemma_first_unplaced(ord, placed, q);
    } else {
        assert(forall|q: int| 0 <= q < k ==> placed[(#[trigger] ord[q]) as int]);
    }
}


/// A stuck traversal admits no complete order: some node is unplaced,
/// and the earliest unplaced node of any candidate order would have had
/// all its sources placed, making it eligible after all.
#[verifier::rlimit(60)]
#[verifier::spinoff_prover]
proof fn lemma_stuck_no_topo(es: Seq<(usize, usize)>, placed: Seq<bool>, order: Seq<usize>, n: int)
    requires
        0 <= n <= usize::MAX,
        placed.len() == n,
        edges_ok(n, es),
        order.len() < n,
        distinct_idx(order),
        forall|k: int| 0 <= k < order.len() ==> (#[trigger] order[k]) < n,
        forall|w: int| 0 <= w < n ==> (placed[w] <==> order.contains(w as usize)),
        forall|w: int|
            0 <= w < n && !placed[w] ==> !(forall|k: int|
                0 <= k < es.len() ==> ((#[trigger] es[k]).1 == w ==> placed[es[k].0 as int])),
    ensures
        forall|ord: Seq<usize>| !(#[trigger] full_topo_order(n, es, ord)),
{
    assert forall|ord: Seq<usize>| !(#[trigger] full_topo_order(n, es, ord)) by {
        if full_topo_order(n, es, ord) {
            assert(exists|w: int| 0 <= w < n && !placed[w]) by {
                if forall|w: int| 0 <= w < n ==> placed[w] {
                    assert forall|v2: int|
                        0 <= v2 < n implies order.contains(#[trigger] (v2 as usize)) by {
                        assert(placed[v2]);
                    }
                    lemma_distinct_bound_low(order, n);
                }
            }
            let w0 = choose|w: int| 0 <= w < n && !placed[w];
            lemma_pigeonhole(ord, n, w0);
            let kw = choose|kw: int| 0 <= kw < ord.len() && ord[kw] == w0 as usize;
            assert(!placed[ord[kw] as int]);
            lemma_first_unplaced(ord, placed, kw);
            let p0 = choose|p0: int|
                {
                    &&& 0 <= p0 <= kw
                    &&& !placed[(#[trigger] ord[p0]) as int]
                    &&& (forall|q: int| 0 <= q < p0 ==> placed[(#[trigger] ord[q]) as int])
                };
            let v = ord[p0];
            assert(!(forall|k2: int|
                0 <= k2 < es.len() ==> ((#[trigger] es[k2]).1 == v ==> placed[es[
                    k2
                ].0 as int])));
            let k2 = choose|k2: int|
                0 <= k2 < es.len() && (#[trigger] es[k2]).1 == v && !placed[es[k2].0 as int];
            let u = es[k2].0;
            lemma_pigeonhole(ord, n, u as int);
            let q = choose|q: int| 0 <= q < ord.len() && ord[q] == (u as int) as usize;
            assert(has_edge_idx(es, ord[q] as int, ord[p0] as int)) by {
                assert(es[k2].0 == ord[q] && es[k2].1 == ord[p0]);
            }
            assert(q < p0);
            assert(placed[ord[q] as int]);
            assert(false);
        }
    }
}

/// The combined traversal the layout engine and the console consume: the
/// root set (nodes with no incoming edge, ascending), a visit order that
/// respects the edges, and whether the graph is cyclic. On an acyclic
/// graph the order covers every node; on a cyclic one it stops short, and
/// the flag says so.
pub fn toposort(n: usize, edges: &Vec<(usize, usize)>) -> (r: (Vec<usize>, Vec<usize>, bool))
    requires
        edges_ok(n as int, edges@),
    ensures
        r.0@ == roots_upto(edges@, n as nat),
        forall|i: int, j: int| 0 <= i < j < r.0@.len() ==> r.0@[i] < r.0@[j],
        forall|v: int| 0 <= v < n ==> (r.0@.contains(v as usize) <==> is_root(edges@, v)),
        forall|k: int| 0 <= k < r.0@.len() ==> (#[trigger] r.0@[k]) < n,
        forall|k: int| 0 <= k < r.1@.len() ==> (#[trigger] r.1@[k]) < n,
        distinct_idx(r.1@),
        respects_edges(edges@, r.1@),
        r.1@.len() <= n,
        r.2 == (r.1@.len() < n),
        !r.2 ==> forall|v: int| 0 <= v < n ==> r.1@.contains(#[trigger] (v as usize)),
        r.2 == !(exists|ord: Seq<usize>| #[trigger] full_topo_order(n as int, edges@, ord)),
{
    let mut roots: Vec<usize> = Vec::new();
    let mut placed: Vec<bool> = Vec::new();
    let mut v: usize = 0;
    while v < n
        invariant
            0 <= v <= n,
            placed@.len() == v,
            forall|j: int| 0 <= j < v ==> !placed@[j],
            roots@ == roots_upto(edges@, v as nat),
            forall|i: int, j: int| 0 <= i < j < roots@.len() ==> roots@[i] < roots@[j],
            forall|k: int| 0 <= k < roots@.len() ==> (#[trigger] roots@[k]) < v,
            forall|w: int| 0 <= w < v ==> (roots@.contains(w as usize) <==> is_root(edges@, w)),
        decreases n - v,
    {
        let mut incoming = false;
        let m = edges.len();
        let mut k: usize = 0;
        while k < m
            invariant
                0 <= k <= m,
                m == edges@.len(),
                incoming == exists|j: int| 0 <= j < k && (#[trigger] edges@[j]).1 == v,
            decreases m - k,
        {
            if edges[k].1 == v {
                incoming = true;
            }
            k = k + 1;
        }
        if !incoming {
            let ghost before = roots@;
            roots.push(v);
            proof {
                assert(is_root(edges@, v as int));
                assert(roots@ =~= roots_upto(edges@, (v + 1) as nat));
                assert forall|w: int|
                    0 <= w < v + 1 implies (roots@.contains(w as usize) <==> is_root(
                    edges@,
                    w,
                )) by {
                    if w < v {
                        assert(before.contains(w as usize) <==> is_root(edges@, w));
                        if before.contains(w as usize) {
                            let j = choose|j: int|
                                0 <= j < before.len() && before[j] == w as usize;
                            assert(roots@[j] == w as usize);
                        }
                        if roots@.contains(w as usize) {
                            let j = choose|j: int|
                                0 <= j < roots@.len() && roots@[j] == w as usize;
                            if j < before.len() {
                                assert(before[j] == w as usize);
                            }
                        }
                    } else {
                        assert(roots@.last() == v);
                    }
                }
            }
        } else {
            proof {
                let j = choose|j: int| 0 <= j < edges@.len() && (#[trigger] edges@[j]).1 == v;
                assert(!is_root(edges@, v as int));
                assert(roots@ =~= roots_upto(edges@, (v + 1) as nat));
                assert forall|w: int|
                    0 <= w < v + 1 implies (roots@.contains(w as usize) <==> is_root(
                    edges@,
                    w,
                )) by {
                    if w == v {
                        if roots@.contains(w as usize) {
                            let j2 = choose|j2: int|
                                0 <= j2 < roots@.len() && roots@[j2] == w as usize;
                        }
                    }
                }
            }
        }
        placed.push(false);
        v = v + 1;
    }

    let mut order: Vec<usize> = Vec::new();
    loop
        invariant
            placed@.len() == n,
            edges_ok(n as int, edges@),
            order@.len() <= n,
            forall|k: int| 0 <= k < order@.len() ==> (#[trigger] order@[k]) < n,
            distinct_idx(order@),
            preds_before(edges@, order@),
            forall|w: int| 0 <= w < n ==> (placed@[w] <==> order@.contains(w as usize)),
        ensures
            placed@.len() == n,
            order@.len() <= n,
            forall|k: int| 0 <= k < order@.len() ==> (#[trigger] order@[k]) < n,
            distinct_idx(order@),
            preds_before(edges@, order@),
            forall|w: int| 0 <= w < n ==> (placed@[w] <==> order@.contains(w as usize)),
            // no further node is eligible
            forall|w: int|
                0 <= w < n && !placed@[w] ==> !(forall|k: int|
                    0 <= k < edges@.len() ==> ((#[trigger] edges@[k]).1 == w
                        ==> placed@[edges@[k].0 as int])),
        decreases n - order@.len(),
    {
        let mut found: bool = false;
        let mut w: usize = 0;
        while w < n && !(found && w > 0)
            invariant
                0 <= w <= n,
                placed@.len() == n,
                edges_ok(n as int, edges@),
                found ==> w > 0,
                found ==> 0 <= (w - 1) < n && !placed@[w - 1] && (forall|k: int|
                    0 <= k < edges@.len() ==> ((#[trigger] edges@[k]).1 == (w - 1) as usize
                        ==> placed@[edges@[k].0 as int])),
                !found ==> forall|u: int|
                    0 <= u < w ==> !(!placed@[u] && (forall|k: int|
                        0 <= k < edges@.len() ==> ((#[trigger] edges@[k]).1 == u ==> placed@[
                            edges@[k].0 as int]))),
            decreases n - w,
        {
            if !placed[w] && preds_placed(w, edges, &placed) {
                found = true;
            }
            w = w + 1;
        }
        if !found {
            break ;
        }
        let chosen = w - 1;
        let ghost ord0 = order@;
        let ghost placed0 = placed@;
        proof {
            // The chosen node is not yet placed, so the order is still short
            // of n: otherwise it would already contain every index.
            if ord0.len() == n {
                lemma_pigeonhole(ord0, n as int, chosen as int);
            }
        }
        order.push(chosen);
        placed.set(chosen, true);
        proof {
            assert forall|w2: int|
                0 <= w2 < n implies (placed@[w2] <==> order@.contains(w2 as usize)) by {
                if w2 == chosen {
                    assert(order@.last() == chosen);
                } else {
                    if placed0[w2] {
                        let j = choose|j: int| 0 <= j < ord0.len() && ord0[j] == w2 as usize;
                        assert(order@[j] == w2 as usize);
                    }
                    if order@.contains(w2 as usize) {
                        let j = choose|j: int|
                            0 <= j < order@.len() && order@[j] == w2 as usize;
                        assert(j < ord0.len());
                        assert(ord0[j] == w2 as usize);
                    }
                }
            }
            assert(distinct_idx(order@)) by {
                assert forall|i: int, j: int|
                    0 <= i < j < order@.len() implies order@[i] != order@[j] by {
                    if j == order@.len() - 1 {
                        assert(order@[j] == chosen);
                        assert(!placed0[chosen as int]);
                        assert(ord0[i] == order@[i]);
                        if order@[i] == chosen {
                            assert(ord0.contains(chosen));
                        }
                    }
                }
            }
            assert(preds_before(edges@, order@)) by {
                assert forall|q: int, k: int|
                    0 <= q < order@.len() && 0 <= k < edges@.len() && edges@[k].1 == order@[q]
                    implies exists|p: int| 0 <= p < q && order@[p] == edges@[k].0 by {
                    if q < ord0.len() {
                        assert(ord0[q] == order@[q]);
                        let p = choose|p: int| 0 <= p < q && ord0[p] == edges@[k].0;
                        assert(order@[p] == edges@[k].0);
                    } else {
                        assert(order@[q] == chosen);
                        assert(edges@[k].1 == chosen);
                        assert(placed0[edges@[k].0 as int]);
                        let p = choose|p: int|
                            0 <= p < ord0.len() && ord0[p] == edges@[k].0;
                        assert(order@[p] == edges@[k].0);
                    }
                }
            }
        }
    }

    let cyclic = order.len() < n;
    proof {
        if cyclic {
            lemma_stuck_no_topo(edges@, placed@, order@, n as int);
            assert(!(exists|ord: Seq<usize>|
                #[trigger] full_topo_order(n as int, edges@, ord)));
        }
        if !cyclic {
            assert forall|v2: int| 0 <= v2 < n implies order@.contains(
                #[trigger] (v2 as usize),
            ) by {
                lemma_pigeonhole(order@, n as int, v2);
            }
        }
        if !cyclic {
            assert(full_topo_order(n as int, edges@, order@)) by {
                assert(order@.len() == n) by {
                    lemma_distinct_bound(order@, n as int);
                }
                assert(respects_edges(edges@, order@)) by {
                    assert forall|p: int, q: int|
                        #![trigger order@[p], order@[q]]
                        0 <= p < order@.len() && 0 <= q < order@.len() && has_edge_idx(
                            edges@,
                            order@[p] as int,
                            order@[q] as int,
                        ) implies p < q by {
                        let k = choose|k: int|
                            0 <= k < edges@.len() && (#[trigger] edges@[k]).0 == order@[
                                p
                            ] as int && edges@[k].1 == order@[q] as int;
                        let p2 = choose|p2: int| 0 <= p2 < q && order@[p2] == edges@[k].0;
                        if p2 != p {
                            assert(order@[p2] == order@[p]);
                            if p2 < p {
                                assert(order@[p2] != order@[p]);
                            } else {
                                assert(order@[p] != order@[p2]);
                            }
                        }
                    }
                }
            }
        }
        assert(respects_edges(edges@, order@)) by {
            assert forall|p: int, q: int|
                #![trigger order@[p], order@[q]]
                0 <= p < order@.len() && 0 <= q < order@.len() && has_edge_idx(
                    edges@,
                    order@[p] as int,
                    order@[q] as int,
                ) implies p < q by {
                let k = choose|k: int|
                    0 <= k < edges@.len() && (#[trigger] edges@[k]).0 == order@[p] as int
                        && edges@[k].1 == order@[q] as int;
                let p2 = choose|p2: int| 0 <= p2 < q && order@[p2] == edges@[k].0;
                if p2 != p {
                    assert(order@[p2] == order@[p]);
                    if p2 < p {
                        assert(order@[p2] != order@[p]);
                    } else {
                        assert(order@[p] != order@[p2]);
                    }
                }
            }
        }
    }
    (roots, order, cyclic)
}


/// A path: at least one node, consecutive nodes joined by edges.
pub open spec fn is_path_idx(es: Seq<(usize, usize)>, p: Seq<usize>) -> bool {
    p.len() >= 1 && forall|k: int|
        0 <= k < p.len() - 1 ==> has_edge_idx(es, (#[trigger] p[k]) as int, p[k + 1] as int)
}

/// Whether some path leads from `a` to `b`.
pub open spec fn reachable_idx(es: Seq<(usize, usize)>, a: int, b: int) -> bool {
    exists|p: Seq<usize>| #[trigger] is_path_idx(es, p) && p.first() == a && p.last() == b
}

/// A distinct sequence of indices below `n` has at most `n` elements.
proof fn lemma_distinct_bound(s: Seq<usize>, n: int)
    requires
        distinct_idx(s),
        forall|k: int| 0 <= k < s.len() ==> (#[trigger] s[k]) < n,
        0 <= n,
    ensures
        s.len() <= n,
{
    let ints = s.map_values(|u: usize| u as int);
    assert(ints.no_duplicates()) by {
        assert forall|i: int, j: int|
            0 <= i < ints.len() && 0 <= j < ints.len() && i != j implies ints[i] != ints[j] by {
            if i < j {
                assert(s[i] != s[j]);
            } else {
                assert(s[j] != s[i]);
            }
        }
    }
    ints.unique_seq_to_set();
    let range = vstd::set_lib::set_int_range(0, n);
    vstd::set_lib::lemma_int_range(0, n);
    assert(ints.to_set().subset_of(range)) by {
        assert forall|x: int| ints.to_set().contains(x) implies range.contains(x) by {
            let k = choose|k: int| 0 <= k < ints.len() && ints[k] == x;
            assert(s[k] < n);
        }
    }
    vstd::set_lib::lemma_len_subset(ints.to_set(), range);
}

/// Along any path out of a visited node, every node stays visited, as
/// long as the visited set is closed under following edges.
proof fn lemma_path_visited(es: Seq<(usize, usize)>, visited: Seq<bool>, p: Seq<usize>)
    requires
        is_path_idx(es, p),
        forall|k: int| 0 <= k < p.len() ==> (#[trigger] p[k]) < visited.len(),
        visited[p.first() as int],
        forall|u: int, k: int|
            #![trigger visited[u], es[k]]
            0 <= u < visited.len() && 0 <= k < es.len() && visited[u] && es[k].0 == u
                ==> visited[es[k].1 as int],
    ensures
        visited[p.last() as int],
    decreases p.len(),
{
    if p.len() > 1 {
        let q = p.drop_last();
        assert(is_path_idx(es, q)) by {
            assert(forall|k: int|
                0 <= k < q.len() - 1 ==> has_edge_idx(es, (#[trigger] q[k]) as int, q[
                    k + 1
                ] as int));
        }
        lemma_path_visited(es, visited, q);
        assert(has_edge_idx(es, p[p.len() - 2] as int, p[p.len() - 1] as int));
        let k = choose|k: int|
            0 <= k < es.len() && (#[trigger] es[k]).0 == p[p.len() - 2] as int && es[k].1 == p[
                p.len() - 1
            ] as int;
    }
}

/// Along any path out of a visited node the recorded distances grow by
/// at most one per edge, as long as the visited set is closed that way.
proof fn lemma_path_dist(
    es: Seq<(usize, usize)>,
    visited: Seq<bool>,
    dist: Seq<usize>,
    p: Seq<usize>,
)
    requires
        is_path_idx(es, p),
        dist.len() == visited.len(),
        forall|k: int| 0 <= k < p.len() ==> (#[trigger] p[k]) < visited.len(),
        visited[p.first() as int],
        forall|u: int, k: int|
            #![trigger visited[u], es[k]]
            0 <= u < visited.len() && 0 <= k < es.len() && visited[u] && es[k].0 == u
                ==> visited[es[k].1 as int] && dist[es[k].1 as int] <= dist[u] + 1,
    ensures
        visited[p.last() as int],
        dist[p.last() as int] <= dist[p.first() as int] + p.len() - 1,
    decreases p.len(),
{
    if p.len() > 1 {
        let q = p.drop_last();
        assert(is_path_idx(es, q)) by {
            assert(forall|k: int|
                0 <= k < q.len() - 1 ==> has_edge_idx(es, (#[trigger] q[k]) as int, q[
                    k + 1
                ] as int));
        }
        lemma_path_dist(es, visited, dist, q);
        assert(has_edge_idx(es, p[p.len() - 2] as int, p[p.len() - 1] as int));
        let k = choose|k: int|
            0 <= k < es.len() && (#[trigger] es[k]).0 == p[p.len() - 2] as int && es[k].1 == p[
                p.len() - 1
            ] as int;
    }
}

/// Breadth-first search for a route: the path from `from` to `to`, if one
/// exists, and nothing otherwise.
pub fn bfs_path(n: usize, edges: &Vec<(usize, usize)>, from: usize, to: usize) -> (r: Option<
    Vec<usize>,
>)
    requires
        edges_ok(n as int, edges@),
        from < n,
        to < n,
    ensures
        match r {
            Some(p) => {
                &&& is_path_idx(edges@, p@)
                &&& p@.first() == from
                &&& p@.last() == to
                &&& (forall|k: int| 0 <= k < p@.len() ==> (#[trigger] p@[k]) < n)
                &&& (forall|q: Seq<usize>|
                    #[trigger] is_path_idx(edges@, q) && q.first() == from && q.last() == to
                        ==> q.len() >= p@.len())
            },
            None => !reachable_idx(edges@, from as int, to as int),
        },
{
    let mut visited: Vec<bool> = Vec::new();
    let mut parent: Vec<usize> = Vec::new();
    let mut dist: Vec<usize> = Vec::new();
    let mut v: usize = 0;
    while v < n
        invariant
            0 <= v <= n,
            visited@.len() == v,
            parent@.len() == v,
            dist@.len() == v,
            forall|j: int| 0 <= j < v ==> !visited@[j],
            forall|j: int| 0 <= j < v ==> dist@[j] == 0,
        decreases n - v,
    {
        visited.push(false);
        parent.push(0);
        dist.push(0);
        v = v + 1;
    }

    let mut queue: Vec<usize> = Vec::new();
    queue.push(from);
    visited.set(from, true);
    proof {
        assert forall|w: int|
            0 <= w < n implies (visited@[w] <==> queue@.contains(w as usize)) by {
            if w == from {
                assert(queue@[0] == from);
            } else if queue@.contains(w as usize) {
                let j = choose|j: int| 0 <= j < queue@.len() && queue@[j] == w as usize;
            }
        }
    }
    let mut head: usize = 0;
    while head < queue.len()
        invariant
            visited@.len() == n,
            parent@.len() == n,
            dist@.len() == n,
            edges_ok(n as int, edges@),
            from < n,
            0 <= head <= queue@.len(),
            1 <= queue@.len(),
            queue@.len() <= n,
            queue@[0] == from,
            distinct_idx(queue@),
            forall|k: int| 0 <= k < queue@.len() ==> (#[trigger] queue@[k]) < n,
            forall|w: int| 0 <= w < n ==> (visited@[w] <==> queue@.contains(w as usize)),
            dist@[from as int] == 0,
            forall|w: int|
                0 <= w < n && visited@[w] && w != from ==> (#[trigger] parent@[w]) < n
                    && visited@[parent@[w] as int] && has_edge_idx(edges@, parent@[w] as int, w)
                    && dist@[w] == dist@[parent@[w] as int] + 1,
            forall|w: int| 0 <= w < n && visited@[w] ==> (#[trigger] dist@[w]) < queue@.len(),
            forall|i: int, j: int|
                #![trigger queue@[i], queue@[j]]
                0 <= i <= j < queue@.len() ==> dist@[queue@[i] as int] <= dist@[queue@[
                    j
                ] as int],
            head < queue@.len() ==> dist@[queue@.last() as int] <= dist@[queue@[
                head as int
            ] as int] + 1,
            forall|p: int, k: int|
                #![trigger queue@[p], edges@[k]]
                0 <= p < head && 0 <= k < edges@.len() && edges@[k].0 == queue@[p]
                    ==> visited@[edges@[k].1 as int] && dist@[edges@[k].1 as int] <= dist@[
                    queue@[p] as int
                ] + 1,
        decreases n - head,
    {
        let u = queue[head];
        let m = edges.len();
        let mut k: usize = 0;
        while k < m
            invariant
                0 <= k <= m,
                m == edges@.len(),
                visited@.len() == n,
                parent@.len() == n,
                dist@.len() == n,
                edges_ok(n as int, edges@),
                from < n,
                u < n,
                visited@[u as int],
                0 <= head < queue@.len(),
                queue@[head as int] == u,
                1 <= queue@.len(),
                queue@.len() <= n,
                queue@[0] == from,
                distinct_idx(queue@),
                forall|j: int| 0 <= j < queue@.len() ==> (#[trigger] queue@[j]) < n,
                forall|w: int| 0 <= w < n ==> (visited@[w] <==> queue@.contains(w as usize)),
                dist@[from as int] == 0,
                forall|w: int|
                    0 <= w < n && visited@[w] && w != from ==> (#[trigger] parent@[w]) < n
                        && visited@[parent@[w] as int] && has_edge_idx(
                        edges@,
                        parent@[w] as int,
                        w,
                    ) && dist@[w] == dist@[parent@[w] as int] + 1,
                forall|w: int| 0 <= w < n && visited@[w] ==> (#[trigger] dist@[w]) < queue@.len(),
                forall|i: int, j: int|
                    #![trigger queue@[i], queue@[j]]
                    0 <= i <= j < queue@.len() ==> dist@[queue@[i] as int] <= dist@[queue@[
                        j
                    ] as int],
                dist@[queue@.last() as int] <= dist@[u as int] + 1,
                forall|p: int, k2: int|
                    #![trigger queue@[p], edges@[k2]]
                    0 <= p < head && 0 <= k2 < edges@.len() && edges@[k2].0 == queue@[p]
                        ==> visited@[edges@[k2].1 as int] && dist@[edges@[k2].1 as int] <= dist@[
                        queue@[p] as int
                    ] + 1,
                forall|k2: int|
                    0 <= k2 < k && (#[trigger] edges@[k2]).0 == u ==> visited@[edges@[
                        k2
                    ].1 as int] && dist@[edges@[k2].1 as int] <= dist@[u as int] + 1,
            decreases m - k,
        {
            if edges[k].0 == u {
                let tgt = edges[k].1;
                proof {
                    if visited@[tgt as int] {
                        // An already visited target sits in the queue, so
                        // its distance is at most one past the head's.
                        let j = choose|j: int|
                            0 <= j < queue@.len() && queue@[j] == (tgt as int) as usize;
                        assert(dist@[queue@[j] as int] <= dist@[queue@.last() as int]);
                    }
                }
                if !visited[tgt] {
                    proof {
                        // The queue grows by one unvisited node, so it stays
                        // distinct and within n.
                        if queue@.len() == n {
                            lemma_pigeonhole(queue@, n as int, tgt as int);
                        }
                    }
                    let ghost q0 = queue@;
                    let du = dist[u];
                    visited.set(tgt, true);
                    parent.set(tgt, u);
                    dist.set(tgt, du + 1);
                    queue.push(tgt);
                    proof {
                        assert forall|w: int|
                            0 <= w < n implies (visited@[w] <==> queue@.contains(w as usize)) by {
                            if w == tgt {
                                assert(queue@.last() == tgt);
                            } else {
                                if visited@[w] {
                                    let j = choose|j: int|
                                        0 <= j < q0.len() && q0[j] == w as usize;
                                    assert(queue@[j] == w as usize);
                                }
                                if queue@.contains(w as usize) {
                                    let j = choose|j: int|
                                        0 <= j < queue@.len() && queue@[j] == w as usize;
                                    assert(j < q0.len());
                                    assert(q0[j] == w as usize);
                                }
                            }
                        }
                        assert(distinct_idx(queue@)) by {
                            assert forall|i: int, j: int|
                                0 <= i < j < queue@.len() implies queue@[i] != queue@[j] by {
                                if j == queue@.len() - 1 {
                                    assert(queue@[j] == tgt);
                                    if queue@[i] == tgt {
                                        assert(q0.contains(tgt));
                                    }
                                }
                            }
                        }
                        assert(has_edge_idx(edges@, u as int, tgt as int)) by {
                            assert((edges@[k as int]).0 == u && edges@[k as int].1 == tgt);
                        }
                    }
                }
            }
            k = k + 1;
        }
        head = head + 1;
    }

    if !visited[to] {
        proof {
            if reachable_idx(edges@, from as int, to as int) {
                let p = choose|p: Seq<usize>|
                    #[trigger] is_path_idx(edges@, p) && p.first() == from && p.last() == to;
                assert(forall|k: int| 0 <= k < p.len() ==> (#[trigger] p[k]) < n) by {
                    lemma_path_in_range(edges@, p, n as int, from as int);
                }
                assert forall|u2: int, k2: int|
                    #![trigger visited@[u2], edges@[k2]]
                    0 <= u2 < visited@.len() && 0 <= k2 < edges@.len() && visited@[u2]
                    && edges@[k2].0 == u2 implies visited@[edges@[k2].1 as int] by {
                    let pidx = choose|pidx: int|
                        0 <= pidx < queue@.len() && queue@[pidx] == u2 as usize;
                }
                lemma_path_visited(edges@, visited@, p);
            }
        }
        return None;
    }

    // Walk the parent links back from `to`, then reverse.
    let mut rev: Vec<usize> = Vec::new();
    rev.push(to);
    let mut cur: usize = to;
    while cur != from
        invariant
            visited@.len() == n,
            parent@.len() == n,
            dist@.len() == n,
            edges_ok(n as int, edges@),
            from < n,
            cur < n,
            visited@[cur as int],
            dist@[from as int] == 0,
            forall|w: int|
                0 <= w < n && visited@[w] && w != from ==> (#[trigger] parent@[w]) < n
                    && visited@[parent@[w] as int] && has_edge_idx(edges@, parent@[w] as int, w)
                    && dist@[w] == dist@[parent@[w] as int] + 1,
            rev@.len() >= 1,
            rev@[0] == to,
            rev@.last() == cur,
            dist@[cur as int] + rev@.len() == dist@[to as int] + 1,
            forall|j: int| 0 <= j < rev@.len() ==> (#[trigger] rev@[j]) < n,
            forall|j: int|
                0 <= j < rev@.len() - 1 ==> has_edge_idx(
                    edges@,
                    rev@[j + 1] as int,
                    (#[trigger] rev@[j]) as int,
                ),
        decreases dist@[cur as int],
    {
        let nxt = parent[cur];
        rev.push(nxt);
        cur = nxt;
    }

    let len = rev.len();
    let mut path: Vec<usize> = Vec::new();
    let mut j: usize = 0;
    while j < len
        invariant
            0 <= j <= len,
            len == rev@.len(),
            path@.len() == j,
            forall|i: int| 0 <= i < j ==> path@[i] == rev@[len - 1 - i],
        decreases len - j,
    {
        path.push(rev[len - 1 - j]);
        j = j + 1;
    }
    proof {
        assert(path@.first() == rev@.last());
        assert(path@.last() == rev@[0]);
        assert(is_path_idx(edges@, path@)) by {
            assert forall|k2: int|
                0 <= k2 < path@.len() - 1 implies has_edge_idx(
                edges@,
                (#[trigger] path@[k2]) as int,
                path@[k2 + 1] as int,
            ) by {
                assert(path@[k2] == rev@[len - 1 - k2]);
                assert(path@[k2 + 1] == rev@[len - 1 - (k2 + 1)]);
                assert(has_edge_idx(
                    edges@,
                    rev@[(len - 2 - k2) + 1] as int,
                    rev@[len - 2 - k2] as int,
                ));
            }
        }
        assert forall|k2: int| 0 <= k2 < path@.len() implies (#[trigger] path@[k2]) < n by {
            assert(path@[k2] == rev@[len - 1 - k2]);
        }
        // No path can beat the breadth-first distance: along any route the
        // recorded distance grows by at most one per edge, and this path
        // realises it exactly.
        assert(path@.len() == dist@[to as int] + 1);
        assert forall|q: Seq<usize>|
            #[trigger] is_path_idx(edges@, q) && q.first() == from && q.last() == to
                implies q.len() >= path@.len() by {
            lemma_path_in_range(edges@, q, n as int, from as int);
            lemma_path_dist(edges@, visited@, dist@, q);
        }
    }
    Some(path)
}

/// Every node on a path out of `from` stays below `n` when the edges do.
proof fn lemma_path_in_range(es: Seq<(usize, usize)>, p: Seq<usize>, n: int, from: int)
    requires
        edges_ok(n, es),
        is_path_idx(es, p),
        p.first() == from,
        0 <= from < n,
    ensures
        forall|k: int| 0 <= k < p.len() ==> (#[trigger] p[k]) < n,
{
    assert forall|k: int| 0 <= k < p.len() implies (#[trigger] p[k]) < n by {
        if k > 0 {
            assert(has_edge_idx(es, p[k - 1] as int, p[k] as int));
            let e = choose|e: int|
                0 <= e < es.len() && (#[trigger] es[e]).0 == p[k - 1] as int && es[e].1 == p[
                    k
                ] as int;
        }
    }
}

} // verus!
