//! The tree layout planner: for an acyclic graph, a depth-first placement
//! that drops each child below its parent by the incoming edge's weight
//! times the vertical scale, keeps a first child on its parent's vertical
//! spine, and moves every later sibling right by the horizontal step,
//! threading the horizontal cursor back to the caller.

use vstd::prelude::*;

use crate::graph::lemma_filter_membership;
use crate::graph::lemma_filter_push;
use crate::model::LayoutGraph;
use crate::model::LayoutError;
use crate::model::Pos;
use crate::model::PosMap;

verus! {

/// The predicate picking the outgoing edges of `u`.
pub open spec fn from_pred(u: int) -> spec_fn((usize, usize, i32)) -> bool {
    |e: (usize, usize, i32)| e.0 == u
}

/// The outgoing weighted edges of `u`, in edge order.
pub open spec fn children_of(es: Seq<(usize, usize, i32)>, u: int) -> Seq<(usize, usize, i32)> {
    es.filter(from_pred(u))
}

/// The positions as a map from node index to coordinates.
pub open spec fn pm_view(pm: Seq<Option<Pos>>) -> Map<int, (int, int)> {
    Map::new(
        |i: int| 0 <= i < pm.len() && pm[i] is Some,
        |i: int| (pm[i]->Some_0.x as int, pm[i]->Some_0.y as int),
    )
}

/// One node's visit: place it at the cursor, then lay out its children.
/// `None` stands for a failed pass: a weight outside the 16-bit range, a
/// coordinate outside the representable range, or a recursion deeper than
/// the fuel (which an acyclic graph never reaches).
pub open spec fn visit_node(
    es: Seq<(usize, usize, i32)>,
    node: int,
    x: int,
    y: int,
    pm: Map<int, (int, int)>,
    fuel: nat,
) -> Option<(Map<int, (int, int)>, int)>
    decreases fuel, children_of(es, node).len() + 1,
{
    if fuel == 0 {
        None
    } else {
        visit_kids(es, children_of(es, node), 0, x, y, pm.insert(node, (x, y)), fuel)
    }
}

/// The children from `idx` on: the first child continues at the parent's
/// cursor, every later one at the threaded cursor plus the horizontal
/// step; each drops by its weight times the vertical scale.
pub open spec fn visit_kids(
    es: Seq<(usize, usize, i32)>,
    kids: Seq<(usize, usize, i32)>,
    idx: int,
    x: int,
    y: int,
    pm: Map<int, (int, int)>,
    fuel: nat,
) -> Option<(Map<int, (int, int)>, int)>
    decreases fuel, kids.len() - idx,
{
    if fuel == 0 {
        None
    } else if idx < 0 || idx >= kids.len() {
        Some((pm, x))
    } else {
        let w = kids[idx].2 as int;
        if w < 0 || w > 65535 {
            None
        } else {
            let cx = if idx == 0 {
                x
            } else {
                x + 100
            };
            let cy = y + w * 100;
            if cx > i64::MAX || cy > i64::MAX {
                None
            } else {
                match visit_node(es, kids[idx].1 as int, cx, cy, pm, (fuel - 1) as nat) {
                    None => None,
                    Some((pm2, x2)) => visit_kids(es, kids, idx + 1, x2, y, pm2, fuel),
                }
            }
        }
    }
}

/// The whole pass: each root starts a fresh column one horizontal step
/// past the running cursor, at the top of the canvas.
pub open spec fn roots_spec(
    es: Seq<(usize, usize, i32)>,
    roots: Seq<usize>,
    idx: int,
    x: int,
    pm: Map<int, (int, int)>,
    fuel: nat,
) -> Option<Map<int, (int, int)>>
    decreases roots.len() - idx,
{
    if idx < 0 || idx >= roots.len() {
        Some(pm)
    } else if x + 100 > i64::MAX {
        None
    } else {
        match visit_node(es, roots[idx] as int, x + 100, 0, pm, fuel) {
            None => None,
            Some((pm2, x2)) => roots_spec(es, roots, idx + 1, x2, pm2, fuel),
        }
    }
}

/// What `layout_tree` computes: the depth-first placement over all roots,
/// with enough fuel for any acyclic graph.
pub open spec fn layout_tree_spec(g: LayoutGraph, roots: Seq<usize>) -> Option<
    Map<int, (int, int)>,
> {
    roots_spec(g.edges@, roots, 0, 0, Map::empty(), (g.n() + 1) as nat)
}


/// Whether the edge list has a weighted edge from `a` to `b`.
pub open spec fn edge_to(es: Seq<(usize, usize, i32)>, a: int, b: int) -> bool {
    exists|j: int| 0 <= j < es.len() && (#[trigger] es[j]).0 == a && es[j].1 == b
}

/// A walk: at least one node, consecutive nodes joined by edges.
pub open spec fn is_wpath(es: Seq<(usize, usize, i32)>, p: Seq<usize>) -> bool {
    p.len() >= 1 && forall|k: int|
        0 <= k < p.len() - 1 ==> edge_to(es, (#[trigger] p[k]) as int, p[k + 1] as int)
}

/// Whether some walk leads from `a` to `b`.
pub open spec fn wreach(es: Seq<(usize, usize, i32)>, a: int, b: int) -> bool {
    exists|p: Seq<usize>| #[trigger] is_wpath(es, p) && p.first() == a && p.last() == b
}

/// Every node reaches itself.
pub proof fn lemma_wreach_self(es: Seq<(usize, usize, i32)>, a: usize)
    ensures
        wreach(es, a as int, a as int),
{
    let p = seq![a];
    assert(is_wpath(es, p));
    assert(p.first() == a as int && p.last() == a as int);
}

/// A walk extends across one more edge.
pub proof fn lemma_wreach_extend(es: Seq<(usize, usize, i32)>, a: int, b: int, c: usize)
    requires
        wreach(es, a, b),
        edge_to(es, b, c as int),
    ensures
        wreach(es, a, c as int),
{
    let p = choose|p: Seq<usize>| #[trigger] is_wpath(es, p) && p.first() == a && p.last() == b;
    let p2 = p.push(c);
    assert(is_wpath(es, p2)) by {
        assert forall|k: int|
            0 <= k < p2.len() - 1 implies edge_to(es, (#[trigger] p2[k]) as int, p2[
            k + 1
        ] as int) by {
            if k < p.len() - 1 {
                assert(p2[k] == p[k] && p2[k + 1] == p[k + 1]);
            } else {
                assert(p2[k] == p.last() && p2[k + 1] == c);
            }
        }
    }
    assert(p2.first() == a && p2.last() == c as int);
}

/// A reachable node is the start itself, or reachable from a successor.
proof fn lemma_wreach_step(es: Seq<(usize, usize, i32)>, a: int, b: int)
    requires
        wreach(es, a, b),
    ensures
        a == b || exists|c: int| #[trigger] edge_to(es, a, c) && wreach(es, c, b),
{
    let p = choose|p: Seq<usize>| #[trigger] is_wpath(es, p) && p.first() == a && p.last() == b;
    if p.len() == 1 {
        assert(a == b);
    } else {
        let c = p[1];
        assert(edge_to(es, p[0] as int, p[1] as int));
        let q = p.drop_first();
        assert(is_wpath(es, q)) by {
            assert forall|k: int|
                0 <= k < q.len() - 1 implies edge_to(es, (#[trigger] q[k]) as int, q[
                k + 1
            ] as int) by {
                assert(q[k] == p[k + 1] && q[k + 1] == p[k + 2]);
            }
        }
        assert(q.first() == c as int && q.last() == b);
        assert(wreach(es, c as int, b));
        assert(edge_to(es, a, c as int) && wreach(es, c as int, b));
    }
}

/// Updating one slot of the position vector inserts that key in the map.
proof fn lemma_pm_view_update(pm: Seq<Option<Pos>>, i: int, p: Pos)
    requires
        0 <= i < pm.len(),
    ensures
        pm_view(pm.update(i, Some(p))) =~= pm_view(pm).insert(i, (p.x as int, p.y as int)),
{
}

/// The outgoing weighted edges of `u`, in edge order.
fn children(g: &LayoutGraph, u: usize) -> (r: Vec<(usize, usize, i32)>)
    requires
        g.wf(),
    ensures
        r@ == children_of(g.edges@, u as int),
        forall|k: int| 0 <= k < r@.len() ==> (#[trigger] r@[k]).1 < g.n() && r@[k].0 == u,
{
    let ghost keep = from_pred(u as int);
    let m = g.edges.len();
    let mut r: Vec<(usize, usize, i32)> = Vec::new();
    let mut k: usize = 0;
    proof {
        assert(g.edges@.take(0) =~= Seq::<(usize, usize, i32)>::empty());
        reveal(Seq::filter);
        assert(r@ =~= g.edges@.take(0).filter(keep));
    }
    while k < m
        invariant
            0 <= k <= m,
            m == g.edges@.len(),
            keep == from_pred(u as int),
            r@ == g.edges@.take(k as int).filter(keep),
        decreases m - k,
    {
        let ghost pref = g.edges@.take(k as int);
        proof {
            assert(g.edges@.take(k + 1) =~= pref.push(g.edges@[k as int]));
            lemma_filter_push(pref, keep, g.edges@[k as int]);
        }
        if g.edges[k].0 == u {
            proof {
                assert(keep(g.edges@[k as int]));
            }
            r.push(g.edges[k]);
        } else {
            proof {
                assert(!keep(g.edges@[k as int]));
            }
        }
        k = k + 1;
    }
    proof {
        assert(g.edges@.take(m as int) =~= g.edges@);
        assert forall|k2: int| 0 <= k2 < r@.len() implies (#[trigger] r@[k2]).1 < g.n()
            && r@[k2].0 == u by {
            lemma_filter_membership(g.edges@, keep, k2);
            let j = choose|j: int| 0 <= j < g.edges@.len() && g.edges@[j] == r@[k2];
        }
    }
    r
}

/// One node's visit, mirroring `visit_node`: places the node, recurses
/// into each child, and returns the threaded horizontal cursor.
fn visit(g: &LayoutGraph, node: usize, x: i64, y: i64, pm: &mut PosMap, fuel: u128) -> (r: Result<
    i64,
    LayoutError,
>)
    requires
        g.wf(),
        node < g.n(),
        old(pm)@.len() == g.n(),
        x >= 0,
        y >= 0,
    ensures
        final(pm)@.len() == g.n(),
        match r {
            Ok(x2) => x2 >= x && visit_node(
                g.edges@,
                node as int,
                x as int,
                y as int,
                pm_view(old(pm)@),
                fuel as nat,
            ) == Some((pm_view(final(pm)@), x2 as int)) && (forall|i: int|
                0 <= i < g.n() && old(pm)@[i] is Some ==> final(pm)@[i] is Some) && (forall|
                b: int,
            |
                0 <= b < g.n() && wreach(g.edges@, node as int, b) ==> final(pm)@[b] is Some),
            Err(e) => visit_node(
                g.edges@,
                node as int,
                x as int,
                y as int,
                pm_view(old(pm)@),
                fuel as nat,
            ) is None && (e == LayoutError::OutOfRange || e == LayoutError::DuplicateName
                || e == LayoutError::UnknownNode),
        },
    decreases fuel,
{
    if fuel == 0 {
        return Err(LayoutError::OutOfRange);
    }
    pm.set(node, Some(Pos { x, y }));
    proof {
        lemma_pm_view_update(old(pm)@, node as int, Pos { x, y });
    }
    let kids = children(g, node);
    let ghost es = g.edges@;
    let ghost target = visit_node(es, node as int, x as int, y as int, pm_view(old(pm)@), fuel as nat);
    let mut cur_x = x;
    let mut idx: usize = 0;
    while idx < kids.len()
        invariant
            g.wf(),
            node < g.n(),
            pm@.len() == g.n(),
            es == g.edges@,
            kids@ == children_of(es, node as int),
            forall|k2: int| 0 <= k2 < kids@.len() ==> (#[trigger] kids@[k2]).1 < g.n(),
            0 <= idx <= kids@.len(),
            cur_x >= x >= 0,
            y >= 0,
            fuel >= 1,
            target == visit_node(
                es,
                node as int,
                x as int,
                y as int,
                pm_view(old(pm)@),
                fuel as nat,
            ),
            target == visit_kids(
                es,
                kids@,
                idx as int,
                cur_x as int,
                y as int,
                pm_view(pm@),
                fuel as nat,
            ),
            forall|i: int| 0 <= i < g.n() && old(pm)@[i] is Some ==> pm@[i] is Some,
            pm@[node as int] is Some,
            forall|j: int, b: int|
                0 <= j < idx && 0 <= b < g.n() && wreach(es, (#[trigger] kids@[j]).1 as int, b)
                    ==> (#[trigger] pm@[b]) is Some,
        decreases kids@.len() - idx,
    {
        let w = kids[idx].2;
        if w < 0 {
            return Err(LayoutError::OutOfRange);
        }
        if w > 65535 {
            return Err(LayoutError::OutOfRange);
        }
        let cx = if idx == 0 {
            cur_x
        } else {
            match cur_x.checked_add(100) {
                Some(v) => v,
                None => {
                    return Err(LayoutError::OutOfRange);
                },
            }
        };
        let dy = (w as i64) * 100;
        let cy = match y.checked_add(dy) {
            Some(v) => v,
            None => {
                return Err(LayoutError::OutOfRange);
            },
        };
        let child = kids[idx].1;
        match visit(g, child, cx, cy, pm, fuel - 1) {
            Ok(x2) => {
                cur_x = x2;
            },
            Err(e) => {
                return Err(e);
            },
        }
        idx = idx + 1;
    }
    proof {
        assert forall|b: int|
            0 <= b < g.n() && wreach(es, node as int, b) implies (#[trigger] pm@[b]) is Some by {
            lemma_wreach_step(es, node as int, b);
            if node as int != b {
                let c = choose|c: int| #[trigger] edge_to(es, node as int, c) && wreach(es, c, b);
                let e = choose|e: int|
                    0 <= e < es.len() && (#[trigger] es[e]).0 == node as int && es[e].1 == c;
                crate::graph::lemma_filter_keeps(es, from_pred(node as int), e);
                assert(kids@.contains(es[e]));
                let j = choose|j: int| 0 <= j < kids@.len() && kids@[j] == es[e];
                assert(kids@[j].1 == c);
                assert(wreach(es, kids@[j].1 as int, b));
            }
        }
    }
    Ok(cur_x)
}

/// The tree layout pass: a fresh position map with every node reached
/// from some root placed, exactly as the placement recursion says. An
/// out-of-range weight or coordinate fails the pass.
pub fn layout_tree(g: &LayoutGraph, roots: &Vec<usize>) -> (r: Result<PosMap, LayoutError>)
    requires
        g.wf(),
        forall|k: int| 0 <= k < roots@.len() ==> (#[trigger] roots@[k]) < g.n(),
    ensures
        r.is_ok() == layout_tree_spec(*g, roots@) is Some,
        match r {
            Ok(pm) => pm@.len() == g.n() && Some(pm_view(pm@)) == layout_tree_spec(*g, roots@)
                && (forall|k: int, b: int|
                0 <= k < roots@.len() && 0 <= b < g.n() && wreach(
                    g.edges@,
                    (#[trigger] roots@[k]) as int,
                    b,
                ) ==> (#[trigger] pm@[b]) is Some),
            Err(e) => e == LayoutError::OutOfRange,
        },
{
    let n = g.names.len();
    let mut pm: PosMap = Vec::new();
    let mut i: usize = 0;
    while i < n
        invariant
            0 <= i <= n,
            pm@.len() == i,
            forall|j: int| 0 <= j < i ==> pm@[j] is None,
        decreases n - i,
    {
        pm.push(None);
        i = i + 1;
    }
    proof {
        assert(pm_view(pm@) =~= Map::<int, (int, int)>::empty());
    }

    let ghost es = g.edges@;
    let fuel: u128 = n as u128 + 1;
    let mut x: i64 = 0;
    let mut idx: usize = 0;
    let ghost target = roots_spec(es, roots@, 0, 0, Map::empty(), fuel as nat);
    while idx < roots.len()
        invariant
            g.wf(),
            es == g.edges@,
            n == g.n(),
            fuel == n + 1,
            pm@.len() == n,
            forall|k: int| 0 <= k < roots@.len() ==> (#[trigger] roots@[k]) < g.n(),
            0 <= idx <= roots@.len(),
            x >= 0,
            target == layout_tree_spec(*g, roots@),
            target == roots_spec(es, roots@, idx as int, x as int, pm_view(pm@), fuel as nat),
            forall|k: int, b: int|
                0 <= k < idx && 0 <= b < g.n() && wreach(es, (#[trigger] roots@[k]) as int, b)
                    ==> (#[trigger] pm@[b]) is Some,
        decreases roots@.len() - idx,
    {
        let cx = match x.checked_add(100) {
            Some(v) => v,
            None => {
                return Err(LayoutError::OutOfRange);
            },
        };
        match visit(g, roots[idx], cx, 0, &mut pm, fuel) {
            Ok(x2) => {
                x = x2;
            },
            Err(_) => {
                return Err(LayoutError::OutOfRange);
            },
        }
        idx = idx + 1;
    }
    Ok(pm)
}

/// The tree layout is deterministic: the placement is a function of the
/// edge list and the root order alone, so two runs over the same graph
/// and roots place every node identically.
pub proof fn lemma_layout_tree_deterministic(
    g1: LayoutGraph,
    g2: LayoutGraph,
    roots1: Seq<usize>,
    roots2: Seq<usize>,
)
    requires
        g1.edges@ == g2.edges@,
        g1.n() == g2.n(),
        roots1 == roots2,
    ensures
        layout_tree_spec(g1, roots1) == layout_tree_spec(g2, roots2),
{
}


/// The horizontal cursor a visit returns never moves left.
pub proof fn lemma_visit_node_cursor(
    es: Seq<(usize, usize, i32)>,
    node: int,
    x: int,
    y: int,
    pm: Map<int, (int, int)>,
    fuel: nat,
)
    requires
        visit_node(es, node, x, y, pm, fuel) is Some,
    ensures
        visit_node(es, node, x, y, pm, fuel)->Some_0.1 >= x,
    decreases fuel, children_of(es, node).len() + 1,
{
    lemma_visit_kids_cursor(es, children_of(es, node), 0, x, y, pm.insert(node, (x, y)), fuel);
}

/// The horizontal cursor a sibling walk returns never moves left.
pub proof fn lemma_visit_kids_cursor(
    es: Seq<(usize, usize, i32)>,
    kids: Seq<(usize, usize, i32)>,
    idx: int,
    x: int,
    y: int,
    pm: Map<int, (int, int)>,
    fuel: nat,
)
    requires
        visit_kids(es, kids, idx, x, y, pm, fuel) is Some,
    ensures
        visit_kids(es, kids, idx, x, y, pm, fuel)->Some_0.1 >= x,
    decreases fuel, kids.len() - idx,
{
    if fuel == 0 || idx < 0 || idx >= kids.len() {
    } else {
        let w = kids[idx].2 as int;
        let cx = if idx == 0 {
            x
        } else {
            x + 100
        };
        let cy = y + w * 100;
        let r1 = visit_node(es, kids[idx].1 as int, cx, cy, pm, (fuel - 1) as nat);
        lemma_visit_node_cursor(es, kids[idx].1 as int, cx, cy, pm, (fuel - 1) as nat);
        lemma_visit_kids_cursor(es, kids, idx + 1, r1->Some_0.1, y, r1->Some_0.0, fuel);
    }
}

/// A node is placed exactly at the cursor its visit is entered with: the
/// visit records `(x, y)` for the node and only then walks its children.
pub proof fn lemma_visit_places(
    es: Seq<(usize, usize, i32)>,
    node: int,
    x: int,
    y: int,
    pm: Map<int, (int, int)>,
    fuel: nat,
)
    requires
        fuel > 0,
    ensures
        visit_node(es, node, x, y, pm, fuel) == visit_kids(
            es,
            children_of(es, node),
            0,
            x,
            y,
            pm.insert(node, (x, y)),
            fuel,
        ),
{
}

/// Sibling non-overlap: when a sibling walk lays out two consecutive
/// children, the later child is entered — and therefore placed — at
/// least one horizontal step to the right of where the earlier child was
/// placed. A node revisited later through another path may still be
/// moved by that later visit.
pub proof fn lemma_sibling_separation(
    es: Seq<(usize, usize, i32)>,
    kids: Seq<(usize, usize, i32)>,
    idx: int,
    x: int,
    y: int,
    pm: Map<int, (int, int)>,
    fuel: nat,
)
    requires
        visit_kids(es, kids, idx, x, y, pm, fuel) is Some,
        0 <= idx < kids.len() - 1,
        fuel > 0,
    ensures
        ({
            let cx = if idx == 0 {
                x
            } else {
                x + 100
            };
            let cy = y + (kids[idx].2 as int) * 100;
            let r1 = visit_node(es, kids[idx].1 as int, cx, cy, pm, (fuel - 1) as nat);
            // the earlier sibling is placed at horizontal position cx;
            // the later one at r1's cursor plus the horizontal step
            &&& r1 is Some
            &&& r1->Some_0.1 + 100 >= cx + 100
        }),
{
    let cx = if idx == 0 {
        x
    } else {
        x + 100
    };
    let cy = y + (kids[idx].2 as int) * 100;
    lemma_visit_node_cursor(es, kids[idx].1 as int, cx, cy, pm, (fuel - 1) as nat);
}

} // verus!
