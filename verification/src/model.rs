//! The layout engine's input: a graph of named nodes with weighted,
//! indexed edges, built from the plain node and edge lists a graph text
//! resolves to — after validating that every edge references a known node.

use vstd::prelude::*;

use crate::graph::distinct_seqs;
use crate::rank::name_views;

verus! {

/// A 2D screen coordinate, in integer pixels.
#[derive(Clone, Copy, PartialEq, Eq, Structural, Debug)]
pub struct Pos {
    pub x: i64,
    pub y: i64,
}

/// One entry per node: its position once a layout pass has placed it.
pub type PosMap = Vec<Option<Pos>>;

/// Errors a layout pass or its input validation can raise.
#[derive(Clone, Copy, PartialEq, Eq, Structural, Debug)]
pub enum LayoutError {
    /// Two nodes share a name.
    DuplicateName,
    /// An edge references a name outside the node set.
    UnknownNode,
    /// A weight or a coordinate left the representable range.
    OutOfRange,
}

/// The views of a named edge list.
pub open spec fn edge_views(es: Seq<(String, String, i32)>) -> Seq<(Seq<char>, Seq<char>, i32)> {
    es.map_values(|e: (String, String, i32)| (e.0@, e.1@, e.2))
}

/// Every edge endpoint occurs among the node names.
pub open spec fn edges_resolve(nodes: Seq<Seq<char>>, es: Seq<(Seq<char>, Seq<char>, i32)>) -> bool {
    forall|k: int|
        0 <= k < es.len() ==> nodes.contains((#[trigger] es[k]).0) && nodes.contains(es[k].1)
}

/// The position of a name among the node names.
pub open spec fn idx_of(nodes: Seq<Seq<char>>, x: Seq<char>) -> int {
    choose|i: int| 0 <= i < nodes.len() && nodes[i] == x
}

/// The graph a layout pass consumes: node names and weighted edges by
/// node index, both in their given order.
pub struct LayoutGraph {
    pub names: Vec<String>,
    pub edges: Vec<(usize, usize, i32)>,
}

impl LayoutGraph {
    /// The node names, in order.
    pub open spec fn name_seq(&self) -> Seq<Seq<char>> {
        name_views(self.names@)
    }

    /// The number of nodes.
    pub open spec fn n(&self) -> int {
        self.names@.len() as int
    }

    /// Well-formedness: distinct names, edge indices in range.
    pub open spec fn wf(&self) -> bool {
        &&& distinct_seqs(self.name_seq())
        &&& (forall|k: int|
            0 <= k < self.edges@.len() ==> (#[trigger] self.edges@[k]).0 < self.n() && self
                .edges@[k].1 < self.n())
    }

    /// The unweighted edge pairs, as a value.
    pub open spec fn pair_seq(&self) -> Seq<(usize, usize)> {
        pairs_of(self.edges@)
    }

    /// The unweighted edge pairs, for traversal.
    pub fn edge_pairs(&self) -> (r: Vec<(usize, usize)>)
        ensures
            r@ == self.pair_seq(),
            r@.len() == self.edges@.len(),
            forall|k: int|
                0 <= k < r@.len() ==> (#[trigger] r@[k]).0 == self.edges@[k].0 && r@[k].1
                    == self.edges@[k].1,
    {
        let m = self.edges.len();
        let mut r: Vec<(usize, usize)> = Vec::new();
        let mut k: usize = 0;
        while k < m
            invariant
                0 <= k <= m,
                m == self.edges@.len(),
                r@.len() == k,
                forall|j: int|
                    0 <= j < k ==> (#[trigger] r@[j]).0 == self.edges@[j].0 && r@[j].1
                        == self.edges@[j].1,
            decreases m - k,
        {
            r.push((self.edges[k].0, self.edges[k].1));
            k = k + 1;
        }
        proof {
            assert(r@ =~= self.pair_seq());
        }
        r
    }
}

/// The position of `x` in `nodes`, scanning from the front.
fn find_name(nodes: &Vec<String>, x: &String) -> (r: Option<usize>)
    ensures
        match r {
            Some(i) => 0 <= i < nodes@.len() && name_views(nodes@)[i as int] == x@,
            None => !name_views(nodes@).contains(x@),
        },
{
    let n = nodes.len();
    let mut i: usize = 0;
    while i < n
        invariant
            0 <= i <= n,
            n == nodes@.len(),
            forall|j: int| 0 <= j < i ==> name_views(nodes@)[j] != x@,
        decreases n - i,
    {
        if nodes[i].eq(x) {
            return Some(i);
        }
        i = i + 1;
    }
    proof {
        if name_views(nodes@).contains(x@) {
            let j = choose|j: int|
                0 <= j < name_views(nodes@).len() && name_views(nodes@)[j] == x@;
            assert(false);
        }
    }
    None
}

/// Validates a graph description: true exactly when every edge endpoint
/// names a node of the node set.
pub fn check(nodes: &Vec<String>, edges: &Vec<(String, String, i32)>) -> (r: bool)
    ensures
        r == edges_resolve(name_views(nodes@), edge_views(edges@)),
{
    let m = edges.len();
    let mut k: usize = 0;
    while k < m
        invariant
            0 <= k <= m,
            m == edges@.len(),
            forall|j: int|
                0 <= j < k ==> name_views(nodes@).contains(
                    (#[trigger] edge_views(edges@)[j]).0,
                ) && name_views(nodes@).contains(edge_views(edges@)[j].1),
        decreases m - k,
    {
        let from_ok = find_name(nodes, &edges[k].0);
        let to_ok = find_name(nodes, &edges[k].1);
        match (from_ok, to_ok) {
            (Some(_), Some(_)) => {
                proof {
                    assert(name_views(nodes@).contains(edge_views(edges@)[k as int].0));
                    assert(name_views(nodes@).contains(edge_views(edges@)[k as int].1));
                }
            },
            _ => {
                proof {
                    assert(!(name_views(nodes@).contains(edge_views(edges@)[k as int].0)
                        && name_views(nodes@).contains(edge_views(edges@)[k as int].1)));
                }
                return false;
            },
        }
        k = k + 1;
    }
    true
}

/// Whether the node names are pairwise distinct.
pub fn names_distinct(nodes: &Vec<String>) -> (r: bool)
    ensures
        r == distinct_seqs(name_views(nodes@)),
{
    let n = nodes.len();
    let mut i: usize = 0;
    while i < n
        invariant
            0 <= i <= n,
            n == nodes@.len(),
            forall|p: int, q: int| 0 <= p < q < i ==> name_views(nodes@)[p] != name_views(
                nodes@,
            )[q],
        decreases n - i,
    {
        let mut j: usize = 0;
        while j < i
            invariant
                0 <= j <= i < n,
                n == nodes@.len(),
                forall|q: int| 0 <= q < j ==> name_views(nodes@)[q] != name_views(nodes@)[
                    i as int
                ],
            decreases i - j,
        {
            if nodes[j].eq(&nodes[i]) {
                proof {
                    assert(name_views(nodes@)[j as int] == name_views(nodes@)[i as int]);
                }
                return false;
            }
            j = j + 1;
        }
        i = i + 1;
    }
    true
}

/// The unweighted pairs of an indexed edge list.
pub open spec fn pairs_of(es: Seq<(usize, usize, i32)>) -> Seq<(usize, usize)> {
    Seq::new(es.len(), |k: int| (es[k].0, es[k].1))
}

/// The indexed edge list a named edge list builds into, once every
/// endpoint resolves: each name becomes its node's index.
pub open spec fn built_edges(
    nv: Seq<Seq<char>>,
    ev: Seq<(Seq<char>, Seq<char>, i32)>,
) -> Seq<(usize, usize, i32)> {
    Seq::new(
        ev.len(),
        |k: int| (
            (idx_of(nv, ev[k].0) as usize),
            (idx_of(nv, ev[k].1) as usize),
            ev[k].2,
        ),
    )
}

/// Builds the layout graph from plain node and edge lists. Succeeds
/// exactly when the names are distinct and every edge endpoint resolves;
/// edges keep their order, each endpoint becoming its node's index.
pub fn build(nodes: Vec<String>, edges: &Vec<(String, String, i32)>) -> (r: Result<
    LayoutGraph,
    LayoutError,
>)
    ensures
        r.is_ok() == (distinct_seqs(name_views(nodes@)) && edges_resolve(
            name_views(nodes@),
            edge_views(edges@),
        )),
        match r {
            Ok(g) => {
                &&& g.wf()
                &&& g.names@ == nodes@
                &&& g.edges@.len() == edges@.len()
                &&& g.edges@ == built_edges(name_views(nodes@), edge_views(edges@))
                &&& (forall|k: int|
                    0 <= k < edges@.len() ==> (#[trigger] g.edges@[k]).0 == idx_of(
                        name_views(nodes@),
                        edge_views(edges@)[k].0,
                    ) && g.edges@[k].1 == idx_of(name_views(nodes@), edge_views(edges@)[k].1)
                        && g.edges@[k].2 == edge_views(edges@)[k].2)
            },
            Err(e) => e == LayoutError::DuplicateName || e == LayoutError::UnknownNode,
        },
{
    if !names_distinct(&nodes) {
        return Err(LayoutError::DuplicateName);
    }
    let m = edges.len();
    let mut idx_edges: Vec<(usize, usize, i32)> = Vec::new();
    let mut k: usize = 0;
    while k < m
        invariant
            0 <= k <= m,
            m == edges@.len(),
            distinct_seqs(name_views(nodes@)),
            idx_edges@.len() == k,
            forall|j: int|
                0 <= j < k ==> name_views(nodes@).contains(
                    (#[trigger] edge_views(edges@)[j]).0,
                ) && name_views(nodes@).contains(edge_views(edges@)[j].1),
            forall|j: int|
                0 <= j < k ==> (#[trigger] idx_edges@[j]).0 == idx_of(
                    name_views(nodes@),
                    edge_views(edges@)[j].0,
                ) && idx_edges@[j].1 == idx_of(name_views(nodes@), edge_views(edges@)[j].1)
                    && idx_edges@[j].2 == edge_views(edges@)[j].2,
            forall|j: int|
                0 <= j < k ==> (#[trigger] idx_edges@[j]).0 < nodes@.len() && idx_edges@[j].1
                    < nodes@.len(),
        decreases m - k,
    {
        let fi = match find_name(&nodes, &edges[k].0) {
            Some(i) => i,
            None => {
                proof {
                    assert(!(name_views(nodes@).contains(edge_views(edges@)[k as int].0)
                        && name_views(nodes@).contains(edge_views(edges@)[k as int].1)));
                }
                return Err(LayoutError::UnknownNode);
            },
        };
        let ti = match find_name(&nodes, &edges[k].1) {
            Some(i) => i,
            None => {
                proof {
                    assert(!(name_views(nodes@).contains(edge_views(edges@)[k as int].0)
                        && name_views(nodes@).contains(edge_views(edges@)[k as int].1)));
                }
                return Err(LayoutError::UnknownNode);
            },
        };
        let w = edges[k].2;
        idx_edges.push((fi, ti, w));
        proof {
            // With distinct names the found index is the chosen one.
            let nv = name_views(nodes@);
            let i0 = idx_of(nv, edge_views(edges@)[k as int].0);
            assert(nv.contains(edge_views(edges@)[k as int].0));
            assert(nv[fi as int] == edge_views(edges@)[k as int].0);
            if i0 != fi {
                if i0 < fi {
                    assert(nv[i0] != nv[fi as int]);
                } else {
                    assert(nv[fi as int] != nv[i0]);
                }
            }
            let i1 = idx_of(nv, edge_views(edges@)[k as int].1);
            assert(nv.contains(edge_views(edges@)[k as int].1));
            assert(nv[ti as int] == edge_views(edges@)[k as int].1);
            if i1 != ti {
                if i1 < ti {
                    assert(nv[i1] != nv[ti as int]);
                } else {
                    assert(nv[ti as int] != nv[i1]);
                }
            }
        }
        k = k + 1;
    }
    let g = LayoutGraph { names: nodes, edges: idx_edges };
    proof {
        assert(g.edges@ =~= built_edges(name_views(g.names@), edge_views(edges@)));
    }
    Ok(g)
}

} // verus!
