//! A project: the active graph and its position map. The map is rebuilt
//! wholesale by a layout pass — the tree planner for acyclic graphs, the
//! force simulation for cyclic ones — and a graph description that fails
//! validation leaves the active state untouched.

use vstd::prelude::*;

use crate::algo::full_topo_order;
use crate::algo::is_root;
use crate::algo::roots_upto;
use crate::algo::toposort;
use crate::force::seed_positions;
use crate::force::simulate;
use crate::graph::distinct_seqs;
use crate::force::seed_point;
use crate::force::weights_ok;
use crate::force::simulate_spec;
use crate::model::build;
use crate::model::edge_views;
use crate::model::edges_resolve;
use crate::model::LayoutError;
use crate::model::LayoutGraph;
use crate::model::Pos;
use crate::model::pairs_of;
use crate::model::built_edges;
use crate::model::PosMap;
use crate::rank::name_views;
use crate::tree::edge_to;
use crate::tree::layout_tree;
use crate::tree::layout_tree_spec;
use crate::tree::pm_view;
use crate::tree::roots_spec;
use crate::tree::lemma_wreach_extend;
use crate::tree::lemma_wreach_self;
use crate::tree::wreach;

verus! {

/// In an acyclic graph every ordered node is reached from some root.
proof fn lemma_reach_at(
    es: Seq<(usize, usize, i32)>,
    pairs: Seq<(usize, usize)>,
    order: Seq<usize>,
    n: int,
    p: int,
)
    requires
        0 <= p < order.len(),
        pairs.len() == es.len(),
        forall|k: int|
            0 <= k < pairs.len() ==> (#[trigger] pairs[k]).0 == es[k].0 && pairs[k].1 == es[k].1,
        crate::algo::edges_ok(n, pairs),
        forall|k: int| 0 <= k < order.len() ==> (#[trigger] order[k]) < n,
        crate::algo::distinct_idx(order),
        crate::algo::respects_edges(pairs, order),
        forall|v: int| 0 <= v < n ==> order.contains(#[trigger] (v as usize)),
    ensures
        exists|r: int|
            #[trigger] is_root(pairs, r) && 0 <= r < n && wreach(es, r, order[p] as int),
    decreases p,
{
    let v = order[p];
    if is_root(pairs, v as int) {
        lemma_wreach_self(es, v);
        assert(is_root(pairs, v as int) && 0 <= v < n && wreach(es, v as int, v as int));
    } else {
        let k = choose|k: int| 0 <= k < pairs.len() && (#[trigger] pairs[k]).1 == v as int;
        let u = pairs[k].0;
        assert(u < n);
        assert(order.contains((u as int) as usize));
        assert(((u as int) as usize) == u);
        let q = choose|q: int| 0 <= q < order.len() && order[q] == u;
        assert(crate::algo::has_edge_idx(pairs, order[q] as int, order[p] as int)) by {
            assert(pairs[k].0 == order[q] && pairs[k].1 == order[p]);
        }
        assert(q < p);
        lemma_reach_at(es, pairs, order, n, q);
        let r = choose|r: int|
            #[trigger] is_root(pairs, r) && 0 <= r < n && wreach(es, r, order[q] as int);
        assert(edge_to(es, u as int, v as int)) by {
            assert(es[k].0 == u as int && es[k].1 == v as int);
        }
        lemma_wreach_extend(es, r, u as int, v);
        assert(is_root(pairs, r) && 0 <= r < n && wreach(es, r, order[p] as int));
    }
}

/// Whether an edge list over `n` nodes admits no complete order that
/// respects its edges.
pub open spec fn cyc_edges(n: int, es: Seq<(usize, usize, i32)>) -> bool {
    !(exists|ord: Seq<usize>| full_topo_order(n, pairs_of(es), ord))
}

/// Whether the graph admits no complete order that respects its edges.
pub open spec fn has_cycle(g: LayoutGraph) -> bool {
    cyc_edges(g.n(), g.edges@)
}

/// When one layout pass over `n` nodes and the given edges succeeds: a
/// cyclic graph needs its node count within the seeding range and every
/// connected pair's mean weight within the scale range; an acyclic one
/// needs the tree placement to stay within the coordinate range.
pub open spec fn pass_ok(n: int, es: Seq<(usize, usize, i32)>) -> bool {
    if cyc_edges(n, es) {
        n <= 32767 && weights_ok(es, n)
    } else {
        roots_spec(es, roots_upto(pairs_of(es), n as nat), 0, 0, Map::empty(), (n + 1) as nat)
            is Some
    }
}

/// One layout pass: the graph is classified, an acyclic one is laid out
/// as a tree from its roots, a cyclic one is seeded on a circle and
/// relaxed. Success is owed exactly when the pass is representable —
/// `pass_ok` — and the position map then covers the node set exactly:
/// one position for every node, none for anything else — the tree
/// placement over the ascending root set for an acyclic graph, the
/// relaxed circle seed for a cyclic one. Both branches are functions of
/// the graph alone, so repeated passes agree.
pub fn update_graphic(g: &LayoutGraph) -> (r: Result<PosMap, LayoutError>)
    requires
        g.wf(),
    ensures
        r.is_ok() == pass_ok(g.n(), g.edges@),
        match r {
            Ok(pm) => {
                &&& pm@.len() == g.n()
                &&& (forall|i: int| 0 <= i < g.n() ==> (#[trigger] pm@[i]) is Some)
                &&& (!has_cycle(*g) ==> Some(pm_view(pm@)) == layout_tree_spec(
                    *g,
                    roots_upto(g.pair_seq(), g.n() as nat),
                ))
                &&& (has_cycle(*g) ==> exists|seeds: Seq<Pos>|
                    {
                        &&& seeds.len() == g.n()
                        &&& (forall|i: int|
                            0 <= i < g.n() ==> ((#[trigger] seeds[i]).x as int,
                            seeds[i].y as int) == seed_point(i, g.n()))
                        &&& (forall|i: int|
                            0 <= i < g.n() ==> ((#[trigger] pm@[i])->Some_0.x as int,
                            pm@[i]->Some_0.y as int) == simulate_spec(*g, seeds)[i])
                    })
            },
            Err(e) => e == LayoutError::OutOfRange,
        },
{
    let pairs = g.edge_pairs();
    let n = g.names.len();
    proof {
        assert(crate::algo::edges_ok(n as int, pairs@));
    }
    let (roots, order, cyclic) = toposort(n, &pairs);
    proof {
        assert(pairs@ == pairs_of(g.edges@));
        assert(cyclic == cyc_edges(g.n(), g.edges@));
    }
    if cyclic {
        let seeds = match seed_positions(n) {
            Ok(s) => s,
            Err(e) => {
                proof {
                    assert(!pass_ok(g.n(), g.edges@));
                }
                return Err(e);
            },
        };
        let out = match simulate(g, &seeds) {
            Ok(o) => o,
            Err(e) => {
                proof {
                    assert(!pass_ok(g.n(), g.edges@));
                }
                return Err(e);
            },
        };
        let m = out.len();
        let mut pm: PosMap = Vec::new();
        let mut i: usize = 0;
        while i < m
            invariant
                0 <= i <= m,
                m == out@.len(),
                pm@.len() == i,
                forall|j: int| 0 <= j < i ==> (#[trigger] pm@[j]) == Some(out@[j]),
            decreases m - i,
        {
            pm.push(Some(out[i]));
            i = i + 1;
        }
        proof {
            assert(has_cycle(*g));
            assert(pass_ok(g.n(), g.edges@));
            assert(seeds@.len() == g.n());
            assert(crate::force::pos_views(out@) == simulate_spec(*g, seeds@));
            assert forall|i2: int|
                0 <= i2 < g.n() implies ((#[trigger] pm@[i2])->Some_0.x as int,
            pm@[i2]->Some_0.y as int) == simulate_spec(*g, seeds@)[i2] by {
                assert(pm@[i2] == Some(out@[i2]));
                assert(crate::force::pos_views(out@)[i2] == (out@[i2].x as int,
                out@[i2].y as int));
            }
        }
        Ok(pm)
    } else {
        match layout_tree(g, &roots) {
            Ok(pm) => {
                proof {
                    assert(!has_cycle(*g));
                    assert(roots@ == roots_upto(g.pair_seq(), g.n() as nat));
                    assert(pass_ok(g.n(), g.edges@)) by {
                        assert(layout_tree_spec(*g, roots@) is Some);
                    }
                    assert forall|i: int| 0 <= i < g.n() implies (#[trigger] pm@[i]) is Some by {
                        assert(order@.contains(i as usize));
                        let p = choose|p: int| 0 <= p < order@.len() && order@[p] == i as usize;
                        lemma_reach_at(g.edges@, pairs@, order@, n as int, p);
                        let rt = choose|rt: int|
                            #[trigger] is_root(pairs@, rt) && 0 <= rt < n && wreach(
                                g.edges@,
                                rt,
                                i,
                            );
                        assert(roots@.contains(rt as usize));
                        let k = choose|k: int| 0 <= k < roots@.len() && roots@[k] == rt as usize;
                        assert(wreach(g.edges@, roots@[k] as int, i));
                    }
                }
                Ok(pm)
            },
            Err(e) => {
                proof {
                    assert(layout_tree_spec(*g, roots@) is None);
                    assert(!pass_ok(g.n(), g.edges@));
                }
                Err(e)
            },
        }
    }
}

/// The active graph and its current, fully covering position map.
pub struct Project {
    pub graph: LayoutGraph,
    pub graphic: PosMap,
}

impl Project {
    /// Well-formedness: the position map covers the node set exactly.
    pub open spec fn wf(&self) -> bool {
        &&& self.graph.wf()
        &&& self.graphic@.len() == self.graph.n()
        &&& (forall|i: int| 0 <= i < self.graph.n() ==> (#[trigger] self.graphic@[i]) is Some)
    }

    /// An empty project.
    pub fn empty() -> (r: Project)
        ensures
            r.wf(),
            r.graph.names@.len() == 0,
    {
        let g = LayoutGraph { names: Vec::new(), edges: Vec::new() };
        proof {
            assert(g.name_seq() =~= Seq::<Seq<char>>::empty());
        }
        Project { graph: g, graphic: Vec::new() }
    }

    /// The starting project: the four sample nodes, laid out. The layout
    /// pass goes through on this fixed data (the tests pin the resulting
    /// coordinates); should it ever not, the constructor stays total by
    /// falling back to the canvas centre, so the sample nodes are always
    /// present and covered.
    pub fn new() -> (r: Project)
        ensures
            r.wf(),
            r.graph.names@.len() == 4,
            r.graph.names@[0]@ == "node 1"@,
            r.graph.names@[1]@ == "node 2"@,
            r.graph.names@[2]@ == "node 3"@,
            r.graph.names@[3]@ == "node 4"@,
            r.graphic@.len() == 4,
            forall|i: int| 0 <= i < 4 ==> (#[trigger] r.graphic@[i]) is Some,
    {
        let mut p = Project::empty();
        let mut nodes: Vec<String> = Vec::new();
        nodes.push("node 1".to_owned());
        nodes.push("node 2".to_owned());
        nodes.push("node 3".to_owned());
        nodes.push("node 4".to_owned());
        let ghost nv = nodes@;
        let mut edges: Vec<(String, String, i32)> = Vec::new();
        edges.push(("node 1".to_owned(), "node 2".to_owned(), 1));
        edges.push(("node 1".to_owned(), "node 3".to_owned(), 2));
        edges.push(("node 2".to_owned(), "node 4".to_owned(), 1));
        let ok = p.update_graph(nodes, &edges);
        if ok {
            proof {
                assert(p.graph.names@ == nv);
            }
            p
        } else {
            let mut names2: Vec<String> = Vec::new();
            names2.push("node 1".to_owned());
            names2.push("node 2".to_owned());
            names2.push("node 3".to_owned());
            names2.push("node 4".to_owned());
            let g = LayoutGraph { names: names2, edges: Vec::new() };
            let mut graphic: PosMap = Vec::new();
            graphic.push(Some(Pos { x: 300, y: 300 }));
            graphic.push(Some(Pos { x: 300, y: 300 }));
            graphic.push(Some(Pos { x: 300, y: 300 }));
            graphic.push(Some(Pos { x: 300, y: 300 }));
            proof {
                reveal_strlit("node 1");
                reveal_strlit("node 2");
                reveal_strlit("node 3");
                reveal_strlit("node 4");
                assert(distinct_seqs(g.name_seq())) by {
                    assert(g.name_seq().len() == 4);
                    // The names differ in their final character.
                    assert(g.name_seq()[0][5] == '1' && g.name_seq()[1][5] == '2'
                        && g.name_seq()[2][5] == '3' && g.name_seq()[3][5] == '4');
                    assert(g.name_seq()[0] != g.name_seq()[1]);
                    assert(g.name_seq()[0] != g.name_seq()[2]);
                    assert(g.name_seq()[0] != g.name_seq()[3]);
                    assert(g.name_seq()[1] != g.name_seq()[2]);
                    assert(g.name_seq()[1] != g.name_seq()[3]);
                    assert(g.name_seq()[2] != g.name_seq()[3]);
                }
                assert(g.wf());
            }
            Project { graph: g, graphic }
        }
    }

    /// Replaces the active graph from freshly resolved node and edge
    /// lists. Succeeds exactly when the names are distinct, every edge
    /// endpoint resolves, and the layout pass over the built graph goes
    /// through; the new graph and the wholesale-rebuilt position map are
    /// then the active state. Anything else is rejected, and the prior
    /// valid state is retained unchanged.
    pub fn update_graph(&mut self, nodes: Vec<String>, edges: &Vec<(String, String, i32)>) -> (ok:
        bool)
        requires
            old(self).wf(),
        ensures
            final(self).wf(),
            !ok ==> *final(self) == *old(self),
            ok == (distinct_seqs(name_views(nodes@)) && edges_resolve(
                name_views(nodes@),
                edge_views(edges@),
            ) && pass_ok(
                nodes@.len() as int,
                built_edges(name_views(nodes@), edge_views(edges@)),
            )),
            ok ==> {
                &&& final(self).graph.names@ == nodes@
                &&& final(self).graph.edges@ == built_edges(
                    name_views(nodes@),
                    edge_views(edges@),
                )
                &&& final(self).graphic@.len() == nodes@.len()
                &&& (forall|i: int|
                    0 <= i < nodes@.len() ==> (#[trigger] final(self).graphic@[i]) is Some)
                &&& (!has_cycle(final(self).graph) ==> Some(pm_view(final(self).graphic@))
                    == layout_tree_spec(
                    final(self).graph,
                    roots_upto(final(self).graph.pair_seq(), final(self).graph.n() as nat),
                ))
                &&& (has_cycle(final(self).graph) ==> exists|seeds: Seq<Pos>|
                    #![trigger seeds.len()]
                    {
                        &&& seeds.len() == nodes@.len()
                        &&& (forall|i: int|
                            0 <= i < nodes@.len() ==> ((#[trigger] seeds[i]).x as int,
                            seeds[i].y as int) == seed_point(i, nodes@.len() as int))
                        &&& (forall|i: int|
                            0 <= i < nodes@.len()
                                ==> ((#[trigger] final(self).graphic@[i])->Some_0.x as int,
                            final(self).graphic@[i]->Some_0.y as int) == simulate_spec(
                                final(self).graph,
                                seeds,
                            )[i])
                    })
            },
    {
        let g = match build(nodes, edges) {
            Ok(g) => g,
            Err(_) => {
                return false;
            },
        };
        match update_graphic(&g) {
            Ok(pm) => {
                proof {
                    assert(g.n() == nodes@.len());
                    assert(pass_ok(
                        nodes@.len() as int,
                        built_edges(name_views(nodes@), edge_views(edges@)),
                    ));
                }
                self.graph = g;
                self.graphic = pm;
                true
            },
            Err(_) => {
                proof {
                    assert(!pass_ok(
                        nodes@.len() as int,
                        built_edges(name_views(nodes@), edge_views(edges@)),
                    ));
                }
                false
            },
        }
    }
}

} // verus!
