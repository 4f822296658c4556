//! The console's directed graph: uniquely named nodes and directed edges
//! between them, with insertion-ordered, fully specified queries and
//! mutations.

use vstd::prelude::*;

verus! {

/// A sequence of names with no repetition.
pub open spec fn distinct_seqs(s: Seq<Seq<char>>) -> bool {
    forall|i: int, j: int| 0 <= i < j < s.len() ==> s[i] != s[j]
}

/// A directed graph over named nodes. Nodes and edges keep their insertion
/// order, so every query has one well-defined answer.
pub struct DirectedGraph {
    pub nodes: Vec<String>,
    pub edges: Vec<(String, String)>,
}

impl DirectedGraph {
    /// The node names, in insertion order.
    pub open spec fn node_seq(&self) -> Seq<Seq<char>> {
        self.nodes@.map_values(|s: String| s@)
    }

    /// The edges, in insertion order.
    pub open spec fn edge_seq(&self) -> Seq<(Seq<char>, Seq<char>)> {
        self.edges@.map_values(|e: (String, String)| (e.0@, e.1@))
    }

    /// The set of node names.
    pub open spec fn node_set(&self) -> Set<Seq<char>> {
        self.node_seq().to_set()
    }

    /// Whether the graph has an edge from `a` to `b`.
    pub open spec fn has_edge(&self, a: Seq<char>, b: Seq<char>) -> bool {
        self.edge_seq().contains((a, b))
    }

    /// Well-formedness: no two nodes share a name, no edge repeats, and
    /// every edge joins present nodes.
    pub open spec fn wf(&self) -> bool {
        &&& distinct_seqs(self.node_seq())
        &&& (forall|i: int, j: int|
            0 <= i < j < self.edge_seq().len() ==> self.edge_seq()[i] != self.edge_seq()[j])
        &&& (forall|i: int|
            0 <= i < self.edge_seq().len() ==> self.node_set().contains(
                #[trigger] self.edge_seq()[i].0,
            ) && self.node_set().contains(self.edge_seq()[i].1))
    }

    /// An empty graph.
    pub fn new() -> (g: DirectedGraph)
        ensures
            g.wf(),
            g.node_seq() == Seq::<Seq<char>>::empty(),
            g.edge_seq() == Seq::<(Seq<char>, Seq<char>)>::empty(),
    {
        let g = DirectedGraph { nodes: Vec::new(), edges: Vec::new() };
        proof {
            assert(g.node_seq() =~= Seq::<Seq<char>>::empty());
            assert(g.edge_seq() =~= Seq::<(Seq<char>, Seq<char>)>::empty());
        }
        g
    }

    /// The position of `node` among the nodes, if it is present.
    pub fn find_node(&self, node: &String) -> (r: Option<usize>)
        ensures
            match r {
                Some(i) => 0 <= i < self.node_seq().len() && self.node_seq()[i as int] == node@,
                None => !self.node_set().contains(node@),
            },
    {
        let n = self.nodes.len();
        let mut i: usize = 0;
        while i < n
            invariant
                0 <= i <= n,
                n == self.nodes@.len(),
                forall|j: int| 0 <= j < i ==> self.node_seq()[j] != node@,
            decreases n - i,
        {
            if self.nodes[i].eq(node) {
                return Some(i);
            }
            i = i + 1;
        }
        proof {
            if self.node_set().contains(node@) {
                let j = choose|j: int|
                    0 <= j < self.node_seq().len() && self.node_seq()[j] == node@;
                assert(false);
            }
        }
        None
    }

    /// Whether `node` is present.
    pub fn contains(&self, node: &String) -> (r: bool)
        ensures
            r == self.node_set().contains(node@),
    {
        match self.find_node(node) {
            Some(_) => true,
            None => false,
        }
    }

    /// All node names, in insertion order.
    pub fn get_all(&self) -> (r: Vec<String>)
        ensures
            r@.map_values(|s: String| s@) == self.node_seq(),
    {
        let n = self.nodes.len();
        let mut r: Vec<String> = Vec::new();
        let mut i: usize = 0;
        while i < n
            invariant
                0 <= i <= n,
                n == self.nodes@.len(),
                r@.map_values(|s: String| s@) == self.node_seq().take(i as int),
            decreases n - i,
        {
            let ghost before = r@;
            r.push(self.nodes[i].clone());
            proof {
                assert(r@.map_values(|s: String| s@) =~= before.map_values(|s: String| s@)
                    + seq![r@.last()@]);
                assert(self.node_seq().take(i + 1) =~= self.node_seq().take(i as int).push(
                    self.node_seq()[i as int],
                ));
                assert(r@.map_values(|s: String| s@) =~= self.node_seq().take(i + 1));
            }
            i = i + 1;
        }
        proof {
            assert(self.node_seq().take(n as int) =~= self.node_seq());
        }
        r
    }

    /// The successors of `node`: the targets of its outgoing edges, in
    /// edge insertion order.
    pub open spec fn adj_seq(&self, node: Seq<char>) -> Seq<Seq<char>> {
        self.edge_seq().filter(|e: (Seq<char>, Seq<char>)| e.0 == node).map_values(
            |e: (Seq<char>, Seq<char>)| e.1,
        )
    }

    /// The successors of `node`, in edge insertion order.
    pub fn get_adj(&self, node: &String) -> (r: Vec<String>)
        ensures
            r@.map_values(|s: String| s@) == self.adj_seq(node@),
    {
        let m = self.edges.len();
        let mut r: Vec<String> = Vec::new();
        let mut i: usize = 0;
        proof {
            assert(self.edge_seq().take(0) =~= Seq::<(Seq<char>, Seq<char>)>::empty());
            assert(Seq::<(Seq<char>, Seq<char>)>::empty().filter(
                |e: (Seq<char>, Seq<char>)| e.0 == node@,
            ) =~= Seq::<(Seq<char>, Seq<char>)>::empty());
            assert(r@.map_values(|s: String| s@) =~= self.edge_seq().take(0).filter(
                |e: (Seq<char>, Seq<char>)| e.0 == node@,
            ).map_values(|e: (Seq<char>, Seq<char>)| e.1));
        }
        while i < m
            invariant
                0 <= i <= m,
                m == self.edges@.len(),
                r@.map_values(|s: String| s@) == self.edge_seq().take(i as int).filter(
                    |e: (Seq<char>, Seq<char>)| e.0 == node@,
                ).map_values(|e: (Seq<char>, Seq<char>)| e.1),
            decreases m - i,
        {
            let ghost pref = self.edge_seq().take(i as int);
            let ghost keep = |e: (Seq<char>, Seq<char>)| e.0 == node@;
            proof {
                assert(self.edge_seq().take(i + 1) =~= pref.push(self.edge_seq()[i as int]));
                lemma_filter_push(pref, keep, self.edge_seq()[i as int]);
            }
            if self.edges[i].0.eq(node) {
                let ghost before = r@;
                r.push(self.edges[i].1.clone());
                proof {
                    assert(keep(self.edge_seq()[i as int]));
                    assert(r@.map_values(|s: String| s@) =~= before.map_values(|s: String| s@)
                        + seq![r@.last()@]);
                    assert(self.edge_seq().take(i + 1).filter(keep).map_values(
                        |e: (Seq<char>, Seq<char>)| e.1,
                    ) =~= pref.filter(keep).map_values(|e: (Seq<char>, Seq<char>)| e.1) + seq![
                        self.edge_seq()[i as int].1,
                    ]);
                }
            } else {
                proof {
                    assert(!keep(self.edge_seq()[i as int]));
                    assert(self.edge_seq().take(i + 1).filter(keep) =~= pref.filter(keep));
                }
            }
            i = i + 1;
        }
        proof {
            assert(self.edge_seq().take(m as int) =~= self.edge_seq());
        }
        r
    }

    /// Adds a node. A name already present is left untouched.
    pub fn insert_node(&mut self, node: String)
        requires
            old(self).wf(),
        ensures
            final(self).wf(),
            old(self).node_set().contains(node@) ==> *final(self) == *old(self),
            !old(self).node_set().contains(node@) ==> final(self).node_seq() == old(
                self,
            ).node_seq().push(node@) && final(self).edge_seq() == old(self).edge_seq(),
    {
        if self.contains(&node) {
            return ;
        }
        let ghost before = self.nodes@;
        self.nodes.push(node);
        proof {
            assert(self.node_seq() =~= before.map_values(|s: String| s@).push(
                self.nodes@.last()@,
            ));
            assert(self.node_seq() =~= old(self).node_seq().push(self.nodes@.last()@));
            assert(self.edge_seq() =~= old(self).edge_seq());
            assert forall|x: Seq<char>|
                old(self).node_set().contains(x) implies self.node_set().contains(x) by {
                let j = choose|j: int|
                    0 <= j < old(self).node_seq().len() && old(self).node_seq()[j] == x;
                assert(self.node_seq()[j] == x);
            }
            assert forall|i: int| 0 <= i < self.edge_seq().len() implies self.node_set()
                .contains(#[trigger] self.edge_seq()[i].0) && self.node_set().contains(
                self.edge_seq()[i].1,
            ) by {
                assert(old(self).node_set().contains(old(self).edge_seq()[i].0));
                assert(old(self).node_set().contains(old(self).edge_seq()[i].1));
            }
        }
    }

    /// Adds an edge between two present nodes. A missing endpoint or an
    /// edge already present leaves the graph untouched.
    pub fn insert_edge(&mut self, from: String, to: String)
        requires
            old(self).wf(),
        ensures
            final(self).wf(),
            final(self).node_seq() == old(self).node_seq(),
            (old(self).node_set().contains(from@) && old(self).node_set().contains(to@)
                && !old(self).has_edge(from@, to@)) ==> final(self).edge_seq() == old(
                self,
            ).edge_seq().push((from@, to@)),
            !(old(self).node_set().contains(from@) && old(self).node_set().contains(to@)
                && !old(self).has_edge(from@, to@)) ==> *final(self) == *old(self),
    {
        if !self.contains(&from) {
            return ;
        }
        if !self.contains(&to) {
            return ;
        }
        let m = self.edges.len();
        let mut i: usize = 0;
        while i < m
            invariant
                0 <= i <= m,
                m == self.edges@.len(),
                *self == *old(self),
                self.wf(),
                forall|j: int| 0 <= j < i ==> self.edge_seq()[j] != (from@, to@),
            decreases m - i,
        {
            if self.edges[i].0.eq(&from) && self.edges[i].1.eq(&to) {
                proof {
                    assert(self.edge_seq()[i as int] == (from@, to@));
                }
                return ;
            }
            i = i + 1;
        }
        proof {
            if self.has_edge(from@, to@) {
                let j = choose|j: int|
                    0 <= j < self.edge_seq().len() && self.edge_seq()[j] == (from@, to@);
                assert(false);
            }
        }
        let ghost before = self.edges@;
        let ghost fv = from@;
        let ghost tv = to@;
        self.edges.push((from, to));
        proof {
            assert(self.edge_seq() =~= before.map_values(|e: (String, String)| (e.0@, e.1@)).push(
                (self.edges@.last().0@, self.edges@.last().1@),
            ));
            assert(self.edge_seq() =~= old(self).edge_seq().push((fv, tv)));
            assert(self.node_seq() =~= old(self).node_seq());
            assert forall|i2: int| 0 <= i2 < self.edge_seq().len() implies self.node_set()
                .contains(#[trigger] self.edge_seq()[i2].0) && self.node_set().contains(
                self.edge_seq()[i2].1,
            ) by {
                if i2 < old(self).edge_seq().len() {
                    assert(old(self).node_set().contains(old(self).edge_seq()[i2].0));
                    assert(old(self).node_set().contains(old(self).edge_seq()[i2].1));
                } else {
                    assert(self.edge_seq()[i2] == (fv, tv));
                }
            }
            assert forall|i2: int, j2: int|
                0 <= i2 < j2 < self.edge_seq().len() implies self.edge_seq()[i2] != self
                .edge_seq()[j2] by {
                if j2 == self.edge_seq().len() - 1 {
                    assert(self.edge_seq()[i2] == old(self).edge_seq()[i2]);
                    assert(self.edge_seq()[j2] == (fv, tv));
                }
            }
            assert(self.wf());
        }
    }

    /// Removes a node and every edge touching it. A missing name leaves
    /// the graph untouched.
    pub fn remove_node(&mut self, node: &String)
        requires
            old(self).wf(),
        ensures
            final(self).wf(),
            final(self).node_seq() == old(self).node_seq().filter(
                |s: Seq<char>| s != node@,
            ),
            final(self).edge_seq() == old(self).edge_seq().filter(
                |e: (Seq<char>, Seq<char>)| e.0 != node@ && e.1 != node@,
            ),
    {
        let n = self.nodes.len();
        let mut kept: Vec<String> = Vec::new();
        let mut i: usize = 0;
        proof {
            assert(self.node_seq().take(0) =~= Seq::<Seq<char>>::empty());
            assert(kept@.map_values(|s: String| s@) =~= self.node_seq().take(0).filter(
                |s: Seq<char>| s != node@,
            ));
        }
        while i < n
            invariant
                0 <= i <= n,
                n == self.nodes@.len(),
                kept@.map_values(|s: String| s@) == self.node_seq().take(i as int).filter(
                    |s: Seq<char>| s != node@,
                ),
            decreases n - i,
        {
            let ghost pref = self.node_seq().take(i as int);
            let ghost keep = |s: Seq<char>| s != node@;
            proof {
                assert(self.node_seq().take(i + 1) =~= pref.push(self.node_seq()[i as int]));
                lemma_filter_push(pref, keep, self.node_seq()[i as int]);
            }
            if !self.nodes[i].eq(node) {
                let ghost before = kept@;
                kept.push(self.nodes[i].clone());
                proof {
                    assert(kept@.map_values(|s: String| s@) =~= before.map_values(
                        |s: String| s@,
                    ) + seq![kept@.last()@]);
                    assert(self.node_seq().take(i + 1).filter(keep) =~= pref.filter(keep) + seq![
                        self.node_seq()[i as int],
                    ]);
                }
            } else {
                proof {
                    assert(!keep(self.node_seq()[i as int]));
                    assert(self.node_seq().take(i + 1).filter(keep) =~= pref.filter(keep));
                }
            }
            i = i + 1;
        }

        let m = self.edges.len();
        let mut ekept: Vec<(String, String)> = Vec::new();
        let mut j: usize = 0;
        proof {
            assert(self.edge_seq().take(0) =~= Seq::<(Seq<char>, Seq<char>)>::empty());
            assert(ekept@.map_values(|e: (String, String)| (e.0@, e.1@)) =~= self.edge_seq().take(
                0,
            ).filter(|e: (Seq<char>, Seq<char>)| e.0 != node@ && e.1 != node@));
        }
        while j < m
            invariant
                0 <= j <= m,
                m == self.edges@.len(),
                ekept@.map_values(|e: (String, String)| (e.0@, e.1@)) == self.edge_seq().take(
                    j as int,
                ).filter(|e: (Seq<char>, Seq<char>)| e.0 != node@ && e.1 != node@),
            decreases m - j,
        {
            let ghost pref = self.edge_seq().take(j as int);
            let ghost keep = |e: (Seq<char>, Seq<char>)| e.0 != node@ && e.1 != node@;
            proof {
                assert(self.edge_seq().take(j + 1) =~= pref.push(self.edge_seq()[j as int]));
                lemma_filter_push(pref, keep, self.edge_seq()[j as int]);
            }
            if !self.edges[j].0.eq(node) && !self.edges[j].1.eq(node) {
                let ghost before = ekept@;
                let f = self.edges[j].0.clone();
                let t = self.edges[j].1.clone();
                ekept.push((f, t));
                proof {
                    assert(keep(self.edge_seq()[j as int]));
                    assert(ekept@.map_values(|e: (String, String)| (e.0@, e.1@)) =~= before
                        .map_values(|e: (String, String)| (e.0@, e.1@)) + seq![
                        (ekept@.last().0@, ekept@.last().1@),
                    ]);
                    assert(self.edge_seq().take(j + 1).filter(keep) =~= pref.filter(keep) + seq![
                        self.edge_seq()[j as int],
                    ]);
                }
            } else {
                proof {
                    assert(!keep(self.edge_seq()[j as int]));
                    assert(self.edge_seq().take(j + 1).filter(keep) =~= pref.filter(keep));
                }
            }
            j = j + 1;
        }

        let ghost oldg = *self;
        self.nodes = kept;
        self.edges = ekept;
        proof {
            assert(oldg.node_seq().take(n as int) =~= oldg.node_seq());
            assert(oldg.edge_seq().take(m as int) =~= oldg.edge_seq());
            lemma_filter_distinct(oldg.node_seq(), |s: Seq<char>| s != node@);
            lemma_filter_distinct(
                oldg.edge_seq(),
                |e: (Seq<char>, Seq<char>)| e.0 != node@ && e.1 != node@,
            );
            let keepn = |s: Seq<char>| s != node@;
            let keepe = |e: (Seq<char>, Seq<char>)| e.0 != node@ && e.1 != node@;
            assert forall|i2: int| 0 <= i2 < self.edge_seq().len() implies self.node_set()
                .contains(#[trigger] self.edge_seq()[i2].0) && self.node_set().contains(
                self.edge_seq()[i2].1,
            ) by {
                let e = self.edge_seq()[i2];
                lemma_filter_membership(oldg.edge_seq(), keepe, i2);
                assert(oldg.edge_seq().contains(e));
                let k = choose|k: int|
                    0 <= k < oldg.edge_seq().len() && oldg.edge_seq()[k] == e;
                assert(oldg.node_set().contains(e.0) && oldg.node_set().contains(e.1));
                let a = choose|a: int|
                    0 <= a < oldg.node_seq().len() && oldg.node_seq()[a] == e.0;
                lemma_filter_keeps(oldg.node_seq(), keepn, a);
                let b = choose|b: int|
                    0 <= b < oldg.node_seq().len() && oldg.node_seq()[b] == e.1;
                lemma_filter_keeps(oldg.node_seq(), keepn, b);
            }
        }
    }

    /// Removes the edge from `from` to `to`, if present.
    pub fn remove_edge(&mut self, from: &String, to: &String)
        requires
            old(self).wf(),
        ensures
            final(self).wf(),
            final(self).node_seq() == old(self).node_seq(),
            final(self).edge_seq() == old(self).edge_seq().filter(
                |e: (Seq<char>, Seq<char>)| e != (from@, to@),
            ),
    {
        let m = self.edges.len();
        let mut ekept: Vec<(String, String)> = Vec::new();
        let mut j: usize = 0;
        proof {
            assert(self.edge_seq().take(0) =~= Seq::<(Seq<char>, Seq<char>)>::empty());
            assert(ekept@.map_values(|e: (String, String)| (e.0@, e.1@)) =~= self.edge_seq().take(
                0,
            ).filter(|e: (Seq<char>, Seq<char>)| e != (from@, to@)));
        }
        while j < m
            invariant
                0 <= j <= m,
                m == self.edges@.len(),
                ekept@.map_values(|e: (String, String)| (e.0@, e.1@)) == self.edge_seq().take(
                    j as int,
                ).filter(|e: (Seq<char>, Seq<char>)| e != (from@, to@)),
            decreases m - j,
        {
            let ghost pref = self.edge_seq().take(j as int);
            let ghost keep = |e: (Seq<char>, Seq<char>)| e != (from@, to@);
            proof {
                assert(self.edge_seq().take(j + 1) =~= pref.push(self.edge_seq()[j as int]));
                lemma_filter_push(pref, keep, self.edge_seq()[j as int]);
            }
            if !(self.edges[j].0.eq(from) && self.edges[j].1.eq(to)) {
                let ghost before = ekept@;
                let f = self.edges[j].0.clone();
                let t = self.edges[j].1.clone();
                ekept.push((f, t));
                proof {
                    assert(keep(self.edge_seq()[j as int]));
                    assert(ekept@.map_values(|e: (String, String)| (e.0@, e.1@)) =~= before
                        .map_values(|e: (String, String)| (e.0@, e.1@)) + seq![
                        (ekept@.last().0@, ekept@.last().1@),
                    ]);
                    assert(self.edge_seq().take(j + 1).filter(keep) =~= pref.filter(keep) + seq![
                        self.edge_seq()[j as int],
                    ]);
                }
            } else {
                proof {
                    assert(self.edge_seq()[j as int] == (from@, to@));
                    assert(!keep(self.edge_seq()[j as int]));
                    assert(self.edge_seq().take(j + 1).filter(keep) =~= pref.filter(keep));
                }
            }
            j = j + 1;
        }
        let ghost oldg = *self;
        self.edges = ekept;
        proof {
            assert(oldg.edge_seq().take(m as int) =~= oldg.edge_seq());
            lemma_filter_distinct(
                oldg.edge_seq(),
                |e: (Seq<char>, Seq<char>)| e != (from@, to@),
            );
            let keepe = |e: (Seq<char>, Seq<char>)| e != (from@, to@);
            assert forall|i2: int| 0 <= i2 < self.edge_seq().len() implies self.node_set()
                .contains(#[trigger] self.edge_seq()[i2].0) && self.node_set().contains(
                self.edge_seq()[i2].1,
            ) by {
                lemma_filter_membership(oldg.edge_seq(), keepe, i2);
                let e = self.edge_seq()[i2];
                assert(oldg.edge_seq().contains(e));
                let k = choose|k: int|
                    0 <= k < oldg.edge_seq().len() && oldg.edge_seq()[k] == e;
            }
        }
    }
}

/// Filtering the empty sequence yields the empty sequence.
pub(crate) proof fn lemma_filter_empty<A>(keep: spec_fn(A) -> bool)
    ensures
        Seq::<A>::empty().filter(keep) =~= Seq::<A>::empty(),
{
    reveal(Seq::filter);
}

/// Unfolds one step of `filter` over a push.
pub(crate) proof fn lemma_filter_push<A>(s: Seq<A>, keep: spec_fn(A) -> bool, x: A)
    ensures
        s.push(x).filter(keep) == if keep(x) {
            s.filter(keep).push(x)
        } else {
            s.filter(keep)
        },
{
    reveal(Seq::filter);
    assert(s.push(x).drop_last() =~= s);
    assert(s.push(x).last() == x);
}

/// Filtering keeps a distinct sequence distinct.
pub(crate) proof fn lemma_filter_distinct<A>(s: Seq<A>, keep: spec_fn(A) -> bool)
    requires
        forall|i: int, j: int| 0 <= i < j < s.len() ==> s[i] != s[j],
    ensures
        forall|i: int, j: int|
            0 <= i < j < s.filter(keep).len() ==> s.filter(keep)[i] != s.filter(keep)[j],
    decreases s.len(),
{
    reveal(Seq::filter);
    if s.len() > 0 {
        assert(forall|i: int, j: int|
            0 <= i < j < s.drop_last().len() ==> s.drop_last()[i] != s.drop_last()[j]);
        lemma_filter_distinct(s.drop_last(), keep);
        assert forall|i: int, j: int|
            0 <= i < j < s.filter(keep).len() implies s.filter(keep)[i] != s.filter(keep)[j] by {
            if keep(s.last()) && j == s.filter(keep).len() - 1 {
                lemma_filter_membership(s.drop_last(), keep, i);
                let k = choose|k: int|
                    0 <= k < s.drop_last().len() && s.drop_last()[k] == s.filter(keep)[i];
                assert(s[k] == s.filter(keep)[i]);
                assert(s.filter(keep) == s.drop_last().filter(keep).push(s.last()));
                assert(s.filter(keep)[j] == s.last());
            }
        }
    }
}

/// Every element of a filtered sequence occurs in the unfiltered one
/// and satisfies the predicate.
pub(crate) proof fn lemma_filter_membership<A>(s: Seq<A>, keep: spec_fn(A) -> bool, i: int)
    requires
        0 <= i < s.filter(keep).len(),
    ensures
        s.contains(s.filter(keep)[i]),
        keep(s.filter(keep)[i]),
    decreases s.len(),
{
    reveal(Seq::filter);
    if s.len() > 0 {
        if keep(s.last()) && i == s.filter(keep).len() - 1 {
            assert(s[s.len() - 1] == s.filter(keep)[i]);
        } else {
            lemma_filter_membership(s.drop_last(), keep, i);
            let j = choose|j: int|
                0 <= j < s.drop_last().len() && s.drop_last()[j] == s.filter(keep)[i];
            assert(s[j] == s.filter(keep)[i]);
        }
    }
}

/// An element satisfying the predicate survives the filter.
pub(crate) proof fn lemma_filter_keeps<A>(s: Seq<A>, keep: spec_fn(A) -> bool, i: int)
    requires
        0 <= i < s.len(),
        keep(s[i]),
    ensures
        s.filter(keep).contains(s[i]),
    decreases s.len(),
{
    reveal(Seq::filter);
    if s.len() > 0 {
        if i == s.len() - 1 {
            assert(s.filter(keep).last() == s[i]);
        } else {
            assert(s.drop_last()[i] == s[i]);
            lemma_filter_keeps(s.drop_last(), keep, i);
            let j = choose|j: int|
                0 <= j < s.drop_last().filter(keep).len() && s.drop_last().filter(keep)[j] == s[i];
            if keep(s.last()) {
                assert(s.filter(keep) == s.drop_last().filter(keep).push(s.last()));
                assert(s.filter(keep)[j] == s[i]);
            } else {
                assert(s.filter(keep) == s.drop_last().filter(keep));
            }
        }
    }
}

} // verus!
