//! The command dispatcher: normalizes a typed line, resolves its first
//! token against the registry, and runs the matching handler — or, when
//! nothing matches, offers ranked fuzzy suggestions. Handlers compute the
//! lines to print and whether the console should keep running; failures
//! are reported as recoverable errors.

use vstd::prelude::*;
use vstd::multiset::Multiset;
use vstd::relations::sorted_by;
use vstd::relations::total_ordering;
use vstd::seq_lib::lemma_sorted_unique;

use crate::graph::DirectedGraph;
use crate::rank::name_views;
use crate::rank::rank;
use crate::rank::rank_spec;
use crate::rank::rank_views;
use crate::registry::Action;
use crate::registry::ActionKind;
use crate::registry::lookup;
use crate::registry::lookup_spec;
use crate::text::lemma_seq_le_total_ordering;
use crate::text::normal_seq;
use crate::text::normalize;
use crate::text::seq_le_fn;
use crate::text::starts_with;
use crate::text::str_le;
use crate::text::prefix_pred;
use crate::text::tokenize;
use crate::text::tokens;

verus! {

/// The recoverable errors a command can raise.
#[derive(Clone, Copy, PartialEq, Eq, Structural, Debug)]
pub enum CmdError {
    /// The input held no token at all.
    NoCommand,
    /// A required `<node>` argument was absent.
    MissingNode,
    /// A required `<from>` argument was absent.
    MissingFrom,
    /// A required `<to>` argument was absent.
    MissingTo,
    /// A required `<filter>` argument was absent.
    MissingFilter,
    /// A topological order was asked of a cyclic graph.
    CyclicGraph,
}

impl CmdError {
    /// The message the console prints for this error.
    pub fn message(&self) -> (r: String)
        ensures
            *self == CmdError::NoCommand ==> r@ == "No command given"@,
            *self == CmdError::MissingNode ==> r@ == "Missing <node> argument"@,
            *self == CmdError::MissingFrom ==> r@ == "Missing <from> argument"@,
            *self == CmdError::MissingTo ==> r@ == "Missing <to> argument"@,
            *self == CmdError::MissingFilter ==> r@ == "Missing <filter> argument"@,
            *self == CmdError::CyclicGraph ==> r@ == "Unable to sort cyclical graph"@,
    {
        match self {
            CmdError::NoCommand => "No command given".to_owned(),
            CmdError::MissingNode => "Missing <node> argument".to_owned(),
            CmdError::MissingFrom => "Missing <from> argument".to_owned(),
            CmdError::MissingTo => "Missing <to> argument".to_owned(),
            CmdError::MissingFilter => "Missing <filter> argument".to_owned(),
            CmdError::CyclicGraph => "Unable to sort cyclical graph".to_owned(),
        }
    }
}

/// What a handler hands back: whether the console keeps running, and the
/// lines to print.
pub type HandlerOut = Result<(bool, Vec<String>), CmdError>;

/// The view of a handler result.
pub open spec fn out_views(r: HandlerOut) -> Result<(bool, Seq<Seq<char>>), CmdError> {
    match r {
        Ok(o) => Ok((o.0, name_views(o.1@))),
        Err(e) => Err(e),
    }
}

/// Each sequence with a prefix put in front.
pub open spec fn prefix_all(p: Seq<char>, xs: Seq<Seq<char>>) -> Seq<Seq<char>> {
    xs.map_values(|x: Seq<char>| p + x)
}

/// Builds a prefixed line.
fn prefixed(prefix: &str, rest: &str) -> (r: String)
    ensures
        r@ == prefix@ + rest@,
{
    let mut s = prefix.to_owned();
    s.append(rest);
    s
}

/// Sorts names lexicographically.
fn sort_names(names: Vec<String>) -> (r: Vec<String>)
    ensures
        name_views(r@) == name_views(names@).sort_by(seq_le_fn()),
{
    proof {
        lemma_seq_le_total_ordering();
    }
    let ghost leq = seq_le_fn();
    let ghost all = name_views(names@);

    let mut pending = names;
    let mut sorted: Vec<String> = Vec::new();
    proof {
        broadcast use vstd::seq_lib::group_to_multiset_ensures;
        broadcast use vstd::multiset::group_multiset_axioms;

        assert(name_views(sorted@).to_multiset().len() == 0);
        assert(name_views(sorted@).to_multiset() =~= Multiset::<Seq<char>>::empty());
        assert(name_views(pending@).to_multiset().add(name_views(sorted@).to_multiset())
            =~= all.to_multiset());
    }
    while pending.len() > 0
        invariant
            sorted_by(name_views(sorted@), leq),
            name_views(pending@).to_multiset().add(name_views(sorted@).to_multiset())
                =~= all.to_multiset(),
            leq == seq_le_fn(),
            total_ordering(leq),
            forall|x: Seq<char>, y: Seq<char>| #[trigger] leq(x, y) == crate::text::seq_le(x, y),
        decreases pending@.len(),
    {
        let ghost pv = pending@;
        let last_idx = pending.len() - 1;
        let it = pending.remove(last_idx);
        proof {
            assert(pv.remove(pv.len() - 1) =~= pv.drop_last());
            assert(name_views(pv.drop_last()) =~= name_views(pv).drop_last());
            crate::rank::lemma_drop_last_to_multiset(name_views(pv));
        }

        let mut k: usize = 0;
        while k < sorted.len() && str_le(sorted[k].as_str(), it.as_str())
            invariant
                0 <= k <= sorted@.len(),
                forall|p: int| 0 <= p < k ==> crate::text::seq_le(
                    name_views(sorted@)[p],
                    it@,
                ),
            decreases sorted@.len() - k,
        {
            k = k + 1;
        }

        let ghost sv = sorted@;
        let ghost itv = it@;
        proof {
            if k < sv.len() {
                assert(!crate::text::seq_le(sv[k as int]@, itv));
                crate::text::lemma_seq_le_total(itv, sv[k as int]@);
                assert(crate::text::seq_le(itv, sv[k as int]@));
            }
        }
        sorted.insert(k, it);
        proof {
            assert(name_views(sorted@) =~= name_views(sv).insert(k as int, itv)) by {
                assert forall|j: int|
                    0 <= j < sv.len() + 1 implies name_views(sorted@)[j] == name_views(
                    sv,
                ).insert(k as int, itv)[j] by {
                    if j < k {
                        assert(sorted@[j] == sv[j]);
                    } else if j == k {
                    } else {
                        assert(sorted@[j] == sv[j - 1]);
                    }
                }
            }
            crate::rank::lemma_insert_to_multiset(name_views(sv), k as int, itv);
            let nv = name_views(sorted@);
            assert forall|p: int, q: int| 0 <= p < q < nv.len() implies leq(nv[p], nv[q]) by {
                if q < k {
                    assert(leq(nv[p], nv[q]));
                } else if p > k {
                    assert(nv[p] == name_views(sv)[p - 1] && nv[q] == name_views(sv)[q - 1]);
                } else if p == k {
                    assert(nv[p] == itv && nv[q] == name_views(sv)[q - 1]);
                    assert(k < sv.len());
                    assert(leq(itv, sv[k as int]@));
                    if q - 1 > k {
                        assert(leq(name_views(sv)[k as int], name_views(sv)[q - 1]));
                    }
                } else if q == k {
                    assert(nv[p] == name_views(sv)[p] && nv[q] == itv);
                    assert(crate::text::seq_le(name_views(sv)[p], itv));
                } else {
                    assert(nv[p] == name_views(sv)[p] && nv[q] == name_views(sv)[q - 1]);
                }
            }
            broadcast use vstd::seq_lib::group_to_multiset_ensures;
            broadcast use vstd::multiset::group_multiset_axioms;

            assert(name_views(pv).last() == itv);
            assert(name_views(pv).contains(itv));
            assert(name_views(pv).to_multiset().count(itv) > 0);
            assert(name_views(pending@).to_multiset().add(name_views(sorted@).to_multiset())
                =~= all.to_multiset());
        }
    }
    proof {
        broadcast use vstd::seq_lib::group_to_multiset_ensures;
        broadcast use vstd::multiset::group_multiset_axioms;

        assert(name_views(pending@).to_multiset().len() == 0);
        assert(name_views(pending@).to_multiset() =~= Multiset::<Seq<char>>::empty());
        assert(name_views(sorted@).to_multiset() =~= all.to_multiset());
        all.lemma_sort_by_ensures(leq);
        lemma_sorted_unique(name_views(sorted@), all.sort_by(leq), leq);
        assert(name_views(sorted@) == all.sort_by(leq));
    }
    sorted
}

/// What `list` leaves behind: the graph untouched, and one line per node,
/// sorted by name.
pub open spec fn list_post(
    g0: DirectedGraph,
    g1: DirectedGraph,
    r: HandlerOut,
) -> bool {
    &&& g1 == g0
    &&& out_views(r) == Ok::<_, CmdError>(
        (true, prefix_all("- "@, g0.node_seq().sort_by(seq_le_fn()))),
    )
}

/// Lists all nodes, sorted by name.
pub fn list(graph: &mut DirectedGraph, args: &Vec<String>, actions: &Vec<Action>) -> (r:
    HandlerOut)
    requires
        old(graph).wf(),
    ensures
        final(graph).wf(),
        list_post(*old(graph), *final(graph), r),
{
    let nodes = graph.get_all();
    let sorted = sort_names(nodes);
    let n = sorted.len();
    let mut lines: Vec<String> = Vec::new();
    let ghost target = prefix_all("- "@, old(graph).node_seq().sort_by(seq_le_fn()));
    let mut i: usize = 0;
    while i < n
        invariant
            0 <= i <= n,
            n == sorted@.len(),
            name_views(sorted@) == old(graph).node_seq().sort_by(seq_le_fn()),
            target == prefix_all("- "@, old(graph).node_seq().sort_by(seq_le_fn())),
            lines@.len() == i,
            forall|j: int| 0 <= j < i ==> name_views(lines@)[j] == target[j],
        decreases n - i,
    {
        let line = prefixed("- ", sorted[i].as_str());
        lines.push(line);
        i = i + 1;
    }
    proof {
        assert(name_views(lines@) =~= target);
    }
    Ok((true, lines))
}

/// What `add` leaves behind: with a node argument, that node inserted and
/// no output; without one, the missing-argument error.
pub open spec fn add_post(
    g0: DirectedGraph,
    g1: DirectedGraph,
    args: Seq<Seq<char>>,
    r: HandlerOut,
) -> bool {
    if args.len() < 2 {
        g1 == g0 && r == Err::<(bool, Vec<String>), _>(CmdError::MissingNode)
    } else {
        &&& (out_views(r) matches Ok(o) && o.0 == true && o.1.len() == 0)
        &&& (g0.node_set().contains(args[1]) ==> g1 == g0)
        &&& (!g0.node_set().contains(args[1]) ==> g1.node_seq() == g0.node_seq().push(args[1])
            && g1.edge_seq() == g0.edge_seq())
    }
}

/// Adds the given node to the graph.
pub fn add(graph: &mut DirectedGraph, args: &Vec<String>, actions: &Vec<Action>) -> (r:
    HandlerOut)
    requires
        old(graph).wf(),
    ensures
        final(graph).wf(),
        add_post(*old(graph), *final(graph), name_views(args@), r),
{
    if args.len() < 2 {
        return Err(CmdError::MissingNode);
    }
    let node = args[1].clone();
    graph.insert_node(node);
    let lines: Vec<String> = Vec::new();
    proof {
        assert(name_views(lines@) =~= Seq::<Seq<char>>::empty());
    }
    Ok((true, lines))
}

/// What `remove` leaves behind: the named node and its edges gone.
pub open spec fn remove_post(
    g0: DirectedGraph,
    g1: DirectedGraph,
    args: Seq<Seq<char>>,
    r: HandlerOut,
) -> bool {
    if args.len() < 2 {
        g1 == g0 && r == Err::<(bool, Vec<String>), _>(CmdError::MissingNode)
    } else {
        &&& (out_views(r) matches Ok(o) && o.0 == true && o.1.len() == 0)
        &&& g1.node_seq() == g0.node_seq().filter(|s: Seq<char>| s != args[1])
        &&& g1.edge_seq() == g0.edge_seq().filter(
            |e: (Seq<char>, Seq<char>)| e.0 != args[1] && e.1 != args[1],
        )
    }
}

/// Removes the given node from the graph.
pub fn remove(graph: &mut DirectedGraph, args: &Vec<String>, actions: &Vec<Action>) -> (r:
    HandlerOut)
    requires
        old(graph).wf(),
    ensures
        final(graph).wf(),
        remove_post(*old(graph), *final(graph), name_views(args@), r),
{
    if args.len() < 2 {
        return Err(CmdError::MissingNode);
    }
    graph.remove_node(&args[1]);
    let lines: Vec<String> = Vec::new();
    proof {
        assert(name_views(lines@) =~= Seq::<Seq<char>>::empty());
    }
    Ok((true, lines))
}

/// What `connect` leaves behind: an edge between the two named nodes,
/// when both exist and the edge is new.
pub open spec fn connect_post(
    g0: DirectedGraph,
    g1: DirectedGraph,
    args: Seq<Seq<char>>,
    r: HandlerOut,
) -> bool {
    if args.len() < 2 {
        g1 == g0 && r == Err::<(bool, Vec<String>), _>(CmdError::MissingFrom)
    } else if args.len() < 3 {
        g1 == g0 && r == Err::<(bool, Vec<String>), _>(CmdError::MissingTo)
    } else {
        &&& (out_views(r) matches Ok(o) && o.0 == true && o.1.len() == 0)
        &&& g1.node_seq() == g0.node_seq()
        &&& ((g0.node_set().contains(args[1]) && g0.node_set().contains(args[2])
            && !g0.has_edge(args[1], args[2])) ==> g1.edge_seq() == g0.edge_seq().push(
            (args[1], args[2]),
        ))
        &&& (!(g0.node_set().contains(args[1]) && g0.node_set().contains(args[2])
            && !g0.has_edge(args[1], args[2])) ==> g1 == g0)
    }
}

/// Connects the two given nodes.
pub fn connect(graph: &mut DirectedGraph, args: &Vec<String>, actions: &Vec<Action>) -> (r:
    HandlerOut)
    requires
        old(graph).wf(),
    ensures
        final(graph).wf(),
        connect_post(*old(graph), *final(graph), name_views(args@), r),
{
    if args.len() < 2 {
        return Err(CmdError::MissingFrom);
    }
    if args.len() < 3 {
        return Err(CmdError::MissingTo);
    }
    let from = args[1].clone();
    let to = args[2].clone();
    graph.insert_edge(from, to);
    let lines: Vec<String> = Vec::new();
    proof {
        assert(name_views(lines@) =~= Seq::<Seq<char>>::empty());
    }
    Ok((true, lines))
}

/// What `disconnect` leaves behind: the edge between the two named nodes
/// gone.
pub open spec fn disconnect_post(
    g0: DirectedGraph,
    g1: DirectedGraph,
    args: Seq<Seq<char>>,
    r: HandlerOut,
) -> bool {
    if args.len() < 2 {
        g1 == g0 && r == Err::<(bool, Vec<String>), _>(CmdError::MissingFrom)
    } else if args.len() < 3 {
        g1 == g0 && r == Err::<(bool, Vec<String>), _>(CmdError::MissingTo)
    } else {
        &&& (out_views(r) matches Ok(o) && o.0 == true && o.1.len() == 0)
        &&& g1.node_seq() == g0.node_seq()
        &&& g1.edge_seq() == g0.edge_seq().filter(
            |e: (Seq<char>, Seq<char>)| e != (args[1], args[2]),
        )
    }
}

/// Disconnects the two given nodes.
pub fn disconnect(graph: &mut DirectedGraph, args: &Vec<String>, actions: &Vec<Action>) -> (r:
    HandlerOut)
    requires
        old(graph).wf(),
    ensures
        final(graph).wf(),
        disconnect_post(*old(graph), *final(graph), name_views(args@), r),
{
    if args.len() < 2 {
        return Err(CmdError::MissingFrom);
    }
    if args.len() < 3 {
        return Err(CmdError::MissingTo);
    }
    graph.remove_edge(&args[1], &args[2]);
    let lines: Vec<String> = Vec::new();
    proof {
        assert(name_views(lines@) =~= Seq::<Seq<char>>::empty());
    }
    Ok((true, lines))
}

/// What `filter` leaves behind: one line per node whose name begins with
/// the given filter, in insertion order.
pub open spec fn filter_post(
    g0: DirectedGraph,
    g1: DirectedGraph,
    args: Seq<Seq<char>>,
    r: HandlerOut,
) -> bool {
    if args.len() < 2 {
        g1 == g0 && r == Err::<(bool, Vec<String>), _>(CmdError::MissingFilter)
    } else {
        &&& g1 == g0
        &&& out_views(r) == Ok::<_, CmdError>(
            (true, prefix_all("- "@, g0.node_seq().filter(prefix_pred(args[1])))),
        )
    }
}

/// Lists the nodes that match the filter prefix.
pub fn filter(graph: &mut DirectedGraph, args: &Vec<String>, actions: &Vec<Action>) -> (r:
    HandlerOut)
    requires
        old(graph).wf(),
    ensures
        final(graph).wf(),
        filter_post(*old(graph), *final(graph), name_views(args@), r),
{
    if args.len() < 2 {
        return Err(CmdError::MissingFilter);
    }
    let ghost pat = args@[1]@;
    let ghost keep = prefix_pred(pat);
    proof {
        assert(name_views(args@)[1] == pat);
    }
    let n = graph.nodes.len();
    let mut lines: Vec<String> = Vec::new();
    proof {
        assert(graph.node_seq().take(0) =~= Seq::<Seq<char>>::empty());
        crate::graph::lemma_filter_empty(keep);
        assert(name_views(lines@) =~= prefix_all("- "@, graph.node_seq().take(0).filter(keep)));
    }
    let mut i: usize = 0;
    while i < n
        invariant
            0 <= i <= n,
            n == graph.nodes@.len(),
            *graph == *old(graph),
            graph.wf(),
            args@.len() >= 2,
            pat == args@[1]@,
            keep == prefix_pred(pat),
            name_views(lines@) == prefix_all(
                "- "@,
                graph.node_seq().take(i as int).filter(keep),
            ),
        decreases n - i,
    {
        let ghost pref = graph.node_seq().take(i as int);
        proof {
            assert(graph.node_seq().take(i + 1) =~= pref.push(graph.node_seq()[i as int]));
            crate::graph::lemma_filter_push(pref, keep, graph.node_seq()[i as int]);
        }
        if starts_with(graph.nodes[i].as_str(), args[1].as_str()) {
            let ghost before = lines@;
            let line = prefixed("- ", graph.nodes[i].as_str());
            lines.push(line);
            proof {
                assert(keep(graph.node_seq()[i as int]));
                assert(name_views(lines@) =~= name_views(before).push("- "@ + graph.node_seq()[
                    i as int
                ]));
                assert(name_views(lines@) =~= prefix_all(
                    "- "@,
                    graph.node_seq().take(i + 1).filter(keep),
                ));
            }
        } else {
            proof {
                assert(!keep(graph.node_seq()[i as int]));
            }
        }
        i = i + 1;
    }
    proof {
        assert(graph.node_seq().take(n as int) =~= graph.node_seq());
    }
    Ok((true, lines))
}

/// What `inspect` leaves behind: the node's own line, then one indented
/// line per successor, in edge order.
pub open spec fn inspect_post(
    g0: DirectedGraph,
    g1: DirectedGraph,
    args: Seq<Seq<char>>,
    r: HandlerOut,
) -> bool {
    if args.len() < 2 {
        g1 == g0 && r == Err::<(bool, Vec<String>), _>(CmdError::MissingNode)
    } else {
        &&& g1 == g0
        &&& out_views(r) == Ok::<_, CmdError>(
            (
                true,
                seq!["- "@ + args[1]] + prefix_all("    - "@, g0.adj_seq(args[1])),
            ),
        )
    }
}

/// Shows a node and its successors.
pub fn inspect(graph: &mut DirectedGraph, args: &Vec<String>, actions: &Vec<Action>) -> (r:
    HandlerOut)
    requires
        old(graph).wf(),
    ensures
        final(graph).wf(),
        inspect_post(*old(graph), *final(graph), name_views(args@), r),
{
    if args.len() < 2 {
        return Err(CmdError::MissingNode);
    }
    let mut lines: Vec<String> = Vec::new();
    let head = prefixed("- ", args[1].as_str());
    lines.push(head);
    let adj = graph.get_adj(&args[1]);
    let m = adj.len();
    let ghost target = seq!["- "@ + args@[1]@] + prefix_all(
        "    - "@,
        graph.adj_seq(args@[1]@),
    );
    let mut i: usize = 0;
    while i < m
        invariant
            0 <= i <= m,
            m == adj@.len(),
            name_views(adj@) == graph.adj_seq(args@[1]@),
            args@.len() >= 2,
            target == seq!["- "@ + args@[1]@] + prefix_all(
                "    - "@,
                graph.adj_seq(args@[1]@),
            ),
            lines@.len() == i + 1,
            forall|j: int| 0 <= j < i + 1 ==> name_views(lines@)[j] == target[j],
        decreases m - i,
    {
        let line = prefixed("    - ", adj[i].as_str());
        lines.push(line);
        i = i + 1;
    }
    proof {
        assert(name_views(lines@) =~= target);
    }
    Ok((true, lines))
}

/// The help text for a registry: two lines per action, name and pattern
/// first, description indented below.
pub open spec fn help_lines(acts: Seq<Action>) -> Seq<Seq<char>>
    decreases acts.len(),
{
    if acts.len() == 0 {
        Seq::empty()
    } else {
        help_lines(acts.drop_last()) + seq![
            "- "@ + acts.last().name@ + " "@ + acts.last().pattern@,
            "    "@ + acts.last().desc@,
        ]
    }
}

/// What `help` leaves behind: the usage lines for every action, in
/// registry order.
pub open spec fn help_post(
    g0: DirectedGraph,
    g1: DirectedGraph,
    acts: Seq<Action>,
    r: HandlerOut,
) -> bool {
    &&& g1 == g0
    &&& out_views(r) == Ok::<_, CmdError>((true, help_lines(acts)))
}

/// Displays the registered commands.
pub fn help(graph: &mut DirectedGraph, args: &Vec<String>, actions: &Vec<Action>) -> (r:
    HandlerOut)
    requires
        old(graph).wf(),
    ensures
        final(graph).wf(),
        help_post(*old(graph), *final(graph), actions@, r),
{
    let n = actions.len();
    let mut lines: Vec<String> = Vec::new();
    proof {
        assert(actions@.take(0) =~= Seq::<Action>::empty());
        assert(name_views(lines@) =~= help_lines(actions@.take(0)));
    }
    let mut i: usize = 0;
    while i < n
        invariant
            0 <= i <= n,
            n == actions@.len(),
            name_views(lines@) == help_lines(actions@.take(i as int)),
        decreases n - i,
    {
        let ghost pref = actions@.take(i as int);
        proof {
            assert(actions@.take(i + 1) =~= pref.push(actions@[i as int]));
            assert(actions@.take(i + 1).drop_last() =~= pref);
        }
        let ghost before = lines@;
        let mut first = prefixed("- ", actions[i].name.as_str());
        first.append(" ");
        first.append(actions[i].pattern.as_str());
        lines.push(first);
        let second = prefixed("    ", actions[i].desc.as_str());
        lines.push(second);
        proof {
            assert(name_views(lines@) =~= name_views(before) + seq![
                "- "@ + actions@[i as int].name@ + " "@ + actions@[i as int].pattern@,
                "    "@ + actions@[i as int].desc@,
            ]);
        }
        i = i + 1;
    }
    proof {
        assert(actions@.take(n as int) =~= actions@);
    }
    Ok((true, lines))
}

/// What `quit` leaves behind: nothing printed, and the stop flag.
pub open spec fn quit_post(g0: DirectedGraph, g1: DirectedGraph, r: HandlerOut) -> bool {
    &&& g1 == g0
    &&& (out_views(r) matches Ok(o) && o.0 == false && o.1.len() == 0)
}

/// Stops the console loop.
pub fn quit(graph: &mut DirectedGraph, args: &Vec<String>, actions: &Vec<Action>) -> (r:
    HandlerOut)
    requires
        old(graph).wf(),
    ensures
        final(graph).wf(),
        quit_post(*old(graph), *final(graph), r),
{
    let lines: Vec<String> = Vec::new();
    proof {
        assert(name_views(lines@) =~= Seq::<Seq<char>>::empty());
    }
    Ok((false, lines))
}


/// The edges by node index, for traversal.
fn index_edges(g: &DirectedGraph) -> (r: Vec<(usize, usize)>)
    requires
        g.wf(),
    ensures
        r@.len() == g.edge_seq().len(),
        forall|k: int|
            0 <= k < r@.len() ==> (#[trigger] r@[k]).0 < g.node_seq().len() && r@[k].1
                < g.node_seq().len() && g.node_seq()[r@[k].0 as int] == g.edge_seq()[k].0
                && g.node_seq()[r@[k].1 as int] == g.edge_seq()[k].1,
{
    let m = g.edges.len();
    let mut r: Vec<(usize, usize)> = Vec::new();
    let mut k: usize = 0;
    while k < m
        invariant
            0 <= k <= m,
            g.wf(),
            m == g.edges@.len(),
            r@.len() == k,
            forall|j: int|
                0 <= j < k ==> (#[trigger] r@[j]).0 < g.node_seq().len() && r@[j].1
                    < g.node_seq().len() && g.node_seq()[r@[j].0 as int] == g.edge_seq()[j].0
                    && g.node_seq()[r@[j].1 as int] == g.edge_seq()[j].1,
        decreases m - k,
    {
        proof {
            assert(g.node_set().contains(g.edge_seq()[k as int].0));
            assert(g.node_set().contains(g.edge_seq()[k as int].1));
        }
        let fi = match g.find_node(&g.edges[k].0) {
            Some(i) => i,
            None => {
                proof {
                    assert(false);
                }
                0
            },
        };
        let ti = match g.find_node(&g.edges[k].1) {
            Some(i) => i,
            None => {
                proof {
                    assert(false);
                }
                0
            },
        };
        r.push((fi, ti));
        k = k + 1;
    }
    r
}

/// A path through the graph by name: consecutive nodes joined by edges.
pub open spec fn is_name_path(g: DirectedGraph, p: Seq<Seq<char>>) -> bool {
    &&& p.len() >= 1
    &&& g.node_set().contains(p[0])
    &&& forall|k: int| 0 <= k < p.len() - 1 ==> g.has_edge(#[trigger] p[k], p[k + 1])
}

/// Whether some path leads from `a` to `b`.
pub open spec fn reach_name(g: DirectedGraph, a: Seq<char>, b: Seq<char>) -> bool {
    exists|p: Seq<Seq<char>>| #[trigger] is_name_path(g, p) && p.first() == a && p.last() == b
}

/// Every node on a name path is in the node set.
#[verifier::spinoff_prover]
proof fn lemma_name_path_members(g: DirectedGraph, p: Seq<Seq<char>>)
    requires
        g.wf(),
        is_name_path(g, p),
    ensures
        forall|k: int| 0 <= k < p.len() ==> g.node_set().contains(#[trigger] p[k]),
    decreases p.len(),
{
    if p.len() > 1 {
        let q = p.drop_last();
        assert(is_name_path(g, q)) by {
            assert(forall|k: int| 0 <= k < q.len() - 1 ==> g.has_edge(#[trigger] q[k], q[k + 1]));
        }
        lemma_name_path_members(g, q);
        assert(g.has_edge(p[p.len() - 2], p[p.len() - 1]));
        let pair = (p[p.len() - 2], p[p.len() - 1]);
        assert(g.edge_seq().contains(pair));
        assert(exists|e: int| 0 <= e < g.edge_seq().len() && g.edge_seq()[e] == pair);
        let e = choose|e: int| 0 <= e < g.edge_seq().len() && g.edge_seq()[e] == pair;
        assert(0 <= e < g.edge_seq().len());
        assert(g.edge_seq()[e] == pair);
        assert(g.node_set().contains(g.edge_seq()[e].0));
        assert(g.node_set().contains(g.edge_seq()[e].1));
        assert(g.node_set().contains(p[p.len() - 1]));
        assert forall|k: int| 0 <= k < p.len() implies g.node_set().contains(#[trigger] p[k]) by {
            if k < p.len() - 1 {
                assert(q[k] == p[k]);
            }
        }
    }
}

/// A name path translates to an index path over the indexed edges.
proof fn lemma_name_to_index_path(
    g: DirectedGraph,
    pairs: Seq<(usize, usize)>,
    p: Seq<Seq<char>>,
)
    requires
        g.wf(),
        pairs.len() == g.edge_seq().len(),
        forall|k: int|
            0 <= k < pairs.len() ==> (#[trigger] pairs[k]).0 < g.node_seq().len() && pairs[k].1
                < g.node_seq().len() && g.node_seq()[pairs[k].0 as int] == g.edge_seq()[k].0
                && g.node_seq()[pairs[k].1 as int] == g.edge_seq()[k].1,
        g.node_seq().len() <= usize::MAX,
        is_name_path(g, p),
    ensures
        exists|ip: Seq<usize>|
            {
                &&& #[trigger] crate::algo::is_path_idx(pairs, ip)
                &&& ip.len() == p.len()
                &&& (forall|k: int|
                    0 <= k < ip.len() ==> (#[trigger] ip[k]) < g.node_seq().len()
                        && g.node_seq()[ip[k] as int] == p[k])
            },
{
    lemma_name_path_members(g, p);
    let ns = g.node_seq();
    let ip = Seq::new(p.len(), |k: int| crate::model::idx_of(ns, p[k]) as usize);
    assert forall|k: int|
        0 <= k < ip.len() implies (#[trigger] ip[k]) < ns.len() && ns[ip[k] as int] == p[k] by {
        assert(g.node_set().contains(p[k]));
        assert(ns.contains(p[k]));
        let w = choose|w: int| 0 <= w < ns.len() && #[trigger] ns[w] == p[k];
        assert(exists|i: int| 0 <= i < ns.len() && ns[i] == p[k]) by {
            assert(0 <= w < ns.len() && ns[w] == p[k]);
        }
        assert(0 <= crate::model::idx_of(ns, p[k]) < ns.len() && ns[crate::model::idx_of(
            ns,
            p[k],
        )] == p[k]);
    }
    assert(crate::algo::is_path_idx(pairs, ip)) by {
        assert forall|k: int|
            0 <= k < ip.len() - 1 implies crate::algo::has_edge_idx(
            pairs,
            (#[trigger] ip[k]) as int,
            ip[k + 1] as int,
        ) by {
            assert(g.has_edge(p[k], p[k + 1]));
            let e = choose|e: int|
                0 <= e < g.edge_seq().len() && g.edge_seq()[e] == (p[k], p[k + 1]);
            assert(ns[pairs[e].0 as int] == p[k]);
            assert(ns[ip[k] as int] == p[k]);
            if pairs[e].0 != ip[k] {
                if pairs[e].0 < ip[k] {
                    assert(ns[pairs[e].0 as int] != ns[ip[k] as int]);
                } else {
                    assert(ns[ip[k] as int] != ns[pairs[e].0 as int]);
                }
            }
            assert(pairs[e].0 == ip[k]);
            if pairs[e].1 != ip[k + 1] {
                if pairs[e].1 < ip[k + 1] {
                    assert(ns[pairs[e].1 as int] != ns[ip[k + 1] as int]);
                } else {
                    assert(ns[ip[k + 1] as int] != ns[pairs[e].1 as int]);
                }
            }
            assert(pairs[e].1 == ip[k + 1]);
        }
    }
}

/// The line reporting an unreachable destination.
pub open spec fn couldnt_line(from: Seq<char>, to: Seq<char>) -> Seq<char> {
    "Couldn't reach "@ + to + " from "@ + from
}

/// What `route` leaves behind: the graph untouched; a reachable
/// destination yields a path from source to destination, one line per
/// node, and an unreachable one yields the explanatory line.
pub open spec fn route_post(
    g0: DirectedGraph,
    g1: DirectedGraph,
    args: Seq<Seq<char>>,
    r: HandlerOut,
) -> bool {
    if args.len() < 2 {
        g1 == g0 && r == Err::<(bool, Vec<String>), _>(CmdError::MissingFrom)
    } else if args.len() < 3 {
        g1 == g0 && r == Err::<(bool, Vec<String>), _>(CmdError::MissingTo)
    } else {
        &&& g1 == g0
        &&& (out_views(r) matches Ok(o) && o.0 == true)
        &&& (reach_name(g0, args[1], args[2]) ==> exists|p: Seq<Seq<char>>|
            {
                &&& #[trigger] is_name_path(g0, p)
                &&& p.first() == args[1]
                &&& p.last() == args[2]
                &&& (out_views(r) matches Ok(o) && o.1 == prefix_all("- "@, p))
                &&& (forall|q: Seq<Seq<char>>|
                    #[trigger] is_name_path(g0, q) && q.first() == args[1] && q.last() == args[2]
                        ==> q.len() >= p.len())
            })
        &&& (!reach_name(g0, args[1], args[2]) ==> (out_views(r) matches Ok(o) && o.1 == seq![
            couldnt_line(args[1], args[2]),
        ]))
    }
}

/// Builds the unreachable-destination line.
fn couldnt(from: &String, to: &String) -> (r: String)
    ensures
        r@ == couldnt_line(from@, to@),
{
    let mut s = "Couldn't reach ".to_owned();
    s.append(to.as_str());
    s.append(" from ");
    s.append(from.as_str());
    s
}

/// Finds the shortest path between the two given nodes.
pub fn route(graph: &mut DirectedGraph, args: &Vec<String>, actions: &Vec<Action>) -> (r:
    HandlerOut)
    requires
        old(graph).wf(),
    ensures
        final(graph).wf(),
        route_post(*old(graph), *final(graph), name_views(args@), r),
{
    if args.len() < 2 {
        return Err(CmdError::MissingFrom);
    }
    if args.len() < 3 {
        return Err(CmdError::MissingTo);
    }
    let ghost fromv = args@[1]@;
    let ghost tov = args@[2]@;
    proof {
        assert(name_views(args@)[1] == fromv && name_views(args@)[2] == tov);
    }
    let fi_opt = graph.find_node(&args[1]);
    let ti_opt = graph.find_node(&args[2]);
    match (fi_opt, ti_opt) {
        (Some(fi), Some(ti)) => {
            let pairs = index_edges(graph);
            let n = graph.nodes.len();
            proof {
                assert(crate::algo::edges_ok(n as int, pairs@));
            }
            match crate::algo::bfs_path(n, &pairs, fi, ti) {
                Some(ip) => {
                    let m = ip.len();
                    let mut lines: Vec<String> = Vec::new();
                    let mut k: usize = 0;
                    while k < m
                        invariant
                            0 <= k <= m,
                            graph.wf(),
                            m == ip@.len(),
                            forall|j: int|
                                0 <= j < m ==> (#[trigger] ip@[j]) < graph.nodes@.len(),
                            lines@.len() == k,
                            forall|j: int|
                                0 <= j < k ==> name_views(lines@)[j] == "- "@ + graph.node_seq()[
                                    ip@[j] as int
                                ],
                        decreases m - k,
                    {
                        let ghost before = lines@;
                        let line = prefixed("- ", graph.nodes[ip[k]].as_str());
                        lines.push(line);
                        proof {
                            assert(name_views(lines@) =~= name_views(before).push(
                                "- "@ + graph.node_seq()[ip@[k as int] as int],
                            ));
                        }
                        k = k + 1;
                    }
                    proof {
                        let p = Seq::new(ip@.len(), |j: int| graph.node_seq()[ip@[j] as int]);
                        assert(is_name_path(*graph, p)) by {
                            assert(graph.node_set().contains(p[0]));
                            assert forall|j: int|
                                0 <= j < p.len() - 1 implies graph.has_edge(
                                #[trigger] p[j],
                                p[j + 1],
                            ) by {
                                assert(crate::algo::has_edge_idx(
                                    pairs@,
                                    ip@[j] as int,
                                    ip@[j + 1] as int,
                                ));
                                let e = choose|e: int|
                                    0 <= e < pairs@.len() && (#[trigger] pairs@[e]).0 == ip@[
                                        j
                                    ] as int && pairs@[e].1 == ip@[j + 1] as int;
                                assert(graph.edge_seq()[e] == (p[j], p[j + 1]));
                            }
                        }
                        assert(p.first() == fromv && p.last() == tov);
                        assert(reach_name(*graph, fromv, tov));
                        assert(name_views(lines@) =~= prefix_all("- "@, p));
                        // No shorter route exists: a shorter name path
                        // would translate into a shorter index path.
                        assert forall|q: Seq<Seq<char>>|
                            #[trigger] is_name_path(*graph, q) && q.first() == fromv && q.last()
                                == tov implies q.len() >= p.len() by {
                            assert(graph.node_seq().len() == n);
                            lemma_name_to_index_path(*graph, pairs@, q);
                            let iq = choose|iq: Seq<usize>|
                                {
                                    &&& #[trigger] crate::algo::is_path_idx(pairs@, iq)
                                    &&& iq.len() == q.len()
                                    &&& (forall|k: int|
                                        0 <= k < iq.len() ==> (#[trigger] iq[k])
                                            < graph.node_seq().len() && graph.node_seq()[iq[
                                            k
                                        ] as int] == q[k])
                                };
                            assert(iq[0] == fi) by {
                                if iq[0] != fi {
                                    if iq[0] < fi as int {
                                        assert(graph.node_seq()[iq[0] as int]
                                            != graph.node_seq()[fi as int]);
                                    } else {
                                        assert(graph.node_seq()[fi as int] != graph.node_seq()[
                                            iq[0] as int
                                        ]);
                                    }
                                }
                            }
                            assert(iq[iq.len() - 1] == ti) by {
                                if iq[iq.len() - 1] != ti {
                                    if iq[iq.len() - 1] < ti as int {
                                        assert(graph.node_seq()[iq[iq.len() - 1] as int]
                                            != graph.node_seq()[ti as int]);
                                    } else {
                                        assert(graph.node_seq()[ti as int] != graph.node_seq()[
                                            iq[iq.len() - 1] as int
                                        ]);
                                    }
                                }
                            }
                            assert(iq.first() == fi && iq.last() == ti);
                            assert(iq.len() >= ip@.len());
                        }
                    }
                    Ok((true, lines))
                },
                None => {
                    proof {
                        if reach_name(*graph, fromv, tov) {
                            let p = choose|p: Seq<Seq<char>>|
                                #[trigger] is_name_path(*graph, p) && p.first() == fromv
                                    && p.last() == tov;
                            assert(graph.node_seq().len() == n);
                            lemma_name_to_index_path(*graph, pairs@, p);
                            let ip = choose|ip: Seq<usize>|
                                {
                                    &&& #[trigger] crate::algo::is_path_idx(pairs@, ip)
                                    &&& ip.len() == p.len()
                                    &&& (forall|k: int|
                                        0 <= k < ip.len() ==> (#[trigger] ip[k])
                                            < graph.node_seq().len() && graph.node_seq()[ip[
                                            k
                                        ] as int] == p[k])
                                };
                            assert(graph.node_seq()[ip[0] as int] == fromv);
                            assert(graph.node_seq()[fi as int] == fromv);
                            if ip[0] != fi {
                                if ip[0] < fi as int {
                                    assert(graph.node_seq()[ip[0] as int] != graph.node_seq()[
                                        fi as int
                                    ]);
                                } else {
                                    assert(graph.node_seq()[fi as int] != graph.node_seq()[ip[
                                        0
                                    ] as int]);
                                }
                            }
                            assert(ip[ip.len() - 1] == ti) by {
                                if ip[ip.len() - 1] != ti {
                                    if ip[ip.len() - 1] < ti as int {
                                        assert(graph.node_seq()[ip[ip.len() - 1] as int]
                                            != graph.node_seq()[ti as int]);
                                    } else {
                                        assert(graph.node_seq()[ti as int] != graph.node_seq()[
                                            ip[ip.len() - 1] as int
                                        ]);
                                    }
                                }
                            }
                            assert(crate::algo::reachable_idx(pairs@, fi as int, ti as int));
                        }
                    }
                    let line = couldnt(&args[1], &args[2]);
                    let mut lines: Vec<String> = Vec::new();
                    lines.push(line);
                    proof {
                        assert(name_views(lines@) =~= seq![couldnt_line(fromv, tov)]);
                    }
                    Ok((true, lines))
                },
            }
        },
        _ => {
            proof {
                if reach_name(*graph, fromv, tov) {
                    let p = choose|p: Seq<Seq<char>>|
                        #[trigger] is_name_path(*graph, p) && p.first() == fromv && p.last()
                            == tov;
                    lemma_name_path_members(*graph, p);
                    assert(graph.node_set().contains(fromv));
                    assert(graph.node_set().contains(tov));
                }
            }
            let line = couldnt(&args[1], &args[2]);
            let mut lines: Vec<String> = Vec::new();
            lines.push(line);
            proof {
                assert(name_views(lines@) =~= seq![couldnt_line(fromv, tov)]);
            }
            Ok((true, lines))
        },
    }
}


/// The schedule line: every node appended after an arrow, in visit order.
pub open spec fn sched_line(ns: Seq<Seq<char>>) -> Seq<char>
    decreases ns.len(),
{
    if ns.len() == 0 {
        Seq::empty()
    } else {
        sched_line(ns.drop_last()) + " -> "@ + ns.last()
    }
}

/// A full topological visit order over the graph's nodes, by name.
pub open spec fn name_order_ok(g: DirectedGraph, ord: Seq<Seq<char>>) -> bool {
    &&& ord.len() == g.node_seq().len()
    &&& (forall|k: int| 0 <= k < ord.len() ==> g.node_set().contains(#[trigger] ord[k]))
    &&& (forall|i: int, j: int| 0 <= i < j < ord.len() ==> ord[i] != ord[j])
    &&& (forall|p: int, q: int|
        #![trigger ord[p], ord[q]]
        0 <= p < ord.len() && 0 <= q < ord.len() && g.has_edge(ord[p], ord[q]) ==> p < q)
}

/// What `schedule` leaves behind: on an acyclic graph, one line walking
/// some topological order of all nodes; on a cyclic one, the hard error.
pub open spec fn schedule_post(g0: DirectedGraph, g1: DirectedGraph, r: HandlerOut) -> bool {
    &&& g1 == g0
    &&& (r matches Err(e) ==> e == CmdError::CyclicGraph && !(exists|ord: Seq<Seq<char>>|
        #[trigger] name_order_ok(g0, ord)))
    &&& (out_views(r) matches Ok(o) ==> o.0 == true && exists|ord: Seq<Seq<char>>|
        #[trigger] name_order_ok(g0, ord) && o.1 == seq![sched_line(ord)])
}

/// Prints a topological order of the whole graph, or reports a cycle.
pub fn schedule(graph: &mut DirectedGraph, args: &Vec<String>, actions: &Vec<Action>) -> (r:
    HandlerOut)
    requires
        old(graph).wf(),
    ensures
        final(graph).wf(),
        schedule_post(*old(graph), *final(graph), r),
{
    let pairs = index_edges(graph);
    let n = graph.nodes.len();
    proof {
        assert(crate::algo::edges_ok(n as int, pairs@));
    }
    let (roots, order, cyclic) = crate::algo::toposort(n, &pairs);
    if cyclic {
        proof {
            // A topological order of the names would translate into a
            // complete index order, which a cyclic graph cannot have.
            let ns = graph.node_seq();
            if exists|ord: Seq<Seq<char>>| #[trigger] name_order_ok(*graph, ord) {
                let ord = choose|ord: Seq<Seq<char>>| #[trigger] name_order_ok(*graph, ord);
                let ordi = Seq::new(ord.len(), |k: int| crate::model::idx_of(ns, ord[k]) as usize);
                assert forall|k: int|
                    0 <= k < ordi.len() implies (#[trigger] ordi[k]) < ns.len() && ns[ordi[
                    k
                ] as int] == ord[k] by {
                    assert(graph.node_set().contains(ord[k]));
                    assert(ns.contains(ord[k]));
                    let w = choose|w: int| 0 <= w < ns.len() && #[trigger] ns[w] == ord[k];
                    assert(exists|i: int| 0 <= i < ns.len() && ns[i] == ord[k]) by {
                        assert(0 <= w < ns.len() && ns[w] == ord[k]);
                    }
                }
                assert(crate::algo::full_topo_order(n as int, pairs@, ordi)) by {
                    assert(crate::algo::distinct_idx(ordi)) by {
                        assert forall|i: int, j: int|
                            0 <= i < j < ordi.len() implies ordi[i] != ordi[j] by {
                            if ordi[i] == ordi[j] {
                                assert(ns[ordi[i] as int] == ns[ordi[j] as int]);
                                assert(ord[i] == ord[j]);
                            }
                        }
                    }
                    assert(crate::algo::respects_edges(pairs@, ordi)) by {
                        assert forall|p: int, q: int|
                            #![trigger ordi[p], ordi[q]]
                            0 <= p < ordi.len() && 0 <= q < ordi.len()
                                && crate::algo::has_edge_idx(
                                pairs@,
                                ordi[p] as int,
                                ordi[q] as int,
                            ) implies p < q by {
                            let e = choose|e: int|
                                0 <= e < pairs@.len() && (#[trigger] pairs@[e]).0 == ordi[
                                    p
                                ] as int && pairs@[e].1 == ordi[q] as int;
                            assert(graph.edge_seq()[e] == (ord[p], ord[q]));
                            assert(graph.has_edge(ord[p], ord[q]));
                        }
                    }
                }
                assert(false);
            }
        }
        return Err(CmdError::CyclicGraph);
    }
    let m = order.len();
    let mut line = String::new();
    let mut k: usize = 0;
    proof {
        let ghost ordv = Seq::new(order@.len(), |j: int| graph.node_seq()[order@[j] as int]);
        assert(ordv.take(0) =~= Seq::<Seq<char>>::empty());
        assert(line@ =~= sched_line(ordv.take(0)));
    }
    let ghost ordv = Seq::new(order@.len(), |j: int| graph.node_seq()[order@[j] as int]);
    while k < m
        invariant
            0 <= k <= m,
            graph.wf(),
            m == order@.len(),
            forall|j: int| 0 <= j < m ==> (#[trigger] order@[j]) < graph.nodes@.len(),
            ordv == Seq::new(order@.len(), |j: int| graph.node_seq()[order@[j] as int]),
            line@ == sched_line(ordv.take(k as int)),
        decreases m - k,
    {
        line.append(" -> ");
        line.append(graph.nodes[order[k]].as_str());
        proof {
            assert(ordv.take(k + 1) =~= ordv.take(k as int).push(ordv[k as int]));
            assert(ordv.take(k + 1).drop_last() =~= ordv.take(k as int));
            assert(line@ == sched_line(ordv.take(k as int)) + " -> "@ + ordv[k as int]);
        }
        k = k + 1;
    }
    let mut lines: Vec<String> = Vec::new();
    lines.push(line);
    proof {
        assert(ordv.take(m as int) =~= ordv);
        let ns = graph.node_seq();
        assert(name_order_ok(*graph, ordv)) by {
            assert forall|j: int| 0 <= j < ordv.len() implies graph.node_set().contains(
                #[trigger] ordv[j],
            ) by {
                assert(ns[order@[j] as int] == ordv[j]);
            }
            assert forall|i: int, j: int| 0 <= i < j < ordv.len() implies ordv[i] != ordv[j] by {
                assert(order@[i] != order@[j]);
                if order@[i] < order@[j] {
                    assert(ns[order@[i] as int] != ns[order@[j] as int]);
                } else {
                    assert(ns[order@[j] as int] != ns[order@[i] as int]);
                }
            }
            assert forall|p: int, q: int|
                #![trigger ordv[p], ordv[q]]
                0 <= p < ordv.len() && 0 <= q < ordv.len() && graph.has_edge(
                    ordv[p],
                    ordv[q],
                ) implies p < q by {
                let e = choose|e: int|
                    0 <= e < graph.edge_seq().len() && graph.edge_seq()[e] == (ordv[p], ordv[q]);
                assert(ns[pairs@[e].0 as int] == ordv[p]);
                assert(ns[order@[p] as int] == ordv[p]);
                if pairs@[e].0 != order@[p] {
                    if pairs@[e].0 < order@[p] {
                        assert(ns[pairs@[e].0 as int] != ns[order@[p] as int]);
                    } else {
                        assert(ns[order@[p] as int] != ns[pairs@[e].0 as int]);
                    }
                }
                if pairs@[e].1 != order@[q] {
                    if pairs@[e].1 < order@[q] {
                        assert(ns[pairs@[e].1 as int] != ns[order@[q] as int]);
                    } else {
                        assert(ns[order@[q] as int] != ns[pairs@[e].1 as int]);
                    }
                }
                assert(crate::algo::has_edge_idx(pairs@, order@[p] as int, order@[q] as int))
                    by {
                    assert(pairs@[e].0 == order@[p] && pairs@[e].1 == order@[q]);
                }
            }
        }
        assert(name_views(lines@) =~= seq![sched_line(ordv)]);
    }
    Ok((true, lines))
}

/// The suggestion block for an unknown command: a header line, then the
/// best-ranked registered names, indented.
pub open spec fn act_names(acts: Seq<Action>) -> Seq<Seq<char>> {
    acts.map_values(|a: Action| a.name@)
}

/// The lines printed for an unknown command.
pub open spec fn suggest_lines(cmd: Seq<char>, acts: Seq<Action>) -> Seq<Seq<char>> {
    seq!["Unknown command, did you mean one of these?"@] + prefix_all(
        "    "@,
        rank_spec(cmd, act_names(acts)).map_values(|p: (int, Seq<char>)| p.1),
    )
}

/// Ranks every registered name against the unresolved input and renders
/// the suggestion block.
pub fn find_similar(input: &String, actions: &Vec<Action>) -> (r: Vec<String>)
    ensures
        name_views(r@) == suggest_lines(input@, actions@),
{
    let n = actions.len();
    let mut names: Vec<String> = Vec::new();
    let mut i: usize = 0;
    while i < n
        invariant
            0 <= i <= n,
            n == actions@.len(),
            name_views(names@) == act_names(actions@).take(i as int),
        decreases n - i,
    {
        let ghost before = names@;
        names.push(actions[i].name.clone());
        proof {
            assert(name_views(names@) =~= name_views(before).push(actions@[i as int].name@));
            assert(act_names(actions@).take(i + 1) =~= act_names(actions@).take(i as int).push(
                actions@[i as int].name@,
            ));
        }
        i = i + 1;
    }
    proof {
        assert(act_names(actions@).take(n as int) =~= act_names(actions@));
        assert(name_views(names@) =~= act_names(actions@));
    }

    let ranked = rank(input.as_str(), &names);
    let mut lines: Vec<String> = Vec::new();
    lines.push("Unknown command, did you mean one of these?".to_owned());
    let m = ranked.len();
    let ghost target = suggest_lines(input@, actions@);
    proof {
        assert(rank_views(ranked@) == rank_spec(input@, act_names(actions@)));
        assert(target.len() == 1 + m);
    }
    let mut k: usize = 0;
    while k < m
        invariant
            0 <= k <= m,
            m == ranked@.len(),
            rank_views(ranked@) == rank_spec(input@, act_names(actions@)),
            target == suggest_lines(input@, actions@),
            target.len() == 1 + m,
            lines@.len() == k + 1,
            forall|j: int| 0 <= j < k + 1 ==> name_views(lines@)[j] == target[j],
        decreases m - k,
    {
        let ghost before = lines@;
        let line = prefixed("    ", ranked[k].word.as_str());
        lines.push(line);
        proof {
            assert(name_views(lines@) =~= name_views(before).push("    "@ + ranked@[
                k as int
            ].word@));
            assert(rank_views(ranked@)[k as int].1 == ranked@[k as int].word@);
            assert(target[k + 1] == "    "@ + rank_spec(input@, act_names(actions@))[
                k as int
            ].1);
        }
        k = k + 1;
    }
    proof {
        assert(name_views(lines@) =~= target);
    }
    lines
}

/// What one handled line leaves behind: nothing on an empty input, the
/// matched handler's outcome on a known command, and the suggestion block
/// on an unknown one.
pub open spec fn handle_post(
    g0: DirectedGraph,
    g1: DirectedGraph,
    acts: Seq<Action>,
    input: Seq<char>,
    r: HandlerOut,
) -> bool {
    let toks = tokens(normal_seq(input));
    if toks.len() == 0 {
        g1 == g0 && r == Err::<(bool, Vec<String>), _>(CmdError::NoCommand)
    } else {
        match lookup_spec(acts, toks[0]) {
            None => g1 == g0 && (out_views(r) matches Ok(o) && o.0 == true && o.1
                == suggest_lines(toks[0], acts)),
            Some(i) => match acts[i].kind {
                ActionKind::List => list_post(g0, g1, r),
                ActionKind::Add => add_post(g0, g1, toks, r),
                ActionKind::Remove => remove_post(g0, g1, toks, r),
                ActionKind::Connect => connect_post(g0, g1, toks, r),
                ActionKind::Disconnect => disconnect_post(g0, g1, toks, r),
                ActionKind::Filter => filter_post(g0, g1, toks, r),
                ActionKind::Inspect => inspect_post(g0, g1, toks, r),
                ActionKind::Route => route_post(g0, g1, toks, r),
                ActionKind::Schedule => schedule_post(g0, g1, r),
                ActionKind::Help => help_post(g0, g1, acts, r),
                ActionKind::Quit => quit_post(g0, g1, r),
            },
        }
    }
}

/// Handles one typed line: normalizes it, resolves the command name, and
/// runs the matching handler, or renders fuzzy suggestions when nothing
/// matches.
pub fn handle_input(input: &str, graph: &mut DirectedGraph, actions: &Vec<Action>) -> (r:
    HandlerOut)
    requires
        old(graph).wf(),
    ensures
        final(graph).wf(),
        handle_post(*old(graph), *final(graph), actions@, input@, r),
{
    let norm = normalize(input);
    let args = tokenize(norm.as_str());
    let ghost toks = tokens(normal_seq(input@));
    proof {
        assert(name_views(args@) == toks);
    }
    if args.len() == 0 {
        return Err(CmdError::NoCommand);
    }
    proof {
        assert(toks[0] == args@[0]@);
    }
    match lookup(actions, &args[0]) {
        Some(i) => {
            match actions[i].kind {
                ActionKind::List => list(graph, &args, actions),
                ActionKind::Add => crate::dispatch::add(graph, &args, actions),
                ActionKind::Remove => remove(graph, &args, actions),
                ActionKind::Connect => connect(graph, &args, actions),
                ActionKind::Disconnect => disconnect(graph, &args, actions),
                ActionKind::Filter => filter(graph, &args, actions),
                ActionKind::Inspect => inspect(graph, &args, actions),
                ActionKind::Route => route(graph, &args, actions),
                ActionKind::Schedule => schedule(graph, &args, actions),
                ActionKind::Help => help(graph, &args, actions),
                ActionKind::Quit => quit(graph, &args, actions),
            }
        },
        None => {
            let lines = find_similar(&args[0], actions);
            Ok((true, lines))
        },
    }
}

} // verus!
