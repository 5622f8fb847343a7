//! Trusted boundary around petgraph's directed multigraph, which stores the
//! automaton's transitions. The graph's contents are named by two
//! uninterpreted functions, `graph_nodes` and `graph_edge_list`, and every
//! wrapper states over those names what petgraph's source shows.

use vstd::prelude::*;
use vstd::multiset::Multiset;
use petgraph::visit::EdgeRef;

verus! {

#[verifier::external_type_specification]
#[verifier::external_body]
pub struct ExDirected(petgraph::Directed);

#[verifier::external_type_specification]
#[verifier::external_body]
#[verifier::reject_recursive_types(N)]
#[verifier::reject_recursive_types(E)]
#[verifier::reject_recursive_types(Ty)]
#[verifier::reject_recursive_types(Ix)]
pub struct ExGraph<N, E, Ty, Ix>(petgraph::graph::Graph<N, E, Ty, Ix>);

/// How many nodes the graph holds; nodes are indexed `0 .. graph_nodes(g)`.
pub uninterp spec fn graph_nodes(g: petgraph::graph::Graph<u16, char>) -> nat;

/// The graph's edges as (source index, label, target index) triples, in
/// insertion order.
pub uninterp spec fn graph_edge_list(g: petgraph::graph::Graph<u16, char>) -> Seq<(nat, char, nat)>;

/// The multiset of (label, target) pairs of the edges leaving `from`.
pub open spec fn out_edges(edges: Seq<(nat, char, nat)>, from: nat) -> Multiset<(char, nat)>
    decreases edges.len(),
{
    if edges.len() == 0 {
        Multiset::empty()
    } else {
        let rest = out_edges(edges.drop_last(), from);
        if edges.last().0 == from {
            rest.insert((edges.last().1, edges.last().2))
        } else {
            rest
        }
    }
}

/// Relies on petgraph's `Graph::new`: a graph with no nodes and no edges.
#[verifier::external_body]
pub(crate) fn graph_new() -> (g: petgraph::graph::Graph<u16, char>)
    ensures
        graph_nodes(g) == 0,
        graph_edge_list(g) == Seq::<(nat, char, nat)>::empty(),
{
    petgraph::graph::Graph::new()
}

/// Relies on petgraph's `Graph::add_node`: it appends one node and returns
/// its index; indices are handed out consecutively from zero. It panics only
/// once the node count reaches the `u32` index limit, which the precondition
/// rules out.
#[verifier::external_body]
pub(crate) fn graph_add_node(g: &mut petgraph::graph::Graph<u16, char>, label: u16) -> (ix: usize)
    requires
        graph_nodes(*old(g)) < 0xFFFF_FFFF,
    ensures
        ix as nat == graph_nodes(*old(g)),
        graph_nodes(*final(g)) == graph_nodes(*old(g)) + 1,
        graph_edge_list(*final(g)) == graph_edge_list(*old(g)),
{
    g.add_node(label).index()
}

/// Relies on petgraph's `Graph::add_edge`: it appends one directed edge from
/// `a` to `b` carrying `sym`; edges keep their insertion order. It panics
/// only on a missing endpoint or once the edge count reaches the `u32` index
/// limit, which the preconditions rule out.
#[verifier::external_body]
pub(crate) fn graph_add_edge(g: &mut petgraph::graph::Graph<u16, char>, a: usize, b: usize, sym: char)
    requires
        (a as nat) < graph_nodes(*old(g)),
        (b as nat) < graph_nodes(*old(g)),
        graph_edge_list(*old(g)).len() < 0xFFFF_FFFF,
    ensures
        graph_nodes(*final(g)) == graph_nodes(*old(g)),
        graph_edge_list(*final(g)) == graph_edge_list(*old(g)).push((a as nat, sym, b as nat)),
{
    g.add_edge(
        petgraph::graph::NodeIndex::new(a),
        petgraph::graph::NodeIndex::new(b),
        sym,
    );
}

/// Relies on petgraph's `Graph::node_count`: the number of nodes.
#[verifier::external_body]
pub(crate) fn graph_node_count(g: &petgraph::graph::Graph<u16, char>) -> (n: usize)
    ensures
        n as nat == graph_nodes(*g),
{
    g.node_count()
}

/// Relies on petgraph's `Graph::edges_directed` with `Direction::Outgoing`:
/// on a directed graph it yields exactly the edges whose source is the given
/// node, each once (most recently added first). The precondition keeps the
/// index inside the graph, where `NodeIndex::new` cannot truncate it.
#[verifier::external_body]
pub(crate) fn graph_edges_from(g: &petgraph::graph::Graph<u16, char>, from: usize) -> (out: Vec<
    (char, usize),
>)
    requires
        (from as nat) < graph_nodes(*g),
    ensures
        out@.map_values(|p: (char, usize)| (p.0, p.1 as nat)).to_multiset() == out_edges(
            graph_edge_list(*g),
            from as nat,
        ),
{
    g.edges_directed(petgraph::graph::NodeIndex::new(from), petgraph::Direction::Outgoing)
        .map(|e| (*e.weight(), e.target().index()))
        .collect()
}

/// An edge of `edges` leaving `from` appears in `out_edges`, and conversely.
pub proof fn lemma_out_edges_membership(edges: Seq<(nat, char, nat)>, from: nat, sym: char, tgt: nat)
    ensures
        out_edges(edges, from).count((sym, tgt)) > 0 <==> edges.contains((from, sym, tgt)),
    decreases edges.len(),
{
    if edges.len() == 0 {
        assert(!edges.contains((from, sym, tgt)));
    } else {
        lemma_out_edges_membership(edges.drop_last(), from, sym, tgt);
        assert(edges.drop_last().contains((from, sym, tgt)) || edges.last() == ((from, sym, tgt))
            <==> edges.contains((from, sym, tgt))) by {
            if edges.contains((from, sym, tgt)) {
                let k = choose|k: int|
                    0 <= k < edges.len() && edges[k] == ((from, sym, tgt));
                if k < edges.len() - 1 {
                    assert(edges.drop_last()[k] == ((from, sym, tgt)));
                }
            }
            if edges.drop_last().contains((from, sym, tgt)) {
                let k = choose|k: int|
                    0 <= k < edges.drop_last().len() && edges.drop_last()[k] == ((from, sym, tgt));
                assert(edges[k] == ((from, sym, tgt)));
            }
        }
    }
}

} // verus!
