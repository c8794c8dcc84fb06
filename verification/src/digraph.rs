//! The directed graph of `petgraph` that holds the sections and the edges
//! between them, and the contracts under which the rest of the library uses it.
//!
//! A graph is described by two sequences, both indexed by node index: the
//! weights of its nodes, and for each node the targets of the edges that leave
//! it. Nothing in this file is proved: each function states what `petgraph`
//! does, and the proofs elsewhere rest on these statements.

use petgraph::algo::all_simple_paths;
use petgraph::graph::{DiGraph, Graph, NodeIndex};
use petgraph::{Directed, Direction};
use vstd::prelude::*;

verus! {

/// `petgraph::Directed`, the marker of a graph whose edges have a direction.
#[verifier::external_type_specification]
#[verifier::external_body]
pub struct ExDirected(Directed);

/// `petgraph::graph::Graph`, of which `DiGraph` is the directed form.
#[verifier::external_type_specification]
#[verifier::external_body]
#[verifier::reject_recursive_types(N)]
#[verifier::reject_recursive_types(E)]
#[verifier::reject_recursive_types(Ty)]
#[verifier::reject_recursive_types(Ix)]
pub struct ExGraph<N, E, Ty, Ix>(Graph<N, E, Ty, Ix>);

/// The weights of the nodes of a graph, by node index.
pub uninterp spec fn graph_weights(g: DiGraph<usize, (), usize>) -> Seq<usize>;

/// For each node index, the targets of the edges that leave that node, in the
/// order in which `Graph::neighbors` lists them: the edge added last comes
/// first. A target that occurs twice stands for two parallel edges.
pub uninterp spec fn graph_successors(g: DiGraph<usize, (), usize>) -> Seq<Seq<usize>>;

/// What `petgraph::algo::all_simple_paths` yields, in the order in which it
/// yields it, on a graph with the given successor lists. The paths are
/// sequences of node indices.
pub uninterp spec fn simple_paths(
    successors: Seq<Seq<usize>>,
    from: usize,
    to: usize,
    min_inner: usize,
    max_inner: usize,
) -> Seq<Seq<usize>>;

/// The successor lists after an edge from `a` to `b` has been asked for: an edge
/// that is there already is not added again, a new one goes to the front of
/// the list of `a`.
pub open spec fn linked(successors: Seq<Seq<usize>>, a: usize, b: usize) -> Seq<Seq<usize>> {
    if successors[a as int].contains(b) {
        successors
    } else {
        successors.update(a as int, seq![b] + successors[a as int])
    }
}

/// The test whether a node is `a`.
pub open spec fn same_as(a: usize) -> spec_fn(usize) -> bool {
    |t: usize| t == a
}

/// The test whether a node is another than `a`.
pub open spec fn other_than(a: usize) -> spec_fn(usize) -> bool {
    |t: usize| t != a
}

/// The number of edges that end in `a`.
pub open spec fn in_degree(successors: Seq<Seq<usize>>, a: usize) -> nat
    decreases successors.len(),
{
    if successors.len() == 0 {
        0
    } else {
        in_degree(successors.drop_last(), a) + successors.last().filter(same_as(a)).len()
    }
}

/// The index that the node at `x` had before node `a` was removed from a graph
/// whose last node was `last`: the last node has moved to the freed index.
pub open spec fn index_before_removal(a: usize, last: usize, x: int) -> int {
    if x == a {
        last as int
    } else {
        x
    }
}

/// The index that a node other than `a` has after node `a` has been removed
/// from a graph whose last node was `last`.
pub open spec fn index_after_removal(a: usize, last: usize) -> spec_fn(usize) -> usize {
    |t: usize|
        if t == last {
            a
        } else {
            t
        }
}

/// The node weights after node `a` has been removed.
pub open spec fn weights_without(weights: Seq<usize>, a: usize) -> Seq<usize> {
    let last = (weights.len() - 1) as usize;
    Seq::new(
        (weights.len() - 1) as nat,
        |x: int| weights[index_before_removal(a, last, x)],
    )
}

/// The successor lists after node `a` has been removed: the edges from and to
/// `a` are gone, the other edges keep their order, and the node that was last
/// is now called `a`.
pub open spec fn successors_without(successors: Seq<Seq<usize>>, a: usize) -> Seq<Seq<usize>> {
    let last = (successors.len() - 1) as usize;
    Seq::new(
        (successors.len() - 1) as nat,
        |x: int|
            successors[index_before_removal(a, last, x)].filter(other_than(a)).map_values(
                index_after_removal(a, last),
            ),
    )
}

/// Whether the graph with these successor lists has an edge from node `u` to
/// node `v`.
pub open spec fn has_edge(successors: Seq<Seq<usize>>, u: usize, v: usize) -> bool {
    u < successors.len() && successors[u as int].contains(v)
}

/// Whether `path` leads along edges from `from` to `to`, passes at least
/// `min_inner` nodes in between, and visits no node twice; only `from` and `to`
/// may be the same node, in which case the path is a cycle.
pub open spec fn is_simple_path(
    successors: Seq<Seq<usize>>,
    from: usize,
    to: usize,
    min_inner: usize,
    path: Seq<usize>,
) -> bool {
    &&& path.len() >= 2 + min_inner
    &&& path[0] == from
    &&& path.last() == to
    &&& path.drop_last().no_duplicates()
    &&& forall|i: int| 1 <= i < path.len() - 1 ==> path[i] != to
    &&& forall|i: int|
        0 <= i < path.len() - 1 ==> has_edge(successors, #[trigger] path[i], path[i + 1])
}

/// Whether no edge occurs twice.
pub open spec fn no_parallel_edges(successors: Seq<Seq<usize>>) -> bool {
    forall|u: int| 0 <= u < successors.len() ==> (#[trigger] successors[u]).no_duplicates()
}

/// Whether every edge ends in one of the nodes.
pub open spec fn targets_in_range(successors: Seq<Seq<usize>>) -> bool {
    forall|u: int, k: int|
        #![trigger successors[u][k]]
        0 <= u < successors.len() && 0 <= k < successors[u].len() ==> successors[u][k]
            < successors.len()
}

/// `Graph::default`: a graph without nodes and without edges.
#[verifier::external_body]
pub(crate) fn empty_graph() -> (g: DiGraph<usize, (), usize>)
    ensures
        graph_weights(g) == Seq::<usize>::empty(),
        graph_successors(g) == Seq::<Seq<usize>>::empty(),
{
    Graph::default()
}

/// `Graph::node_count`: the number of nodes.
#[verifier::external_body]
pub(crate) fn node_count(g: &DiGraph<usize, (), usize>) -> (n: usize)
    ensures
        n == graph_weights(*g).len(),
{
    g.node_count()
}

/// `Graph::add_node`: the new node gets the next index and has no edges. With
/// `usize` indices the graph has no limit of its own on the number of nodes.
#[verifier::external_body]
pub(crate) fn add_node(g: &mut DiGraph<usize, (), usize>, weight: usize) -> (index: usize)
    ensures
        index == graph_weights(*old(g)).len(),
        graph_weights(*final(g)) == graph_weights(*old(g)).push(weight),
        graph_successors(*final(g)) == graph_successors(*old(g)).push(Seq::empty()),
{
    g.add_node(weight).index()
}

/// `Graph::node_weight`: the weight of node `a`, if there is such a node.
#[verifier::external_body]
pub(crate) fn node_weight(g: &DiGraph<usize, (), usize>, a: usize) -> (weight: Option<usize>)
    ensures
        weight == if a < graph_weights(*g).len() {
            Some(graph_weights(*g)[a as int])
        } else {
            None
        },
{
    g.node_weight(NodeIndex::new(a)).copied()
}

/// `Graph::update_edge`: adds the edge from `a` to `b` unless the graph has it
/// already. It panics where one of the two nodes does not exist.
#[verifier::external_body]
pub(crate) fn update_edge(g: &mut DiGraph<usize, (), usize>, a: usize, b: usize)
    requires
        graph_successors(*old(g)).len() == graph_weights(*old(g)).len(),
        a < graph_weights(*old(g)).len(),
        b < graph_weights(*old(g)).len(),
    ensures
        graph_weights(*final(g)) == graph_weights(*old(g)),
        graph_successors(*final(g)) == linked(graph_successors(*old(g)), a, b),
{
    g.update_edge(NodeIndex::new(a), NodeIndex::new(b), ());
}

/// `Graph::neighbors_directed` with `Direction::Incoming`, counted: one for
/// each edge that ends in `a`, none where there is no such node.
#[verifier::external_body]
pub(crate) fn incoming_count(g: &DiGraph<usize, (), usize>, a: usize) -> (count: usize)
    ensures
        count == in_degree(graph_successors(*g), a),
{
    g.neighbors_directed(NodeIndex::new(a), Direction::Incoming).count()
}

/// `Graph::remove_node`: removes node `a` with its edges and hands back its
/// weight. The last node takes over the index `a`. Where there is no node `a`
/// the graph stays as it is.
#[verifier::external_body]
pub(crate) fn remove_node(g: &mut DiGraph<usize, (), usize>, a: usize) -> (weight: Option<usize>)
    requires
        graph_successors(*old(g)).len() == graph_weights(*old(g)).len(),
    ensures
        a < graph_weights(*old(g)).len() ==> {
            &&& weight == Some(graph_weights(*old(g))[a as int])
            &&& graph_weights(*final(g)) == weights_without(graph_weights(*old(g)), a)
            &&& graph_successors(*final(g)) == successors_without(graph_successors(*old(g)), a)
        },
        a >= graph_weights(*old(g)).len() ==> {
            &&& weight is None
            &&& graph_weights(*final(g)) == graph_weights(*old(g))
            &&& graph_successors(*final(g)) == graph_successors(*old(g))
        },
{
    g.remove_node(NodeIndex::new(a))
}

/// `petgraph::algo::all_simple_paths`, collected. With a bound `max_inner` of
/// at least the number of nodes the search is cut nowhere, and it yields each
/// simple path from `from` to `to` that passes at least `min_inner` nodes in
/// between, once for each way of choosing among parallel edges. With
/// `from == to` these are the cycles through that node. It adds one to each of
/// the two bounds, which therefore have to be below the largest number.
#[verifier::external_body]
pub(crate) fn collect_simple_paths(
    g: &DiGraph<usize, (), usize>,
    from: usize,
    to: usize,
    min_inner: usize,
    max_inner: usize,
) -> (paths: Vec<Vec<usize>>)
    requires
        graph_successors(*g).len() == graph_weights(*g).len(),
        from < graph_weights(*g).len(),
        to < graph_weights(*g).len(),
        graph_weights(*g).len() <= max_inner < usize::MAX,
        min_inner < usize::MAX,
    ensures
        paths.deep_view() == simple_paths(graph_successors(*g), from, to, min_inner, max_inner),
        forall|path: Seq<usize>|
            #[trigger] paths.deep_view().contains(path) <==> is_simple_path(
                graph_successors(*g),
                from,
                to,
                min_inner,
                path,
            ),
        no_parallel_edges(graph_successors(*g)) ==> paths.deep_view().no_duplicates(),
{
    all_simple_paths::<Vec<NodeIndex<usize>>, _>(
        g,
        NodeIndex::new(from),
        NodeIndex::new(to),
        min_inner,
        Some(max_inner),
    ).map(|path| path.into_iter().map(|node| node.index()).collect()).collect()
}

} // verus!
