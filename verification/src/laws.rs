//! What holds of the library as a whole, proved from the contracts of its
//! functions.

use crate::constraints::{message_view, rules_of, Constraints, Rule};
use crate::digraph::{graph_successors, graph_weights, has_edge};
use crate::extension::is_linear_extension;
use crate::paradox::acyclic;
use crate::precedence::{
    is_precedence_graph, lemma_precedence_edges, precedence_successors, references_in_range,
    wants_edge,
};
use crate::shuffler::marked;
use petgraph::graph::DiGraph;
use vstd::prelude::*;

verus! {

/// Building is deterministic: two precedence graphs built from the same rules
/// have the same nodes with the same weights and the same edges, in the same
/// places.
pub proof fn lemma_builds_agree(
    rules: Seq<Rule>,
    first: DiGraph<usize, (), usize>,
    second: DiGraph<usize, (), usize>,
)
    requires
        is_precedence_graph(first, rules),
        is_precedence_graph(second, rules),
    ensures
        graph_weights(first) == graph_weights(second),
        graph_successors(first) == graph_successors(second),
        forall|u: usize, v: usize|
            has_edge(graph_successors(first), u, v) <==> has_edge(graph_successors(second), u, v),
{
}

/// The graph depends on the rules alone: constraints that differ in their
/// texts and messages only lead to the same graph.
pub proof fn lemma_graph_depends_on_rules(first: Seq<Constraints>, second: Seq<Constraints>)
    requires
        first.len() == second.len(),
        forall|i: int|
            0 <= i < first.len() ==> first[i].fixed == second[i].fixed && first[i].before@
                == second[i].before@,
    ensures
        precedence_successors(rules_of(first)) == precedence_successors(rules_of(second)),
{
    assert(rules_of(first) =~= rules_of(second));
}

/// An ordering respects the constraints: a linear extension of the precedence
/// graph puts a section before every section that the rules want after it.
pub proof fn lemma_order_respects_rules(rules: Seq<Rule>, order: Seq<usize>)
    requires
        rules.len() <= usize::MAX,
        references_in_range(rules),
        is_linear_extension(precedence_successors(rules), order),
    ensures
        forall|i: int, j: int|
            0 <= i < order.len() && 0 <= j < order.len() && wants_edge(
                rules,
                #[trigger] order[i],
                #[trigger] order[j],
            ) ==> i < j,
{
    lemma_precedence_edges(rules);
    let successors = precedence_successors(rules);
    assert forall|i: int, j: int|
        0 <= i < order.len() && 0 <= j < order.len() && wants_edge(
            rules,
            #[trigger] order[i],
            #[trigger] order[j],
        ) implies i < j by {
        assert(has_edge(successors, order[i], order[j]));
    }
}

/// A fixed first section comes first in every ordering.
pub proof fn lemma_fixed_first_comes_first(rules: Seq<Rule>, order: Seq<usize>)
    requires
        0 < rules.len() <= usize::MAX,
        references_in_range(rules),
        rules[0].fixed,
        is_linear_extension(precedence_successors(rules), order),
    ensures
        order[0] == 0,
{
    lemma_precedence_edges(rules);
    let successors = precedence_successors(rules);
    if order[0] != 0 {
        assert(order.contains(0usize));
        let i = choose|i: int| 0 <= i < order.len() && order[i] == 0usize;
        assert(wants_edge(rules, 0usize, order[0]));
        assert(has_edge(successors, order[i], order[0]));
    }
}

/// A fixed last section comes last in every ordering.
pub proof fn lemma_fixed_last_comes_last(rules: Seq<Rule>, order: Seq<usize>)
    requires
        0 < rules.len() <= usize::MAX,
        references_in_range(rules),
        rules[rules.len() - 1].fixed,
        is_linear_extension(precedence_successors(rules), order),
    ensures
        order[order.len() - 1] == rules.len() - 1,
{
    lemma_precedence_edges(rules);
    let successors = precedence_successors(rules);
    let end = (rules.len() - 1) as usize;
    let at_end = order[order.len() - 1];
    if at_end != end {
        assert(order.contains(end));
        let j = choose|j: int| 0 <= j < order.len() && order[j] == end;
        assert(wants_edge(rules, at_end, end));
        assert(has_edge(successors, order[order.len() - 1], order[j]));
    }
}

/// Marking is idempotent: where the paradoxes are marked a second time, every
/// section carries the message that it carried after the first time, and
/// whether there is a graph to shuffle comes out the same.
pub proof fn lemma_marking_is_idempotent(
    before: Seq<Constraints>,
    once: Seq<Constraints>,
    twice: Seq<Constraints>,
)
    requires
        marked(before, once),
        marked(once, twice),
    ensures
        marked(before, twice),
        forall|i: int|
            0 <= i < before.len() ==> message_view(twice[i].paradox_error) == message_view(
                once[i].paradox_error,
            ),
        acyclic(precedence_successors(rules_of(once))) == acyclic(
            precedence_successors(rules_of(before)),
        ),
{
    assert(rules_of(once) =~= rules_of(before));
}

} // verus!
