//! Paradoxes: the cycles of the precedence graph, and the messages that report
//! them.

use crate::digraph::{
    collect_simple_paths, graph_successors, graph_weights, has_edge, is_simple_path,
    no_parallel_edges, node_count, simple_paths,
};
use crate::numerals::{append_decimal, decimal};
use petgraph::graph::DiGraph;
use vstd::prelude::*;
use vstd::string::*;

verus! {

/// Whether `path` is a cycle through node `v`: it leads along edges from `v`
/// back to `v` and visits no other node twice. An edge from `v` to itself is
/// such a cycle, of length one.
pub open spec fn is_cycle(successors: Seq<Seq<usize>>, v: usize, path: Seq<usize>) -> bool {
    is_simple_path(successors, v, v, 0, path)
}

/// Whether no node lies on a cycle.
pub open spec fn acyclic(successors: Seq<Seq<usize>>) -> bool {
    forall|v: usize, path: Seq<usize>| !is_cycle(successors, v, path)
}

/// The cycles through node `v`, in the order in which the search finds them in
/// a graph with these successor lists.
pub open spec fn cycles_through(successors: Seq<Seq<usize>>, v: usize) -> Seq<Seq<usize>> {
    if v < successors.len() {
        simple_paths(successors, v, v, 0, successors.len() as usize)
    } else {
        Seq::empty()
    }
}

/// The paths of a list of paths.
pub proof fn lemma_paths_view(paths: Vec<Vec<usize>>)
    ensures
        paths.deep_view().len() == paths@.len(),
        forall|i: int| 0 <= i < paths@.len() ==> #[trigger] paths.deep_view()[i] == paths@[i]@,
{
    assert forall|i: int| 0 <= i < paths@.len() implies #[trigger] paths.deep_view()[i]
        == paths@[i]@ by {
        assert(paths@[i].deep_view() =~= paths@[i]@);
    }
}

/// Finds the cycles through the node `index` of `graph`. Each cycle begins and
/// ends with `index`; where there is none, the result is empty. A graph can
/// have very many cycles, so this is meant for graphs as small as the number
/// of sections of a manuscript makes them.
pub fn find_cycle(graph: &DiGraph<usize, (), usize>, index: usize) -> (cycles: Vec<Vec<usize>>)
    requires
        graph_successors(*graph).len() == graph_weights(*graph).len() < usize::MAX,
    ensures
        cycles.deep_view() == cycles_through(graph_successors(*graph), index),
        forall|path: Seq<usize>|
            #[trigger] cycles.deep_view().contains(path) <==> is_cycle(
                graph_successors(*graph),
                index,
                path,
            ),
        no_parallel_edges(graph_successors(*graph)) ==> cycles.deep_view().no_duplicates(),
{
    let count = node_count(graph);
    if index < count {
        // A cycle may pass through every node, so the search is given the
        // number of nodes as its bound.
        collect_simple_paths(graph, index, index, 0, count)
    } else {
        let cycles: Vec<Vec<usize>> = Vec::new();
        proof {
            lemma_paths_view(cycles);
            assert(cycles.deep_view() =~= Seq::<Seq<usize>>::empty());
            assert forall|path: Seq<usize>| !is_cycle(graph_successors(*graph), index, path) by {
                if is_cycle(graph_successors(*graph), index, path) {
                    assert(has_edge(graph_successors(*graph), path[0], path[1]));
                }
            }
        }
        cycles
    }
}

/// One line of a message: that one section must come before another. The
/// sections are given by their nodes and named by their one-based numbers.
pub open spec fn step_text(earlier: usize, later: usize) -> Seq<char> {
    "\t\u{a7}"@ + decimal((earlier + 1) as nat) + " must come before \u{a7}"@ + decimal(
        (later + 1) as nat,
    ) + "\n"@
}

/// The lines for the first `steps` steps of `cycle`.
pub open spec fn steps_text(cycle: Seq<usize>, steps: int) -> Seq<char>
    decreases steps,
{
    if steps <= 0 {
        Seq::empty()
    } else {
        steps_text(cycle, steps - 1) + step_text(cycle[steps - 1], cycle[steps])
    }
}

/// The report of one cycle: a heading, and a line for each step from a node of
/// the cycle to the next.
pub open spec fn cycle_text(cycle: Seq<usize>) -> Seq<char> {
    "Paradox detected:\n"@ + steps_text(cycle, cycle.len() - 1)
}

/// The message for a section: the reports of its cycles, one after the other.
pub open spec fn paradox_text(cycles: Seq<Seq<usize>>) -> Seq<char>
    decreases cycles.len(),
{
    if cycles.len() == 0 {
        Seq::empty()
    } else {
        paradox_text(cycles.drop_last()) + cycle_text(cycles.last())
    }
}

/// Writes the message that reports `cycles`.
pub fn paradox_message(cycles: &Vec<Vec<usize>>) -> (message: String)
    ensures
        message@ == paradox_text(cycles.deep_view()),
{
    let mut message = String::new();
    let ghost paths = cycles.deep_view();
    proof {
        lemma_paths_view(*cycles);
    }
    let mut number: usize = 0;
    while number < cycles.len()
        invariant
            number <= cycles.len(),
            paths == cycles.deep_view(),
            paths.len() == cycles@.len(),
            forall|i: int| 0 <= i < cycles@.len() ==> #[trigger] paths[i] == cycles@[i]@,
            message@ == paradox_text(paths.take(number as int)),
        decreases cycles.len() - number,
    {
        let cycle = &cycles[number];
        let ghost reported = message@;
        message.append("Paradox detected:\n");
        let mut step: usize = 1;
        while step < cycle.len()
            invariant
                1 <= step,
                step == 1 || step <= cycle.len(),
                message@ == reported + "Paradox detected:\n"@ + steps_text(cycle@, step - 1),
            decreases cycle.len() - step,
        {
            let earlier = cycle[step - 1];
            let later = cycle[step];
            let ghost lines = message@;
            message.append("\t\u{a7}");
            append_decimal(&mut message, earlier as u128 + 1);
            message.append(" must come before \u{a7}");
            append_decimal(&mut message, later as u128 + 1);
            message.append("\n");
            assert(message@ =~= lines + step_text(earlier, later));
            step += 1;
            assert(message@ =~= reported + "Paradox detected:\n"@ + steps_text(
                cycle@,
                step - 1,
            ));
        }
        proof {
            assert(steps_text(cycle@, step - 1) == steps_text(cycle@, cycle@.len() - 1)) by {
                if cycle.len() == 0 {
                    assert(steps_text(cycle@, 0) == Seq::<char>::empty());
                    assert(steps_text(cycle@, -1) == Seq::<char>::empty());
                }
            }
            assert(paths.take(number + 1).drop_last() =~= paths.take(number as int));
            assert(paths.take(number + 1).last() == cycle@);
            assert(message@ =~= reported + cycle_text(cycle@));
        }
        number += 1;
    }
    assert(paths.take(number as int) =~= paths);
    message
}

} // verus!
