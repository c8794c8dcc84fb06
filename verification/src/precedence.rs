//! The precedence graph of a list of constraints: a node for each section,
//! and an edge from one node to another where the first section must come
//! before the second.
//!
//! Which edges the graph has is said by `wants_edge`. In which order the
//! builder asks for them, and so where each stands in the list of its node,
//! is said by `precedence_successors`; `lemma_precedence_edges` shows that the
//! two agree.

use crate::constraints::{rules_of, Constraints, Rule};
use crate::digraph::{
    add_node, empty_graph, graph_successors, graph_weights, has_edge, linked, no_parallel_edges,
    targets_in_range, update_edge,
};
use petgraph::graph::DiGraph;
use vstd::prelude::*;

verus! {

/// Whether every section number in every `before` list names a section.
pub open spec fn references_in_range(rules: Seq<Rule>) -> bool {
    forall|i: int, k: int|
        #![trigger rules[i].before[k]]
        0 <= i < rules.len() && 0 <= k < rules[i].before.len() ==> 1 <= rules[i].before[k]
            <= rules.len()
}

/// The weights of the nodes of a precedence graph of `n` sections: node `i`
/// carries the one-based number `i + 1` of its section.
pub open spec fn section_numbers(n: nat) -> Seq<usize> {
    Seq::new(n, |i: int| (i + 1) as usize)
}

/// The edges asked for on account of a fixed first section: from the first
/// node to every other.
pub open spec fn fixed_first_requests(rules: Seq<Rule>, i: int) -> Seq<(usize, usize)> {
    if i == 0 && rules[0].fixed {
        Seq::new((rules.len() - 1) as nat, |k: int| (0usize, (k + 1) as usize))
    } else {
        Seq::empty()
    }
}

/// The edges asked for on account of a fixed last section: from every other
/// node to the last.
pub open spec fn fixed_last_requests(rules: Seq<Rule>, i: int) -> Seq<(usize, usize)> {
    if i == rules.len() - 1 && rules[i].fixed {
        Seq::new((rules.len() - 1) as nat, |k: int| (k as usize, i as usize))
    } else {
        Seq::empty()
    }
}

/// The edges asked for by the `before` list of section `i`.
pub open spec fn before_requests(rules: Seq<Rule>, i: int) -> Seq<(usize, usize)> {
    rules[i].before.map_values(|r: usize| (i as usize, (r - 1) as usize))
}

/// The edges asked for when section `i` is taken up, in order.
pub open spec fn requests_at(rules: Seq<Rule>, i: int) -> Seq<(usize, usize)> {
    fixed_first_requests(rules, i) + fixed_last_requests(rules, i) + before_requests(rules, i)
}

/// The edges asked for by the first `m` sections, in order.
pub open spec fn requests_upto(rules: Seq<Rule>, m: int) -> Seq<(usize, usize)>
    decreases m,
{
    if m <= 0 {
        Seq::empty()
    } else {
        requests_upto(rules, m - 1) + requests_at(rules, m - 1)
    }
}

/// The successor lists after each of `requests` has been asked for, in order.
pub open spec fn linked_all(successors: Seq<Seq<usize>>, requests: Seq<(usize, usize)>) -> Seq<
    Seq<usize>,
>
    decreases requests.len(),
{
    if requests.len() == 0 {
        successors
    } else {
        linked(linked_all(successors, requests.drop_last()), requests.last().0, requests.last().1)
    }
}

/// The successor lists of `n` nodes without edges.
pub open spec fn unlinked(n: nat) -> Seq<Seq<usize>> {
    Seq::new(n, |i: int| Seq::<usize>::empty())
}

/// The successor lists of the precedence graph of `rules`.
pub open spec fn precedence_successors(rules: Seq<Rule>) -> Seq<Seq<usize>> {
    linked_all(unlinked(rules.len()), requests_upto(rules, rules.len() as int))
}

/// Whether `rules` want an edge from node `u` to node `v`: the first section is
/// fixed and `u` is its node, or the last section is fixed and `v` is its
/// node, or section `u` lists the number of section `v`.
pub open spec fn wants_edge(rules: Seq<Rule>, u: usize, v: usize) -> bool {
    &&& u < rules.len()
    &&& v < rules.len()
    &&& {
        ||| u == 0 && v != 0 && rules[0].fixed
        ||| v == rules.len() - 1 && u != v && rules[v as int].fixed
        ||| lists(rules[u as int], v)
    }
}

/// Whether the `before` list of `rule` holds the one-based number of the section
/// at node `v`.
pub open spec fn lists(rule: Rule, v: usize) -> bool {
    exists|k: int| 0 <= k < rule.before.len() && #[trigger] rule.before[k] == v + 1
}

/// Whether `g` is a graph of sections: node `i` carries the one-based number
/// `i + 1` of its section, and every edge joins two of the nodes.
pub open spec fn is_section_graph(g: DiGraph<usize, (), usize>) -> bool {
    &&& graph_weights(g) == section_numbers(graph_successors(g).len())
    &&& targets_in_range(graph_successors(g))
}

/// Whether `g` is the precedence graph of `rules`: one node for each section,
/// which carries the number of the section, and the edges that the rules ask
/// for, each in the place in which the builder puts it.
pub open spec fn is_precedence_graph(g: DiGraph<usize, (), usize>, rules: Seq<Rule>) -> bool {
    &&& graph_weights(g) == section_numbers(rules.len())
    &&& graph_successors(g) == precedence_successors(rules)
}

/// Whether every edge asked for joins two of `n` nodes.
pub open spec fn requests_in_range(requests: Seq<(usize, usize)>, n: nat) -> bool {
    forall|k: int|
        0 <= k < requests.len() ==> (#[trigger] requests[k]).0 < n && requests[k].1 < n
}

proof fn lemma_linked_all_push(
    successors: Seq<Seq<usize>>,
    requests: Seq<(usize, usize)>,
    request: (usize, usize),
)
    ensures
        linked_all(successors, requests.push(request)) == linked(
            linked_all(successors, requests),
            request.0,
            request.1,
        ),
{
    assert(requests.push(request).drop_last() =~= requests);
}

/// One more edge: the graph has the edges that it had, and the new one.
proof fn lemma_linked(successors: Seq<Seq<usize>>, a: usize, b: usize)
    requires
        a < successors.len(),
        b < successors.len(),
    ensures
        linked(successors, a, b).len() == successors.len(),
        forall|u: usize, v: usize|
            #![trigger has_edge(linked(successors, a, b), u, v)]
            has_edge(linked(successors, a, b), u, v) <==> has_edge(successors, u, v) || (u == a
                && v == b),
        no_parallel_edges(successors) ==> no_parallel_edges(linked(successors, a, b)),
        targets_in_range(successors) ==> targets_in_range(linked(successors, a, b)),
{
    let after = linked(successors, a, b);
    let old_list = successors[a as int];
    if old_list.contains(b) {
    } else {
        let new_list = seq![b] + old_list;
        assert(after[a as int] == new_list);
        assert(new_list[0] == b);
        assert forall|u: usize, v: usize| #![trigger has_edge(after, u, v)] has_edge(after, u, v)
            <==> has_edge(successors, u, v) || (u == a && v == b) by {
            if u == a {
                if old_list.contains(v) {
                    let k = choose|k: int| 0 <= k < old_list.len() && old_list[k] == v;
                    assert(new_list[k + 1] == v);
                }
                if new_list.contains(v) && v != b {
                    let k = choose|k: int| 0 <= k < new_list.len() && new_list[k] == v;
                    assert(old_list[k - 1] == v);
                }
            } else if u < successors.len() {
                assert(after[u as int] == successors[u as int]);
            }
        }
        if no_parallel_edges(successors) {
            assert forall|u: int| 0 <= u < after.len() implies (
            #[trigger] after[u]).no_duplicates() by {
                if u == a {
                    assert(old_list.no_duplicates());
                    assert forall|i: int, j: int|
                        0 <= i < new_list.len() && 0 <= j < new_list.len() && i
                            != j implies new_list[i] != new_list[j] by {
                        if i > 0 && j > 0 {
                            assert(old_list[i - 1] != old_list[j - 1]);
                        } else if i > 0 {
                            assert(old_list[i - 1] == new_list[i]);
                        } else {
                            assert(old_list[j - 1] == new_list[j]);
                        }
                    }
                } else {
                    assert(after[u] == successors[u]);
                }
            }
        }
        if targets_in_range(successors) {
            assert forall|u: int, k: int|
                #![trigger after[u][k]]
                0 <= u < after.len() && 0 <= k < after[u].len() implies after[u][k]
                    < after.len() by {
                if u == a {
                    if k > 0 {
                        assert(new_list[k] == successors[u][k - 1]);
                    }
                } else {
                    assert(after[u][k] == successors[u][k]);
                }
            }
        }
    }
}

/// Edges asked for one after the other: the graph has the edges that it had,
/// and those asked for, none of them twice.
proof fn lemma_linked_all(successors: Seq<Seq<usize>>, requests: Seq<(usize, usize)>)
    requires
        requests_in_range(requests, successors.len()),
    ensures
        linked_all(successors, requests).len() == successors.len(),
        forall|u: usize, v: usize|
            #![trigger has_edge(linked_all(successors, requests), u, v)]
            has_edge(linked_all(successors, requests), u, v) <==> has_edge(successors, u, v)
                || requests.contains((u, v)),
        no_parallel_edges(successors) ==> no_parallel_edges(linked_all(successors, requests)),
        targets_in_range(successors) ==> targets_in_range(linked_all(successors, requests)),
    decreases requests.len(),
{
    if requests.len() > 0 {
        let earlier = requests.drop_last();
        let request = requests.last();
        let before = linked_all(successors, earlier);
        let after = linked_all(successors, requests);
        lemma_linked_all(successors, earlier);
        lemma_linked(before, request.0, request.1);
        assert(after == linked(before, request.0, request.1));
        assert forall|u: usize, v: usize| #![trigger has_edge(after, u, v)] has_edge(after, u, v)
            <==> has_edge(successors, u, v) || requests.contains((u, v)) by {
            assert(has_edge(after, u, v) <==> has_edge(before, u, v) || (u == request.0 && v
                == request.1));
            if earlier.contains((u, v)) {
                let k = choose|k: int| 0 <= k < earlier.len() && earlier[k] == (u, v);
                assert(requests[k] == (u, v));
            }
            if requests.contains((u, v)) {
                let k = choose|k: int| 0 <= k < requests.len() && requests[k] == (u, v);
                if k < earlier.len() {
                    assert(earlier[k] == (u, v));
                }
            }
            if u == request.0 && v == request.1 {
                assert(requests[requests.len() - 1] == (u, v));
            }
        }
    }
}

/// Which edges are asked for when section `i` is taken up.
proof fn lemma_requests_at(rules: Seq<Rule>, i: int, u: usize, v: usize)
    requires
        0 <= i < rules.len() <= usize::MAX,
        references_in_range(rules),
    ensures
        requests_at(rules, i).contains((u, v)) <==> {
            ||| i == 0 && rules[0].fixed && u == 0 && 1 <= v < rules.len()
            ||| i == rules.len() - 1 && rules[i].fixed && v == i && u < i
            ||| u == i && lists(rules[i], v)
        },
        requests_in_range(requests_at(rules, i), rules.len()),
{
    let first = fixed_first_requests(rules, i);
    let last = fixed_last_requests(rules, i);
    let listed = before_requests(rules, i);
    let all = requests_at(rules, i);
    let n = rules.len();
    assert forall|k: int| 0 <= k < all.len() implies (#[trigger] all[k]).0 < n && all[k].1 < n by {
        if k < first.len() {
            assert(all[k] == first[k]);
        } else if k < first.len() + last.len() {
            assert(all[k] == last[k - first.len()]);
        } else {
            let j = k - first.len() - last.len();
            assert(all[k] == listed[j]);
            assert(1 <= rules[i].before[j] <= n);
        }
    }
    if all.contains((u, v)) {
        let k = choose|k: int| 0 <= k < all.len() && all[k] == (u, v);
        if k < first.len() {
            assert(all[k] == first[k]);
        } else if k < first.len() + last.len() {
            assert(all[k] == last[k - first.len()]);
        } else {
            let j = k - first.len() - last.len();
            assert(all[k] == listed[j]);
            assert(1 <= rules[i].before[j] <= n);
            assert(rules[i].before[j] == v + 1);
        }
    }
    if i == 0 && rules[0].fixed && u == 0 && 1 <= v < n {
        assert(first[v - 1] == (u, v));
        assert(all[v - 1] == (u, v));
    }
    if i == n - 1 && rules[i].fixed && v == i && u < i {
        assert(last[u as int] == (u, v));
        assert(all[first.len() + u] == (u, v));
    }
    if u == i && lists(rules[i], v) {
        let j = choose|j: int|
            0 <= j < rules[i].before.len() && #[trigger] rules[i].before[j] == v + 1;
        assert(listed[j] == (u, v));
        assert(all[first.len() + last.len() + j] == (u, v));
    }
}

/// Which edges are asked for by the first `m` sections.
proof fn lemma_requests_upto(rules: Seq<Rule>, m: int, u: usize, v: usize)
    requires
        0 <= m <= rules.len() <= usize::MAX,
        references_in_range(rules),
    ensures
        requests_upto(rules, m).contains((u, v)) <==> exists|i: int|
            0 <= i < m && #[trigger] requests_at(rules, i).contains((u, v)),
        requests_in_range(requests_upto(rules, m), rules.len()),
    decreases m,
{
    if m > 0 {
        let earlier = requests_upto(rules, m - 1);
        let now = requests_at(rules, m - 1);
        let all = requests_upto(rules, m);
        lemma_requests_upto(rules, m - 1, u, v);
        lemma_requests_at(rules, m - 1, u, v);
        assert(all == earlier + now);
        assert forall|k: int| 0 <= k < all.len() implies (#[trigger] all[k]).0 < rules.len()
            && all[k].1 < rules.len() by {
            if k < earlier.len() {
                assert(all[k] == earlier[k]);
            } else {
                assert(all[k] == now[k - earlier.len()]);
            }
        }
        if all.contains((u, v)) {
            let k = choose|k: int| 0 <= k < all.len() && all[k] == (u, v);
            if k < earlier.len() {
                assert(earlier[k] == (u, v));
                assert(earlier.contains((u, v)));
            } else {
                assert(now[k - earlier.len()] == (u, v));
                assert(requests_at(rules, m - 1).contains((u, v)));
            }
        }
        if earlier.contains((u, v)) {
            let k = choose|k: int| 0 <= k < earlier.len() && earlier[k] == (u, v);
            assert(all[k] == (u, v));
        }
        if now.contains((u, v)) {
            let k = choose|k: int| 0 <= k < now.len() && now[k] == (u, v);
            assert(all[earlier.len() + k] == (u, v));
        }
    }
}

/// The precedence graph has one successor list for each section, the edges
/// that the rules want and no others, none of them twice.
pub proof fn lemma_precedence_edges(rules: Seq<Rule>)
    requires
        rules.len() <= usize::MAX,
        references_in_range(rules),
    ensures
        precedence_successors(rules).len() == rules.len(),
        forall|u: usize, v: usize|
            #![trigger has_edge(precedence_successors(rules), u, v)]
            has_edge(precedence_successors(rules), u, v) <==> wants_edge(rules, u, v),
        no_parallel_edges(precedence_successors(rules)),
        targets_in_range(precedence_successors(rules)),
{
    let n = rules.len();
    let requests = requests_upto(rules, n as int);
    let built = precedence_successors(rules);
    lemma_requests_upto(rules, n as int, 0, 0);
    lemma_linked_all(unlinked(n), requests);
    assert forall|u: usize, v: usize| #![trigger has_edge(built, u, v)] has_edge(built, u, v)
        <==> wants_edge(rules, u, v) by {
        lemma_requests_upto(rules, n as int, u, v);
        assert(!has_edge(unlinked(n), u, v));
        if requests.contains((u, v)) {
            let i = choose|i: int| 0 <= i < n && #[trigger] requests_at(rules, i).contains((u, v));
            lemma_requests_at(rules, i, u, v);
        }
        if wants_edge(rules, u, v) {
            if u == 0 && v != 0 && rules[0].fixed {
                lemma_requests_at(rules, 0, u, v);
                assert(requests_at(rules, 0).contains((u, v)));
            } else if v == n - 1 && u != v && rules[v as int].fixed {
                lemma_requests_at(rules, v as int, u, v);
                assert(requests_at(rules, v as int).contains((u, v)));
            } else {
                lemma_requests_at(rules, u as int, u, v);
                assert(requests_at(rules, u as int).contains((u, v)));
            }
        }
    }
}

/// Whether every section number in every `before` list names a section.
pub fn check_references(constraints: &[Constraints]) -> (in_range: bool)
    ensures
        in_range == references_in_range(rules_of(constraints@)),
{
    let count = constraints.len();
    let ghost rules = rules_of(constraints@);
    let mut index: usize = 0;
    while index < count
        invariant
            index <= count,
            count == constraints@.len(),
            rules == rules_of(constraints@),
            forall|i: int, k: int|
                #![trigger rules[i].before[k]]
                0 <= i < index && 0 <= k < rules[i].before.len() ==> 1 <= rules[i].before[k]
                    <= count,
        decreases count - index,
    {
        let before = &constraints[index].before;
        let mut position: usize = 0;
        while position < before.len()
            invariant
                index < count,
                count == constraints@.len(),
                rules == rules_of(constraints@),
                before@ == rules[index as int].before,
                position <= before.len(),
                forall|k: int|
                    #![trigger rules[index as int].before[k]]
                    0 <= k < position ==> 1 <= rules[index as int].before[k] <= count,
            decreases before.len() - position,
        {
            let reference = before[position];
            if reference < 1 || reference > count {
                assert(!(1 <= rules[index as int].before[position as int] <= rules.len()));
                return false;
            }
            position += 1;
        }
        index += 1;
    }
    true
}

/// Builds the precedence graph of `constraints`: a directed graph with one
/// node for each section, in order, whose weight is the one-based number of
/// the section, and with an edge from one node to another where the section
/// of the first must come before the section of the second. A fixed first
/// section comes before every other, a fixed last section after every other,
/// and each section before those that its `before` list names. No edge is
/// added twice.
pub fn compute_graph(constraints: &[Constraints]) -> (graph: DiGraph<usize, (), usize>)
    requires
        references_in_range(rules_of(constraints@)),
    ensures
        is_precedence_graph(graph, rules_of(constraints@)),
        is_section_graph(graph),
        graph_successors(graph).len() == constraints@.len(),
        forall|u: usize, v: usize|
            #![trigger has_edge(graph_successors(graph), u, v)]
            has_edge(graph_successors(graph), u, v) <==> wants_edge(rules_of(constraints@), u, v),
        no_parallel_edges(graph_successors(graph)),
{
    let mut graph = empty_graph();
    let count = constraints.len();
    let ghost rules = rules_of(constraints@);
    proof {
        lemma_precedence_edges(rules);
    }
    if count == 0 {
        assert(graph_weights(graph) =~= section_numbers(0));
        assert(graph_successors(graph) =~= unlinked(0));
        return graph;
    }
    // The nodes come first, so that every edge finds both of its ends.
    let mut index: usize = 0;
    while index < count
        invariant
            index <= count,
            graph_weights(graph) == section_numbers(index as nat),
            graph_successors(graph) == unlinked(index as nat),
        decreases count - index,
    {
        add_node(&mut graph, index + 1);
        index += 1;
        assert(graph_weights(graph) =~= section_numbers(index as nat));
        assert(graph_successors(graph) =~= unlinked(index as nat));
    }
    let ghost mut done: Seq<(usize, usize)> = Seq::empty();
    index = 0;
    while index < count
        invariant
            index <= count,
            0 < count == constraints@.len(),
            rules == rules_of(constraints@),
            references_in_range(rules),
            graph_weights(graph) == section_numbers(count as nat),
            graph_successors(graph).len() == count,
            graph_successors(graph) == linked_all(unlinked(count as nat), done),
            done == requests_upto(rules, index as int),
        decreases count - index,
    {
        let c = &constraints[index];
        let ghost earlier = done;
        let ghost first = fixed_first_requests(rules, index as int);
        let ghost last = fixed_last_requests(rules, index as int);
        let ghost listed = before_requests(rules, index as int);
        if index == 0 && c.fixed {
            // A fixed beginning comes before every other section.
            let mut successor: usize = 1;
            while successor < count
                invariant
                    1 <= successor <= count,
                    index == 0,
                    first.len() == count - 1,
                    first == fixed_first_requests(rules, index as int),
                    rules[0].fixed,
                    rules.len() == count,
                    graph_weights(graph) == section_numbers(count as nat),
                    graph_successors(graph).len() == count,
                    graph_successors(graph) == linked_all(unlinked(count as nat), done),
                    done == earlier + first.take(successor - 1),
                decreases count - successor,
            {
                proof {
                    lemma_linked(graph_successors(graph), index, successor);
                }
                update_edge(&mut graph, index, successor);
                proof {
                    let request = (index, successor);
                    lemma_linked_all_push(unlinked(count as nat), done, request);
                    assert(first[successor - 1] == request);
                    assert(first.take(successor as int) =~= first.take(successor - 1).push(
                        request,
                    ));
                    assert(earlier + first.take(successor as int) =~= done.push(request));
                    done = done.push(request);
                }
                successor += 1;
            }
            assert(first.take(count - 1) =~= first);
        }
        assert(done =~= earlier + first);
        if index == count - 1 && constraints[count - 1].fixed {
            // A fixed ending comes after every other section.
            let mut predecessor: usize = 0;
            while predecessor < count - 1
                invariant
                    predecessor <= count - 1,
                    index == count - 1,
                    last.len() == count - 1,
                    last == fixed_last_requests(rules, index as int),
                    rules.len() == count,
                    rules[index as int].fixed,
                    graph_weights(graph) == section_numbers(count as nat),
                    graph_successors(graph).len() == count,
                    graph_successors(graph) == linked_all(unlinked(count as nat), done),
                    done == earlier + first + last.take(predecessor as int),
                decreases count - predecessor,
            {
                proof {
                    lemma_linked(graph_successors(graph), predecessor, index);
                }
                update_edge(&mut graph, predecessor, index);
                proof {
                    let request = (predecessor, index);
                    lemma_linked_all_push(unlinked(count as nat), done, request);
                    assert(last[predecessor as int] == request);
                    assert(last.take(predecessor + 1) =~= last.take(predecessor as int).push(
                        request,
                    ));
                    assert(earlier + first + last.take(predecessor + 1) =~= done.push(request));
                    done = done.push(request);
                }
                predecessor += 1;
            }
            assert(last.take(count - 1) =~= last);
        }
        assert(done =~= earlier + first + last);
        let mut position: usize = 0;
        while position < c.before.len()
            invariant
                position <= c.before.len(),
                index < count,
                rules.len() == count,
                references_in_range(rules),
                c.before@ == rules[index as int].before,
                listed == before_requests(rules, index as int),
                graph_weights(graph) == section_numbers(count as nat),
                graph_successors(graph).len() == count,
                graph_successors(graph) == linked_all(unlinked(count as nat), done),
                done == earlier + first + last + listed.take(position as int),
            decreases c.before.len() - position,
        {
            let successor = c.before[position];
            assert(1 <= rules[index as int].before[position as int] <= count);
            proof {
                lemma_linked(graph_successors(graph), index, (successor - 1) as usize);
            }
            // The list holds one-based numbers, the graph zero-based indices.
            update_edge(&mut graph, index, successor - 1);
            proof {
                let request = (index, (successor - 1) as usize);
                lemma_linked_all_push(unlinked(count as nat), done, request);
                assert(listed[position as int] == request);
                assert(listed.take(position + 1) =~= listed.take(position as int).push(request));
                assert(earlier + first + last + listed.take(position + 1) =~= done.push(request));
                done = done.push(request);
            }
            position += 1;
        }
        proof {
            assert(listed.take(position as int) =~= listed);
            assert(done =~= earlier + requests_at(rules, index as int));
        }
        index += 1;
    }
    graph
}

} // verus!
