//! The orderer: it peels roots off the precedence graph, one at a time, until
//! nothing is left. Which root is taken is left to chance, or to picks that
//! the caller hands in.

use crate::chance::shuffle_in_place;
use crate::digraph::{
    graph_successors, graph_weights, has_edge, in_degree, incoming_count, index_after_removal,
    index_before_removal, node_count, node_weight, other_than, remove_node, successors_without,
    targets_in_range, weights_without,
};
use crate::extension::{
    is_linear_extension, is_root, lemma_cycle_image, lemma_extension_is_acyclic, lemma_in_degree,
    lemma_rootless_has_cycle, respects_edges, rootless,
};
use crate::paradox::{acyclic, is_cycle};
use crate::precedence::{is_section_graph, section_numbers};
use petgraph::graph::DiGraph;
use vstd::prelude::*;

verus! {

/// What the removal of node `a` leaves: the graph of the other nodes, with
/// the edges among them, where the node that was last has taken the place of
/// `a`.
proof fn lemma_removal(weights: Seq<usize>, successors: Seq<Seq<usize>>, a: usize)
    requires
        a < successors.len() == weights.len() <= usize::MAX,
        targets_in_range(successors),
    ensures
        weights_without(weights, a).len() == weights.len() - 1,
        successors_without(successors, a).len() == successors.len() - 1,
        targets_in_range(successors_without(successors, a)),
        forall|x: int|
            0 <= x < weights.len() - 1 ==> #[trigger] weights_without(weights, a)[x]
                == weights[index_before_removal(a, (weights.len() - 1) as usize, x)],
        forall|x: usize, y: usize|
            #![trigger has_edge(successors_without(successors, a), x, y)]
            has_edge(successors_without(successors, a), x, y) <==> x < successors.len() - 1 && y
                < successors.len() - 1 && has_edge(
                successors,
                index_before_removal(a, (successors.len() - 1) as usize, x as int) as usize,
                index_before_removal(a, (successors.len() - 1) as usize, y as int) as usize,
            ),
{
    let n = successors.len();
    let last = (n - 1) as usize;
    let after = successors_without(successors, a);
    assert forall|x: usize, y: usize| #![trigger has_edge(after, x, y)] has_edge(after, x, y) <==> x
        < n - 1 && y < n - 1 && has_edge(
        successors,
        index_before_removal(a, last, x as int) as usize,
        index_before_removal(a, last, y as int) as usize,
    ) by {
        if x < n - 1 {
            let ox = index_before_removal(a, last, x as int);
            let oy = index_before_removal(a, last, y as int);
            let list = successors[ox];
            let kept = list.filter(other_than(a));
            assert(after[x as int] == kept.map_values(index_after_removal(a, last)));
            if has_edge(after, x, y) {
                let j = choose|j: int| 0 <= j < after[x as int].len() && after[x as int][j] == y;
                let t = kept[j];
                assert(index_after_removal(a, last)(t) == y);
                list.lemma_filter_pred(other_than(a), j);
                assert(kept.contains(t));
                list.lemma_filter_contains_rev(other_than(a), t);
                let i = choose|i: int| 0 <= i < list.len() && list[i] == t;
                assert(successors[ox][i] < n);
                assert(t == oy);
            }
            if y < n - 1 && has_edge(successors, ox as usize, oy as usize) {
                let i = choose|i: int| 0 <= i < list.len() && list[i] == oy as usize;
                list.lemma_filter_contains(other_than(a), i);
                let j = choose|j: int| 0 <= j < kept.len() && kept[j] == oy as usize;
                assert(after[x as int][j] == y);
            }
        }
    }
    assert forall|x: int, k: int|
        #![trigger after[x][k]]
        0 <= x < after.len() && 0 <= k < after[x].len() implies after[x][k] < after.len() by {
        assert(has_edge(after, x as usize, after[x][k]));
    }
}

/// The node that carries the section number `weight`.
pub open spec fn node_of(weight: usize) -> usize {
    (weight - 1) as usize
}

/// Whether the orderer is on its way: `weights` and `successors` describe what
/// is left of the graph that had the successor lists `initial`, and `order`
/// holds the nodes taken so far. Every node is either left or taken; what is
/// left has the edges that it had at the beginning; and no edge leads from
/// a node that is left, or from one taken later, to one taken earlier.
spec fn peeling(
    initial: Seq<Seq<usize>>,
    weights: Seq<usize>,
    successors: Seq<Seq<usize>>,
    order: Seq<usize>,
) -> bool {
    &&& initial.len() <= usize::MAX
    &&& successors.len() == weights.len()
    &&& targets_in_range(successors)
    &&& weights.no_duplicates()
    &&& forall|x: int| 0 <= x < weights.len() ==> 1 <= #[trigger] weights[x] <= initial.len()
    &&& order.no_duplicates()
    &&& order.len() + weights.len() == initial.len()
    &&& forall|k: int| 0 <= k < order.len() ==> #[trigger] order[k] < initial.len()
    &&& forall|v: usize|
        v < initial.len() ==> #[trigger] order.contains(v) || weights.contains((v + 1) as usize)
    &&& forall|k: int, x: int|
        0 <= k < order.len() && 0 <= x < weights.len() ==> #[trigger] order[k] != node_of(
            #[trigger] weights[x],
        )
    &&& forall|x: usize, y: usize|
        x < weights.len() && y < weights.len() ==> (#[trigger] has_edge(successors, x, y)
            <==> has_edge(initial, node_of(weights[x as int]), node_of(weights[y as int])))
    &&& respects_edges(initial, order)
    &&& forall|x: int, j: int|
        0 <= x < weights.len() && 0 <= j < order.len() ==> !has_edge(
            initial,
            node_of(#[trigger] weights[x]),
            #[trigger] order[j],
        )
}

/// The orderer sets out with the whole graph left and nothing taken.
proof fn lemma_peeling_begins(successors: Seq<Seq<usize>>)
    requires
        successors.len() <= usize::MAX,
        targets_in_range(successors),
    ensures
        peeling(
            successors,
            section_numbers(successors.len()),
            successors,
            Seq::<usize>::empty(),
        ),
{
    let weights = section_numbers(successors.len());
    let order = Seq::<usize>::empty();
    assert forall|v: usize| v < successors.len() implies #[trigger] order.contains(v)
        || weights.contains((v + 1) as usize) by {
        assert(weights[v as int] == v + 1);
    }
    assert forall|x: usize, y: usize| x < weights.len() && y < weights.len() implies (
    #[trigger] has_edge(successors, x, y) <==> has_edge(
        successors,
        node_of(weights[x as int]),
        node_of(weights[y as int]),
    )) by {
        assert(node_of(weights[x as int]) == x);
        assert(node_of(weights[y as int]) == y);
    }
}

/// Where nothing is left, what was taken is a linear extension.
proof fn lemma_peeling_ends(
    initial: Seq<Seq<usize>>,
    weights: Seq<usize>,
    successors: Seq<Seq<usize>>,
    order: Seq<usize>,
)
    requires
        peeling(initial, weights, successors, order),
        weights.len() == 0,
    ensures
        is_linear_extension(initial, order),
{
    assert forall|v: usize| v < initial.len() implies #[trigger] order.contains(v) by {
        assert(order.contains(v) || weights.contains((v + 1) as usize));
    }
}

/// Where nodes are left and none of them is a root, the graph had a cycle
/// from the beginning.
proof fn lemma_peeling_stuck(
    initial: Seq<Seq<usize>>,
    weights: Seq<usize>,
    successors: Seq<Seq<usize>>,
    order: Seq<usize>,
)
    requires
        peeling(initial, weights, successors, order),
        weights.len() > 0,
        rootless(successors),
    ensures
        !acyclic(initial),
{
    lemma_rootless_has_cycle(successors);
    let (v, path) = choose|v: usize, path: Seq<usize>| is_cycle(successors, v, path);
    let image = weights.map_values(|w: usize| node_of(w));
    assert forall|i: int, j: int|
        0 <= i < image.len() && 0 <= j < image.len() && i != j implies image[i] != image[j] by {
        assert(weights[i] != weights[j]);
        assert(1 <= weights[i] && 1 <= weights[j]);
    }
    lemma_cycle_image(successors, initial, image, v, path);
}

/// One step of the orderer: the root `a` is taken and removed.
proof fn lemma_peeling_step(
    initial: Seq<Seq<usize>>,
    weights: Seq<usize>,
    successors: Seq<Seq<usize>>,
    order: Seq<usize>,
    a: usize,
)
    requires
        peeling(initial, weights, successors, order),
        is_root(successors, a),
    ensures
        peeling(
            initial,
            weights_without(weights, a),
            successors_without(successors, a),
            order.push(node_of(weights[a as int])),
        ),
{
    let n = weights.len();
    let last = (n - 1) as usize;
    let left = weights_without(weights, a);
    let rest = successors_without(successors, a);
    let taken = node_of(weights[a as int]);
    let longer = order.push(taken);
    lemma_removal(weights, successors, a);
    lemma_in_degree(successors, a);
    // What is left are the weights that were there, but that of `a`.
    assert forall|x: int| 0 <= x < left.len() implies 1 <= #[trigger] left[x] <= initial.len()
        && left[x] != weights[a as int] && weights.contains(left[x]) by {
        let ox = index_before_removal(a, last, x);
        assert(left[x] == weights[ox]);
    }
    assert forall|x: int, y: int|
        0 <= x < left.len() && 0 <= y < left.len() && x != y implies left[x] != left[y] by {
        let ox = index_before_removal(a, last, x);
        let oy = index_before_removal(a, last, y);
        assert(left[x] == weights[ox] && left[y] == weights[oy]);
    }
    assert forall|j: int, k: int|
        0 <= j < longer.len() && 0 <= k < longer.len() && j != k implies longer[j] != longer[k] by {
        if j < order.len() && k < order.len() {
            assert(order[j] != order[k]);
        } else if j < order.len() {
            assert(order[j] != node_of(weights[a as int]));
        } else {
            assert(order[k] != node_of(weights[a as int]));
        }
    }
    assert forall|v: usize| v < initial.len() implies #[trigger] longer.contains(v)
        || left.contains((v + 1) as usize) by {
        if order.contains(v) {
            let k = choose|k: int| 0 <= k < order.len() && order[k] == v;
            assert(longer[k] == v);
        } else if v == taken {
            assert(longer[order.len() as int] == v);
        } else {
            assert(weights.contains((v + 1) as usize));
            let x = choose|x: int| 0 <= x < weights.len() && weights[x] == (v + 1) as usize;
            assert(x != a);
            let nx = if x == last {
                a as int
            } else {
                x
            };
            assert(index_before_removal(a, last, nx) == x);
            assert(left[nx] == (v + 1) as usize);
        }
    }
    assert forall|k: int, x: int|
        0 <= k < longer.len() && 0 <= x < left.len() implies #[trigger] longer[k] != node_of(
            #[trigger] left[x],
        ) by {
        let ox = index_before_removal(a, last, x);
        assert(left[x] == weights[ox]);
        if k < order.len() {
            assert(order[k] != node_of(weights[ox]));
        }
    }
    assert forall|x: usize, y: usize| x < left.len() && y < left.len() implies (#[trigger] has_edge(
        rest,
        x,
        y,
    ) <==> has_edge(initial, node_of(left[x as int]), node_of(left[y as int]))) by {
        let ox = index_before_removal(a, last, x as int) as usize;
        let oy = index_before_removal(a, last, y as int) as usize;
        assert(left[x as int] == weights[ox as int]);
        assert(left[y as int] == weights[oy as int]);
        assert(has_edge(successors, ox, oy) <==> has_edge(
            initial,
            node_of(weights[ox as int]),
            node_of(weights[oy as int]),
        ));
    }
    assert forall|x: int, j: int| 0 <= x < left.len() && 0 <= j < longer.len() implies !has_edge(
        initial,
        node_of(#[trigger] left[x]),
        #[trigger] longer[j],
    ) by {
        let ox = index_before_removal(a, last, x);
        assert(left[x] == weights[ox]);
        if j < order.len() {
            assert(!has_edge(initial, node_of(weights[ox]), order[j]));
        } else {
            assert(!has_edge(successors, ox as usize, a));
        }
    }
    assert forall|i: int, j: int|
        0 <= i < longer.len() && 0 <= j < longer.len() && has_edge(
            initial,
            #[trigger] longer[i],
            #[trigger] longer[j],
        ) implies i < j by {
        if i < order.len() && j < order.len() {
            assert(has_edge(initial, order[i], order[j]));
        } else if j < order.len() {
            assert(!has_edge(initial, node_of(weights[a as int]), order[j]));
        } else if i == order.len() {
            assert(!has_edge(successors, a, a));
        }
    }
}

/// The roots among the first `m` nodes, in rising order.
pub open spec fn roots_among(successors: Seq<Seq<usize>>, m: int) -> Seq<usize>
    decreases m,
{
    if m <= 0 {
        Seq::empty()
    } else if in_degree(successors, (m - 1) as usize) == 0 {
        roots_among(successors, m - 1).push((m - 1) as usize)
    } else {
        roots_among(successors, m - 1)
    }
}

/// Finds the roots of the graph: the nodes in which no edge ends, in rising
/// order. These are the sections that need not come after any section that
/// is still there.
pub fn find_roots(graph: &DiGraph<usize, (), usize>) -> (roots: Vec<usize>)
    ensures
        roots@ == roots_among(graph_successors(*graph), graph_weights(*graph).len() as int),
        forall|a: usize|
            #[trigger] roots@.contains(a) <==> a < graph_weights(*graph).len() && in_degree(
                graph_successors(*graph),
                a,
            ) == 0,
        forall|i: int, j: int| 0 <= i < j < roots.len() ==> roots[i] < roots[j],
{
    let count = node_count(graph);
    let mut roots: Vec<usize> = Vec::new();
    let mut index: usize = 0;
    while index < count
        invariant
            index <= count == graph_weights(*graph).len(),
            roots@ == roots_among(graph_successors(*graph), index as int),
            forall|a: usize|
                #[trigger] roots@.contains(a) <==> a < index && in_degree(
                    graph_successors(*graph),
                    a,
                ) == 0,
            forall|i: int, j: int| 0 <= i < j < roots.len() ==> roots[i] < roots[j],
            forall|i: int| 0 <= i < roots.len() ==> roots[i] < index,
        decreases count - index,
    {
        if incoming_count(graph, index) == 0 {
            let ghost earlier = roots@;
            roots.push(index);
            assert forall|a: usize| #[trigger] roots@.contains(a) <==> a < index + 1 && in_degree(
                graph_successors(*graph),
                a,
            ) == 0 by {
                if earlier.contains(a) {
                    let k = choose|k: int| 0 <= k < earlier.len() && earlier[k] == a;
                    assert(roots@[k] == a);
                }
                if a == index {
                    assert(roots@[earlier.len() as int] == a);
                }
                if roots@.contains(a) && a != index {
                    let k = choose|k: int| 0 <= k < roots@.len() && roots@[k] == a;
                    assert(earlier[k] == a);
                }
            }
        }
        index += 1;
    }
    roots
}

/// Picks one of `roots` at random, each with the same chance: the roots are
/// shuffled and the first is taken. Without roots there is nothing to pick.
pub fn pick_root(roots: Vec<usize>) -> (root: Option<usize>)
    ensures
        root is None <==> roots@.len() == 0,
        root matches Some(a) ==> roots@.contains(a),
{
    let mut shuffled = roots;
    shuffle_in_place(&mut shuffled);
    proof {
        vstd::seq_lib::to_multiset_len(shuffled@);
        vstd::seq_lib::to_multiset_len(roots@);
    }
    if shuffled.len() == 0 {
        None
    } else {
        let first = shuffled[0];
        proof {
            assert(shuffled@.contains(first));
            vstd::seq_lib::to_multiset_contains(shuffled@, first);
            vstd::seq_lib::to_multiset_contains(roots@, first);
        }
        Some(first)
    }
}

/// The root that is taken at step `step` where the choice is made by `picks`:
/// the picks are gone through again and again, and each is counted off round
/// the roots that are there. Without picks the first root is taken.
pub open spec fn chosen_root(roots: Seq<usize>, picks: Seq<usize>, step: nat) -> usize {
    if picks.len() == 0 {
        roots[0]
    } else {
        roots[(picks[(step % picks.len()) as int] as int) % (roots.len() as int)]
    }
}

/// The order in which the sections come where the roots are chosen by `picks`,
/// from step `step` on, or nothing where nodes are left and none is a root.
pub open spec fn order_by_picks(
    weights: Seq<usize>,
    successors: Seq<Seq<usize>>,
    picks: Seq<usize>,
    step: nat,
) -> Option<Seq<usize>>
    decreases weights.len(),
{
    let roots = roots_among(successors, weights.len() as int);
    if weights.len() == 0 {
        Some(Seq::empty())
    } else if roots.len() == 0 {
        None
    } else {
        let root = chosen_root(roots, picks, step);
        match order_by_picks(
            weights_without(weights, root),
            successors_without(successors, root),
            picks,
            step + 1,
        ) {
            Some(rest) => Some(seq![node_of(weights[root as int])] + rest),
            None => None,
        }
    }
}

/// An order that goes on after `taken`, where there is one.
spec fn continued(taken: Seq<usize>, rest: Option<Seq<usize>>) -> Option<Seq<usize>> {
    match rest {
        Some(order) => Some(taken + order),
        None => None,
    }
}

/// The nodes of a list, or that there is none, as plain values.
pub open spec fn order_view(order: Option<Vec<usize>>) -> Option<Seq<usize>> {
    match order {
        Some(indices) => Some(indices@),
        None => None,
    }
}

/// Takes the node `root` out of the graph, with its edges, and says which
/// section it stood for, by the zero-based index of the section. The node
/// that was last takes the place of `root`.
pub fn take_root(graph: &mut DiGraph<usize, (), usize>, root: usize) -> (index: usize)
    requires
        graph_successors(*old(graph)).len() == graph_weights(*old(graph)).len(),
        root < graph_weights(*old(graph)).len(),
        graph_weights(*old(graph))[root as int] >= 1,
    ensures
        index == node_of(graph_weights(*old(graph))[root as int]),
        graph_weights(*final(graph)) == weights_without(graph_weights(*old(graph)), root),
        graph_successors(*final(graph)) == successors_without(
            graph_successors(*old(graph)),
            root,
        ),
{
    // The weight is the one-based number of the section.
    let number = node_weight(graph, root).unwrap();
    remove_node(graph, root);
    number - 1
}

/// Orders the sections at random within what the graph allows. While nodes
/// are left, one of the roots is picked at random, the zero-based index of its
/// section is put down, and the node is removed with its edges. The result is
/// a linear extension of the graph: it holds every node once, and puts each
/// before all those to which an edge leads from it. A graph with a cycle has
/// no such order, and only then the orderer comes to a point where nodes are
/// left and none of them is a root; it then hands out nothing.
///
/// The roots are looked for anew at each step, among all the nodes that are
/// left, so the time taken grows with the square of the number of sections.
/// Only the choice among the roots of the moment is random: the orders that
/// the graph allows do not all come out with the same chance.
pub fn random_order(graph: DiGraph<usize, (), usize>) -> (order: Option<Vec<usize>>)
    requires
        is_section_graph(graph),
    ensures
        order is Some <==> acyclic(graph_successors(graph)),
        order matches Some(indices) ==> is_linear_extension(graph_successors(graph), indices@),
{
    let ghost initial = graph_successors(graph);
    let mut rest = graph;
    let mut indices: Vec<usize> = Vec::new();
    let mut left = node_count(&rest);
    proof {
        lemma_peeling_begins(initial);
    }
    while left != 0
        invariant
            initial == graph_successors(graph),
            left == graph_weights(rest).len(),
            peeling(initial, graph_weights(rest), graph_successors(rest), indices@),
        decreases left,
    {
        let ghost weights = graph_weights(rest);
        let ghost successors = graph_successors(rest);
        let ghost taken = indices@;
        let roots = find_roots(&rest);
        let root = match pick_root(roots) {
            Some(root) => root,
            None => {
                proof {
                    assert forall|x: usize| x < successors.len() implies !is_root(
                        successors,
                        x,
                    ) by {
                        assert(!roots@.contains(x));
                    }
                    lemma_peeling_stuck(initial, weights, successors, taken);
                }
                return None;
            },
        };
        assert(roots@.contains(root));
        let index = take_root(&mut rest, root);
        indices.push(index);
        proof {
            lemma_peeling_step(initial, weights, successors, taken, root);
        }
        left = left - 1;
    }
    proof {
        lemma_peeling_ends(initial, graph_weights(rest), graph_successors(rest), indices@);
        lemma_extension_is_acyclic(initial, indices@);
    }
    Some(indices)
}

/// Orders the sections as `random_order` does, but with the roots chosen by
/// `picks` in place of chance: at each step the next pick, counted off round
/// the roots in rising order, says which root is taken. The same picks lead
/// to the same order.
pub fn order_by(graph: DiGraph<usize, (), usize>, picks: &Vec<usize>) -> (order: Option<
    Vec<usize>,
>)
    requires
        is_section_graph(graph),
    ensures
        order_view(order) == order_by_picks(
            graph_weights(graph),
            graph_successors(graph),
            picks@,
            0,
        ),
        order is Some <==> acyclic(graph_successors(graph)),
        order matches Some(indices) ==> is_linear_extension(graph_successors(graph), indices@),
{
    let ghost initial = graph_successors(graph);
    let ghost numbers = graph_weights(graph);
    let mut rest = graph;
    let mut indices: Vec<usize> = Vec::new();
    let mut left = node_count(&rest);
    proof {
        lemma_peeling_begins(initial);
        let whole = order_by_picks(numbers, initial, picks@, 0);
        if whole is Some {
            assert(indices@ + whole.unwrap() =~= whole.unwrap());
        }
    }
    while left != 0
        invariant
            initial == graph_successors(graph),
            numbers == graph_weights(graph),
            left == graph_weights(rest).len(),
            peeling(initial, graph_weights(rest), graph_successors(rest), indices@),
            order_by_picks(numbers, initial, picks@, 0) == continued(
                indices@,
                order_by_picks(
                    graph_weights(rest),
                    graph_successors(rest),
                    picks@,
                    indices@.len(),
                ),
            ),
        decreases left,
    {
        let ghost weights = graph_weights(rest);
        let ghost successors = graph_successors(rest);
        let ghost taken = indices@;
        let roots = find_roots(&rest);
        if roots.len() == 0 {
            proof {
                assert forall|x: usize| x < successors.len() implies !is_root(successors, x) by {
                    assert(!roots@.contains(x));
                }
                lemma_peeling_stuck(initial, weights, successors, taken);
            }
            return None;
        }
        let root = if picks.len() == 0 {
            roots[0]
        } else {
            roots[picks[indices.len() % picks.len()] % roots.len()]
        };
        assert(root == chosen_root(roots@, picks@, taken.len()));
        assert(roots@.contains(root));
        let index = take_root(&mut rest, root);
        indices.push(index);
        proof {
            lemma_peeling_step(initial, weights, successors, taken, root);
            let further = order_by_picks(
                graph_weights(rest),
                graph_successors(rest),
                picks@,
                taken.len() + 1,
            );
            if further is Some {
                assert(taken + (seq![index] + further.unwrap()) =~= indices@ + further.unwrap());
            }
        }
        left = left - 1;
    }
    proof {
        lemma_peeling_ends(initial, graph_weights(rest), graph_successors(rest), indices@);
        lemma_extension_is_acyclic(initial, indices@);
        assert(indices@ + Seq::<usize>::empty() =~= indices@);
    }
    Some(indices)
}

} // verus!
