//! Linear extensions: the orders of the nodes of a graph in which every edge
//! leads forward. A graph that has one has no cycle, and the orderer finds one
//! for every graph without a cycle.

use crate::digraph::{has_edge, in_degree, same_as, targets_in_range};
use crate::paradox::{acyclic, is_cycle};
use vstd::prelude::*;

verus! {

/// Whether `order` holds each of the numbers below `n` once.
pub open spec fn is_permutation(order: Seq<usize>, n: nat) -> bool {
    &&& order.len() == n
    &&& order.no_duplicates()
    &&& forall|k: int| 0 <= k < order.len() ==> #[trigger] order[k] < n
    &&& forall|v: usize| v < n ==> #[trigger] order.contains(v)
}

/// Whether `order` respects every edge: a node comes before each node to which
/// an edge leads from it.
pub open spec fn respects_edges(successors: Seq<Seq<usize>>, order: Seq<usize>) -> bool {
    forall|i: int, j: int|
        0 <= i < order.len() && 0 <= j < order.len() && has_edge(
            successors,
            #[trigger] order[i],
            #[trigger] order[j],
        ) ==> i < j
}

/// Whether `order` is a linear extension of the graph: it holds every node
/// once, and every edge leads forward in it.
pub open spec fn is_linear_extension(successors: Seq<Seq<usize>>, order: Seq<usize>) -> bool {
    &&& is_permutation(order, successors.len())
    &&& respects_edges(successors, order)
}

/// Whether `a` is a root: a node in which no edge ends.
pub open spec fn is_root(successors: Seq<Seq<usize>>, a: usize) -> bool {
    a < successors.len() && in_degree(successors, a) == 0
}

/// A node in which no edge ends has no predecessor, and the other way round.
pub proof fn lemma_in_degree(successors: Seq<Seq<usize>>, a: usize)
    requires
        successors.len() <= usize::MAX,
    ensures
        in_degree(successors, a) == 0 <==> forall|u: usize| !has_edge(successors, u, a),
    decreases successors.len(),
{
    if successors.len() > 0 {
        let earlier = successors.drop_last();
        let list = successors.last();
        let hits = list.filter(same_as(a));
        lemma_in_degree(earlier, a);
        if hits.len() > 0 {
            list.lemma_filter_pred(same_as(a), 0);
            assert(hits.contains(hits[0]));
            list.lemma_filter_contains_rev(same_as(a), hits[0]);
            assert(list.contains(a));
        }
        if list.contains(a) {
            let i = choose|i: int| 0 <= i < list.len() && list[i] == a;
            list.lemma_filter_contains(same_as(a), i);
        }
        let last = (successors.len() - 1) as int;
        if in_degree(successors, a) == 0 {
            assert forall|u: usize| !has_edge(successors, u, a) by {
                if u < last {
                    assert(!has_edge(earlier, u, a));
                    assert(earlier[u as int] == successors[u as int]);
                }
            }
        } else if hits.len() == 0 {
            let u = choose|u: usize| has_edge(earlier, u, a);
            assert(earlier[u as int] == successors[u as int]);
            assert(has_edge(successors, u, a));
        } else {
            assert(has_edge(successors, last as usize, a));
        }
    }
}

/// Numbers below `n`, no two of them the same, are at most `n`.
proof fn lemma_distinct_bounded(items: Seq<usize>, n: nat)
    requires
        items.no_duplicates(),
        forall|k: int| 0 <= k < items.len() ==> #[trigger] items[k] < n,
    ensures
        items.len() <= n,
    decreases n,
{
    if items.len() > 0 {
        if n == 0 {
            assert(items[0] < n);
        } else if exists|i: int| 0 <= i < items.len() && #[trigger] items[i] == n - 1 {
            let i = choose|i: int| 0 <= i < items.len() && #[trigger] items[i] == n - 1;
            let rest = items.remove(i);
            assert forall|k: int| 0 <= k < rest.len() implies #[trigger] rest[k] < n - 1 by {
                if k < i {
                    assert(rest[k] == items[k]);
                } else {
                    assert(rest[k] == items[k + 1]);
                }
            }
            assert forall|j: int, k: int|
                0 <= j < rest.len() && 0 <= k < rest.len() && j != k implies rest[j] != rest[k] by {
                let oj = if j < i {
                    j
                } else {
                    j + 1
                };
                let ok = if k < i {
                    k
                } else {
                    k + 1
                };
                assert(rest[j] == items[oj] && rest[k] == items[ok]);
            }
            lemma_distinct_bounded(rest, (n - 1) as nat);
        } else {
            assert forall|k: int| 0 <= k < items.len() implies #[trigger] items[k] < n - 1 by {
                assert(items[k] < n);
            }
            lemma_distinct_bounded(items, (n - 1) as nat);
        }
    }
}

/// Whether `walk` leads backwards along edges and meets no node twice.
spec fn is_backward_walk(successors: Seq<Seq<usize>>, walk: Seq<usize>) -> bool {
    &&& walk.len() >= 1
    &&& walk.no_duplicates()
    &&& forall|k: int| 0 <= k < walk.len() ==> #[trigger] walk[k] < successors.len()
    &&& forall|k: int|
        0 <= k < walk.len() - 1 ==> has_edge(successors, walk[k + 1], #[trigger] walk[k])
}

/// Whether an edge ends in every node.
pub open spec fn rootless(successors: Seq<Seq<usize>>) -> bool {
    forall|x: usize| x < successors.len() ==> !is_root(successors, x)
}

proof fn lemma_walk_back(successors: Seq<Seq<usize>>, walk: Seq<usize>) -> (found: (
    usize,
    Seq<usize>,
))
    requires
        successors.len() <= usize::MAX,
        targets_in_range(successors),
        rootless(successors),
        is_backward_walk(successors, walk),
    ensures
        is_cycle(successors, found.0, found.1),
    decreases successors.len() - walk.len(),
{
    let len = walk.len() as int;
    let x = walk.last();
    lemma_in_degree(successors, x);
    assert(!is_root(successors, x));
    let u = choose|u: usize| has_edge(successors, u, x);
    if walk.contains(u) {
        let i = choose|i: int| 0 <= i < walk.len() && walk[i] == u;
        let path = Seq::new(
            (len - i + 1) as nat,
            |k: int|
                if k == 0 {
                    u
                } else {
                    walk[len - k]
                },
        );
        assert(path.last() == u);
        assert forall|k: int| 0 <= k < path.len() - 1 implies has_edge(
            successors,
            #[trigger] path[k],
            path[k + 1],
        ) by {
            if k == 0 {
                assert(path[1] == x);
            } else {
                assert(path[k] == walk[len - k]);
                assert(path[k + 1] == walk[len - k - 1]);
                assert(has_edge(successors, walk[(len - k - 1) + 1], walk[len - k - 1]));
            }
        }
        let shorter = path.drop_last();
        assert forall|j: int, k: int|
            0 <= j < shorter.len() && 0 <= k < shorter.len() && j != k implies shorter[j]
            != shorter[k] by {
            let wj = if j == 0 {
                i
            } else {
                len - j
            };
            let wk = if k == 0 {
                i
            } else {
                len - k
            };
            assert(shorter[j] == walk[wj] && shorter[k] == walk[wk]);
        }
        assert forall|k: int| 1 <= k < path.len() - 1 implies path[k] != u by {
            assert(path[k] == walk[len - k]);
        }
        (u, path)
    } else {
        let longer = walk.push(u);
        assert forall|k: int| 0 <= k < longer.len() - 1 implies has_edge(
            successors,
            longer[k + 1],
            #[trigger] longer[k],
        ) by {
            if k < len - 1 {
                assert(has_edge(successors, walk[k + 1], walk[k]));
            }
        }
        assert forall|j: int, k: int|
            0 <= j < longer.len() && 0 <= k < longer.len() && j != k implies longer[j]
            != longer[k] by {
            if j < len && k < len {
                assert(walk[j] != walk[k]);
            } else if j < len {
                assert(walk[j] != u);
            } else {
                assert(walk[k] != u);
            }
        }
        assert(is_backward_walk(successors, longer));
        lemma_distinct_bounded(longer, successors.len());
        lemma_walk_back(successors, longer)
    }
}

/// A graph with nodes in which every node has an edge that ends in it has a
/// cycle.
pub proof fn lemma_rootless_has_cycle(successors: Seq<Seq<usize>>)
    requires
        0 < successors.len() <= usize::MAX,
        targets_in_range(successors),
        rootless(successors),
    ensures
        !acyclic(successors),
{
    let walk = seq![0usize];
    let found = lemma_walk_back(successors, walk);
    assert(is_cycle(successors, found.0, found.1));
}

/// A cycle stays a cycle where the nodes are renamed, no two of them alike, and
/// every edge is kept.
pub proof fn lemma_cycle_image(
    successors: Seq<Seq<usize>>,
    others: Seq<Seq<usize>>,
    image: Seq<usize>,
    v: usize,
    path: Seq<usize>,
)
    requires
        image.len() == successors.len(),
        image.no_duplicates(),
        forall|x: usize, y: usize|
            x < successors.len() && y < successors.len() && #[trigger] has_edge(successors, x, y)
                ==> has_edge(others, image[x as int], image[y as int]),
        targets_in_range(successors),
        is_cycle(successors, v, path),
    ensures
        is_cycle(others, image[v as int], path.map_values(|x: usize| image[x as int])),
{
    let renamed = path.map_values(|x: usize| image[x as int]);
    let n = successors.len();
    assert forall|k: int| 0 <= k < path.len() implies #[trigger] path[k] < n by {
        if k < path.len() - 1 {
            assert(has_edge(successors, path[k], path[k + 1]));
        } else {
            assert(has_edge(successors, path[0], path[1]));
        }
    }
    assert forall|k: int| 0 <= k < renamed.len() - 1 implies has_edge(
        others,
        #[trigger] renamed[k],
        renamed[k + 1],
    ) by {
        assert(has_edge(successors, path[k], path[k + 1]));
        assert(path[k + 1] < n);
    }
    let shorter = renamed.drop_last();
    assert forall|j: int, k: int|
        0 <= j < shorter.len() && 0 <= k < shorter.len() && j != k implies shorter[j]
        != shorter[k] by {
        assert(path.drop_last()[j] != path.drop_last()[k]);
        assert(path[j] < n && path[k] < n);
    }
    assert forall|k: int| 1 <= k < renamed.len() - 1 implies renamed[k] != image[v as int] by {
        assert(path[k] != v);
        assert(path[k] < n && path[0] < n);
    }
}

/// The place of node `v` in `order`.
spec fn position(order: Seq<usize>, v: usize) -> int {
    choose|i: int| 0 <= i < order.len() && order[i] == v
}

proof fn lemma_path_leads_forward(
    successors: Seq<Seq<usize>>,
    order: Seq<usize>,
    v: usize,
    path: Seq<usize>,
    k: int,
)
    requires
        is_linear_extension(successors, order),
        is_cycle(successors, v, path),
        1 <= k <= path.len() - 1,
    ensures
        position(order, path[0]) < position(order, path[k]),
    decreases k,
{
    assert(has_edge(successors, path[k - 1], path[k]));
    assert(has_edge(successors, path[0], path[1]));
    let from = path[k - 1];
    let to = path[k];
    assert(from < successors.len());
    assert(to < successors.len()) by {
        if k < path.len() - 1 {
            assert(has_edge(successors, path[k], path[k + 1]));
        }
    }
    assert(order.contains(from) && order.contains(to));
    let i = position(order, from);
    let j = position(order, to);
    assert(has_edge(successors, order[i], order[j]));
    if k > 1 {
        lemma_path_leads_forward(successors, order, v, path, k - 1);
    }
}

/// A graph that has a linear extension has no cycle.
pub proof fn lemma_extension_is_acyclic(successors: Seq<Seq<usize>>, order: Seq<usize>)
    requires
        is_linear_extension(successors, order),
    ensures
        acyclic(successors),
{
    assert forall|v: usize, path: Seq<usize>| !is_cycle(successors, v, path) by {
        if is_cycle(successors, v, path) {
            lemma_path_leads_forward(successors, order, v, path, path.len() - 1);
        }
    }
}

} // verus!
