use petgraph::graph::{DiGraph, NodeIndex};
use petgraph::Direction;
use story_shuffler::ordering::{find_roots, take_root};
use story_shuffler::paradox::find_cycle;
use story_shuffler::precedence::compute_graph;
use story_shuffler::Constraints;

/// A small generator of numbers, so that every run tries the same graphs.
struct Numbers(u64);

impl Numbers {
    fn next(&mut self, below: usize) -> usize {
        self.0 = self.0.wrapping_mul(6364136223846793005).wrapping_add(1442695040888963407);
        ((self.0 >> 33) as usize) % below
    }
}

fn some_constraints(numbers: &mut Numbers, n: usize, edges: usize) -> Vec<Constraints> {
    let mut constraints: Vec<Constraints> = (0..n).map(|_| Constraints::default()).collect();
    if n > 0 {
        constraints[0].fixed = numbers.next(4) == 0;
        constraints[n - 1].fixed = numbers.next(4) == 0;
        for _ in 0..edges {
            let from = numbers.next(n);
            let to = numbers.next(n) + 1;
            constraints[from].before.push(to);
        }
    }
    constraints
}

fn listed(graph: &DiGraph<usize, (), usize>) -> (Vec<usize>, Vec<Vec<usize>>) {
    let weights = (0..graph.node_count()).map(|i| graph[NodeIndex::new(i)]).collect();
    let successors = (0..graph.node_count())
        .map(|i| graph.neighbors(NodeIndex::new(i)).map(|n| n.index()).collect())
        .collect();
    (weights, successors)
}

fn expected_lists(constraints: &[Constraints]) -> Vec<Vec<usize>> {
    let n = constraints.len();
    let mut lists: Vec<Vec<usize>> = vec![Vec::new(); n];
    let mut link = |a: usize, b: usize| {
        if !lists[a].contains(&b) {
            lists[a].insert(0, b);
        }
    };
    for (i, c) in constraints.iter().enumerate() {
        if i == 0 && c.fixed {
            for v in 1..n {
                link(0, v);
            }
        }
        if i == n - 1 && c.fixed {
            for u in 0..n - 1 {
                link(u, n - 1);
            }
        }
        for r in &c.before {
            link(i, r - 1);
        }
    }
    lists
}

fn without(weights: &[usize], lists: &[Vec<usize>], a: usize) -> (Vec<usize>, Vec<Vec<usize>>) {
    let last = lists.len() - 1;
    let before = |x: usize| if x == a { last } else { x };
    let left = (0..last).map(|x| weights[before(x)]).collect();
    let rest = (0..last)
        .map(|x| {
            lists[before(x)]
                .iter()
                .filter(|t| **t != a)
                .map(|t| if *t == last { a } else { *t })
                .collect()
        })
        .collect();
    (left, rest)
}

fn cycles_by_search(lists: &[Vec<usize>], v: usize) -> Vec<Vec<usize>> {
    fn go(lists: &[Vec<usize>], v: usize, path: &mut Vec<usize>, found: &mut Vec<Vec<usize>>) {
        let at = *path.last().unwrap();
        for next in &lists[at] {
            if *next == v {
                let mut cycle = path.clone();
                cycle.push(v);
                found.push(cycle);
            } else if !path.contains(next) {
                path.push(*next);
                go(lists, v, path, found);
                path.pop();
            }
        }
    }
    let mut found = Vec::new();
    go(lists, v, &mut vec![v], &mut found);
    found
}

#[test]
fn the_graph_is_built_as_described() {
    let mut numbers = Numbers(1);
    for round in 0..300 {
        let n = 1 + round % 7;
        let constraints = some_constraints(&mut numbers, n, round % 11);
        let graph = compute_graph(&constraints);
        let (weights, successors) = listed(&graph);
        assert_eq!(weights, (1..=n).collect::<Vec<usize>>());
        assert_eq!(successors, expected_lists(&constraints));
    }
}

#[test]
fn taking_nodes_out_leaves_what_is_described() {
    let mut numbers = Numbers(2);
    for round in 0..300 {
        let n = 1 + round % 7;
        let constraints = some_constraints(&mut numbers, n, round % 13);
        let mut graph = compute_graph(&constraints);
        let (mut weights, mut lists) = listed(&graph);
        while graph.node_count() > 0 {
            let a = numbers.next(graph.node_count());
            let index = take_root(&mut graph, a);
            assert_eq!(index, weights[a] - 1);
            let (left, rest) = without(&weights, &lists, a);
            assert_eq!(listed(&graph), (left.clone(), rest.clone()));
            weights = left;
            lists = rest;
        }
    }
}

#[test]
fn roots_are_found_also_after_nodes_were_taken_out() {
    let mut numbers = Numbers(3);
    for round in 0..300 {
        let n = 1 + round % 7;
        let constraints = some_constraints(&mut numbers, n, round % 9);
        let mut graph = compute_graph(&constraints);
        while graph.node_count() > 0 {
            let expected: Vec<usize> = (0..graph.node_count())
                .filter(|i| {
                    graph.neighbors_directed(NodeIndex::new(*i), Direction::Incoming).next().is_none()
                })
                .collect();
            let by_lists: Vec<usize> = (0..graph.node_count())
                .filter(|i| listed(&graph).1.iter().all(|list| !list.contains(i)))
                .collect();
            assert_eq!(find_roots(&graph), expected);
            assert_eq!(expected, by_lists);
            let a = numbers.next(graph.node_count());
            take_root(&mut graph, a);
        }
    }
}

#[test]
fn the_cycles_found_are_all_the_cycles() {
    let mut numbers = Numbers(4);
    for round in 0..300 {
        let n = 1 + round % 6;
        let constraints = some_constraints(&mut numbers, n, round % 14);
        let graph = compute_graph(&constraints);
        let lists = expected_lists(&constraints);
        for v in 0..n {
            assert_eq!(find_cycle(&graph, v), cycles_by_search(&lists, v));
        }
    }
}

#[test]
fn a_complete_graph_has_all_its_cycles_found() {
    let constraints: Vec<Constraints> = (0..4)
        .map(|_| Constraints { before: vec![1, 2, 3, 4], ..Constraints::default() })
        .collect();
    let graph = compute_graph(&constraints);
    for v in 0..4 {
        let cycles = find_cycle(&graph, v);
        assert_eq!(cycles.len(), 16);
        for (i, cycle) in cycles.iter().enumerate() {
            assert_eq!(cycle.first(), Some(&v));
            assert_eq!(cycle.last(), Some(&v));
            assert!(cycle.len() >= 2 && cycle.len() <= 5);
            for j in 0..i {
                assert_ne!(&cycles[j], cycle);
            }
            let inner = &cycle[1..cycle.len() - 1];
            for (k, node) in inner.iter().enumerate() {
                assert!(*node != v && !inner[..k].contains(node));
            }
        }
    }
}
