use petgraph::graph::NodeIndex;
use story_shuffler::ordering::{find_roots, order_by, pick_root, random_order, take_root};
use story_shuffler::precedence::compute_graph;
use story_shuffler::Constraints;

fn section(fixed: bool, before: Vec<usize>) -> Constraints {
    Constraints { fixed, before, ..Constraints::default() }
}

fn is_permutation(order: &[usize], n: usize) -> bool {
    let mut sorted = order.to_vec();
    sorted.sort();
    sorted == (0..n).collect::<Vec<usize>>()
}

fn respects(constraints: &[Constraints], order: &[usize]) -> bool {
    let graph = compute_graph(constraints);
    let place = |v: usize| order.iter().position(|x| *x == v).unwrap();
    for u in 0..constraints.len() {
        for v in 0..constraints.len() {
            if graph.contains_edge(NodeIndex::new(u), NodeIndex::new(v)) && place(u) >= place(v) {
                return false;
            }
        }
    }
    true
}

#[test]
fn roots_are_the_nodes_without_incoming_edges() {
    let constraints = vec![
        section(false, vec![3]),
        section(false, vec![3, 4]),
        section(false, vec![4]),
        section(false, vec![]),
        section(false, vec![]),
    ];
    let graph = compute_graph(&constraints);
    assert_eq!(find_roots(&graph), vec![0, 1, 4]);
    assert_eq!(find_roots(&compute_graph(&[])), Vec::<usize>::new());
}

#[test]
fn a_cycle_has_no_roots() {
    let constraints = vec![section(false, vec![2]), section(false, vec![1])];
    assert!(find_roots(&compute_graph(&constraints)).is_empty());
    assert!(find_roots(&compute_graph(&[section(false, vec![1])])).is_empty());
}

#[test]
fn a_root_is_picked_from_the_roots() {
    assert_eq!(pick_root(vec![]), None);
    assert_eq!(pick_root(vec![7]), Some(7));
    for _ in 0..100 {
        let picked = pick_root(vec![2, 5, 11]).unwrap();
        assert!(picked == 2 || picked == 5 || picked == 11);
    }
}

#[test]
fn every_root_gets_picked_in_the_long_run() {
    let mut seen = [false; 4];
    for _ in 0..400 {
        seen[pick_root(vec![0, 1, 2, 3]).unwrap()] = true;
    }
    assert_eq!(seen, [true, true, true, true]);
}

#[test]
fn no_sections_are_ordered_as_nothing() {
    assert_eq!(random_order(compute_graph(&[])), Some(vec![]));
}

#[test]
fn a_single_section_stays() {
    assert_eq!(random_order(compute_graph(&[section(false, vec![])])), Some(vec![0]));
    assert_eq!(random_order(compute_graph(&[section(true, vec![])])), Some(vec![0]));
}

#[test]
fn a_chain_has_one_order() {
    let constraints = vec![section(false, vec![]), section(false, vec![1]), section(false, vec![2])];
    for _ in 0..50 {
        assert_eq!(random_order(compute_graph(&constraints)), Some(vec![2, 1, 0]));
    }
}

#[test]
fn an_order_is_a_permutation_that_respects_the_edges() {
    let constraints = vec![
        section(false, vec![4]),
        section(false, vec![4, 6]),
        section(false, vec![]),
        section(false, vec![5]),
        section(false, vec![]),
        section(false, vec![3]),
        section(false, vec![1, 2]),
    ];
    for _ in 0..300 {
        let order = random_order(compute_graph(&constraints)).unwrap();
        assert!(is_permutation(&order, 7));
        assert!(respects(&constraints, &order));
    }
}

#[test]
fn a_fixed_first_section_comes_first() {
    let constraints = vec![
        section(true, vec![]),
        section(false, vec![]),
        section(false, vec![2]),
        section(false, vec![]),
        section(false, vec![]),
    ];
    for _ in 0..200 {
        let order = random_order(compute_graph(&constraints)).unwrap();
        assert_eq!(order[0], 0);
        assert!(is_permutation(&order, 5));
        assert!(respects(&constraints, &order));
    }
}

#[test]
fn a_fixed_last_section_comes_last() {
    let constraints = vec![
        section(false, vec![]),
        section(false, vec![]),
        section(false, vec![1]),
        section(false, vec![]),
        section(true, vec![]),
    ];
    for _ in 0..200 {
        let order = random_order(compute_graph(&constraints)).unwrap();
        assert_eq!(order[4], 4);
        assert!(is_permutation(&order, 5));
        assert!(respects(&constraints, &order));
    }
}

#[test]
fn fixed_ends_hold_both() {
    let constraints = vec![
        section(true, vec![]),
        section(false, vec![]),
        section(false, vec![]),
        section(false, vec![]),
        section(true, vec![]),
    ];
    for _ in 0..200 {
        let order = random_order(compute_graph(&constraints)).unwrap();
        assert_eq!(order[0], 0);
        assert_eq!(order[4], 4);
        assert!(is_permutation(&order, 5));
    }
}

#[test]
fn a_graph_with_a_cycle_is_not_ordered() {
    let constraints = vec![section(false, vec![2]), section(false, vec![1]), section(false, vec![])];
    for _ in 0..50 {
        assert_eq!(random_order(compute_graph(&constraints)), None);
    }
    assert_eq!(random_order(compute_graph(&[section(false, vec![1])])), None);
    let around = vec![section(false, vec![2]), section(false, vec![3]), section(false, vec![1])];
    assert_eq!(random_order(compute_graph(&around)), None);
}

#[test]
fn free_sections_come_out_in_more_than_one_order() {
    let constraints: Vec<Constraints> = (0..6).map(|_| section(false, vec![])).collect();
    let first = random_order(compute_graph(&constraints)).unwrap();
    let mut differs = false;
    for _ in 0..200 {
        let order = random_order(compute_graph(&constraints)).unwrap();
        assert!(is_permutation(&order, 6));
        if order != first {
            differs = true;
        }
    }
    assert!(differs);
}

#[test]
fn two_free_sections_come_out_both_ways() {
    let constraints = vec![section(false, vec![]), section(false, vec![])];
    let mut seen_forward = false;
    let mut seen_backward = false;
    for _ in 0..200 {
        let order = random_order(compute_graph(&constraints)).unwrap();
        if order == vec![0, 1] {
            seen_forward = true;
        } else {
            assert_eq!(order, vec![1, 0]);
            seen_backward = true;
        }
    }
    assert!(seen_forward && seen_backward);
}

#[test]
fn a_root_is_taken_out_with_its_edges() {
    let constraints = vec![section(false, vec![2]), section(false, vec![]), section(false, vec![2])];
    let mut graph = compute_graph(&constraints);
    assert_eq!(take_root(&mut graph, 0), 0);
    assert_eq!(graph.node_count(), 2);
    assert_eq!(graph.edge_count(), 1);
    assert_eq!(graph.node_weight(NodeIndex::new(0)), Some(&3));
    assert_eq!(graph.node_weight(NodeIndex::new(1)), Some(&2));
    assert!(graph.contains_edge(NodeIndex::new(0), NodeIndex::new(1)));
    assert_eq!(find_roots(&graph), vec![0]);
    assert_eq!(take_root(&mut graph, 0), 2);
    assert_eq!(graph.node_count(), 1);
    assert_eq!(graph.edge_count(), 0);
    assert_eq!(take_root(&mut graph, 0), 1);
    assert_eq!(graph.node_count(), 0);
}

#[test]
fn taking_the_last_node_moves_no_other() {
    let constraints = vec![section(false, vec![2]), section(false, vec![]), section(false, vec![1])];
    let mut graph = compute_graph(&constraints);
    assert_eq!(take_root(&mut graph, 2), 2);
    assert_eq!(graph.node_weight(NodeIndex::new(0)), Some(&1));
    assert_eq!(graph.node_weight(NodeIndex::new(1)), Some(&2));
    assert!(graph.contains_edge(NodeIndex::new(0), NodeIndex::new(1)));
    assert_eq!(graph.edge_count(), 1);
}

#[test]
fn the_same_picks_give_the_same_order() {
    let free: Vec<Constraints> = (0..4).map(|_| section(false, vec![])).collect();
    assert_eq!(order_by(compute_graph(&free), &vec![]), Some(vec![0, 3, 2, 1]));
    assert_eq!(order_by(compute_graph(&free), &vec![0]), Some(vec![0, 3, 2, 1]));
    assert_eq!(order_by(compute_graph(&free), &vec![1]), Some(vec![1, 3, 2, 0]));
    assert_eq!(order_by(compute_graph(&free), &vec![3, 0]), Some(vec![3, 0, 1, 2]));
    assert_eq!(order_by(compute_graph(&free), &vec![3, 0]), Some(vec![3, 0, 1, 2]));
    assert_eq!(order_by(compute_graph(&free), &vec![7, 5, 4, 9]), Some(vec![3, 2, 0, 1]));
}

#[test]
fn picks_choose_among_the_roots_only() {
    let chain = vec![section(false, vec![]), section(false, vec![1]), section(false, vec![2])];
    for pick in 0..5 {
        assert_eq!(order_by(compute_graph(&chain), &vec![pick]), Some(vec![2, 1, 0]));
    }
    let constraints = vec![
        section(true, vec![]),
        section(false, vec![3]),
        section(false, vec![]),
        section(true, vec![]),
    ];
    assert_eq!(order_by(compute_graph(&constraints), &vec![]), Some(vec![0, 1, 2, 3]));
    assert_eq!(order_by(compute_graph(&constraints), &vec![5, 6, 7]), Some(vec![0, 1, 2, 3]));
    let cycle = vec![section(false, vec![2]), section(false, vec![1]), section(false, vec![])];
    assert_eq!(order_by(compute_graph(&cycle), &vec![]), None);
    assert_eq!(order_by(compute_graph(&cycle), &vec![2]), None);
}

#[test]
fn every_choice_of_picks_gives_a_linear_extension() {
    let constraints = vec![
        section(false, vec![4]),
        section(false, vec![4, 6]),
        section(false, vec![]),
        section(false, vec![5]),
        section(false, vec![]),
        section(false, vec![3]),
    ];
    let mut orders = Vec::new();
    for a in 0..4 {
        for b in 0..4 {
            for c in 0..4 {
                let order = order_by(compute_graph(&constraints), &vec![a, b, c]).unwrap();
                assert!(is_permutation(&order, 6));
                assert!(respects(&constraints, &order));
                if !orders.contains(&order) {
                    orders.push(order);
                }
            }
        }
    }
    assert!(orders.len() > 3);
}
