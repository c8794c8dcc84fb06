use story_shuffler::paradox::{find_cycle, paradox_message};
use story_shuffler::precedence::compute_graph;
use story_shuffler::{Constraints, StoryShufflerApp};

fn section(fixed: bool, before: Vec<usize>) -> Constraints {
    Constraints { fixed, before, ..Constraints::default() }
}

fn app_of(constraints: Vec<Constraints>) -> StoryShufflerApp {
    let mut app = StoryShufflerApp::default();
    app.original_sections = (0..constraints.len()).map(|i| format!("section {}", i + 1)).collect();
    app.constraints = constraints;
    app
}

#[test]
fn two_sections_before_each_other_are_a_paradox() {
    let constraints = vec![section(false, vec![2]), section(false, vec![1])];
    let graph = compute_graph(&constraints);
    assert_eq!(find_cycle(&graph, 0), vec![vec![0, 1, 0]]);
    assert_eq!(find_cycle(&graph, 1), vec![vec![1, 0, 1]]);
    let mut app = app_of(constraints);
    assert!(app.mark_cycles().is_none());
    assert_eq!(
        app.constraints[0].paradox_error.as_deref(),
        Some("Paradox detected:\n\t§1 must come before §2\n\t§2 must come before §1\n")
    );
    assert_eq!(
        app.constraints[1].paradox_error.as_deref(),
        Some("Paradox detected:\n\t§2 must come before §1\n\t§1 must come before §2\n")
    );
}

#[test]
fn a_section_before_itself_is_a_cycle_of_length_one() {
    let constraints = vec![section(false, vec![1])];
    let graph = compute_graph(&constraints);
    assert_eq!(find_cycle(&graph, 0), vec![vec![0, 0]]);
    let mut app = app_of(constraints);
    assert!(app.mark_cycles().is_none());
    assert_eq!(
        app.constraints[0].paradox_error.as_deref(),
        Some("Paradox detected:\n\t§1 must come before §1\n")
    );
}

#[test]
fn a_chain_has_no_cycle() {
    let constraints = vec![section(false, vec![2]), section(false, vec![3]), section(false, vec![])];
    let graph = compute_graph(&constraints);
    for index in 0..3 {
        assert!(find_cycle(&graph, index).is_empty());
    }
    let mut app = app_of(constraints);
    let graph = app.mark_cycles();
    assert!(graph.is_some());
    assert_eq!(graph.unwrap().node_count(), 3);
    for c in &app.constraints {
        assert_eq!(c.paradox_error, None);
    }
}

#[test]
fn a_cycle_through_every_section_is_found() {
    let constraints = vec![section(false, vec![2]), section(false, vec![3]), section(false, vec![1])];
    let graph = compute_graph(&constraints);
    assert_eq!(find_cycle(&graph, 0), vec![vec![0, 1, 2, 0]]);
    assert_eq!(find_cycle(&graph, 1), vec![vec![1, 2, 0, 1]]);
    assert_eq!(find_cycle(&graph, 2), vec![vec![2, 0, 1, 2]]);
    let mut app = app_of(constraints);
    assert!(app.mark_cycles().is_none());
    assert_eq!(
        app.constraints[2].paradox_error.as_deref(),
        Some(
            "Paradox detected:\n\t§3 must come before §1\n\t§1 must come before §2\n\t§2 must come before §3\n"
        )
    );
}

#[test]
fn every_cycle_through_a_section_is_reported() {
    let constraints = vec![section(false, vec![2, 3]), section(false, vec![1]), section(false, vec![1])];
    let graph = compute_graph(&constraints);
    assert_eq!(find_cycle(&graph, 0), vec![vec![0, 2, 0], vec![0, 1, 0]]);
    assert_eq!(find_cycle(&graph, 1), vec![vec![1, 0, 1]]);
    let mut app = app_of(constraints);
    assert!(app.mark_cycles().is_none());
    assert_eq!(
        app.constraints[0].paradox_error.as_deref(),
        Some(
            "Paradox detected:\n\t§1 must come before §3\n\t§3 must come before §1\nParadox detected:\n\t§1 must come before §2\n\t§2 must come before §1\n"
        )
    );
}

#[test]
fn only_sections_on_a_cycle_carry_a_message() {
    let constraints = vec![
        section(false, vec![2]),
        section(false, vec![3]),
        section(false, vec![2]),
        section(false, vec![]),
    ];
    let mut app = app_of(constraints);
    app.constraints[0].paradox_error = Some("stale".to_string());
    app.constraints[3].paradox_error = Some("stale".to_string());
    assert!(app.mark_cycles().is_none());
    assert_eq!(app.constraints[0].paradox_error, None);
    assert_eq!(
        app.constraints[1].paradox_error.as_deref(),
        Some("Paradox detected:\n\t§2 must come before §3\n\t§3 must come before §2\n")
    );
    assert_eq!(
        app.constraints[2].paradox_error.as_deref(),
        Some("Paradox detected:\n\t§3 must come before §2\n\t§2 must come before §3\n")
    );
    assert_eq!(app.constraints[3].paradox_error, None);
}

#[test]
fn a_fixed_last_section_that_comes_before_another_is_a_paradox() {
    let constraints = vec![section(false, vec![]), section(false, vec![]), section(true, vec![1])];
    let mut app = app_of(constraints);
    assert!(app.mark_cycles().is_none());
    assert!(app.constraints[0].paradox_error.is_some());
    assert_eq!(app.constraints[1].paradox_error, None);
    assert!(app.constraints[2].paradox_error.is_some());
}

#[test]
fn marking_twice_gives_the_same_messages() {
    let constraints = vec![
        section(false, vec![2, 3]),
        section(false, vec![1, 3]),
        section(false, vec![1]),
        section(false, vec![]),
    ];
    let mut app = app_of(constraints);
    let first = app.mark_cycles().is_some();
    let once: Vec<Option<String>> = app.constraints.iter().map(|c| c.paradox_error.clone()).collect();
    let second = app.mark_cycles().is_some();
    let twice: Vec<Option<String>> = app.constraints.iter().map(|c| c.paradox_error.clone()).collect();
    assert_eq!(first, second);
    assert_eq!(once, twice);
    assert!(once[0].is_some() && once[1].is_some() && once[2].is_some());
    assert_eq!(once[3], None);
}

#[test]
fn marking_clears_a_message_once_the_paradox_is_gone() {
    let mut app = app_of(vec![section(false, vec![2]), section(false, vec![1])]);
    assert!(app.mark_cycles().is_none());
    assert!(app.constraints[0].paradox_error.is_some());
    app.constraints[1].before = vec![];
    assert!(app.mark_cycles().is_some());
    assert_eq!(app.constraints[0].paradox_error, None);
    assert_eq!(app.constraints[1].paradox_error, None);
}

#[test]
fn a_node_that_is_not_there_has_no_cycle() {
    let graph = compute_graph(&[section(false, vec![1])]);
    assert!(find_cycle(&graph, 1).is_empty());
    assert!(find_cycle(&graph, 7).is_empty());
}

#[test]
fn messages_are_written_with_one_based_numbers() {
    assert_eq!(paradox_message(&vec![]), "");
    assert_eq!(paradox_message(&vec![vec![0, 0]]), "Paradox detected:\n\t§1 must come before §1\n");
    assert_eq!(
        paradox_message(&vec![vec![9, 99, 9], vec![9, 9]]),
        "Paradox detected:\n\t§10 must come before §100\n\t§100 must come before §10\nParadox detected:\n\t§10 must come before §10\n"
    );
    assert_eq!(paradox_message(&vec![vec![], vec![4]]), "Paradox detected:\nParadox detected:\n");
    assert_eq!(
        paradox_message(&vec![vec![usize::MAX, 0]]),
        format!("Paradox detected:\n\t§{} must come before §1\n", usize::MAX as u128 + 1)
    );
}
