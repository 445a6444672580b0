use preference_splitting::graph::search::{NonOptimalSearch, PrefixSearch, SearchAction, WindowSearch};
use preference_splitting::graph::trajectory_analysis::SubPath;

fn short(source: u32, target: u32) -> bool {
    target - source <= 2
}

#[test]
fn prefix_search_cuts_at_the_longest_optimal_segments() {
    let mut s = PrefixSearch::new(5);
    let mut queries = Vec::new();
    while let SearchAction::Query { source, target } = s.action() {
        queries.push((source, target));
        s.record(short(source, target));
    }
    assert_eq!(s.action(), SearchAction::Done);
    assert_eq!(queries, vec![(0, 2), (0, 4), (0, 3), (2, 3), (2, 4)]);
    assert_eq!(s.cuts(), &vec![2, 4]);
}

#[test]
fn prefix_search_gives_up_when_no_step_is_optimal() {
    let mut s = PrefixSearch::new(5);
    while let SearchAction::Query { .. } = s.action() {
        s.record(false);
    }
    assert_eq!(s.action(), SearchAction::Abandoned);
    assert!(s.cuts().is_empty());
}

#[test]
fn prefix_search_on_a_single_node_is_done() {
    let s = PrefixSearch::new(1);
    assert_eq!(s.action(), SearchAction::Done);
}

#[test]
fn window_search_finds_the_shortest_non_optimal_window_per_cut() {
    let mut s = WindowSearch::new(vec![2, 4]);
    let mut queries = Vec::new();
    while let SearchAction::Query { source, target } = s.action() {
        queries.push((source, target));
        s.record(short(source, target));
    }
    assert_eq!(s.action(), SearchAction::Done);
    assert_eq!(queries, vec![(1, 3), (0, 3)]);
    assert_eq!(s.windows(), &vec![SubPath { start_index: 0, end_index: 3 }]);
}

#[test]
fn window_search_gives_up_at_the_path_start() {
    let mut s = WindowSearch::new(vec![1, 4]);
    while let SearchAction::Query { .. } = s.action() {
        s.record(true);
    }
    assert_eq!(s.action(), SearchAction::Abandoned);
}

#[test]
fn non_optimal_search_finds_all_non_optimal_windows() {
    let mut s = NonOptimalSearch::new(5);
    let mut queries = Vec::new();
    while let SearchAction::Query { source, target } = s.action() {
        queries.push((source, target));
        s.record(short(source, target));
    }
    assert_eq!(
        queries,
        vec![(0, 4), (0, 2), (0, 4), (0, 3), (1, 3), (0, 3), (1, 4), (1, 3), (1, 4), (2, 4), (1, 4), (2, 4)]
    );
    assert_eq!(
        s.windows(),
        &vec![
            SubPath { start_index: 0, end_index: 3 },
            SubPath { start_index: 1, end_index: 4 }
        ]
    );
}

#[test]
fn non_optimal_search_on_an_optimal_path_finds_nothing() {
    let mut s = NonOptimalSearch::new(4);
    while let SearchAction::Query { .. } = s.action() {
        s.record(true);
    }
    assert!(s.windows().is_empty());
}

#[test]
fn non_optimal_search_with_no_optimal_step_reports_single_edges() {
    let mut s = NonOptimalSearch::new(3);
    while let SearchAction::Query { .. } = s.action() {
        s.record(false);
    }
    assert_eq!(
        s.windows(),
        &vec![
            SubPath { start_index: 0, end_index: 1 },
            SubPath { start_index: 1, end_index: 2 }
        ]
    );
}
