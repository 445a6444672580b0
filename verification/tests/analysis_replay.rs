//! The trajectory analyses on the small test graphs whose edges all cost one.
//! On such a graph a segment of the path is optimal exactly when it contains
//! no shortcut: no edge of the graph that skips nodes of the path between
//! two of its nodes. The searches are answered from that rule.

use preference_splitting::graph::search::{NonOptimalSearch, PrefixSearch, SearchAction, WindowSearch};
use preference_splitting::graph::trajectory_analysis::{longest_optimal_stretch, SubPath};

/// Whether the segment from path index `source` to `target` is optimal,
/// given the shortcuts as pairs of path indices.
fn optimal(shortcuts: &[(u32, u32)], source: u32, target: u32) -> bool {
    !shortcuts.iter().any(|&(a, b)| source <= a && b <= target)
}

/// The cuts of the greedy split into optimal segments, or `None` where the
/// first step is not optimal.
fn find_preference(path_length: u32, shortcuts: &[(u32, u32)]) -> Option<Vec<u32>> {
    let mut search = PrefixSearch::new(path_length);
    loop {
        match search.action() {
            SearchAction::Query { source, target } => search.record(optimal(shortcuts, source, target)),
            SearchAction::Abandoned => return None,
            SearchAction::Done => return Some(search.cuts().clone()),
        }
    }
}

/// For each cut but the last, the shortest non-optimal window ending one
/// node after it.
fn find_non_optimal_segments(path_length: u32, shortcuts: &[(u32, u32)]) -> Vec<SubPath> {
    let cuts = match find_preference(path_length, shortcuts) {
        Some(cuts) if !cuts.is_empty() => cuts,
        _ => return Vec::new(),
    };
    let mut search = WindowSearch::new(cuts);
    loop {
        match search.action() {
            SearchAction::Query { source, target } => search.record(optimal(shortcuts, source, target)),
            SearchAction::Abandoned => panic!("the window search left the path"),
            SearchAction::Done => return search.windows().clone(),
        }
    }
}

/// All minimal non-optimal windows of the path.
fn find_all_non_optimal_segments(path_length: u32, shortcuts: &[(u32, u32)]) -> Vec<SubPath> {
    let mut search = NonOptimalSearch::new(path_length);
    loop {
        match search.action() {
            SearchAction::Query { source, target } => search.record(optimal(shortcuts, source, target)),
            SearchAction::Abandoned => panic!("Error"),
            SearchAction::Done => return search.windows().clone(),
        }
    }
}

// Path 0 -> 1 on the line graph of two nodes.
const LINE_LENGTH: u32 = 2;
const LINE_SHORTCUTS: [(u32, u32); 0] = [];

// Path 0, 1, 2, 3, 4 with the edge 1 -> 3 beside it.
const SINGLE_LENGTH: u32 = 5;
const SINGLE_SHORTCUTS: [(u32, u32); 1] = [(1, 3)];

// Path 0, 1, 2, 3, 4, 5 with the edge 1 -> 4 beside it.
const LONG_LENGTH: u32 = 6;
const LONG_SHORTCUTS: [(u32, u32); 1] = [(1, 4)];

// Path of the nodes 0, 1, 2, 3, 4, 6 (indices 0 to 5) with the edges
// 1 -> 3 and 2 -> 4 beside it.
const OVERLAP_LENGTH: u32 = 6;
const OVERLAP_SHORTCUTS: [(u32, u32); 2] = [(1, 3), (2, 4)];

#[test]
fn trajectory_analysis_test_no_non_optimal_subpath() {
    let non_opts = find_non_optimal_segments(LINE_LENGTH, &LINE_SHORTCUTS);
    assert!(non_opts.is_empty());
}

#[test]
fn trajectory_analysis_test_single_non_optimal_subpath() {
    let non_opts = find_non_optimal_segments(SINGLE_LENGTH, &SINGLE_SHORTCUTS);
    assert_eq!(1, non_opts.len());
    assert_eq!(1, non_opts[0].start_index);
    assert_eq!(3, non_opts[0].end_index);
}

#[test]
fn trajectory_analysis_test_long_non_optimal_subpath() {
    let non_opts = find_non_optimal_segments(LONG_LENGTH, &LONG_SHORTCUTS);
    assert_eq!(1, non_opts.len());
    assert_eq!(1, non_opts[0].start_index);
    assert_eq!(4, non_opts[0].end_index);
}

#[test]
fn trajectory_analysis_test_finding_overlapping_non_optimal_subpaths() {
    let non_opts = find_non_optimal_segments(OVERLAP_LENGTH, &OVERLAP_SHORTCUTS);
    assert_eq!(2, non_opts.len());
    assert_eq!(1, non_opts[0].start_index);
    assert_eq!(3, non_opts[0].end_index);
    assert_eq!(2, non_opts[1].start_index);
    assert_eq!(4, non_opts[1].end_index);
}

#[test]
fn mod_test_no_non_optimal_subpath() {
    let non_opts = find_non_optimal_segments(LINE_LENGTH, &LINE_SHORTCUTS);
    assert!(non_opts.is_empty());
}

#[test]
fn mod_test_single_non_optimal_subpath() {
    let non_opts = find_non_optimal_segments(SINGLE_LENGTH, &SINGLE_SHORTCUTS);
    assert_eq!(1, non_opts.len());
    assert_eq!(1, non_opts[0].start_index);
    assert_eq!(3, non_opts[0].end_index);
}

#[test]
fn mod_test_long_non_optimal_subpath() {
    let non_opts = find_non_optimal_segments(LONG_LENGTH, &LONG_SHORTCUTS);
    assert_eq!(1, non_opts.len());
    assert_eq!(1, non_opts[0].start_index);
    assert_eq!(4, non_opts[0].end_index);
}

#[test]
fn mod_test_finding_overlapping_non_optimal_subpaths() {
    let non_opts = find_non_optimal_segments(OVERLAP_LENGTH, &OVERLAP_SHORTCUTS);
    assert_eq!(2, non_opts.len());
    assert_eq!(1, non_opts[0].start_index);
    assert_eq!(3, non_opts[0].end_index);
    assert_eq!(2, non_opts[1].start_index);
    assert_eq!(4, non_opts[1].end_index);
}

#[test]
fn all_non_optimal_segments_of_the_overlapping_shortcuts() {
    let windows = find_all_non_optimal_segments(OVERLAP_LENGTH, &OVERLAP_SHORTCUTS);
    assert_eq!(
        windows,
        vec![SubPath { start_index: 1, end_index: 3 }, SubPath { start_index: 2, end_index: 4 }]
    );
}

#[test]
fn all_non_optimal_segments_of_the_single_shortcuts() {
    assert_eq!(
        find_all_non_optimal_segments(SINGLE_LENGTH, &SINGLE_SHORTCUTS),
        vec![SubPath { start_index: 1, end_index: 3 }]
    );
    assert_eq!(
        find_all_non_optimal_segments(LONG_LENGTH, &LONG_SHORTCUTS),
        vec![SubPath { start_index: 1, end_index: 4 }]
    );
    assert!(find_all_non_optimal_segments(LINE_LENGTH, &LINE_SHORTCUTS).is_empty());
}

#[test]
fn all_non_optimal_segments_are_the_minimal_ones() {
    // Three shortcuts, two of them nested in the third: only the inner ones
    // are minimal.
    let shortcuts = [(1, 6), (2, 4), (4, 6)];
    let windows = find_all_non_optimal_segments(8, &shortcuts);
    assert_eq!(
        windows,
        vec![SubPath { start_index: 2, end_index: 4 }, SubPath { start_index: 4, end_index: 6 }]
    );
    for w in &windows {
        assert!(!optimal(&shortcuts, w.start_index, w.end_index));
        assert!(optimal(&shortcuts, w.start_index + 1, w.end_index));
        assert!(optimal(&shortcuts, w.start_index, w.end_index - 1));
    }
}

fn window(start_index: u32, end_index: u32) -> SubPath {
    SubPath { start_index, end_index }
}

#[test]
fn the_longest_stretch_lies_between_the_windows() {
    assert_eq!(longest_optimal_stretch(&vec![window(1, 2), window(6, 7)], 10), (3, 6));
    // Ties go to the first stretch.
    assert_eq!(longest_optimal_stretch(&vec![window(2, 3), window(6, 8)], 12), (0, 2));
    // Overlapping windows leave only the stretch before them.
    assert_eq!(longest_optimal_stretch(&vec![window(1, 3), window(2, 4)], 6), (0, 1));
    // Without windows the whole path is one stretch.
    assert_eq!(longest_optimal_stretch(&vec![], 5), (0, 5));
    // No stretch of positive length.
    assert_eq!(longest_optimal_stretch(&vec![window(0, 1)], 4), (0, 0));
}

#[test]
fn the_longest_stretch_of_the_overlapping_shortcuts() {
    let windows = find_all_non_optimal_segments(OVERLAP_LENGTH, &OVERLAP_SHORTCUTS);
    assert_eq!(longest_optimal_stretch(&windows, OVERLAP_LENGTH), (0, 1));
}
