use preference_splitting::graph::trajectory_analysis::{SubPath, TrajectoryAnalysis};

#[test]
fn test_intersecting_no_nos() {
    let subpaths = [];
    let intersected = TrajectoryAnalysis::intersect_subpaths(&subpaths);
    assert!(intersected.is_empty())
}

#[test]
fn intersect_disjoint_nos() {
    let first = SubPath {
        start_index: 0,
        end_index: 2,
    };
    let second = SubPath {
        start_index: 3,
        end_index: 4,
    };
    let subpaths = [first, second];

    let intersected = TrajectoryAnalysis::intersect_subpaths(&subpaths);
    assert_eq!(intersected.len(), 2);
    assert_eq!(intersected[0], first);
    assert_eq!(intersected[1], second);
}

#[test]
fn intersect_overlapping_nos() {
    let first = SubPath {
        start_index: 0,
        end_index: 5,
    };
    let second = SubPath {
        start_index: 3,
        end_index: 7,
    };
    let subpaths = [first, second];

    let intersected = TrajectoryAnalysis::intersect_subpaths(&subpaths);
    assert_eq!(intersected.len(), 1);
    assert_eq!(
        intersected[0],
        SubPath {
            start_index: 3,
            end_index: 5
        }
    );
}

#[test]
fn intersect_two_overlapping_nos_plus_one() {
    let first = SubPath {
        start_index: 0,
        end_index: 5,
    };
    let second = SubPath {
        start_index: 3,
        end_index: 15,
    };

    let third = SubPath {
        start_index: 17,
        end_index: 20,
    };
    let subpaths = [first, second, third];

    let intersected = TrajectoryAnalysis::intersect_subpaths(&subpaths);
    assert_eq!(intersected.len(), 2);
    assert_eq!(
        intersected[0],
        SubPath {
            start_index: 3,
            end_index: 5,
        }
    );

    assert_eq!(
        intersected[1],
        SubPath {
            start_index: 17,
            end_index: 20,
        }
    );
}

#[test]
fn test_intersection_with_real_world_data() {
    let to_subpath = |indices: &[u32; 2]| SubPath {
        start_index: indices[0],
        end_index: indices[1],
    };

    let subpaths = [
        [14, 41],
        [16, 42],
        [45, 47],
        [52, 99],
        [55, 103],
        [69, 106],
        [72, 113],
        [77, 115],
        [79, 121],
        [80, 139],
        [81, 140],
        [84, 141],
        [118, 143],
        [120, 170],
        [170, 172],
        [214, 216],
        [253, 304],
        [254, 305],
        [258, 306],
        [260, 307],
        [264, 310],
        [330, 332],
    ]
    .iter()
    .map(to_subpath)
    .collect::<Vec<_>>();
    let intersected = TrajectoryAnalysis::intersect_subpaths(&subpaths);

    let results = [
        [16, 41],
        [45, 47],
        [84, 99],
        [120, 143],
        [170, 172],
        [214, 216],
        [264, 304],
        [330, 332],
    ]
    .iter()
    .map(to_subpath)
    .collect::<Vec<_>>();

    assert_eq!(intersected, results);
}

#[test]
fn intersect_never_adds_windows() {
    let subpaths = [
        SubPath { start_index: 1, end_index: 4 },
        SubPath { start_index: 2, end_index: 6 },
        SubPath { start_index: 3, end_index: 8 },
        SubPath { start_index: 9, end_index: 10 },
    ];
    let intersected = TrajectoryAnalysis::intersect_subpaths(&subpaths);
    assert!(intersected.len() <= subpaths.len());
    for s in &intersected {
        assert!(s.start_index < s.end_index);
    }
}

#[test]
fn intersect_keeps_disjoint_windows_unchanged() {
    let subpaths = [
        SubPath { start_index: 0, end_index: 1 },
        SubPath { start_index: 1, end_index: 2 },
        SubPath { start_index: 5, end_index: 9 },
    ];
    let intersected = TrajectoryAnalysis::intersect_subpaths(&subpaths);
    assert_eq!(intersected, subpaths.to_vec());
}

fn window(start_index: u32, end_index: u32) -> SubPath {
    SubPath { start_index, end_index }
}

#[test]
fn intersecting_cuts_each_window_by_its_run() {
    let subpaths = [window(0, 3), window(1, 4), window(2, 5), window(6, 8)];
    let intersected = TrajectoryAnalysis::intersect_subpaths(&subpaths);
    // The first window is cut down by the two after it that start before it
    // ends; the second contains the result and is dropped.
    assert_eq!(intersected, vec![window(2, 3), window(2, 5), window(6, 8)]);
    for s in &subpaths {
        assert!(intersected
            .iter()
            .any(|w| s.start_index <= w.start_index && w.end_index <= s.end_index));
    }
}

#[test]
fn intersecting_windows_with_a_shared_start() {
    let subpaths = [window(1, 3), window(1, 4), window(5, 7)];
    let intersected = TrajectoryAnalysis::intersect_subpaths(&subpaths);
    assert_eq!(intersected, vec![window(1, 3), window(5, 7)]);
}
