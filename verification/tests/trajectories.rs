use preference_splitting::graph::{Edge, Graph, Node};
use preference_splitting::helpers::MyVec;
use preference_splitting::names::NameIndex;
use preference_splitting::trajectories::{
    check_trajectory, shared_edge_count, RandomWalk, Trajectory, TrajectoryError,
};

fn sample() -> (Graph<()>, NameIndex) {
    let nodes = vec![Node::new(10, 1), Node::new(20, 3), Node::new(30, 2)];
    let edges = vec![
        Edge::new(0, 10, 20, (), None),
        Edge::new(1, 20, 30, (), None),
        Edge::new(2, 10, 30, (), None),
        Edge::new(3, 30, 30, (), None),
    ];
    let mut names = NameIndex::new();
    for n in ["5", "6", "7", "8"] {
        names.push(n.to_string());
    }
    (Graph::new(nodes, edges), names)
}

fn trajectory(path: Vec<i64>) -> Trajectory {
    Trajectory { trip_id: vec![(Some(3), 1)], vehicle_id: 9, path: MyVec(path) }
}

#[test]
fn connected_trajectories_pass_the_check() {
    let (g, names) = sample();
    assert_eq!(check_trajectory(&MyVec(vec![5, 6]), &g, &names), Ok(None));
    assert_eq!(check_trajectory(&MyVec(vec![5]), &g, &names), Ok(None));
    assert_eq!(check_trajectory(&MyVec(vec![]), &g, &names), Ok(None));
}

#[test]
fn the_first_gap_is_reported() {
    let (g, names) = sample();
    assert_eq!(check_trajectory(&MyVec(vec![5, 6, 5, 6]), &g, &names), Ok(Some(1)));
    assert_eq!(check_trajectory(&MyVec(vec![6, 5]), &g, &names), Ok(Some(0)));
}

#[test]
fn unknown_edges_stop_the_check() {
    let (g, names) = sample();
    assert_eq!(
        check_trajectory(&MyVec(vec![5, 99]), &g, &names),
        Err(TrajectoryError::UnknownEdge { edge: 99 })
    );
    assert_eq!(check_trajectory(&MyVec(vec![6, 5, 99]), &g, &names), Ok(Some(0)));
}

#[test]
fn edges_resolve_by_their_decimal_name() {
    let (g, mut names) = sample();
    names.push("-4".to_string());
    assert_eq!(
        check_trajectory(&MyVec(vec![-4]), &g, &names),
        Ok(None)
    );
    assert_eq!(
        check_trajectory(&MyVec(vec![-4, 5]), &g, &names),
        Err(TrajectoryError::EdgeOutOfRange { edge: -4 })
    );
}

#[test]
fn names_of_many_digits_and_the_smallest_id_resolve() {
    let (g, mut names) = sample();
    names.push("100".to_string());
    names.push("-9223372036854775808".to_string());
    assert_eq!(
        check_trajectory(&MyVec(vec![5, 100]), &g, &names),
        Err(TrajectoryError::EdgeOutOfRange { edge: 100 })
    );
    assert_eq!(
        check_trajectory(&MyVec(vec![5, i64::MIN]), &g, &names),
        Err(TrajectoryError::EdgeOutOfRange { edge: i64::MIN })
    );
    assert_eq!(
        check_trajectory(&MyVec(vec![5, 10]), &g, &names),
        Err(TrajectoryError::UnknownEdge { edge: 10 })
    );
    assert_eq!(
        check_trajectory(&MyVec(vec![5, i64::MAX]), &g, &names),
        Err(TrajectoryError::UnknownEdge { edge: i64::MAX })
    );
}

#[test]
fn self_loops_are_removed_and_reported() {
    let (g, names) = sample();
    let mut t = trajectory(vec![8, 5, 8, 6]);
    let loops = t.filter_out_self_loops(&g, &names).unwrap();
    assert_eq!(loops.0, vec![0, 2]);
    assert_eq!(t.path.0, vec![5, 6]);
    assert_eq!(t.vehicle_id, 9);
    let again = t.filter_out_self_loops(&g, &names).unwrap();
    assert!(again.0.is_empty());
    assert_eq!(t.path.0, vec![5, 6]);
}

#[test]
fn removing_self_loops_fails_on_unknown_edges_and_keeps_the_path() {
    let (g, names) = sample();
    let mut t = trajectory(vec![8, 42]);
    assert_eq!(t.filter_out_self_loops(&g, &names).err(), Some(TrajectoryError::UnknownEdge { edge: 42 }));
    assert_eq!(t.path.0, vec![8, 42]);
}

#[test]
fn a_trajectory_becomes_a_route_of_nodes_and_edges() {
    let (g, names) = sample();
    let t = trajectory(vec![5, 6]);
    let (nodes, edges) = t.to_path(&g, &names).unwrap();
    assert_eq!(edges, vec![0, 1]);
    assert_eq!(nodes, vec![2, 0, 1]);
    assert_eq!(nodes.len(), edges.len() + 1);
    assert_eq!(check_trajectory(&t.path, &g, &names), Ok(None));
    for (k, e) in edges.iter().enumerate() {
        assert_eq!(g.edge(*e as usize).source_id, nodes[k]);
        assert_eq!(g.edge(*e as usize).target_id, nodes[k + 1]);
    }
}

#[test]
fn overlap_counts_shared_edges() {
    assert_eq!(shared_edge_count(&MyVec(vec![1, 2, 3]), &MyVec(vec![3, 4, 1, 1])), 3);
    assert_eq!(shared_edge_count(&MyVec(vec![1, 2, 3]), &MyVec(vec![1, 2, 3])), 3);
    assert_eq!(shared_edge_count(&MyVec(vec![1, 2]), &MyVec(vec![5, 6])), 0);
    assert_eq!(shared_edge_count(&MyVec(vec![]), &MyVec(vec![])), 0);
}

#[test]
fn a_random_walk_follows_the_first_road_edge_of_each_route() {
    let nodes = vec![Node::new(10, 1), Node::new(20, 3), Node::new(30, 2)];
    let edges = vec![
        Edge::new(0, 10, 20, (), None),
        Edge::new(1, 20, 30, (), None),
        Edge::new(2, 10, 30, (), Some((0, 1))),
        Edge::new(3, 10, 30, (), Some((3, 3))),
    ];
    // Nodes by descending level: 20 is 0, 30 is 1, 10 is 2.
    let g = Graph::new(nodes, edges);
    let mut walk = RandomWalk::new(2, 1);
    assert!(!walk.arrived());
    // An edge that replaces itself does not expand: the walk stays.
    assert!(!walk.step(&g, 3));
    assert_eq!(walk.position(), 2);
    // The shortcut 10 -> 30 expands into 10 -> 20 -> 30: the walk takes 10 -> 20.
    assert!(walk.step(&g, 2));
    assert_eq!(walk.position(), 0);
    assert!(walk.step(&g, 1));
    assert!(walk.arrived());
    let t = walk.into_trajectory();
    assert_eq!(t.path.0, vec![0, 1]);
    assert_eq!(t.vehicle_id, -1);
    assert_eq!(t.trip_id, vec![(None, 0)]);
}
