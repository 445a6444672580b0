use preference_splitting::graph::dijkstra::Direction;
use preference_splitting::graph::path::subpath_ids;
use preference_splitting::graph::route::{trace_route, RouteTrace};
use preference_splitting::graph::{endpoints_known, Edge, Graph, HalfEdge, Node};
use preference_splitting::helpers::MyVec;
use preference_splitting::MyError;

fn sample_edges() -> Vec<Edge<()>> {
    vec![
        Edge::new(0, 10, 20, (), None),
        Edge::new(1, 20, 30, (), None),
        Edge::new(2, 10, 30, (), None),
        Edge::new(3, 10, 30, (), Some((0, 1))),
    ]
}

fn sample_nodes() -> Vec<Node> {
    vec![Node::new(10, 1), Node::new(20, 3), Node::new(30, 2)]
}

fn sample_graph() -> Graph<()> {
    Graph::new(sample_nodes(), sample_edges())
}

fn ids(halves: &[HalfEdge<()>]) -> Vec<(u32, u32)> {
    halves.iter().map(|h| (h.edge_id, h.target_id)).collect()
}

#[test]
fn nodes_are_renumbered_by_descending_level() {
    let g = sample_graph();
    let nodes: Vec<(u32, u32)> = g.nodes.0.iter().map(|n| (n.id, n.ch_level)).collect();
    assert_eq!(nodes, vec![(0, 3), (1, 2), (2, 1)]);
}

#[test]
fn edges_are_renumbered_and_ordered_by_id() {
    let g = sample_graph();
    assert_eq!(g.edge_count(), 4);
    let ends: Vec<(u32, u32, u32)> = g.edges.0.iter().map(|e| (e.id, e.source_id, e.target_id)).collect();
    assert_eq!(ends, vec![(0, 2, 0), (1, 0, 1), (2, 2, 1), (3, 2, 1)]);
    assert_eq!(g.edge(3).replaced_edges, Some((0, 1)));
}

#[test]
fn outgoing_edges_are_grouped_by_source_and_ordered_by_target_level() {
    let g = sample_graph();
    assert_eq!(ids(g.get_ch_edges_out(0)), vec![(1, 1)]);
    assert_eq!(ids(g.get_ch_edges_out(1)), vec![]);
    assert_eq!(ids(g.get_ch_edges_out(2)), vec![(0, 0), (2, 1), (3, 1)]);
}

#[test]
fn incoming_edges_are_grouped_by_target_and_ordered_by_source_level() {
    let g = sample_graph();
    assert_eq!(ids(g.get_ch_edges_in(0)), vec![(0, 2)]);
    assert_eq!(ids(g.get_ch_edges_in(1)), vec![(1, 0), (2, 2), (3, 2)]);
    assert_eq!(ids(g.get_ch_edges_in(2)), vec![]);
}

#[test]
fn each_edge_appears_once_in_the_adjacency_of_its_endpoints() {
    let g = sample_graph();
    for v in 0..3u32 {
        let mut leaving: Vec<(u32, u32)> =
            g.edges.0.iter().filter(|e| e.source_id == v).map(|e| (e.id, e.target_id)).collect();
        let mut listed = ids(g.get_ch_edges_out(v));
        leaving.sort();
        listed.sort();
        assert_eq!(listed, leaving);
        let mut entering: Vec<(u32, u32)> =
            g.edges.0.iter().filter(|e| e.target_id == v).map(|e| (e.id, e.source_id)).collect();
        let mut listed_in = ids(g.get_ch_edges_in(v));
        entering.sort();
        listed_in.sort();
        assert_eq!(listed_in, entering);
    }
}

#[test]
fn a_repeated_node_id_refers_to_the_last_node_carrying_it() {
    let nodes = vec![Node::new(5, 0), Node::new(5, 9)];
    let edges = vec![Edge::new(0, 5, 5, (), None)];
    let g = Graph::new(nodes, edges);
    assert_eq!((g.edge(0).source_id, g.edge(0).target_id), (1, 1));
}

#[test]
fn endpoints_are_checked_against_node_ids() {
    assert!(endpoints_known(&sample_nodes(), &sample_edges()));
    let mut edges = sample_edges();
    edges.push(Edge::new(4, 10, 99, (), None));
    assert!(!endpoints_known(&sample_nodes(), &edges));
}

#[test]
fn shortcuts_unpack_into_road_edges() {
    let g = sample_graph();
    assert_eq!(g.unpack_edge(3), vec![0, 1]);
    assert_eq!(g.unpack_edge(2), vec![2]);
    assert_eq!(g.try_unpack_edge(3), Some(vec![0, 1]));
    assert_eq!(g.try_unpack_edge(7), None);
    assert_eq!(g.unpack_edges(&vec![3, 2]), Some(vec![0, 1, 2]));
    assert_eq!(g.unpack_edges(&vec![3, 9]), None);
}

#[test]
fn a_cyclic_shortcut_does_not_unpack() {
    let nodes = vec![Node::new(0, 0), Node::new(1, 0)];
    let edges = vec![Edge::new(0, 0, 1, (), Some((0, 0)))];
    let g = Graph::new(nodes, edges);
    assert_eq!(g.try_unpack_edge(0), None);
}

#[test]
fn subpaths_join_into_one_route_with_their_lengths_as_cuts() {
    let g = sample_graph();
    let (nodes, edges, cuts) = g.route_from_subpaths(&vec![vec![3], vec![2]], &vec![2, 1, 1]).unwrap();
    assert_eq!(edges, vec![0, 1, 2]);
    assert_eq!(cuts, vec![2, 1]);
    assert_eq!(nodes, vec![2, 0, 2, 1]);
    assert_eq!(g.route_from_subpaths(&vec![vec![8]], &vec![1]), None);
}

#[test]
fn routes_are_traced_back_along_predecessor_edges() {
    let g = sample_graph();
    let prev = vec![Some(0), Some(1), Some(2)];
    match trace_route(&g, &prev, 2, 1) {
        RouteTrace::Found { nodes, edges } => {
            assert_eq!(nodes, vec![2, 0, 1]);
            assert_eq!(edges, vec![0, 1]);
            for (k, e) in edges.iter().enumerate() {
                assert_eq!(g.edge(*e as usize).source_id, nodes[k]);
                assert_eq!(prev[nodes[k + 1] as usize], Some(*e));
            }
        }
        _ => panic!("route expected"),
    }
    match trace_route(&g, &prev, 2, 2) {
        RouteTrace::Found { nodes, edges } => {
            assert_eq!(nodes, vec![2]);
            assert!(edges.is_empty());
        }
        _ => panic!("route expected"),
    }
}

#[test]
fn unreachable_and_broken_routes_are_told_apart() {
    let g = sample_graph();
    assert!(matches!(trace_route(&g, &vec![None, None, Some(2)], 2, 1), RouteTrace::Unreachable));
    assert!(matches!(trace_route(&g, &vec![Some(0), Some(9), Some(2)], 2, 1), RouteTrace::Broken));
    assert!(matches!(trace_route(&g, &vec![Some(1), Some(1), None], 2, 1), RouteTrace::Broken));
}

#[test]
fn subpath_takes_nodes_and_the_edges_between_them() {
    let nodes = MyVec(vec![1, 2, 3, 4]);
    let edges = MyVec(vec![10, 20, 30]);
    let (n, e) = subpath_ids(&nodes, &edges, 1, 3);
    assert_eq!(n.0, vec![2, 3]);
    assert_eq!(e.0, vec![20]);
    let (n, e) = subpath_ids(&nodes, &edges, 0, 0);
    assert!(n.0.is_empty() && e.0.is_empty());
}

#[test]
fn errors_have_their_messages() {
    assert_eq!(MyError::InvalidTrajectories.message(), "Invalid Trajectories");
    assert_eq!(MyError::WrongArgumentNumber.message(), "Too few arguments");
}

#[test]
fn directions_compare() {
    assert!(Direction::FORWARD != Direction::BACKWARD);
    assert!(MyVec::<u32>::new().0.is_empty());
}
