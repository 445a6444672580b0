use vstd::prelude::*;

verus! {

/// A road segment (or a contraction shortcut) between two nodes. The cost
/// vector is carried along unchanged; the graph code never reads it.
pub struct Edge<C> {
    pub id: u32,
    pub source_id: u32,
    pub target_id: u32,
    pub edge_costs: C,
    /// For a shortcut, the two edges it replaces, by id.
    pub replaced_edges: Option<(u32, u32)>,
}

impl<C> Edge<C> {
    pub fn new(
        id: u32,
        source_id: u32,
        target_id: u32,
        edge_costs: C,
        replaced_edges: Option<(u32, u32)>,
    ) -> (e: Edge<C>)
        ensures
            e == (Edge { id, source_id, target_id, edge_costs, replaced_edges }),
    {
        Edge { id, source_id, target_id, edge_costs, replaced_edges }
    }
}

/// One side of an edge as stored in an adjacency array: the edge's id, the
/// node at the other end and the edge's costs.
pub struct HalfEdge<C> {
    pub edge_id: u32,
    pub target_id: u32,
    pub edge_costs: C,
}

impl<C> HalfEdge<C> {
    pub fn new(edge_id: u32, target_id: u32, edge_costs: C) -> (h: HalfEdge<C>)
        ensures
            h == (HalfEdge { edge_id, target_id, edge_costs }),
    {
        HalfEdge { edge_id, target_id, edge_costs }
    }
}

} // verus!
