use vstd::prelude::*;

verus! {

/// A vertex of the road network together with its contraction level.
pub struct Node {
    pub id: u32,
    pub ch_level: u32,
}

impl Node {
    pub fn new(id: u32, ch_level: u32) -> (n: Node)
        ensures
            n.id == id,
            n.ch_level == ch_level,
    {
        Node { id, ch_level }
    }
}

} // verus!
