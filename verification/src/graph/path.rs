//! Pieces of routes given by node and edge ids.
use vstd::prelude::*;

use crate::helpers::MyVec;

verus! {

/// Where the edges of the piece of a route that ends before node `end`
/// stop: one edge fewer than nodes, and none for an empty piece at the
/// start.
pub open spec fn subpath_stop(end: u32) -> u32 {
    if end > 0 {
        (end - 1) as u32
    } else {
        end
    }
}

/// The piece of a route with the nodes `start..end` and the edges between
/// them.
pub fn subpath_ids(nodes: &MyVec<u32>, edges: &MyVec<u32>, start: u32, end: u32) -> (r: (
    MyVec<u32>,
    MyVec<u32>,
))
    requires
        start <= end <= nodes@.len(),
        start <= subpath_stop(end) <= edges@.len(),
    ensures
        r.0@ == nodes@.subrange(start as int, end as int),
        r.1@ == edges@.subrange(start as int, subpath_stop(end) as int),
{
    let stop = if end > 0 {
        end - 1
    } else {
        end
    };
    let mut ns: Vec<u32> = Vec::new();
    let mut i = start;
    while i < end
        invariant
            start <= i <= end <= nodes@.len(),
            ns@ == nodes@.subrange(start as int, i as int),
        decreases end - i,
    {
        ns.push(nodes.0[i as usize]);
        assert(ns@ =~= nodes@.subrange(start as int, i + 1));
        i = i + 1;
    }
    let mut es: Vec<u32> = Vec::new();
    let mut j = start;
    while j < stop
        invariant
            start <= j <= stop <= edges@.len(),
            es@ == edges@.subrange(start as int, j as int),
        decreases stop - j,
    {
        es.push(edges.0[j as usize]);
        assert(es@ =~= edges@.subrange(start as int, j + 1));
        j = j + 1;
    }
    (MyVec(ns), MyVec(es))
}

} // verus!
