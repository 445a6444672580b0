use vstd::prelude::*;

use std::collections::{HashMap, HashSet};

use crate::helpers::{
    lemma_sorted_tagged_keys, pair_le, pair_lt, sort_pairs, tag_occurs, MyVec,
};

pub mod dijkstra;
pub mod edge;
pub mod files;
pub mod node;
pub mod path;
pub mod route;
pub mod search;
pub mod trajectory_analysis;

pub use edge::{Edge, HalfEdge};
pub use node::Node;

verus! {

broadcast use vstd::std_specs::hash::group_hash_axioms;

/// A road network in contraction-hierarchy order: nodes are numbered by
/// descending level, and the edges leaving (entering) each node are stored
/// contiguously, ordered by the level of the node at the other end.
pub struct Graph<C> {
    pub nodes: MyVec<Node>,
    pub edges: MyVec<Edge<C>>,
    /// The half-edges leaving and entering each node, grouped by node.
    pub adjacency: Adjacency<C>,
}

/// The adjacency arrays of a graph: the outgoing and the incoming
/// half-edges, each grouped by node, and for each node where its group
/// begins.
pub struct Adjacency<C> {
    offsets_in: MyVec<u32>,
    offsets_out: MyVec<u32>,
    half_edges_in: MyVec<HalfEdge<C>>,
    half_edges_out: MyVec<HalfEdge<C>>,
}

/// Some node has the id `id`.
pub open spec fn has_node_id(nodes: Seq<Node>, id: u32) -> bool {
    exists|j: int| 0 <= j < nodes.len() && #[trigger] nodes[j].id == id
}

/// `p` lists each of `0..n` exactly once.
pub open spec fn is_permutation(p: Seq<int>, n: int) -> bool {
    &&& p.len() == n
    &&& forall|k: int| 0 <= k < n ==> 0 <= #[trigger] p[k] < n
    &&& forall|i: int| 0 <= i < n ==> #[trigger] occurs_in(p, i)
}

pub open spec fn occurs_in(p: Seq<int>, i: int) -> bool {
    exists|k: int| 0 <= k < p.len() && #[trigger] p[k] == i
}

/// The sequence `s` rearranged by `p`.
pub open spec fn permuted<T>(s: Seq<T>, p: Seq<int>) -> Seq<T> {
    Seq::new(p.len(), |k: int| s[p[k]])
}

/// Node `i` comes before node `j`: a higher level first, the input order
/// among equal levels.
pub open spec fn node_precedes(nodes: Seq<Node>, i: int, j: int) -> bool {
    nodes[i].ch_level > nodes[j].ch_level || (nodes[i].ch_level == nodes[j].ch_level && i < j)
}

/// `perm` lists the nodes in graph order.
pub open spec fn orders_nodes(nodes: Seq<Node>, perm: Seq<int>) -> bool {
    &&& is_permutation(perm, nodes.len() as int)
    &&& forall|a: int, b: int|
        0 <= a < b < nodes.len() ==> node_precedes(nodes, #[trigger] perm[a], #[trigger] perm[b])
}

/// The nodes in graph order, numbered by their position.
pub open spec fn sorted_nodes(nodes: Seq<Node>, perm: Seq<int>) -> Seq<Node> {
    Seq::new(perm.len(), |j: int| Node { id: j as u32, ch_level: nodes[perm[j]].ch_level })
}

/// The node that had the id `old` is numbered `new`: the last position in
/// graph order of a node with that id.
pub open spec fn renumbers(nodes: Seq<Node>, perm: Seq<int>, old: u32, new: int) -> bool {
    &&& 0 <= new < perm.len()
    &&& nodes[perm[new]].id == old
    &&& forall|j: int| new < j < perm.len() ==> #[trigger] nodes[perm[j]].id != old
}

pub open spec fn new_id(nodes: Seq<Node>, perm: Seq<int>, old: u32) -> u32 {
    (choose|j: int| renumbers(nodes, perm, old, j)) as u32
}

/// An edge with its endpoints renumbered.
pub open spec fn renumbered_edge<C>(nodes: Seq<Node>, perm: Seq<int>, e: Edge<C>) -> Edge<C> {
    Edge {
        id: e.id,
        source_id: new_id(nodes, perm, e.source_id),
        target_id: new_id(nodes, perm, e.target_id),
        edge_costs: e.edge_costs,
        replaced_edges: e.replaced_edges,
    }
}

pub open spec fn renumbered_edges<C>(nodes: Seq<Node>, perm: Seq<int>, edges: Seq<Edge<C>>) -> Seq<
    Edge<C>,
> {
    Seq::new(edges.len(), |i: int| renumbered_edge(nodes, perm, edges[i]))
}

/// Order of the outgoing adjacency array: by source, then by descending
/// level of the target, then by position.
pub open spec fn out_precedes<C>(sn: Seq<Node>, es: Seq<Edge<C>>, a: int, b: int) -> bool {
    es[a].source_id < es[b].source_id || (es[a].source_id == es[b].source_id && (
    sn[es[a].target_id as int].ch_level > sn[es[b].target_id as int].ch_level || (
    sn[es[a].target_id as int].ch_level == sn[es[b].target_id as int].ch_level && a < b)))
}

/// Order of the incoming adjacency array: by target, then by descending
/// level of the source, then by position.
pub open spec fn in_precedes<C>(sn: Seq<Node>, es: Seq<Edge<C>>, a: int, b: int) -> bool {
    es[a].target_id < es[b].target_id || (es[a].target_id == es[b].target_id && (
    sn[es[a].source_id as int].ch_level > sn[es[b].source_id as int].ch_level || (
    sn[es[a].source_id as int].ch_level == sn[es[b].source_id as int].ch_level && a < b)))
}

/// Order of the edge array: by id, then by position.
pub open spec fn id_precedes<C>(es: Seq<Edge<C>>, a: int, b: int) -> bool {
    es[a].id < es[b].id || (es[a].id == es[b].id && a < b)
}

pub open spec fn orders_out<C>(sn: Seq<Node>, es: Seq<Edge<C>>, p: Seq<int>) -> bool {
    &&& is_permutation(p, es.len() as int)
    &&& forall|a: int, b: int|
        0 <= a < b < es.len() ==> out_precedes(sn, es, #[trigger] p[a], #[trigger] p[b])
}

pub open spec fn orders_in<C>(sn: Seq<Node>, es: Seq<Edge<C>>, p: Seq<int>) -> bool {
    &&& is_permutation(p, es.len() as int)
    &&& forall|a: int, b: int|
        0 <= a < b < es.len() ==> in_precedes(sn, es, #[trigger] p[a], #[trigger] p[b])
}

pub open spec fn orders_ids<C>(es: Seq<Edge<C>>, p: Seq<int>) -> bool {
    &&& is_permutation(p, es.len() as int)
    &&& forall|a: int, b: int|
        0 <= a < b < es.len() ==> id_precedes(es, #[trigger] p[a], #[trigger] p[b])
}

/// The outgoing half of an edge: its id, target and costs.
pub open spec fn out_half<C>(e: Edge<C>) -> HalfEdge<C> {
    HalfEdge { edge_id: e.id, target_id: e.target_id, edge_costs: e.edge_costs }
}

/// The incoming half of an edge: its id, source and costs.
pub open spec fn in_half<C>(e: Edge<C>) -> HalfEdge<C> {
    HalfEdge { edge_id: e.id, target_id: e.source_id, edge_costs: e.edge_costs }
}

/// `offsets[v]` is the number of entries of `keys` below `v`, for every
/// `v <= n`, where `keys` is sorted.
pub open spec fn bounds_groups(offsets: Seq<u32>, keys: Seq<u32>, n: int) -> bool {
    &&& offsets.len() == n + 1
    &&& forall|v: int| 0 <= v <= n ==> #[trigger] offsets[v] <= keys.len()
    &&& forall|v: int, k: int|
        0 <= v <= n && 0 <= k < keys.len() ==> (k < #[trigger] offsets[v] <==> #[trigger] keys[k]
            < v)
}

/// Positions as integers.
pub open spec fn positions(p: Seq<usize>) -> Seq<int> {
    p.map_values(|x: usize| x as int)
}

/// The tags of sorted tagged keys, in sorted order.
fn tags_of(t: &Vec<(u64, u64)>, Ghost(s): Ghost<Seq<(u64, u64)>>) -> (p: Vec<usize>)
    requires
        forall|i: int| 0 <= i < s.len() ==> #[trigger] s[i].1 == i,
        t@.to_multiset() == s.to_multiset(),
        forall|i: int, j: int| 0 <= i < j < t@.len() ==> pair_le(t@[i], t@[j]),
        s.len() <= usize::MAX,
    ensures
        p@.len() == s.len(),
        is_permutation(positions(p@), s.len() as int),
        forall|k: int| 0 <= k < p@.len() ==> #[trigger] t@[k] == s[p@[k] as int],
        forall|a: int, b: int| 0 <= a < b < p@.len() ==> pair_lt(#[trigger] s[p@[a] as int], #[trigger] s[p@[b] as int]),
{
    proof {
        lemma_sorted_tagged_keys(s, t@);
    }
    let mut p: Vec<usize> = Vec::new();
    let n = t.len();
    for k in 0..n
        invariant
            n == t@.len(),
            n == s.len(),
            p@.len() == k,
            forall|j: int| 0 <= j < n ==> (#[trigger] t@[j]).1 < s.len(),
            forall|j: int| 0 <= j < k ==> #[trigger] p@[j] as int == t@[j].1,
    {
        p.push(t[k].1 as usize);
    }
    proof {
        let q = positions(p@);
        assert forall|k: int| 0 <= k < p@.len() implies #[trigger] t@[k] == s[p@[k] as int] by {
            assert(t@[k] == s[t@[k].1 as int]);
        }
        assert forall|i: int| 0 <= i < n implies #[trigger] occurs_in(q, i) by {
            assert(tag_occurs(t@, i));
            let k = choose|k: int| 0 <= k < t@.len() && #[trigger] t@[k].1 == i;
            assert(q[k] == i);
        }
        assert forall|a: int, b: int| 0 <= a < b < p@.len() implies pair_lt(#[trigger] s[p@[a] as int], #[trigger] s[p@[b] as int]) by {
            assert(pair_lt(t@[a], t@[b]));
        }
    }
    p
}

/// The nodes in graph order: by descending level, the input order among
/// equal levels.
fn order_nodes(nodes: &Vec<Node>) -> (perm: Vec<usize>)
    requires
        nodes@.len() <= u32::MAX,
    ensures
        orders_nodes(nodes@, positions(perm@)),
{
    let n = nodes.len();
    let mut keys: Vec<(u64, u64)> = Vec::new();
    for i in 0..n
        invariant
            n == nodes@.len(),
            keys@.len() == i,
            forall|j: int| 0 <= j < i ==> #[trigger] keys@[j] == (
                (u32::MAX - nodes@[j].ch_level) as u64,
                j as u64,
            ),
    {
        keys.push(((u32::MAX - nodes[i].ch_level) as u64, i as u64));
    }
    let ghost s = keys@;
    sort_pairs(&mut keys);
    let perm = tags_of(&keys, Ghost(s));
    proof {
        let q = positions(perm@);
        assert forall|a: int, b: int| 0 <= a < b < n implies node_precedes(
            nodes@,
            #[trigger] q[a],
            #[trigger] q[b],
        ) by {
            assert(pair_lt(s[perm@[a] as int], s[perm@[b] as int]));
        }
    }
    perm
}

/// `m` maps every node id to the id its node gets in graph order.
pub open spec fn maps_to_new_ids(nodes: Seq<Node>, perm: Seq<int>, m: Map<u32, u32>) -> bool {
    forall|old: u32|
        #[trigger] has_node_id(nodes, old) ==> m.contains_key(old) && renumbers(
            nodes,
            perm,
            old,
            m[old] as int,
        )
}

/// The nodes in graph order, renumbered by position, and the map from old
/// ids to new ones (a repeated id maps to its last position).
fn renumber_nodes(nodes: &Vec<Node>, perm: &Vec<usize>) -> (res: (Vec<Node>, HashMap<u32, u32>))
    requires
        orders_nodes(nodes@, positions(perm@)),
        nodes@.len() <= u32::MAX,
    ensures
        res.0@ == sorted_nodes(nodes@, positions(perm@)),
        maps_to_new_ids(nodes@, positions(perm@), res.1@),
{
    let ghost q = positions(perm@);
    let n = perm.len();
    let mut sorted: Vec<Node> = Vec::new();
    let mut id_map: HashMap<u32, u32> = HashMap::new();
    for j in 0..n
        invariant
            n == perm@.len(),
            n == nodes@.len(),
            n <= u32::MAX,
            q == positions(perm@),
            orders_nodes(nodes@, q),
            sorted@ == sorted_nodes(nodes@, q).take(j as int),
            forall|old: u32|
                #[trigger] id_map@.contains_key(old) ==> {
                    let v = id_map@[old] as int;
                    &&& 0 <= v < j
                    &&& nodes@[q[v]].id == old
                    &&& forall|w: int| v < w < j ==> #[trigger] nodes@[q[w]].id != old
                },
            forall|w: int| 0 <= w < j ==> #[trigger] id_map@.contains_key(nodes@[q[w]].id),
    {
        let i = perm[j];
        assert(q[j as int] == i as int);
        let node = Node { id: j as u32, ch_level: nodes[i].ch_level };
        sorted.push(node);
        id_map.insert(nodes[i].id, j as u32);
        proof {
            assert(sorted@ =~= sorted_nodes(nodes@, q).take(j + 1));
        }
    }
    proof {
        assert(sorted@ =~= sorted_nodes(nodes@, q));
        assert forall|old: u32| #[trigger] has_node_id(nodes@, old) implies id_map@.contains_key(old)
            && renumbers(nodes@, q, old, id_map@[old] as int) by {
            let i = choose|i: int| 0 <= i < nodes@.len() && #[trigger] nodes@[i].id == old;
            assert(occurs_in(q, i));
            let w = choose|w: int| 0 <= w < q.len() && #[trigger] q[w] == i;
            assert(id_map@.contains_key(nodes@[q[w]].id));
            let v = id_map@[old] as int;
            assert(0 <= v < n && nodes@[q[v]].id == old);
            assert forall|x: int| v < x < q.len() implies #[trigger] nodes@[q[x]].id != old by {}
        }
    }
    (sorted, id_map)
}

proof fn lemma_new_id_is_renumbering(nodes: Seq<Node>, perm: Seq<int>, old: u32, v: int)
    requires
        renumbers(nodes, perm, old, v),
        v <= u32::MAX,
    ensures
        new_id(nodes, perm, old) == v,
{
    let j = choose|j: int| renumbers(nodes, perm, old, j);
    assert(renumbers(nodes, perm, old, j));
    if j < v {
        assert(nodes[perm[v]].id != old);
    } else if v < j {
        assert(nodes[perm[j]].id != old);
    }
}

/// Every edge starts and ends at the id of some node.
pub open spec fn endpoints_are_nodes<C>(nodes: Seq<Node>, edges: Seq<Edge<C>>) -> bool {
    forall|i: int|
        0 <= i < edges.len() ==> has_node_id(nodes, (#[trigger] edges[i]).source_id) && has_node_id(
            nodes,
            edges[i].target_id,
        )
}

/// Whether every edge starts and ends at the id of some node, the
/// condition under which `Graph::new` can renumber the edges.
pub fn endpoints_known<C>(nodes: &Vec<Node>, edges: &Vec<Edge<C>>) -> (b: bool)
    ensures
        b == endpoints_are_nodes(nodes@, edges@),
{
    let mut ids: HashSet<u32> = HashSet::new();
    let mut j: usize = 0;
    while j < nodes.len()
        invariant
            j <= nodes@.len(),
            forall|id: u32| ids@.contains(id) <==> exists|k: int| 0 <= k < j && #[trigger] nodes@[k].id == id,
        decreases nodes@.len() - j,
    {
        ids.insert(nodes[j].id);
        proof {
            assert forall|id: u32| ids@.contains(id) <==> exists|k: int| 0 <= k < j + 1 && #[trigger] nodes@[k].id == id by {
                if id == nodes@[j as int].id {
                    assert(nodes@[j as int].id == id);
                }
            }
        }
        j = j + 1;
    }
    let mut i: usize = 0;
    while i < edges.len()
        invariant
            i <= edges@.len(),
            forall|id: u32| ids@.contains(id) <==> has_node_id(nodes@, id),
            forall|k: int| 0 <= k < i ==> has_node_id(nodes@, (#[trigger] edges@[k]).source_id) && has_node_id(nodes@, edges@[k].target_id),
        decreases edges@.len() - i,
    {
        if !ids.contains(&edges[i].source_id) || !ids.contains(&edges[i].target_id) {
            return false;
        }
        i = i + 1;
    }
    true
}

proof fn lemma_endpoints<C>(nodes: Seq<Node>, edges: Seq<Edge<C>>, i: int)
    requires
        endpoints_are_nodes(nodes, edges),
        0 <= i < edges.len(),
    ensures
        has_node_id(nodes, edges[i].source_id),
        has_node_id(nodes, edges[i].target_id),
{
}

/// The edges with their endpoints renumbered through `id_map`.
fn renumber_edges<C: Copy>(
    edges: &Vec<Edge<C>>,
    id_map: &HashMap<u32, u32>,
    Ghost(nodes): Ghost<Seq<Node>>,
    Ghost(perm): Ghost<Seq<int>>,
) -> (re: Vec<Edge<C>>)
    requires
        maps_to_new_ids(nodes, perm, id_map@),
        endpoints_are_nodes(nodes, edges@),
    ensures
        re@ == renumbered_edges(nodes, perm, edges@),
{
    let m = edges.len();
    let mut re: Vec<Edge<C>> = Vec::new();
    for i in 0..m
        invariant
            m == edges@.len(),
            maps_to_new_ids(nodes, perm, id_map@),
            endpoints_are_nodes(nodes, edges@),
            re@ == renumbered_edges(nodes, perm, edges@).take(i as int),
    {
        let e = &edges[i];
        proof {
            lemma_endpoints(nodes, edges@, i as int);
        }
        let source_id = match id_map.get(&e.source_id) {
            Some(v) => *v,
            None => 0,
        };
        let target_id = match id_map.get(&e.target_id) {
            Some(v) => *v,
            None => 0,
        };
        proof {
            lemma_new_id_is_renumbering(nodes, perm, e.source_id, id_map@[e.source_id] as int);
            lemma_new_id_is_renumbering(nodes, perm, e.target_id, id_map@[e.target_id] as int);
        }
        re.push(
            Edge {
                id: e.id,
                source_id,
                target_id,
                edge_costs: e.edge_costs,
                replaced_edges: e.replaced_edges,
            },
        );
        proof {
            assert(re@ =~= renumbered_edges(nodes, perm, edges@).take(i + 1));
        }
    }
    proof {
        assert(re@ =~= renumbered_edges(nodes, perm, edges@));
    }
    re
}

/// A key made of a primary part and a secondary part below `2^32` compares
/// lexicographically.
proof fn lemma_combined_key(a: u64, x: u64, b: u64, y: u64)
    by (nonlinear_arith)
    requires
        a < 0x1_0000_0000,
        x < 0x1_0000_0000,
        b < 0x1_0000_0000,
        y < 0x1_0000_0000,
    ensures
        (a * 0x1_0000_0000 + x < b * 0x1_0000_0000 + y) <==> (a < b || (a == b && x < y)),
        (a * 0x1_0000_0000 + x == b * 0x1_0000_0000 + y) <==> (a == b && x == y),
        a * 0x1_0000_0000 + x < 0x1_0000_0000_0000_0000,
{
}

/// Every edge starts and ends at a node of `sn`.
pub open spec fn endpoints_below<C>(es: Seq<Edge<C>>, n: int) -> bool {
    forall|i: int|
        0 <= i < es.len() ==> (#[trigger] es[i]).source_id < n && es[i].target_id < n
}

/// The order of the outgoing adjacency array.
fn order_out<C>(sn: &Vec<Node>, re: &Vec<Edge<C>>) -> (p: Vec<usize>)
    requires
        endpoints_below(re@, sn@.len() as int),
        sn@.len() <= u32::MAX,
    ensures
        orders_out(sn@, re@, positions(p@)),
{
    let m = re.len();
    let mut keys: Vec<(u64, u64)> = Vec::new();
    for i in 0..m
        invariant
            m == re@.len(),
            endpoints_below(re@, sn@.len() as int),
            keys@.len() == i,
            forall|j: int| 0 <= j < i ==> #[trigger] keys@[j] == (
                ((re@[j].source_id as u64) * 0x1_0000_0000 + (u32::MAX - sn@[re@[j].target_id as int].ch_level) as u64) as u64,
                j as u64,
            ),
    {
        let e = &re[i];
        assert(re@[i as int].source_id < sn@.len());
        let level = sn[e.target_id as usize].ch_level;
        proof {
            lemma_combined_key(e.source_id as u64, (u32::MAX - level) as u64, 0, 0);
        }
        keys.push(((e.source_id as u64) * 0x1_0000_0000 + (u32::MAX - level) as u64, i as u64));
    }
    let ghost s = keys@;
    sort_pairs(&mut keys);
    let p = tags_of(&keys, Ghost(s));
    proof {
        let q = positions(p@);
        assert forall|a: int, b: int| 0 <= a < b < m implies out_precedes(
            sn@,
            re@,
            #[trigger] q[a],
            #[trigger] q[b],
        ) by {
            let (x, y) = (p@[a] as int, p@[b] as int);
            assert(q[a] == x && q[b] == y);
            assert(0 <= x < m && 0 <= y < m);
            assert(pair_lt(s[x], s[y]));
            assert(re@[x].source_id < sn@.len() && re@[y].source_id < sn@.len());
            lemma_combined_key(
                re@[x].source_id as u64,
                (u32::MAX - sn@[re@[x].target_id as int].ch_level) as u64,
                re@[y].source_id as u64,
                (u32::MAX - sn@[re@[y].target_id as int].ch_level) as u64,
            );
        }
    }
    p
}

/// The order of the incoming adjacency array.
fn order_in<C>(sn: &Vec<Node>, oe: &Vec<Edge<C>>) -> (p: Vec<usize>)
    requires
        endpoints_below(oe@, sn@.len() as int),
        sn@.len() <= u32::MAX,
    ensures
        orders_in(sn@, oe@, positions(p@)),
{
    let m = oe.len();
    let mut keys: Vec<(u64, u64)> = Vec::new();
    for i in 0..m
        invariant
            m == oe@.len(),
            endpoints_below(oe@, sn@.len() as int),
            keys@.len() == i,
            forall|j: int| 0 <= j < i ==> #[trigger] keys@[j] == (
                ((oe@[j].target_id as u64) * 0x1_0000_0000 + (u32::MAX - sn@[oe@[j].source_id as int].ch_level) as u64) as u64,
                j as u64,
            ),
    {
        let e = &oe[i];
        assert(oe@[i as int].source_id < sn@.len());
        let level = sn[e.source_id as usize].ch_level;
        proof {
            lemma_combined_key(e.target_id as u64, (u32::MAX - level) as u64, 0, 0);
        }
        keys.push(((e.target_id as u64) * 0x1_0000_0000 + (u32::MAX - level) as u64, i as u64));
    }
    let ghost s = keys@;
    sort_pairs(&mut keys);
    let p = tags_of(&keys, Ghost(s));
    proof {
        let q = positions(p@);
        assert forall|a: int, b: int| 0 <= a < b < m implies in_precedes(
            sn@,
            oe@,
            #[trigger] q[a],
            #[trigger] q[b],
        ) by {
            let (x, y) = (p@[a] as int, p@[b] as int);
            assert(q[a] == x && q[b] == y);
            assert(0 <= x < m && 0 <= y < m);
            assert(pair_lt(s[x], s[y]));
            assert(oe@[x].source_id < sn@.len() && oe@[y].source_id < sn@.len());
            lemma_combined_key(
                oe@[x].target_id as u64,
                (u32::MAX - sn@[oe@[x].source_id as int].ch_level) as u64,
                oe@[y].target_id as u64,
                (u32::MAX - sn@[oe@[y].source_id as int].ch_level) as u64,
            );
        }
    }
    p
}

/// The order of the edge array: by id.
fn order_ids<C>(ie: &Vec<Edge<C>>) -> (p: Vec<usize>)
    ensures
        orders_ids(ie@, positions(p@)),
{
    let m = ie.len();
    let mut keys: Vec<(u64, u64)> = Vec::new();
    for i in 0..m
        invariant
            m == ie@.len(),
            keys@.len() == i,
            forall|j: int| 0 <= j < i ==> #[trigger] keys@[j] == (ie@[j].id as u64, j as u64),
    {
        keys.push((ie[i].id as u64, i as u64));
    }
    let ghost s = keys@;
    sort_pairs(&mut keys);
    let p = tags_of(&keys, Ghost(s));
    proof {
        let q = positions(p@);
        assert forall|a: int, b: int| 0 <= a < b < m implies id_precedes(
            ie@,
            #[trigger] q[a],
            #[trigger] q[b],
        ) by {
            assert(pair_lt(s[p@[a] as int], s[p@[b] as int]));
        }
    }
    p
}

/// `es` rearranged by `p`.
fn permute_edges<C: Copy>(es: &Vec<Edge<C>>, p: &Vec<usize>) -> (r: Vec<Edge<C>>)
    requires
        is_permutation(positions(p@), es@.len() as int),
    ensures
        r@ == permuted(es@, positions(p@)),
{
    let ghost q = positions(p@);
    let m = p.len();
    let mut r: Vec<Edge<C>> = Vec::new();
    for k in 0..m
        invariant
            m == p@.len(),
            q == positions(p@),
            is_permutation(q, es@.len() as int),
            r@ == permuted(es@, q).take(k as int),
    {
        let i = p[k];
        assert(q[k as int] == i as int);
        let e = &es[i];
        r.push(
            Edge {
                id: e.id,
                source_id: e.source_id,
                target_id: e.target_id,
                edge_costs: e.edge_costs,
                replaced_edges: e.replaced_edges,
            },
        );
        proof {
            assert(r@ =~= permuted(es@, q).take(k + 1));
        }
    }
    proof {
        assert(r@ =~= permuted(es@, q));
    }
    r
}

/// The outgoing halves of the edges.
fn out_halves<C: Copy>(es: &Vec<Edge<C>>) -> (h: Vec<HalfEdge<C>>)
    ensures
        h@ == es@.map_values(|e: Edge<C>| out_half(e)),
{
    let m = es.len();
    let mut h: Vec<HalfEdge<C>> = Vec::new();
    for k in 0..m
        invariant
            m == es@.len(),
            h@ == es@.map_values(|e: Edge<C>| out_half(e)).take(k as int),
    {
        let e = &es[k];
        h.push(HalfEdge { edge_id: e.id, target_id: e.target_id, edge_costs: e.edge_costs });
        proof {
            assert(h@ =~= es@.map_values(|e: Edge<C>| out_half(e)).take(k + 1));
        }
    }
    proof {
        assert(h@ =~= es@.map_values(|e: Edge<C>| out_half(e)));
    }
    h
}

/// The incoming halves of the edges.
fn in_halves<C: Copy>(es: &Vec<Edge<C>>) -> (h: Vec<HalfEdge<C>>)
    ensures
        h@ == es@.map_values(|e: Edge<C>| in_half(e)),
{
    let m = es.len();
    let mut h: Vec<HalfEdge<C>> = Vec::new();
    for k in 0..m
        invariant
            m == es@.len(),
            h@ == es@.map_values(|e: Edge<C>| in_half(e)).take(k as int),
    {
        let e = &es[k];
        h.push(HalfEdge { edge_id: e.id, target_id: e.source_id, edge_costs: e.edge_costs });
        proof {
            assert(h@ =~= es@.map_values(|e: Edge<C>| in_half(e)).take(k + 1));
        }
    }
    proof {
        assert(h@ =~= es@.map_values(|e: Edge<C>| in_half(e)));
    }
    h
}

/// The source (if `by_source`) or target of each edge.
fn endpoints_of<C>(es: &Vec<Edge<C>>, by_source: bool) -> (v: Vec<u32>)
    ensures
        v@ == (if by_source {
            es@.map_values(|e: Edge<C>| e.source_id)
        } else {
            es@.map_values(|e: Edge<C>| e.target_id)
        }),
{
    let ghost want = if by_source {
        es@.map_values(|e: Edge<C>| e.source_id)
    } else {
        es@.map_values(|e: Edge<C>| e.target_id)
    };
    let m = es.len();
    let mut v: Vec<u32> = Vec::new();
    for k in 0..m
        invariant
            m == es@.len(),
            want == (if by_source {
                es@.map_values(|e: Edge<C>| e.source_id)
            } else {
                es@.map_values(|e: Edge<C>| e.target_id)
            }),
            v@ == want.take(k as int),
    {
        if by_source {
            v.push(es[k].source_id);
        } else {
            v.push(es[k].target_id);
        }
        proof {
            assert(v@ =~= want.take(k + 1));
        }
    }
    proof {
        assert(v@ =~= want);
    }
    v
}

/// The start of each node's group in the sorted `keys`, and the end of the
/// last one.
fn group_offsets(keys: &Vec<u32>, n: usize) -> (off: Vec<u32>)
    requires
        n < u32::MAX,
        keys@.len() <= u32::MAX,
        forall|k: int| 0 <= k < keys@.len() ==> #[trigger] keys@[k] < n,
        forall|a: int, b: int| 0 <= a < b < keys@.len() ==> #[trigger] keys@[a] <= #[trigger] keys@[b],
    ensures
        bounds_groups(off@, keys@, n as int),
{
    let m = keys.len();
    let mut off: Vec<u32> = Vec::new();
    let mut k: usize = 0;
    for v in 0..n + 1
        invariant
            m == keys@.len(),
            m <= u32::MAX,
            n < u32::MAX,
            forall|a: int, b: int| 0 <= a < b < keys@.len() ==> #[trigger] keys@[a] <= #[trigger] keys@[b],
            k <= m,
            off@.len() == v,
            forall|j: int| 0 <= j < k ==> #[trigger] keys@[j] < v,
            forall|w: int| 0 <= w < v ==> #[trigger] off@[w] <= m,
            forall|w: int, j: int|
                0 <= w < v && 0 <= j < m ==> (j < #[trigger] off@[w] <==> #[trigger] keys@[j] < w),
    {
        while k < m && keys[k] < v as u32
            invariant
                m == keys@.len(),
                k <= m,
                v <= u32::MAX,
                forall|j: int| 0 <= j < k ==> #[trigger] keys@[j] < v,
            decreases m - k,
        {
            k = k + 1;
        }
        off.push(k as u32);
        proof {
            assert forall|w: int, j: int|
                0 <= w < v + 1 && 0 <= j < m implies (j < #[trigger] off@[w] <==> #[trigger] keys@[j] < w) by {
                if w == v {
                    if j >= k {
                        assert(keys@[k as int] <= keys@[j]);
                    }
                }
            }
        }
    }
    off
}

proof fn lemma_renumbered_below<C>(
    nodes: Seq<Node>,
    perm: Seq<int>,
    edges: Seq<Edge<C>>,
    m: Map<u32, u32>,
)
    requires
        maps_to_new_ids(nodes, perm, m),
        endpoints_are_nodes(nodes, edges),
        perm.len() <= u32::MAX,
    ensures
        endpoints_below(renumbered_edges(nodes, perm, edges), perm.len() as int),
{
    let re = renumbered_edges(nodes, perm, edges);
    assert forall|i: int| 0 <= i < re.len() implies (#[trigger] re[i]).source_id < perm.len()
        && re[i].target_id < perm.len() by {
        lemma_endpoints(nodes, edges, i);
        let (s, t) = (edges[i].source_id, edges[i].target_id);
        assert(m.contains_key(s) && renumbers(nodes, perm, s, m[s] as int));
        assert(m.contains_key(t) && renumbers(nodes, perm, t, m[t] as int));
        lemma_new_id_is_renumbering(nodes, perm, s, m[s] as int);
        lemma_new_id_is_renumbering(nodes, perm, t, m[t] as int);
    }
}

proof fn lemma_permuted_below<C>(es: Seq<Edge<C>>, p: Seq<int>, n: int)
    requires
        endpoints_below(es, n),
        is_permutation(p, es.len() as int),
    ensures
        endpoints_below(permuted(es, p), n),
        permuted(es, p).len() == es.len(),
{
    let pe = permuted(es, p);
    assert forall|i: int| 0 <= i < pe.len() implies (#[trigger] pe[i]).source_id < n
        && pe[i].target_id < n by {
        assert(0 <= p[i] < es.len());
        assert(pe[i] == es[p[i]]);
    }
}

/// The offsets of sorted keys below `n` start at 0, end at the number of
/// keys and never decrease.
pub open spec fn offsets_ok(off: Seq<u32>, n: int, m: int) -> bool {
    &&& off.len() == n + 1
    &&& off[0] == 0
    &&& off[n] == m
    &&& forall|v: int, w: int| 0 <= v <= w <= n ==> #[trigger] off[v] <= #[trigger] off[w]
}

proof fn lemma_bounds_groups_offsets(off: Seq<u32>, keys: Seq<u32>, n: int)
    requires
        bounds_groups(off, keys, n),
        0 <= n,
        forall|k: int| 0 <= k < keys.len() ==> #[trigger] keys[k] < n,
    ensures
        offsets_ok(off, n, keys.len() as int),
{
    if off[0] > 0 {
        assert(keys[0] < 0);
    }
    if off[n] < keys.len() {
        assert(keys[off[n] as int] < n);
    }
    assert forall|v: int, w: int| 0 <= v <= w <= n implies #[trigger] off[v] <= #[trigger] off[w] by {
        if off[v] > off[w] {
            assert(keys[off[w] as int] < v);
        }
    }
}

impl<C> Graph<C> {
    pub closed spec fn wf(&self) -> bool {
        let n = self.nodes@.len() as int;
        let m = self.edges@.len() as int;
        &&& n < u32::MAX
        &&& m <= u32::MAX
        &&& forall|j: int| 0 <= j < n ==> #[trigger] self.nodes@[j].id == j
        &&& endpoints_below(self.edges@, n)
        &&& self.adjacency.half_edges_out@.len() == m
        &&& self.adjacency.half_edges_in@.len() == m
        &&& forall|k: int| 0 <= k < m ==> (#[trigger] self.adjacency.half_edges_out@[k]).target_id < n
        &&& forall|k: int| 0 <= k < m ==> (#[trigger] self.adjacency.half_edges_in@[k]).target_id < n
        &&& offsets_ok(self.adjacency.offsets_out@, n, m)
        &&& offsets_ok(self.adjacency.offsets_in@, n, m)
    }

    /// Builds the graph: the nodes are ordered by descending level (stably)
    /// and renumbered by position, edge endpoints are renumbered with them
    /// (a repeated node id refers to the last node carrying it), the
    /// adjacency arrays group edges by source (target) and order each group
    /// by descending level of the other end, and the edges are ordered by
    /// id; each sort keeps the order of the previous one among equal keys.
    pub fn new(nodes: Vec<Node>, edges: Vec<Edge<C>>) -> (g: Graph<C>)
        where
            C: Copy,
        requires
            nodes@.len() < u32::MAX,
            edges@.len() <= u32::MAX,
            endpoints_are_nodes(nodes@, edges@),
        ensures
            g.wf(),
            exists|perm: Seq<int>, out: Seq<int>, inc: Seq<int>, ids: Seq<int>|
                g.built_from(nodes@, edges@, perm, out, inc, ids),
    {
        let n = nodes.len();
        let perm = order_nodes(&nodes);
        let ghost q = positions(perm@);
        let (sorted, id_map) = renumber_nodes(&nodes, &perm);
        let re = renumber_edges(&edges, &id_map, Ghost(nodes@), Ghost(q));
        proof {
            lemma_renumbered_below(nodes@, q, edges@, id_map@);
        }
        let out = order_out(&sorted, &re);
        let oe = permute_edges(&re, &out);
        proof {
            lemma_permuted_below(re@, positions(out@), n as int);
        }
        let inc = order_in(&sorted, &oe);
        let ie = permute_edges(&oe, &inc);
        proof {
            lemma_permuted_below(oe@, positions(inc@), n as int);
        }
        let ids = order_ids(&ie);
        let fe = permute_edges(&ie, &ids);
        proof {
            lemma_permuted_below(ie@, positions(ids@), n as int);
        }
        let half_edges_out = out_halves(&oe);
        let half_edges_in = in_halves(&ie);
        let sources = endpoints_of(&oe, true);
        let targets = endpoints_of(&ie, false);
        proof {
            let oq = positions(out@);
            let iq = positions(inc@);
            assert forall|k: int| 0 <= k < sources@.len() implies #[trigger] sources@[k] < n by {
                assert(oe@[k].source_id < n);
            }
            assert forall|a: int, b: int| 0 <= a < b < sources@.len() implies #[trigger] sources@[a]
                <= #[trigger] sources@[b] by {
                assert(out_precedes(sorted@, re@, oq[a], oq[b]));
            }
            assert forall|k: int| 0 <= k < targets@.len() implies #[trigger] targets@[k] < n by {
                assert(ie@[k].target_id < n);
            }
            assert forall|a: int, b: int| 0 <= a < b < targets@.len() implies #[trigger] targets@[a]
                <= #[trigger] targets@[b] by {
                assert(in_precedes(sorted@, oe@, iq[a], iq[b]));
            }
        }
        let offsets_out = group_offsets(&sources, n);
        let offsets_in = group_offsets(&targets, n);
        proof {
            lemma_bounds_groups_offsets(offsets_out@, sources@, n as int);
            lemma_bounds_groups_offsets(offsets_in@, targets@, n as int);
        }
        let g = Graph {
            nodes: MyVec(sorted),
            edges: MyVec(fe),
            adjacency: Adjacency {
                offsets_in: MyVec(offsets_in),
                offsets_out: MyVec(offsets_out),
                half_edges_in: MyVec(half_edges_in),
                half_edges_out: MyVec(half_edges_out),
            },
        };
        proof {
            reveal(Graph::built_from);
            assert(g.built_from(nodes@, edges@, q, positions(out@), positions(inc@), positions(ids@)));
        }
        g
    }

    /// The nodes: what the field `nodes` holds.
    pub open spec fn spec_nodes(&self) -> Seq<Node> {
        self.nodes@
    }

    /// The edges: what the field `edges` holds.
    pub open spec fn spec_edges(&self) -> Seq<Edge<C>> {
        self.edges@
    }

    pub closed spec fn spec_offsets_out(&self) -> Seq<u32> {
        self.adjacency.offsets_out@
    }

    pub closed spec fn spec_offsets_in(&self) -> Seq<u32> {
        self.adjacency.offsets_in@
    }

    pub closed spec fn spec_half_edges_out(&self) -> Seq<HalfEdge<C>> {
        self.adjacency.half_edges_out@
    }

    pub closed spec fn spec_half_edges_in(&self) -> Seq<HalfEdge<C>> {
        self.adjacency.half_edges_in@
    }

    /// The graph is what `Graph::new` builds from `nodes` and `edges`, with
    /// the node order `perm`, the outgoing order `out`, the incoming order
    /// `inc` and the final edge order `ids`.
    #[verifier::opaque]
    pub open spec fn built_from(
        &self,
        nodes: Seq<Node>,
        edges: Seq<Edge<C>>,
        perm: Seq<int>,
        out: Seq<int>,
        inc: Seq<int>,
        ids: Seq<int>,
    ) -> bool {
        let n = nodes.len() as int;
        let sn = sorted_nodes(nodes, perm);
        let re = renumbered_edges(nodes, perm, edges);
        let oe = permuted(re, out);
        let ie = permuted(oe, inc);
        &&& orders_nodes(nodes, perm)
        &&& orders_out(sn, re, out)
        &&& orders_in(sn, oe, inc)
        &&& orders_ids(ie, ids)
        &&& self.spec_nodes() == sn
        &&& self.spec_edges() == permuted(ie, ids)
        &&& self.spec_half_edges_out() == oe.map_values(|e: Edge<C>| out_half(e))
        &&& self.spec_half_edges_in() == ie.map_values(|e: Edge<C>| in_half(e))
        &&& bounds_groups(self.spec_offsets_out(), oe.map_values(|e: Edge<C>| e.source_id), n)
        &&& bounds_groups(self.spec_offsets_in(), ie.map_values(|e: Edge<C>| e.target_id), n)
    }

    /// The number of edges.
    pub fn edge_count(&self) -> (m: usize)
        ensures
            m == self.spec_edges().len(),
    {
        self.edges.0.len()
    }

    /// The edge at position `i`.
    pub fn edge(&self, i: usize) -> (e: &Edge<C>)
        requires
            i < self.spec_edges().len(),
        ensures
            *e == self.spec_edges()[i as int],
    {
        &self.edges.0[i]
    }

    /// The half-edges leaving the node `node_id`: each edge of the graph
    /// that leaves it once, by descending level of the target
    /// (`lemma_out_adjacency_of_edges`, `lemma_out_order`).
    pub fn get_ch_edges_out(&self, node_id: u32) -> (r: &[HalfEdge<C>])
        requires
            self.wf(),
            node_id < self.spec_nodes().len(),
        ensures
            r@ == self.spec_half_edges_out().subrange(
                self.spec_offsets_out()[node_id as int] as int,
                self.spec_offsets_out()[node_id + 1] as int,
            ),
    {
        let start = self.adjacency.offsets_out.0[node_id as usize] as usize;
        let end = self.adjacency.offsets_out.0[node_id as usize + 1] as usize;
        &self.adjacency.half_edges_out.0.as_slice()[start..end]
    }

    /// The half-edges entering the node `node_id`, each naming the source:
    /// each edge of the graph that enters it once, by descending level of
    /// the source (`lemma_in_adjacency_of_edges`, `lemma_in_order`).
    pub fn get_ch_edges_in(&self, node_id: u32) -> (r: &[HalfEdge<C>])
        requires
            self.wf(),
            node_id < self.spec_nodes().len(),
        ensures
            r@ == self.spec_half_edges_in().subrange(
                self.spec_offsets_in()[node_id as int] as int,
                self.spec_offsets_in()[node_id + 1] as int,
            ),
    {
        let start = self.adjacency.offsets_in.0[node_id as usize] as usize;
        let end = self.adjacency.offsets_in.0[node_id as usize + 1] as usize;
        &self.adjacency.half_edges_in.0.as_slice()[start..end]
    }
}

} // verus!

verus! {

proof fn lemma_built_from_out<C>(
    g: Graph<C>,
    nodes: Seq<Node>,
    edges: Seq<Edge<C>>,
    perm: Seq<int>,
    out: Seq<int>,
    inc: Seq<int>,
    ids: Seq<int>,
)
    requires
        g.built_from(nodes, edges, perm, out, inc, ids),
    ensures
        ({
            let re = renumbered_edges(nodes, perm, edges);
            let h = g.spec_half_edges_out();
            let keys = Seq::new(out.len(), |k: int| re[out[k]].source_id);
            &&& is_permutation(out, re.len() as int)
            &&& h.len() == out.len()
            &&& forall|k: int| 0 <= k < h.len() ==> #[trigger] h[k] == out_half(re[out[k]])
            &&& bounds_groups(g.spec_offsets_out(), keys, nodes.len() as int)
            &&& g.spec_nodes() == sorted_nodes(nodes, perm)
        }),
{
    reveal(Graph::built_from);
    let re = renumbered_edges(nodes, perm, edges);
    let oe = permuted(re, out);
    assert(oe.map_values(|e: Edge<C>| e.source_id) =~= Seq::new(
        out.len(),
        |k: int| re[out[k]].source_id,
    ));
}

proof fn lemma_built_from_in<C>(
    g: Graph<C>,
    nodes: Seq<Node>,
    edges: Seq<Edge<C>>,
    perm: Seq<int>,
    out: Seq<int>,
    inc: Seq<int>,
    ids: Seq<int>,
)
    requires
        g.built_from(nodes, edges, perm, out, inc, ids),
    ensures
        ({
            let re = renumbered_edges(nodes, perm, edges);
            let c = composed(out, inc);
            let h = g.spec_half_edges_in();
            let keys = Seq::new(c.len(), |k: int| re[c[k]].target_id);
            &&& is_permutation(c, re.len() as int)
            &&& h.len() == c.len()
            &&& forall|k: int| 0 <= k < h.len() ==> #[trigger] h[k] == in_half(re[c[k]])
            &&& bounds_groups(g.spec_offsets_in(), keys, nodes.len() as int)
            &&& g.spec_nodes() == sorted_nodes(nodes, perm)
        }),
{
    reveal(Graph::built_from);
    let re = renumbered_edges(nodes, perm, edges);
    let oe = permuted(re, out);
    let ie = permuted(oe, inc);
    let c = composed(out, inc);
    assert forall|k: int| 0 <= k < c.len() implies 0 <= #[trigger] c[k] < re.len() by {
        assert(0 <= inc[k] < out.len());
    }
    assert forall|i: int| 0 <= i < re.len() implies #[trigger] occurs_in(c, i) by {
        assert(occurs_in(out, i));
        let x = choose|x: int| 0 <= x < out.len() && #[trigger] out[x] == i;
        assert(occurs_in(inc, x));
        let k = choose|k: int| 0 <= k < inc.len() && #[trigger] inc[k] == x;
        assert(c[k] == i);
    }
    assert forall|k: int| 0 <= k < ie.len() implies #[trigger] ie[k] == re[c[k]] by {
        assert(0 <= inc[k] < out.len());
    }
    assert(ie.map_values(|e: Edge<C>| e.target_id) =~= Seq::new(
        c.len(),
        |k: int| re[c[k]].target_id,
    ));
}

proof fn lemma_built_from_orders<C>(
    g: Graph<C>,
    nodes: Seq<Node>,
    edges: Seq<Edge<C>>,
    perm: Seq<int>,
    out: Seq<int>,
    inc: Seq<int>,
    ids: Seq<int>,
)
    requires
        g.built_from(nodes, edges, perm, out, inc, ids),
    ensures
        orders_out(sorted_nodes(nodes, perm), renumbered_edges(nodes, perm, edges), out),
        orders_in(
            sorted_nodes(nodes, perm),
            permuted(renumbered_edges(nodes, perm, edges), out),
            inc,
        ),
{
    reveal(Graph::built_from);
}

/// The entries `lo..hi` of a rearrangement `c` of `es`, grouped by the
/// source (or target) of its edges, are exactly the edges whose source (or
/// target) is `v`.
proof fn lemma_group_members<C>(
    es: Seq<Edge<C>>,
    c: Seq<int>,
    keys: Seq<u32>,
    off: Seq<u32>,
    n: int,
    v: int,
    by_source: bool,
)
    requires
        is_permutation(c, es.len() as int),
        keys.len() == c.len(),
        forall|k: int|
            0 <= k < keys.len() ==> #[trigger] keys[k] == (if by_source {
                es[c[k]].source_id
            } else {
                es[c[k]].target_id
            }),
        bounds_groups(off, keys, n),
        0 <= v < n,
    ensures
        off[v] <= off[v + 1] <= keys.len(),
        forall|k: int| off[v] <= k < off[v + 1] ==> #[trigger] keys[k] == v,
        forall|i: int|
            0 <= i < es.len() && (if by_source {
                (#[trigger] es[i]).source_id
            } else {
                es[i].target_id
            }) == v ==> exists|k: int| off[v] <= k < off[v + 1] && #[trigger] c[k] == i,
{
    let lo = off[v] as int;
    let hi = off[v + 1] as int;
    if lo > hi {
        assert(keys[hi] < v + 1);
    }
    assert forall|k: int| lo <= k < hi implies #[trigger] keys[k] == v by {
        assert(keys[k] < v + 1 && !(keys[k] < v));
    }
    assert forall|i: int|
        0 <= i < es.len() && (if by_source {
            (#[trigger] es[i]).source_id
        } else {
            es[i].target_id
        }) == v implies exists|k: int| lo <= k < hi && #[trigger] c[k] == i by {
        assert(occurs_in(c, i));
        let k = choose|k: int| 0 <= k < c.len() && #[trigger] c[k] == i;
        assert(keys[k] == v);
    }
}

/// The rearrangement `inc` applied after the rearrangement `out`.
pub open spec fn composed(out: Seq<int>, inc: Seq<int>) -> Seq<int> {
    Seq::new(inc.len(), |k: int| out[inc[k]])
}

/// The group of node `v` in the out-adjacency holds exactly the edges that
/// leave `v`, each once: its `k`-th entry is the edge `re[p[k]]`, and every
/// edge leaving `v` is among them.
pub open spec fn out_group_exact<C>(g: Graph<C>, re: Seq<Edge<C>>, p: Seq<int>, v: int) -> bool {
    &&& g.spec_offsets_out()[v] <= g.spec_offsets_out()[v + 1] <= g.spec_half_edges_out().len()
    &&& forall|k: int|
        g.spec_offsets_out()[v] <= k < g.spec_offsets_out()[v + 1] ==> 0 <= p[k] < re.len()
            && re[p[k]].source_id == v && #[trigger] g.spec_half_edges_out()[k] == out_half(
            re[p[k]],
        )
    &&& forall|i: int|
        0 <= i < re.len() && (#[trigger] re[i]).source_id == v ==> exists|k: int|
            g.spec_offsets_out()[v] <= k < g.spec_offsets_out()[v + 1] && #[trigger] p[k] == i
}

/// The group of node `v` in the in-adjacency holds exactly the edges that
/// enter `v`, each once: its `k`-th entry is the edge `re[p[k]]`, and every
/// edge entering `v` is among them.
pub open spec fn in_group_exact<C>(g: Graph<C>, re: Seq<Edge<C>>, p: Seq<int>, v: int) -> bool {
    &&& g.spec_offsets_in()[v] <= g.spec_offsets_in()[v + 1] <= g.spec_half_edges_in().len()
    &&& forall|k: int|
        g.spec_offsets_in()[v] <= k < g.spec_offsets_in()[v + 1] ==> 0 <= p[k] < re.len()
            && re[p[k]].target_id == v && #[trigger] g.spec_half_edges_in()[k] == in_half(re[p[k]])
    &&& forall|i: int|
        0 <= i < re.len() && (#[trigger] re[i]).target_id == v ==> exists|k: int|
            g.spec_offsets_in()[v] <= k < g.spec_offsets_in()[v + 1] && #[trigger] p[k] == i
}

/// The out-adjacency of a node lists exactly the edges that leave it, each
/// once.
pub proof fn lemma_out_adjacency<C>(
    g: Graph<C>,
    nodes: Seq<Node>,
    edges: Seq<Edge<C>>,
    perm: Seq<int>,
    out: Seq<int>,
    inc: Seq<int>,
    ids: Seq<int>,
    v: int,
)
    requires
        g.built_from(nodes, edges, perm, out, inc, ids),
        0 <= v < nodes.len(),
    ensures
        out_group_exact(g, renumbered_edges(nodes, perm, edges), out, v),
{
    lemma_built_from_out(g, nodes, edges, perm, out, inc, ids);
    let re = renumbered_edges(nodes, perm, edges);
    let keys = Seq::new(out.len(), |k: int| re[out[k]].source_id);
    lemma_group_members(re, out, keys, g.spec_offsets_out(), nodes.len() as int, v, true);
    assert forall|k: int|
        g.spec_offsets_out()[v] <= k < g.spec_offsets_out()[v + 1] implies re[out[k]].source_id
        == v by {
        assert(keys[k] == v);
    }
}

/// The in-adjacency of a node lists exactly the edges that enter it, each
/// once, naming their sources.
pub proof fn lemma_in_adjacency<C>(
    g: Graph<C>,
    nodes: Seq<Node>,
    edges: Seq<Edge<C>>,
    perm: Seq<int>,
    out: Seq<int>,
    inc: Seq<int>,
    ids: Seq<int>,
    v: int,
)
    requires
        g.built_from(nodes, edges, perm, out, inc, ids),
        0 <= v < nodes.len(),
    ensures
        in_group_exact(
            g,
            renumbered_edges(nodes, perm, edges),
            composed(out, inc),
            v,
        ),
{
    lemma_built_from_in(g, nodes, edges, perm, out, inc, ids);
    let re = renumbered_edges(nodes, perm, edges);
    let c = composed(out, inc);
    let keys = Seq::new(c.len(), |k: int| re[c[k]].target_id);
    lemma_group_members(re, c, keys, g.spec_offsets_in(), nodes.len() as int, v, false);
    assert forall|k: int|
        g.spec_offsets_in()[v] <= k < g.spec_offsets_in()[v + 1] implies re[c[k]].target_id
        == v by {
        assert(keys[k] == v);
    }
}

/// Within the out-adjacency of a node, targets come by descending level.
pub proof fn lemma_out_order<C>(
    g: Graph<C>,
    nodes: Seq<Node>,
    edges: Seq<Edge<C>>,
    perm: Seq<int>,
    out: Seq<int>,
    inc: Seq<int>,
    ids: Seq<int>,
    v: int,
)
    requires
        g.built_from(nodes, edges, perm, out, inc, ids),
        0 <= v < nodes.len(),
    ensures
        forall|k1: int, k2: int|
            g.spec_offsets_out()[v] <= k1 < k2 < g.spec_offsets_out()[v + 1] ==> g.spec_nodes()[(
            #[trigger] g.spec_half_edges_out()[k1]).target_id as int].ch_level >= g.spec_nodes()[(
            #[trigger] g.spec_half_edges_out()[k2]).target_id as int].ch_level,
{
    lemma_out_adjacency(g, nodes, edges, perm, out, inc, ids, v);
    lemma_built_from_out(g, nodes, edges, perm, out, inc, ids);
    lemma_built_from_orders(g, nodes, edges, perm, out, inc, ids);
    let re = renumbered_edges(nodes, perm, edges);
    let sn = sorted_nodes(nodes, perm);
    assert forall|k1: int, k2: int|
        g.spec_offsets_out()[v] <= k1 < k2 < g.spec_offsets_out()[v + 1] implies g.spec_nodes()[(
        #[trigger] g.spec_half_edges_out()[k1]).target_id as int].ch_level >= g.spec_nodes()[(
        #[trigger] g.spec_half_edges_out()[k2]).target_id as int].ch_level by {
        assert(out_precedes(sn, re, out[k1], out[k2]));
    }
}

/// Within the in-adjacency of a node, sources come by descending level.
pub proof fn lemma_in_order<C>(
    g: Graph<C>,
    nodes: Seq<Node>,
    edges: Seq<Edge<C>>,
    perm: Seq<int>,
    out: Seq<int>,
    inc: Seq<int>,
    ids: Seq<int>,
    v: int,
)
    requires
        g.built_from(nodes, edges, perm, out, inc, ids),
        0 <= v < nodes.len(),
    ensures
        forall|k1: int, k2: int|
            g.spec_offsets_in()[v] <= k1 < k2 < g.spec_offsets_in()[v + 1] ==> g.spec_nodes()[(
            #[trigger] g.spec_half_edges_in()[k1]).target_id as int].ch_level >= g.spec_nodes()[(
            #[trigger] g.spec_half_edges_in()[k2]).target_id as int].ch_level,
{
    lemma_in_adjacency(g, nodes, edges, perm, out, inc, ids, v);
    lemma_built_from_in(g, nodes, edges, perm, out, inc, ids);
    lemma_built_from_orders(g, nodes, edges, perm, out, inc, ids);
    let re = renumbered_edges(nodes, perm, edges);
    let oe = permuted(re, out);
    let sn = sorted_nodes(nodes, perm);
    let c = composed(out, inc);
    assert forall|k1: int, k2: int|
        g.spec_offsets_in()[v] <= k1 < k2 < g.spec_offsets_in()[v + 1] implies g.spec_nodes()[(
        #[trigger] g.spec_half_edges_in()[k1]).target_id as int].ch_level >= g.spec_nodes()[(
        #[trigger] g.spec_half_edges_in()[k2]).target_id as int].ch_level by {
        assert(in_precedes(sn, oe, inc[k1], inc[k2]));
        assert(oe[inc[k1]] == re[c[k1]]);
        assert(oe[inc[k2]] == re[c[k2]]);
    }
}

/// The out-adjacency holds the graph's edges, each once, as outgoing
/// half-edges: the edge at position `j` of the edge array sits at slot
/// `slot[j]` of the out-adjacency, `slot` rearranges the edge positions, and
/// that slot lies in the group of node `v` (the half-edges that
/// `get_ch_edges_out(v)` returns) exactly when the edge leaves `v`.
pub proof fn lemma_out_adjacency_of_edges<C>(
    g: Graph<C>,
    nodes: Seq<Node>,
    edges: Seq<Edge<C>>,
    perm: Seq<int>,
    out: Seq<int>,
    inc: Seq<int>,
    ids: Seq<int>,
    v: int,
) -> (slot: Seq<int>)
    requires
        g.built_from(nodes, edges, perm, out, inc, ids),
        0 <= v < nodes.len(),
    ensures
        is_permutation(slot, g.spec_edges().len() as int),
        g.spec_half_edges_out().len() == g.spec_edges().len(),
        forall|j: int|
            0 <= j < g.spec_edges().len() ==> g.spec_half_edges_out()[#[trigger] slot[j]]
                == out_half(g.spec_edges()[j]),
        forall|j: int|
            0 <= j < g.spec_edges().len() ==> ((g.spec_edges()[j].source_id == v) <==> (
            g.spec_offsets_out()[v] <= #[trigger] slot[j] < g.spec_offsets_out()[v + 1])),
{
    lemma_built_from_out(g, nodes, edges, perm, out, inc, ids);
    lemma_built_from_orders(g, nodes, edges, perm, out, inc, ids);
    reveal(Graph::built_from);
    let re = renumbered_edges(nodes, perm, edges);
    let oe = permuted(re, out);
    let ie = permuted(oe, inc);
    let m = re.len() as int;
    let keys = Seq::new(out.len(), |k: int| re[out[k]].source_id);
    let off = g.spec_offsets_out();
    let slot = Seq::new(ids.len(), |j: int| inc[ids[j]]);
    assert forall|j: int| 0 <= j < m implies 0 <= #[trigger] slot[j] < m && g.spec_edges()[j]
        == re[out[slot[j]]] by {
        assert(0 <= ids[j] < m);
    }
    assert forall|i: int| 0 <= i < m implies #[trigger] occurs_in(slot, i) by {
        assert(occurs_in(inc, i));
        let x = choose|x: int| 0 <= x < inc.len() && #[trigger] inc[x] == i;
        assert(occurs_in(ids, x));
        let j = choose|j: int| 0 <= j < ids.len() && #[trigger] ids[j] == x;
        assert(slot[j] == i);
    }
    assert forall|j: int| 0 <= j < m implies ((g.spec_edges()[j].source_id == v) <==> (off[v]
        <= #[trigger] slot[j] < off[v + 1])) by {
        let k = slot[j];
        assert(keys[k] == g.spec_edges()[j].source_id);
        assert(k < off[v] <==> keys[k] < v);
        assert(k < off[v + 1] <==> keys[k] < v + 1);
    }
    slot
}

/// The in-adjacency holds the graph's edges, each once, as incoming
/// half-edges naming their sources: the edge at position `j` of the edge
/// array sits at slot `slot[j]` of the in-adjacency, `slot` rearranges the
/// edge positions, and that slot lies in the group of node `v` (the
/// half-edges that `get_ch_edges_in(v)` returns) exactly when the edge
/// enters `v`.
pub proof fn lemma_in_adjacency_of_edges<C>(
    g: Graph<C>,
    nodes: Seq<Node>,
    edges: Seq<Edge<C>>,
    perm: Seq<int>,
    out: Seq<int>,
    inc: Seq<int>,
    ids: Seq<int>,
    v: int,
) -> (slot: Seq<int>)
    requires
        g.built_from(nodes, edges, perm, out, inc, ids),
        0 <= v < nodes.len(),
    ensures
        is_permutation(slot, g.spec_edges().len() as int),
        g.spec_half_edges_in().len() == g.spec_edges().len(),
        forall|j: int|
            0 <= j < g.spec_edges().len() ==> g.spec_half_edges_in()[#[trigger] slot[j]]
                == in_half(g.spec_edges()[j]),
        forall|j: int|
            0 <= j < g.spec_edges().len() ==> ((g.spec_edges()[j].target_id == v) <==> (
            g.spec_offsets_in()[v] <= #[trigger] slot[j] < g.spec_offsets_in()[v + 1])),
{
    lemma_built_from_in(g, nodes, edges, perm, out, inc, ids);
    reveal(Graph::built_from);
    let re = renumbered_edges(nodes, perm, edges);
    let oe = permuted(re, out);
    let ie = permuted(oe, inc);
    let m = re.len() as int;
    let c = composed(out, inc);
    let keys = Seq::new(c.len(), |k: int| re[c[k]].target_id);
    let off = g.spec_offsets_in();
    let slot = ids;
    assert forall|j: int| 0 <= j < m implies 0 <= #[trigger] slot[j] < m && g.spec_edges()[j]
        == re[c[slot[j]]] by {
        assert(0 <= ids[j] < m);
        assert(0 <= inc[ids[j]] < m);
    }
    assert forall|j: int| 0 <= j < m implies ((g.spec_edges()[j].target_id == v) <==> (off[v]
        <= #[trigger] slot[j] < off[v + 1])) by {
        let k = slot[j];
        assert(keys[k] == g.spec_edges()[j].target_id);
        assert(k < off[v] <==> keys[k] < v);
        assert(k < off[v + 1] <==> keys[k] < v + 1);
    }
    slot
}

/// The edge array holds the renumbered edges, ordered by id.
pub proof fn lemma_edges_by_id<C>(
    g: Graph<C>,
    nodes: Seq<Node>,
    edges: Seq<Edge<C>>,
    perm: Seq<int>,
    out: Seq<int>,
    inc: Seq<int>,
    ids: Seq<int>,
)
    requires
        g.built_from(nodes, edges, perm, out, inc, ids),
    ensures
        g.spec_edges().len() == edges.len(),
        forall|a: int, b: int|
            0 <= a < b < g.spec_edges().len() ==> (#[trigger] g.spec_edges()[a]).id
                <= (#[trigger] g.spec_edges()[b]).id,
        forall|k: int|
            0 <= k < g.spec_edges().len() ==> exists|i: int|
                0 <= i < edges.len() && #[trigger] g.spec_edges()[k] == renumbered_edge(
                    nodes,
                    perm,
                    edges[i],
                ),
{
    reveal(Graph::built_from);
    let re = renumbered_edges(nodes, perm, edges);
    let oe = permuted(re, out);
    let ie = permuted(oe, inc);
    assert forall|a: int, b: int| 0 <= a < b < g.spec_edges().len() implies (
    #[trigger] g.spec_edges()[a]).id <= (#[trigger] g.spec_edges()[b]).id by {
        assert(id_precedes(ie, ids[a], ids[b]));
    }
    assert forall|k: int| 0 <= k < g.spec_edges().len() implies exists|i: int|
        0 <= i < edges.len() && #[trigger] g.spec_edges()[k] == renumbered_edge(
            nodes,
            perm,
            edges[i],
        ) by {
        let x = ids[k];
        let y = inc[x];
        let i = out[y];
        assert(0 <= x < ie.len() && 0 <= y < oe.len() && 0 <= i < re.len());
        assert(g.spec_edges()[k] == re[i]);
    }
}

proof fn lemma_increasing_fills_range(s: Seq<int>, k: int)
    requires
        forall|a: int, b: int| 0 <= a < b < s.len() ==> #[trigger] s[a] < #[trigger] s[b],
        forall|a: int| 0 <= a < s.len() ==> 0 <= #[trigger] s[a] < s.len(),
        0 <= k < s.len(),
    ensures
        s[k] == k,
    decreases s.len() - k,
{
    lemma_increasing_at_least(s, k);
    if k + 1 < s.len() {
        lemma_increasing_fills_range(s, k + 1);
        assert(s[k] < s[k + 1]);
    }
}

proof fn lemma_increasing_at_least(s: Seq<int>, k: int)
    requires
        forall|a: int, b: int| 0 <= a < b < s.len() ==> #[trigger] s[a] < #[trigger] s[b],
        forall|a: int| 0 <= a < s.len() ==> 0 <= #[trigger] s[a] < s.len(),
        0 <= k < s.len(),
    ensures
        s[k] >= k,
    decreases k,
{
    if k > 0 {
        lemma_increasing_at_least(s, k - 1);
        assert(s[k - 1] < s[k]);
    }
}

/// When the input edges carry the ids `0..m` (each once), the edge at
/// position `k` of the graph is the edge with id `k`.
pub proof fn lemma_dense_edge_ids<C>(
    g: Graph<C>,
    nodes: Seq<Node>,
    edges: Seq<Edge<C>>,
    perm: Seq<int>,
    out: Seq<int>,
    inc: Seq<int>,
    ids: Seq<int>,
)
    requires
        g.built_from(nodes, edges, perm, out, inc, ids),
        forall|i: int| 0 <= i < edges.len() ==> (#[trigger] edges[i]).id < edges.len(),
        forall|i: int, j: int|
            0 <= i < j < edges.len() ==> (#[trigger] edges[i]).id != (#[trigger] edges[j]).id,
    ensures
        forall|k: int| 0 <= k < g.spec_edges().len() ==> (#[trigger] g.spec_edges()[k]).id == k,
{
    reveal(Graph::built_from);
    let sn = sorted_nodes(nodes, perm);
    let re = renumbered_edges(nodes, perm, edges);
    let oe = permuted(re, out);
    let ie = permuted(oe, inc);
    let fe = g.spec_edges();
    let m = edges.len() as int;
    let src = Seq::new(fe.len(), |k: int| out[inc[ids[k]]]);
    assert forall|k: int| 0 <= k < fe.len() implies 0 <= #[trigger] src[k] < m && fe[k].id
        == edges[src[k]].id by {
        assert(0 <= ids[k] < m);
        assert(0 <= inc[ids[k]] < m);
    }
    let s = Seq::new(fe.len(), |k: int| fe[k].id as int);
    assert forall|a: int, b: int| 0 <= a < b < s.len() implies #[trigger] s[a] < #[trigger] s[b] by {
        assert(id_precedes(ie, ids[a], ids[b]));
        if fe[a].id == fe[b].id {
            let (xa, xb) = (ids[a], ids[b]);
            assert(xa < xb);
            assert(in_precedes(sn, oe, inc[xa], inc[xb]));
            assert(inc[xa] != inc[xb]);
            let (ya, yb) = (inc[xa], inc[xb]);
            if ya < yb {
                assert(out_precedes(sn, re, out[ya], out[yb]));
            } else {
                assert(out_precedes(sn, re, out[yb], out[ya]));
            }
            assert(src[a] != src[b]);
            if src[a] < src[b] {
                assert(edges[src[a]].id != edges[src[b]].id);
            } else {
                assert(edges[src[b]].id != edges[src[a]].id);
            }
        }
    }
    assert forall|k: int| 0 <= k < g.spec_edges().len() implies (#[trigger] g.spec_edges()[k]).id
        == k by {
        lemma_increasing_fills_range(s, k);
    }
}

/// Where the input edges carry their positions as ids, as both graph file
/// readers number them, the graph keeps the edges in input order: its edge
/// at position `k` is the `k`-th input edge, renumbered. An edge name that
/// the readers map to `k` thus names the graph's edge at position `k`.
pub proof fn lemma_edges_in_input_order<C>(
    g: Graph<C>,
    nodes: Seq<Node>,
    edges: Seq<Edge<C>>,
    perm: Seq<int>,
    out: Seq<int>,
    inc: Seq<int>,
    ids: Seq<int>,
)
    requires
        g.built_from(nodes, edges, perm, out, inc, ids),
        forall|i: int| 0 <= i < edges.len() ==> (#[trigger] edges[i]).id == i,
    ensures
        g.spec_edges().len() == edges.len(),
        forall|k: int|
            0 <= k < edges.len() ==> #[trigger] g.spec_edges()[k] == renumbered_edge(
                nodes,
                perm,
                edges[k],
            ),
{
    lemma_dense_edge_ids(g, nodes, edges, perm, out, inc, ids);
    lemma_edges_by_id(g, nodes, edges, perm, out, inc, ids);
    assert forall|k: int| 0 <= k < edges.len() implies #[trigger] g.spec_edges()[k]
        == renumbered_edge(nodes, perm, edges[k]) by {
        let i = choose|i: int|
            0 <= i < edges.len() && #[trigger] g.spec_edges()[k] == renumbered_edge(
                nodes,
                perm,
                edges[i],
            );
        assert(g.spec_edges()[k].id == k);
        assert(edges[i].id == i);
    }
}

} // verus!
