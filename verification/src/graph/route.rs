use vstd::prelude::*;

use super::{Edge, Graph};

verus! {

/// The road edges that the edge `e` stands for, if `depth` levels of
/// shortcut expansion suffice: a road edge stands for itself, a
/// shortcut for what its two replaced edges stand for, in order.
pub open spec fn unpack_within<C>(edges: Seq<Edge<C>>, e: u32, depth: nat) -> Option<Seq<u32>>
    decreases depth,
{
    if e >= edges.len() {
        None
    } else {
        match edges[e as int].replaced_edges {
            None => Some(seq![e]),
            Some((a, b)) => if depth == 0 {
                None
            } else {
                match (
                    unpack_within(edges, a, (depth - 1) as nat),
                    unpack_within(edges, b, (depth - 1) as nat),
                ) {
                    (Some(x), Some(y)) => Some(x + y),
                    _ => None,
                }
            },
        }
    }
}

/// The edge `e` can be expanded completely: its shortcut structure is
/// finite and refers only to existing edges.
pub open spec fn unpackable<C>(edges: Seq<Edge<C>>, e: u32) -> bool {
    exists|d: nat| #[trigger] unpack_within(edges, e, d) is Some
}

/// The road edges that `e` stands for.
pub open spec fn unpacked<C>(edges: Seq<Edge<C>>, e: u32) -> Seq<u32> {
    unpack_within(edges, e, choose|d: nat| #[trigger] unpack_within(edges, e, d) is Some).unwrap()
}

/// Once an expansion succeeds, more depth gives the same result.
pub proof fn lemma_unpack_deeper<C>(edges: Seq<Edge<C>>, e: u32, d1: nat, d2: nat)
    requires
        unpack_within(edges, e, d1) is Some,
        d1 <= d2,
    ensures
        unpack_within(edges, e, d2) == unpack_within(edges, e, d1),
    decreases d1,
{
    if e < edges.len() {
        if let Some((a, b)) = edges[e as int].replaced_edges {
            lemma_unpack_deeper(edges, a, (d1 - 1) as nat, (d2 - 1) as nat);
            lemma_unpack_deeper(edges, b, (d1 - 1) as nat, (d2 - 1) as nat);
        }
    }
}

/// Expanding an edge has one result, whatever depth it takes.
pub proof fn lemma_unpack_unique<C>(edges: Seq<Edge<C>>, e: u32, d: nat)
    requires
        unpack_within(edges, e, d) is Some,
    ensures
        unpacked(edges, e) == unpack_within(edges, e, d).unwrap(),
{
    let d2 = choose|d: nat| #[trigger] unpack_within(edges, e, d) is Some;
    if d <= d2 {
        lemma_unpack_deeper(edges, e, d, d2);
    } else {
        lemma_unpack_deeper(edges, e, d2, d);
    }
}

/// An expansion consists of road edges only.
pub proof fn lemma_unpack_yields_road_edges<C>(edges: Seq<Edge<C>>, e: u32, d: nat)
    requires
        unpack_within(edges, e, d) is Some,
    ensures
        forall|k: int|
            0 <= k < unpack_within(edges, e, d).unwrap().len() ==> {
                let x = #[trigger] unpack_within(edges, e, d).unwrap()[k];
                x < edges.len() && edges[x as int].replaced_edges is None
            },
    decreases d,
{
    if let Some((a, b)) = edges[e as int].replaced_edges {
        lemma_unpack_yields_road_edges(edges, a, (d - 1) as nat);
        lemma_unpack_yields_road_edges(edges, b, (d - 1) as nat);
        let x = unpack_within(edges, a, (d - 1) as nat).unwrap();
        let y = unpack_within(edges, b, (d - 1) as nat).unwrap();
        assert forall|k: int| 0 <= k < (x + y).len() implies ((x + y)[k] < edges.len() && edges[(x
            + y)[k] as int].replaced_edges is None) by {
            if k >= x.len() {
                assert((x + y)[k] == y[k - x.len()]);
            }
        }
    }
}

/// Every shortcut replaces two existing edges that form a route from its
/// source to its target: the first leaves where the shortcut leaves, the
/// second starts where the first ends and ends where the shortcut ends.
pub open spec fn shortcuts_fit<C>(edges: Seq<Edge<C>>) -> bool {
    forall|e: int|
        0 <= e < edges.len() ==> match (#[trigger] edges[e]).replaced_edges {
            None => true,
            Some((a, b)) => {
                &&& a < edges.len()
                &&& b < edges.len()
                &&& edges[a as int].source_id == edges[e].source_id
                &&& edges[a as int].target_id == edges[b as int].source_id
                &&& edges[b as int].target_id == edges[e].target_id
            },
        }
}

/// `w` is a nonempty sequence of edges, each ending where the next one
/// starts, from the node `s` to the node `t`.
pub open spec fn is_walk<C>(edges: Seq<Edge<C>>, w: Seq<u32>, s: u32, t: u32) -> bool {
    &&& w.len() > 0
    &&& forall|k: int| 0 <= k < w.len() ==> #[trigger] w[k] < edges.len()
    &&& edges[w[0] as int].source_id == s
    &&& edges[w[w.len() - 1] as int].target_id == t
    &&& forall|k: int|
        0 <= k < w.len() - 1 ==> edges[#[trigger] w[k] as int].target_id == edges[w[k + 1] as int].source_id
}

proof fn lemma_walks_join<C>(edges: Seq<Edge<C>>, x: Seq<u32>, y: Seq<u32>, s: u32, m: u32, t: u32)
    requires
        is_walk(edges, x, s, m),
        is_walk(edges, y, m, t),
    ensures
        is_walk(edges, x + y, s, t),
{
    let z = x + y;
    assert forall|k: int| 0 <= k < z.len() implies #[trigger] z[k] < edges.len() by {
        if k >= x.len() {
            assert(z[k] == y[k - x.len()]);
        }
    }
    assert(z[0] == x[0]);
    assert(z[z.len() - 1] == y[y.len() - 1]);
    assert forall|k: int| 0 <= k < z.len() - 1 implies edges[#[trigger] z[k] as int].target_id
        == edges[z[k + 1] as int].source_id by {
        if k < x.len() - 1 {
            assert(z[k] == x[k] && z[k + 1] == x[k + 1]);
        } else if k == x.len() - 1 {
            assert(z[k] == x[x.len() - 1] && z[k + 1] == y[0]);
        } else {
            assert(z[k] == y[k - x.len()] && z[k + 1] == y[k + 1 - x.len()]);
        }
    }
}

proof fn lemma_unpack_within_walks<C>(edges: Seq<Edge<C>>, e: u32, d: nat)
    requires
        shortcuts_fit(edges),
        unpack_within(edges, e, d) is Some,
    ensures
        is_walk(
            edges,
            unpack_within(edges, e, d).unwrap(),
            edges[e as int].source_id,
            edges[e as int].target_id,
        ),
    decreases d,
{
    assert(0 <= e < edges.len());
    let ee = edges[e as int];
    match ee.replaced_edges {
        None => {
            let w = unpack_within(edges, e, d).unwrap();
            assert(w == seq![e]);
        },
        Some((a, b)) => {
            lemma_unpack_within_walks(edges, a, (d - 1) as nat);
            lemma_unpack_within_walks(edges, b, (d - 1) as nat);
            lemma_walks_join(
                edges,
                unpack_within(edges, a, (d - 1) as nat).unwrap(),
                unpack_within(edges, b, (d - 1) as nat).unwrap(),
                ee.source_id,
                edges[a as int].target_id,
                ee.target_id,
            );
        },
    }
}

/// A road edge expands into itself, and a shortcut that expands does so
/// into the expansion of its first replaced edge followed by that of its
/// second, whether or not these are shortcuts themselves.
pub proof fn lemma_unpacked_shortcut<C>(edges: Seq<Edge<C>>, e: u32)
    requires
        unpackable(edges, e),
    ensures
        e < edges.len(),
        edges[e as int].replaced_edges is None ==> unpacked(edges, e) == seq![e],
        edges[e as int].replaced_edges matches Some((a, b)) ==> unpackable(edges, a) && unpackable(
            edges,
            b,
        ) && unpacked(edges, e) == unpacked(edges, a) + unpacked(edges, b),
{
    let d = choose|d: nat| #[trigger] unpack_within(edges, e, d) is Some;
    lemma_unpack_unique(edges, e, d);
    if let Some((a, b)) = edges[e as int].replaced_edges {
        lemma_unpack_unique(edges, a, (d - 1) as nat);
        lemma_unpack_unique(edges, b, (d - 1) as nat);
    }
}

/// Where every shortcut replaces a route from its source to its target, an
/// edge that expands expands into road edges that form a route from its
/// source to its target, each edge ending where the next one starts.
pub proof fn lemma_unpacked_is_walk<C>(edges: Seq<Edge<C>>, e: u32)
    requires
        shortcuts_fit(edges),
        unpackable(edges, e),
    ensures
        is_walk(edges, unpacked(edges, e), edges[e as int].source_id, edges[e as int].target_id),
{
    let d = choose|d: nat| #[trigger] unpack_within(edges, e, d) is Some;
    lemma_unpack_unique(edges, e, d);
    lemma_unpack_within_walks(edges, e, d);
}

/// The concatenated expansions of a sequence of edges.
pub open spec fn unpacked_all<C>(edges: Seq<Edge<C>>, es: Seq<u32>) -> Seq<u32>
    decreases es.len(),
{
    if es.len() == 0 {
        Seq::empty()
    } else {
        unpacked_all(edges, es.drop_last()) + unpacked(edges, es.last())
    }
}

/// Where every shortcut replaces a route from its source to its target, a
/// route of edges that each expand, from `s` to `t`, expands into a route of
/// road edges from `s` to `t`.
pub proof fn lemma_unpacked_all_is_walk<C>(edges: Seq<Edge<C>>, es: Seq<u32>, s: u32, t: u32)
    requires
        shortcuts_fit(edges),
        is_walk(edges, es, s, t),
        forall|k: int| 0 <= k < es.len() ==> unpackable(edges, #[trigger] es[k]),
    ensures
        is_walk(edges, unpacked_all(edges, es), s, t),
    decreases es.len(),
{
    let last = es[es.len() - 1];
    assert(unpackable(edges, es[es.len() - 1]));
    lemma_unpacked_is_walk(edges, last);
    if es.len() == 1 {
        assert(es.drop_last().len() == 0);
        assert(unpacked_all(edges, es.drop_last()) == Seq::<u32>::empty());
        assert(unpacked_all(edges, es) =~= unpacked(edges, last));
    } else {
        let init = es.drop_last();
        let m = edges[last as int].source_id;
        assert(edges[es[es.len() - 2] as int].target_id == m);
        assert(init[init.len() - 1] == es[es.len() - 2]);
        assert forall|k: int| 0 <= k < init.len() - 1 implies edges[#[trigger] init[k] as int].target_id
            == edges[init[k + 1] as int].source_id by {
            assert(init[k] == es[k] && init[k + 1] == es[k + 1]);
        }
        assert forall|k: int| 0 <= k < init.len() implies unpackable(edges, #[trigger] init[k]) by {
            assert(init[k] == es[k]);
        }
        assert(is_walk(edges, init, s, m));
        lemma_unpacked_all_is_walk(edges, init, s, m);
        lemma_walks_join(edges, unpacked_all(edges, init), unpacked(edges, last), s, m, t);
    }
}

impl<C> Graph<C> {
    fn unpack_within_depth(&self, edge: u32, Ghost(depth): Ghost<nat>) -> (r: Vec<u32>)
        requires
            unpack_within(self.spec_edges(), edge, depth) is Some,
        ensures
            r@ == unpack_within(self.spec_edges(), edge, depth).unwrap(),
        decreases depth,
    {
        let e = &self.edges.0[edge as usize];
        match e.replaced_edges {
            Some((edge1, edge2)) => {
                let mut first = self.unpack_within_depth(edge1, Ghost((depth - 1) as nat));
                let mut second = self.unpack_within_depth(edge2, Ghost((depth - 1) as nat));
                first.append(&mut second);
                first
            },
            None => {
                let mut r = Vec::new();
                r.push(edge);
                r
            },
        }
    }

    /// The road edges that the edge `edge` stands for, in order.
    pub fn unpack_edge(&self, edge: u32) -> (r: Vec<u32>)
        requires
            unpackable(self.spec_edges(), edge),
        ensures
            r@ == unpacked(self.spec_edges(), edge),
    {
        let ghost d = choose|d: nat| #[trigger] unpack_within(self.spec_edges(), edge, d) is Some;
        self.unpack_within_depth(edge, Ghost(d))
    }
}

/// The path that the predecessor edges `prev` record from `from` to `cur`,
/// found by walking back from `cur` for at most `fuel` edges: the nodes
/// after `from` and the edges, both in travel order. `None` where the walk
/// meets a node without a predecessor edge, an edge that does not exist,
/// or does not reach `from` in time.
pub open spec fn walk_back<C>(
    prev: Seq<Option<u32>>,
    edges: Seq<Edge<C>>,
    from: u32,
    cur: u32,
    fuel: nat,
) -> Option<(Seq<u32>, Seq<u32>)>
    decreases fuel,
{
    if cur == from {
        Some((Seq::empty(), Seq::empty()))
    } else if fuel == 0 || cur >= prev.len() {
        None
    } else {
        match prev[cur as int] {
            None => None,
            Some(e) => if e >= edges.len() {
                None
            } else {
                match walk_back(prev, edges, from, edges[e as int].source_id, (fuel - 1) as nat) {
                    None => None,
                    Some((ns, es)) => Some((ns.push(cur), es.push(e))),
                }
            },
        }
    }
}

/// A traced route is connected: each of its edges is the predecessor edge
/// of the node after it and leaves the node before it, and the route ends
/// at the node the walk started from.
pub proof fn lemma_walk_back_connects<C>(
    prev: Seq<Option<u32>>,
    edges: Seq<Edge<C>>,
    from: u32,
    cur: u32,
    fuel: nat,
)
    requires
        walk_back(prev, edges, from, cur, fuel) is Some,
    ensures
        ({
            let (ns, es) = walk_back(prev, edges, from, cur, fuel)->0;
            let nodes = seq![from] + ns;
            &&& ns.len() == es.len()
            &&& nodes.last() == cur
            &&& forall|k: int|
                0 <= k < es.len() ==> {
                    &&& (#[trigger] es[k]) < edges.len()
                    &&& ns[k] < prev.len()
                    &&& prev[ns[k] as int] == Some(es[k])
                    &&& edges[es[k] as int].source_id == nodes[k]
                }
        }),
    decreases fuel,
{
    if cur != from {
        let e = prev[cur as int]->0;
        let next = edges[e as int].source_id;
        lemma_walk_back_connects(prev, edges, from, next, (fuel - 1) as nat);
        let (ns0, es0) = walk_back(prev, edges, from, next, (fuel - 1) as nat)->0;
        let (ns, es) = walk_back(prev, edges, from, cur, fuel)->0;
        assert(ns == ns0.push(cur) && es == es0.push(e));
        let nodes0 = seq![from] + ns0;
        let nodes = seq![from] + ns;
        assert(nodes =~= nodes0.push(cur));
        assert forall|k: int| 0 <= k < es.len() implies {
            &&& (#[trigger] es[k]) < edges.len()
            &&& ns[k] < prev.len()
            &&& prev[ns[k] as int] == Some(es[k])
            &&& edges[es[k] as int].source_id == nodes[k]
        } by {
            if k < es0.len() {
                assert(es[k] == es0[k] && ns[k] == ns0[k] && nodes[k] == nodes0[k]);
            } else {
                assert(nodes[k] == nodes0.last());
            }
        }
    } else {
        assert(seq![from] + Seq::<u32>::empty() =~= seq![from]);
    }
}

/// What following the predecessor edges back from a target gives.
pub enum RouteTrace {
    /// The target has no predecessor edge: no route reaches it.
    Unreachable,
    /// The predecessor edges do not lead back to the start.
    Broken,
    /// The route's nodes from the start to the target, and its edges.
    Found { nodes: Vec<u32>, edges: Vec<u32> },
}

/// Follows the predecessor edges `prev` of a search from `from` back from
/// `to`: `Unreachable` where `to` has none; the route where the walk
/// reaches `from` within as many edges as there are nodes; `Broken`
/// otherwise (the walk then cycles or meets a missing edge).
pub fn trace_route<C>(graph: &Graph<C>, prev: &Vec<Option<u32>>, from: u32, to: u32) -> (r: RouteTrace)
    requires
        to < prev@.len(),
    ensures
        prev@[to as int] is None ==> r is Unreachable,
        prev@[to as int] is Some ==> match walk_back(
            prev@,
            graph.spec_edges(),
            from,
            to,
            prev@.len() as nat,
        ) {
            None => r is Broken,
            Some((ns, es)) => r matches RouteTrace::Found { nodes, edges } && nodes@ == seq![from]
                + ns && edges@ == es,
        },
{
    let n = prev.len();
    if prev[to as usize].is_none() {
        return RouteTrace::Unreachable;
    }
    let ghost es = graph.spec_edges();
    let mut back_nodes: Vec<u32> = Vec::new();
    let mut back_edges: Vec<u32> = Vec::new();
    let mut cur = to;
    let mut steps: usize = 0;
    while cur != from
        invariant
            n == prev@.len(),
            to < n,
            prev@[to as int] is Some,
            es == graph.spec_edges(),
            steps <= n,
            back_nodes@.len() == steps,
            back_edges@.len() == steps,
            walk_back(prev@, es, from, to, n as nat) == match walk_back(
                prev@,
                es,
                from,
                cur,
                (n - steps) as nat,
            ) {
                None => None,
                Some((ns, xs)) => Some((ns + back_nodes@.reverse(), xs + back_edges@.reverse())),
            },
        decreases n - steps,
    {
        if steps == n || cur as usize >= n {
            return RouteTrace::Broken;
        }
        let e = match prev[cur as usize] {
            None => {
                return RouteTrace::Broken;
            },
            Some(e) => e,
        };
        if e as usize >= graph.edges.0.len() {
            return RouteTrace::Broken;
        }
        let next = graph.edges.0[e as usize].source_id;
        let ghost old_nodes = back_nodes@;
        let ghost old_edges = back_edges@;
        back_nodes.push(cur);
        back_edges.push(e);
        proof {
            assert(back_nodes@.reverse() =~= seq![cur] + old_nodes.reverse());
            assert(back_edges@.reverse() =~= seq![e] + old_edges.reverse());
            match walk_back(prev@, es, from, next, (n - steps - 1) as nat) {
                None => {},
                Some((ns, xs)) => {
                    assert(ns.push(cur) + old_nodes.reverse() =~= ns + (seq![cur]
                        + old_nodes.reverse()));
                    assert(xs.push(e) + old_edges.reverse() =~= xs + (seq![e]
                        + old_edges.reverse()));
                },
            }
        }
        cur = next;
        steps = steps + 1;
    }
    let mut nodes: Vec<u32> = Vec::new();
    let mut edges: Vec<u32> = Vec::new();
    nodes.push(from);
    let mut k = steps;
    while k > 0
        invariant
            k <= steps,
            back_nodes@.len() == steps,
            back_edges@.len() == steps,
            nodes@ == seq![from] + back_nodes@.reverse().take((steps - k) as int),
            edges@ == back_edges@.reverse().take((steps - k) as int),
        decreases k,
    {
        k = k - 1;
        nodes.push(back_nodes[k]);
        edges.push(back_edges[k]);
        assert(nodes@ =~= seq![from] + back_nodes@.reverse().take((steps - k) as int));
        assert(edges@ =~= back_edges@.reverse().take((steps - k) as int));
    }
    proof {
        assert(back_nodes@.reverse().take(steps as int) =~= back_nodes@.reverse());
        assert(back_edges@.reverse().take(steps as int) =~= back_edges@.reverse());
        assert(Seq::<u32>::empty() + back_nodes@.reverse() =~= back_nodes@.reverse());
        assert(Seq::<u32>::empty() + back_edges@.reverse() =~= back_edges@.reverse());
    }
    RouteTrace::Found { nodes, edges }
}

/// The edges of the routes `subs`, each expanded into road edges,
/// one route after the other.
pub open spec fn concat_unpacked<C>(edges: Seq<Edge<C>>, subs: Seq<Seq<u32>>) -> Seq<u32>
    decreases subs.len(),
{
    if subs.len() == 0 {
        Seq::empty()
    } else {
        concat_unpacked(edges, subs.drop_last()) + unpacked_all(edges, subs.last())
    }
}

/// Where every shortcut replaces a route from its source to its target,
/// routes `subs[i]` from `waypoints[i]` to `waypoints[i + 1]` whose edges
/// all expand join, expanded, into one route of road edges from the first
/// waypoint to the last.
pub proof fn lemma_concat_unpacked_is_walk<C>(
    edges: Seq<Edge<C>>,
    subs: Seq<Seq<u32>>,
    waypoints: Seq<u32>,
)
    requires
        shortcuts_fit(edges),
        subs.len() >= 1,
        waypoints.len() == subs.len() + 1,
        forall|i: int|
            0 <= i < subs.len() ==> is_walk(edges, #[trigger] subs[i], waypoints[i], waypoints[i + 1]),
        forall|i: int, k: int|
            0 <= i < subs.len() && 0 <= k < subs[i].len() ==> unpackable(edges, #[trigger] subs[i][k]),
    ensures
        is_walk(edges, concat_unpacked(edges, subs), waypoints[0], waypoints[subs.len() as int]),
    decreases subs.len(),
{
    let n = subs.len() as int;
    let last = subs[n - 1];
    assert forall|k: int| 0 <= k < last.len() implies unpackable(edges, #[trigger] last[k]) by {
        assert(unpackable(edges, subs[n - 1][k]));
    }
    lemma_unpacked_all_is_walk(edges, last, waypoints[n - 1], waypoints[n]);
    if n == 1 {
        assert(subs.drop_last().len() == 0);
        assert(concat_unpacked(edges, subs) =~= unpacked_all(edges, last));
    } else {
        let init = subs.drop_last();
        let wi = waypoints.drop_last();
        assert forall|i: int| 0 <= i < init.len() implies is_walk(edges, #[trigger] init[i], wi[i], wi[i + 1]) by {
            assert(init[i] == subs[i]);
            assert(is_walk(edges, subs[i], waypoints[i], waypoints[i + 1]));
        }
        assert forall|i: int, k: int| 0 <= i < init.len() && 0 <= k < init[i].len() implies unpackable(
            edges,
            #[trigger] init[i][k],
        ) by {
            assert(init[i] == subs[i]);
            assert(unpackable(edges, subs[i][k]));
        }
        lemma_concat_unpacked_is_walk(edges, init, wi);
        lemma_walks_join(
            edges,
            concat_unpacked(edges, init),
            unpacked_all(edges, last),
            waypoints[0],
            waypoints[n - 1],
            waypoints[n],
        );
    }
}

/// Every edge of every route in `subs` expands within `depth` levels.
pub open spec fn all_expand<C>(edges: Seq<Edge<C>>, subs: Seq<Seq<u32>>, depth: nat) -> bool {
    forall|i: int, k: int|
        0 <= i < subs.len() && 0 <= k < subs[i].len() ==> #[trigger] unpack_within(
            edges,
            subs[i][k],
            depth,
        ) is Some
}

impl<C> Graph<C> {
    fn unpack_bounded(&self, edge: u32, depth: usize) -> (r: Option<Vec<u32>>)
        ensures
            r matches Some(v) ==> unpack_within(self.spec_edges(), edge, depth as nat) == Some(v@),
            r is None ==> unpack_within(self.spec_edges(), edge, depth as nat) is None,
        decreases depth,
    {
        if edge as usize >= self.edges.0.len() {
            return None;
        }
        match self.edges.0[edge as usize].replaced_edges {
            None => {
                let mut v = Vec::new();
                v.push(edge);
                Some(v)
            },
            Some((a, b)) => {
                if depth == 0 {
                    return None;
                }
                let first = self.unpack_bounded(a, depth - 1);
                match first {
                    None => None,
                    Some(mut x) => match self.unpack_bounded(b, depth - 1) {
                        None => None,
                        Some(mut y) => {
                            x.append(&mut y);
                            Some(x)
                        },
                    },
                }
            },
        }
    }

    /// The road edges that `edge` stands for, in order, where its
    /// shortcut structure expands within as many levels as there are
    /// edges; `None` otherwise.
    pub fn try_unpack_edge(&self, edge: u32) -> (r: Option<Vec<u32>>)
        ensures
            r matches Some(v) ==> unpackable(self.spec_edges(), edge) && v@ == unpacked(
                self.spec_edges(),
                edge,
            ),
            r is None <==> unpack_within(
                self.spec_edges(),
                edge,
                self.spec_edges().len() as nat,
            ) is None,
    {
        let m = self.edges.0.len();
        let r = self.unpack_bounded(edge, m);
        proof {
            if r is Some {
                lemma_unpack_unique(self.spec_edges(), edge, m as nat);
            }
        }
        r
    }

    /// The road edges that the edges `edges` stand for, one after the
    /// other; `None` where some edge does not expand within as many levels
    /// as there are edges.
    pub fn unpack_edges(&self, edges: &Vec<u32>) -> (r: Option<Vec<u32>>)
        ensures
            r is None <==> exists|k: int|
                0 <= k < edges@.len() && #[trigger] unpack_within(
                    self.spec_edges(),
                    edges@[k],
                    self.spec_edges().len() as nat,
                ) is None,
            r matches Some(v) ==> v@ == unpacked_all(self.spec_edges(), edges@) && forall|q: int|
                0 <= q < v@.len() ==> #[trigger] v@[q] < self.spec_edges().len(),
    {
        let ghost es = self.spec_edges();
        let m = self.edges.0.len();
        let mut part: Vec<u32> = Vec::new();
        let mut k: usize = 0;
        while k < edges.len()
            invariant
                m == es.len(),
                es == self.spec_edges(),
                k <= edges@.len(),
                forall|j: int| 0 <= j < k ==> #[trigger] unpack_within(es, edges@[j], m as nat) is Some,
                part@ == unpacked_all(es, edges@.take(k as int)),
                forall|q: int| 0 <= q < part@.len() ==> #[trigger] part@[q] < m,
            decreases edges@.len() - k,
        {
            match self.unpack_bounded(edges[k], m) {
                None => {
                    return None;
                },
                Some(mut x) => {
                    proof {
                        lemma_unpack_unique(es, edges@[k as int], m as nat);
                        lemma_unpack_yields_road_edges(es, edges@[k as int], m as nat);
                        assert(edges@.take(k + 1).drop_last() =~= edges@.take(k as int));
                    }
                    let ghost before = part@;
                    part.append(&mut x);
                    proof {
                        assert forall|q: int| 0 <= q < part@.len() implies #[trigger] part@[q] < m by {
                            if q >= before.len() {
                                assert(part@[q] == unpack_within(es, edges@[k as int], m as nat)->0[q
                                    - before.len()]);
                            }
                        }
                    }
                },
            }
            k = k + 1;
        }
        assert(edges@.take(k as int) =~= edges@);
        Some(part)
    }

    /// The route that the routes `subpaths` form one after the other,
    /// each edge expanded into road edges, ending at the last node of
    /// `waypoints`: its nodes (the source of each edge, then that node), its
    /// edges, and the number of edges each route expands into. `None` where
    /// some edge does not expand within as many levels as there are edges.
    pub fn route_from_subpaths(&self, subpaths: &Vec<Vec<u32>>, waypoints: &Vec<u32>) -> (r: Option<
        (Vec<u32>, Vec<u32>, Vec<u32>),
    >)
        requires
            waypoints@.len() > 0,
        ensures
            r is None <==> !all_expand(
                self.spec_edges(),
                subpaths@.map_values(|s: Vec<u32>| s@),
                self.spec_edges().len() as nat,
            ),
            r matches Some((nodes, edges, cuts)) ==> {
                let subs = subpaths@.map_values(|s: Vec<u32>| s@);
                &&& edges@ == concat_unpacked(self.spec_edges(), subs)
                &&& cuts@.len() == subs.len()
                &&& forall|i: int|
                    0 <= i < subs.len() ==> #[trigger] cuts@[i] == unpacked_all(
                        self.spec_edges(),
                        subs[i],
                    ).len() as u32
                &&& nodes@ == edges@.map_values(|e: u32| self.spec_edges()[e as int].source_id).push(
                    waypoints@.last(),
                )
            },
    {
        let ghost es = self.spec_edges();
        let ghost subs = subpaths@.map_values(|s: Vec<u32>| s@);
        let m = self.edges.0.len();
        let mut edges: Vec<u32> = Vec::new();
        let mut cuts: Vec<u32> = Vec::new();
        let mut i: usize = 0;
        while i < subpaths.len()
            invariant
                m == es.len(),
                es == self.spec_edges(),
                subs == subpaths@.map_values(|s: Vec<u32>| s@),
                i <= subs.len(),
                all_expand(es, subs.take(i as int), m as nat),
                edges@ == concat_unpacked(es, subs.take(i as int)),
                cuts@.len() == i,
                forall|j: int|
                    0 <= j < i ==> #[trigger] cuts@[j] == unpacked_all(es, subs[j]).len() as u32,
                forall|k: int| 0 <= k < edges@.len() ==> #[trigger] edges@[k] < m,
            decreases subs.len() - i,
        {
            let sub = &subpaths[i];
            assert(subs[i as int] == sub@);
            let mut part = match self.unpack_edges(sub) {
                None => {
                    proof {
                        let k = choose|k: int|
                            0 <= k < sub@.len() && #[trigger] unpack_within(es, sub@[k], m as nat)
                                is None;
                        assert(subs[i as int][k] == sub@[k]);
                    }
                    return None;
                },
                Some(p) => p,
            };
            let len = part.len() as u32;
            let ghost before = edges@;
            edges.append(&mut part);
            cuts.push(len);
            proof {
                assert(subs.take(i + 1).drop_last() =~= subs.take(i as int));
                assert(subs.take(i + 1).last() == sub@);
                assert forall|a: int, b: int|
                    0 <= a < subs.take(i + 1).len() && 0 <= b < subs.take(i + 1)[a].len() implies #[trigger] unpack_within(
                    es,
                    subs.take(i + 1)[a][b],
                    m as nat,
                ) is Some by {
                    if a < i {
                        assert(subs.take(i + 1)[a] == subs.take(i as int)[a]);
                    }
                }
            }
            i = i + 1;
        }
        assert(subs.take(i as int) =~= subs);
        let mut nodes: Vec<u32> = Vec::new();
        let mut q: usize = 0;
        while q < edges.len()
            invariant
                m == es.len(),
                es == self.spec_edges(),
                q <= edges@.len(),
                forall|k: int| 0 <= k < edges@.len() ==> #[trigger] edges@[k] < m,
                nodes@ == edges@.take(q as int).map_values(|e: u32| es[e as int].source_id),
            decreases edges@.len() - q,
        {
            let e = edges[q];
            nodes.push(self.edges.0[e as usize].source_id);
            assert(nodes@ =~= edges@.take(q + 1).map_values(|e: u32| es[e as int].source_id));
            q = q + 1;
        }
        assert(edges@.take(q as int) =~= edges@);
        nodes.push(waypoints[waypoints.len() - 1]);
        Some((nodes, edges, cuts))
    }
}

} // verus!
