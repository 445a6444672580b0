//! Recorded vehicle trajectories: sequences of edge names resolved against
//! a graph.
use vstd::prelude::*;

use std::collections::HashSet;

use crate::graph::route::{
    lemma_unpack_unique, lemma_unpack_yields_road_edges, lemma_unpacked_is_walk, shortcuts_fit,
    unpack_within, unpacked,
};
use crate::graph::{Edge, Graph};
use crate::helpers::MyVec;
use crate::names::{last_index_of, lemma_last_index_of, NameIndex};
use crate::text::{all_digits, digits_value, is_digit, parse_unsigned, unsigned_digits};

verus! {

/// A trip: its id parts, the vehicle, and the edges it used, by name.
pub struct Trajectory {
    pub trip_id: Vec<(Option<u32>, u32)>,
    pub vehicle_id: i64,
    pub path: MyVec<i64>,
}

/// The decimal digit `d` as a character.
pub open spec fn digit_char(d: int) -> char {
    (('0' as int) + d) as char
}

/// The decimal digits of `n`, without leading zeros.
pub open spec fn natural_text(n: nat) -> Seq<char>
    decreases n,
{
    if n < 10 {
        seq![digit_char(n as int)]
    } else {
        natural_text(n / 10).push(digit_char((n % 10) as int))
    }
}

/// The decimal text of `x`, with a leading `-` where it is negative.
pub open spec fn decimal_text(x: int) -> Seq<char> {
    if x < 0 {
        seq!['-'] + natural_text((-x) as nat)
    } else {
        natural_text(x as nat)
    }
}

/// Appends the character `c` to `s` with `String::push`, which std
/// documents as appending the given character to the end of the string.
#[verifier::external_body]
fn push_char(s: &mut String, c: char)
    ensures
        final(s)@ == old(s)@.push(c),
{
    s.push(c);
}

/// The character of the decimal digit `d`.
fn digit(d: u64) -> (c: char)
    requires
        d < 10,
    ensures
        c == digit_char(d as int),
{
    let b: u8 = 48u8 + d as u8;
    b as char
}

/// Appends the decimal digits of `n` to `s`.
fn push_natural(s: &mut String, n: u64)
    ensures
        final(s)@ == old(s)@ + natural_text(n as nat),
    decreases n,
{
    if n < 10 {
        push_char(s, digit(n));
        assert(old(s)@.push(digit_char(n as int)) =~= old(s)@ + natural_text(n as nat));
    } else {
        push_natural(s, n / 10);
        let ghost mid = s@;
        push_char(s, digit(n % 10));
        assert(natural_text(n as nat) == natural_text((n / 10) as nat).push(
            digit_char((n % 10) as int),
        ));
        assert(mid.push(digit_char((n % 10) as int)) =~= old(s)@ + natural_text(n as nat));
    }
}

/// The decimal text of `x`, as `i64::to_string` writes it: the digits of its
/// magnitude, after a `-` where it is negative.
fn decimal(x: i64) -> (s: String)
    ensures
        s@ == decimal_text(x as int),
{
    let mut s = String::new();
    if x < 0 {
        push_char(&mut s, '-');
        let magnitude: u64 = (-(x + 1)) as u64 + 1;
        push_natural(&mut s, magnitude);
        assert(s@ =~= seq!['-'] + natural_text((-x) as nat));
    } else {
        push_natural(&mut s, x as u64);
        assert(s@ =~= natural_text(x as nat));
    }
    s
}

/// Why a trajectory does not fit a graph.
#[derive(Debug, PartialEq, Eq, Structural)]
pub enum TrajectoryError {
    /// No edge carries this name.
    UnknownEdge { edge: i64 },
    /// The edge of this name lies beyond the graph's edges.
    EdgeOutOfRange { edge: i64 },
}

/// The index of the edge that the name `id` stands for: the last edge
/// named with its decimal text.
pub open spec fn resolve(names: Seq<Seq<char>>, m: int, id: i64) -> Result<int, TrajectoryError> {
    match last_index_of(names, decimal_text(id as int)) {
        None => Err(TrajectoryError::UnknownEdge { edge: id }),
        Some(i) => if i < m {
            Ok(i)
        } else {
            Err(TrajectoryError::EdgeOutOfRange { edge: id })
        },
    }
}

fn resolve_edge<C>(graph: &Graph<C>, edge_lookup: &NameIndex, id: i64) -> (r: Result<
    usize,
    TrajectoryError,
>)
    requires
        edge_lookup.wf(),
    ensures
        r matches Ok(i) ==> i < graph.spec_edges().len() && resolve(
            edge_lookup@,
            graph.spec_edges().len() as int,
            id,
        ) == Ok::<int, TrajectoryError>(i as int),
        r matches Err(e) ==> resolve(edge_lookup@, graph.spec_edges().len() as int, id) == Err::<
            int,
            TrajectoryError,
        >(e),
{
    let name = decimal(id);
    match edge_lookup.lookup(&name) {
        None => Err(TrajectoryError::UnknownEdge { edge: id }),
        Some(i) => {
            if i < graph.edge_count() {
                Ok(i)
            } else {
                Err(TrajectoryError::EdgeOutOfRange { edge: id })
            }
        },
    }
}

/// The first position `k` from `from` on where the edge at `k` does not end
/// where the edge at `k + 1` starts; `None` where all connect. The names
/// are resolved pair by pair, and the first that fails ends the check.
pub open spec fn first_gap<C>(
    path: Seq<i64>,
    names: Seq<Seq<char>>,
    edges: Seq<Edge<C>>,
    from: int,
) -> Result<Option<int>, TrajectoryError>
    decreases path.len() - from,
{
    if from < 0 || from + 1 >= path.len() {
        Ok(None)
    } else {
        match resolve(names, edges.len() as int, path[from]) {
            Err(e) => Err(e),
            Ok(a) => match resolve(names, edges.len() as int, path[from + 1]) {
                Err(e) => Err(e),
                Ok(b) => if edges[a].target_id == edges[b].source_id {
                    first_gap(path, names, edges, from + 1)
                } else {
                    Ok(Some(from))
                },
            },
        }
    }
}

/// The edges named at positions `j` and `j + 1` of the path both resolve,
/// and the first ends where the second starts.
pub open spec fn pair_connects<C>(path: Seq<i64>, names: Seq<Seq<char>>, edges: Seq<Edge<C>>, j: int) -> bool {
    match (resolve(names, edges.len() as int, path[j]), resolve(names, edges.len() as int, path[j + 1])) {
        (Ok(a), Ok(b)) => edges[a].target_id == edges[b].source_id,
        _ => false,
    }
}

/// The check from position `from` on finds no gap exactly where it should:
/// a path whose consecutive edges from `from` on all resolve and connect
/// gives `Ok(None)`, and a reported gap `k` lies at a pair of edges that
/// resolve but do not connect, after pairs that all connect.
pub proof fn lemma_first_gap_exact<C>(path: Seq<i64>, names: Seq<Seq<char>>, edges: Seq<Edge<C>>, from: int)
    requires
        0 <= from,
    ensures
        (forall|j: int| from <= j < path.len() - 1 ==> #[trigger] pair_connects(path, names, edges, j))
            ==> first_gap(path, names, edges, from) == Ok::<Option<int>, TrajectoryError>(None),
        first_gap(path, names, edges, from) matches Ok(Some(k)) ==> {
            &&& from <= k < path.len() - 1
            &&& resolve(names, edges.len() as int, path[k]) is Ok
            &&& resolve(names, edges.len() as int, path[k + 1]) is Ok
            &&& !pair_connects(path, names, edges, k)
            &&& forall|j: int| from <= j < k ==> #[trigger] pair_connects(path, names, edges, j)
        },
    decreases path.len() - from,
{
    if from + 1 < path.len() {
        lemma_first_gap_exact(path, names, edges, from + 1);
        if forall|j: int| from <= j < path.len() - 1 ==> #[trigger] pair_connects(path, names, edges, j) {
            assert(pair_connects(path, names, edges, from));
        }
        if let Ok(Some(k)) = first_gap(path, names, edges, from) {
            if k > from {
                assert(pair_connects(path, names, edges, from));
                assert forall|j: int| from <= j < k implies #[trigger] pair_connects(path, names, edges, j) by {
                    if j > from {
                    }
                }
            }
        }
    }
}

/// A trajectory whose consecutive edges all resolve and connect passes the
/// check, and a reported gap lies between two edges that do not connect.
pub proof fn lemma_check_accepts_connected<C>(path: Seq<i64>, names: Seq<Seq<char>>, edges: Seq<Edge<C>>)
    ensures
        (forall|j: int| 0 <= j < path.len() - 1 ==> #[trigger] pair_connects(path, names, edges, j))
            ==> first_gap(path, names, edges, 0) == Ok::<Option<int>, TrajectoryError>(None),
        first_gap(path, names, edges, 0) matches Ok(Some(k)) ==> {
            &&& 0 <= k < path.len() - 1
            &&& !pair_connects(path, names, edges, k)
            &&& forall|j: int| 0 <= j < k ==> #[trigger] pair_connects(path, names, edges, j)
        },
{
    lemma_first_gap_exact(path, names, edges, 0);
}

/// Checks that consecutive edges of the path connect: `Ok(None)` where they
/// all do, `Ok(Some(k))` for the first pair `k`, `k + 1` that does not. The
/// trajectory is valid exactly when the result is `Ok(None)`; the position
/// lets the caller name the two edges when it reports the gap. A name that
/// no edge carries gives an error, on which the program stops.
pub fn check_trajectory<C>(path: &MyVec<i64>, graph: &Graph<C>, edge_lookup: &NameIndex) -> (r:
    Result<Option<usize>, TrajectoryError>)
    requires
        edge_lookup.wf(),
    ensures
        match first_gap(path@, edge_lookup@, graph.spec_edges(), 0) {
            Ok(None) => r == Ok::<Option<usize>, TrajectoryError>(None),
            Ok(Some(k)) => r == Ok::<Option<usize>, TrajectoryError>(Some(k as usize)),
            Err(e) => r == Err::<Option<usize>, TrajectoryError>(e),
        },
{
    let n = path.0.len();
    if n == 0 {
        return Ok(None);
    }
    let mut k: usize = 0;
    while k < n - 1
        invariant
            n == path@.len(),
            n > 0,
            edge_lookup.wf(),
            first_gap(path@, edge_lookup@, graph.spec_edges(), 0) == first_gap(
                path@,
                edge_lookup@,
                graph.spec_edges(),
                k as int,
            ),
        decreases n - k,
    {
        let a = match resolve_edge(graph, edge_lookup, path.0[k]) {
            Ok(a) => a,
            Err(e) => {
                return Err(e);
            },
        };
        let b = match resolve_edge(graph, edge_lookup, path.0[k + 1]) {
            Ok(b) => b,
            Err(e) => {
                return Err(e);
            },
        };
        if graph.edge(a).target_id != graph.edge(b).source_id {
            return Ok(Some(k));
        }
        k = k + 1;
    }
    Ok(None)
}

/// The positions of the path's self-loops (edges that start where they
/// end), and the path without them; the first name that does not resolve
/// ends it.
pub open spec fn self_loop_split<C>(
    path: Seq<i64>,
    names: Seq<Seq<char>>,
    edges: Seq<Edge<C>>,
) -> Result<(Seq<u32>, Seq<i64>), TrajectoryError>
    decreases path.len(),
{
    if path.len() == 0 {
        Ok((Seq::empty(), Seq::empty()))
    } else {
        match self_loop_split(path.drop_last(), names, edges) {
            Err(e) => Err(e),
            Ok((loops, kept)) => match resolve(names, edges.len() as int, path.last()) {
                Err(e) => Err(e),
                Ok(i) => if edges[i].source_id != edges[i].target_id {
                    Ok((loops, kept.push(path.last())))
                } else {
                    Ok((loops.push((path.len() - 1) as u32), kept))
                },
            },
        }
    }
}

/// The edges of a path, resolved by name, in order.
pub open spec fn resolve_all(path: Seq<i64>, names: Seq<Seq<char>>, m: int) -> Result<
    Seq<u32>,
    TrajectoryError,
>
    decreases path.len(),
{
    if path.len() == 0 {
        Ok(Seq::empty())
    } else {
        match resolve_all(path.drop_last(), names, m) {
            Err(e) => Err(e),
            Ok(es) => match resolve(names, m, path.last()) {
                Err(e) => Err(e),
                Ok(i) => Ok(es.push(i as u32)),
            },
        }
    }
}

impl Trajectory {
    /// Removes the self-loops from the path and gives their positions; on
    /// an error the trajectory is left as it was.
    pub fn filter_out_self_loops<C>(&mut self, graph: &Graph<C>, edge_lookup: &NameIndex) -> (r:
        Result<MyVec<u32>, TrajectoryError>)
        requires
            edge_lookup.wf(),
        ensures
            final(self).trip_id == old(self).trip_id,
            final(self).vehicle_id == old(self).vehicle_id,
            match self_loop_split(old(self).path@, edge_lookup@, graph.spec_edges()) {
                Ok((loops, kept)) => r is Ok && r->Ok_0@ == loops && final(self).path@ == kept,
                Err(e) => r is Err && r->Err_0 == e && final(self).path@ == old(self).path@,
            },
    {
        let ghost es = graph.spec_edges();
        let n = self.path.0.len();
        let mut loops: Vec<u32> = Vec::new();
        let mut kept: Vec<i64> = Vec::new();
        let mut k: usize = 0;
        while k < n
            invariant
                n == self.path@.len(),
                k <= n,
                es == graph.spec_edges(),
                edge_lookup.wf(),
                self_loop_split(self.path@.take(k as int), edge_lookup@, es) == Ok::<
                    (Seq<u32>, Seq<i64>),
                    TrajectoryError,
                >((loops@, kept@)),
            decreases n - k,
        {
            let id = self.path.0[k];
            let ghost pre = self.path@.take(k + 1);
            assert(pre.drop_last() =~= self.path@.take(k as int));
            assert(pre.last() == id);
            let i = match resolve_edge(graph, edge_lookup, id) {
                Ok(i) => i,
                Err(e) => {
                    proof {
                        lemma_split_error_persists(self.path@, edge_lookup@, es, k + 1);
                    }
                    return Err(e);
                },
            };
            let e = graph.edge(i);
            if e.source_id != e.target_id {
                kept.push(id);
            } else {
                loops.push(k as u32);
            }
            k = k + 1;
        }
        assert(self.path@.take(n as int) =~= self.path@);
        self.path = MyVec(kept);
        Ok(MyVec(loops))
    }

    /// The route the trajectory takes: its edges, resolved by name, and its
    /// nodes (where the first edge starts, then where each edge ends).
    pub fn to_path<C>(&self, graph: &Graph<C>, edge_lookup: &NameIndex) -> (r: Result<
        (Vec<u32>, Vec<u32>),
        TrajectoryError,
    >)
        requires
            edge_lookup.wf(),
            self.path@.len() > 0,
            graph.spec_edges().len() <= u32::MAX,
        ensures
            match resolve_all(self.path@, edge_lookup@, graph.spec_edges().len() as int) {
                Ok(es) => r is Ok && r->Ok_0.1@ == es && r->Ok_0.0@ == seq![
                    graph.spec_edges()[es[0] as int].source_id,
                ] + es.map_values(|e: u32| graph.spec_edges()[e as int].target_id),
                Err(e) => r is Err && r->Err_0 == e,
            },
    {
        let ghost es = graph.spec_edges();
        let ghost m = es.len() as int;
        let n = self.path.0.len();
        let mut edges: Vec<u32> = Vec::new();
        let mut k: usize = 0;
        while k < n
            invariant
                n == self.path@.len(),
                k <= n,
                es == graph.spec_edges(),
                m == es.len(),
                m <= u32::MAX,
                edge_lookup.wf(),
                resolve_all(self.path@.take(k as int), edge_lookup@, m) == Ok::<
                    Seq<u32>,
                    TrajectoryError,
                >(edges@),
                forall|q: int| 0 <= q < edges@.len() ==> #[trigger] edges@[q] < m,
            decreases n - k,
        {
            let id = self.path.0[k];
            let ghost pre = self.path@.take(k + 1);
            assert(pre.drop_last() =~= self.path@.take(k as int));
            assert(pre.last() == id);
            let i = match resolve_edge(graph, edge_lookup, id) {
                Ok(i) => i,
                Err(e) => {
                    proof {
                        lemma_resolve_error_persists(self.path@, edge_lookup@, m, k + 1);
                    }
                    return Err(e);
                },
            };
            edges.push(i as u32);
            k = k + 1;
        }
        assert(self.path@.take(n as int) =~= self.path@);
        let mut nodes: Vec<u32> = Vec::new();
        nodes.push(graph.edge(edges[0] as usize).source_id);
        let mut q: usize = 0;
        while q < edges.len()
            invariant
                es == graph.spec_edges(),
                m == es.len(),
                edges@.len() > 0,
                q <= edges@.len(),
                forall|x: int| 0 <= x < edges@.len() ==> #[trigger] edges@[x] < m,
                nodes@ == seq![es[edges@[0] as int].source_id] + edges@.take(q as int).map_values(
                    |e: u32| es[e as int].target_id,
                ),
            decreases edges@.len() - q,
        {
            nodes.push(graph.edge(edges[q] as usize).target_id);
            assert(nodes@ =~= seq![es[edges@[0] as int].source_id] + edges@.take(q + 1).map_values(
                |e: u32| es[e as int].target_id,
            ));
            q = q + 1;
        }
        assert(edges@.take(q as int) =~= edges@);
        Ok((nodes, edges))
    }
}

proof fn lemma_split_error_persists<C>(
    path: Seq<i64>,
    names: Seq<Seq<char>>,
    edges: Seq<Edge<C>>,
    k: int,
)
    requires
        0 <= k <= path.len(),
        self_loop_split(path.take(k), names, edges) is Err,
    ensures
        self_loop_split(path, names, edges) == self_loop_split(path.take(k), names, edges),
    decreases path.len() - k,
{
    if k < path.len() {
        assert(path.take(k + 1).drop_last() =~= path.take(k));
        lemma_split_error_persists(path, names, edges, k + 1);
    } else {
        assert(path.take(k) =~= path);
    }
}

proof fn lemma_resolve_error_persists(path: Seq<i64>, names: Seq<Seq<char>>, m: int, k: int)
    requires
        0 <= k <= path.len(),
        resolve_all(path.take(k), names, m) is Err,
    ensures
        resolve_all(path, names, m) == resolve_all(path.take(k), names, m),
    decreases path.len() - k,
{
    if k < path.len() {
        assert(path.take(k + 1).drop_last() =~= path.take(k));
        lemma_resolve_error_persists(path, names, m, k + 1);
    } else {
        assert(path.take(k) =~= path);
    }
}

/// How many edges of `b` also occur in `a`, counted with repetition.
pub open spec fn shared_count(a: Seq<u32>, b: Seq<u32>) -> nat
    decreases b.len(),
{
    if b.len() == 0 {
        0
    } else {
        shared_count(a, b.drop_last()) + if a.contains(b.last()) {
            1nat
        } else {
            0
        }
    }
}

/// The shared count is the number of edges of `b`, with repeats, that `a`
/// contains: the length of `b` kept to the edges in `a`.
pub proof fn lemma_shared_count_is_filter(a: Seq<u32>, b: Seq<u32>)
    ensures
        shared_count(a, b) == b.filter(|x: u32| a.contains(x)).len(),
    decreases b.len(),
{
    reveal(Seq::filter);
    if b.len() > 0 {
        lemma_shared_count_is_filter(a, b.drop_last());
    }
}

/// The number of edges of the second path that the first path uses too;
/// the overlap of two paths is this over the larger edge count.
pub fn shared_edge_count(a: &MyVec<u32>, b: &MyVec<u32>) -> (r: usize)
    ensures
        r == shared_count(a@, b@),
{
    let mut set: HashSet<u32> = HashSet::new();
    let mut i: usize = 0;
    while i < a.0.len()
        invariant
            i <= a@.len(),
            forall|x: u32| set@.contains(x) <==> a@.take(i as int).contains(x),
        decreases a@.len() - i,
    {
        set.insert(a.0[i]);
        proof {
            assert forall|x: u32| set@.contains(x) <==> a@.take(i + 1).contains(x) by {
                if a@.take(i + 1).contains(x) {
                    let j = choose|j: int| 0 <= j < i + 1 && #[trigger] a@.take(i + 1)[j] == x;
                    if j < i {
                        assert(a@.take(i as int)[j] == x);
                    }
                }
                if a@.take(i as int).contains(x) {
                    let j = choose|j: int| 0 <= j < i && #[trigger] a@.take(i as int)[j] == x;
                    assert(a@.take(i + 1)[j] == x);
                }
                if x == a@[i as int] {
                    assert(a@.take(i + 1)[i as int] == x);
                }
            }
        }
        i = i + 1;
    }
    assert(a@.take(i as int) =~= a@);
    let mut count: usize = 0;
    let mut k: usize = 0;
    while k < b.0.len()
        invariant
            k <= b@.len(),
            count <= k,
            forall|x: u32| set@.contains(x) <==> a@.contains(x),
            count == shared_count(a@, b@.take(k as int)),
        decreases b@.len() - k,
    {
        let ghost pre = b@.take(k + 1);
        assert(pre.drop_last() =~= b@.take(k as int));
        assert(pre.last() == b@[k as int]);
        if set.contains(&b.0[k]) {
            count = count + 1;
        }
        k = k + 1;
    }
    assert(b@.take(k as int) =~= b@);
    count
}

/// A number written in decimal reads back as itself: an edge id that a
/// trajectory names is the number its name parses to.
pub proof fn lemma_decimal_round_trip(n: nat, max: int)
    requires
        n <= max,
    ensures
        parse_unsigned(natural_text(n), max) == Some(n as int),
{
    lemma_natural_text_digits(n);
    assert(unsigned_digits(natural_text(n)) == natural_text(n)) by {
        assert(is_digit(natural_text(n)[0]));
    }
}

proof fn lemma_natural_text_digits(n: nat)
    ensures
        natural_text(n).len() > 0,
        all_digits(natural_text(n)),
        digits_value(natural_text(n)) == n,
    decreases n,
{
    if n >= 10 {
        lemma_natural_text_digits(n / 10);
        let t = natural_text(n);
        let d = (n % 10) as int;
        assert(t.drop_last() =~= natural_text(n / 10));
        assert(t.last() == digit_char(d));
        assert(digit_char(d) as int == '0' as int + d);
        assert(n == (n / 10) * 10 + d);
        assert forall|i: int| 0 <= i < t.len() implies is_digit(#[trigger] t[i]) by {
            if i < t.len() - 1 {
                assert(t[i] == natural_text(n / 10)[i]);
            }
        }
        assert(digits_value(t) == digits_value(t.drop_last()) * 10 + (t.last() as int - '0' as int));
        assert(digits_value(t) == n);
    } else {
        let t = natural_text(n);
        assert(digit_char(n as int) as int == '0' as int + n);
        assert(t.drop_last() =~= Seq::<char>::empty());
        assert(digits_value(t.drop_last()) == 0);
        assert(t.last() == digit_char(n as int));
        assert(digits_value(t) == digits_value(t.drop_last()) * 10 + (t.last() as int - '0' as int));
        assert(digits_value(t) == n);
    }
}

/// Removing the self-loops splits the path: every position is either a
/// self-loop position or kept, in order; no kept edge is a self-loop; and
/// removing the self-loops again removes nothing.
pub proof fn lemma_self_loops_partition<C>(
    path: Seq<i64>,
    names: Seq<Seq<char>>,
    edges: Seq<Edge<C>>,
)
    requires
        self_loop_split(path, names, edges) is Ok,
        path.len() <= u32::MAX + 1,
    ensures
        ({
            let (loops, kept) = self_loop_split(path, names, edges)->Ok_0;
            &&& loops.len() + kept.len() == path.len()
            &&& forall|k: int| 0 <= k < loops.len() ==> #[trigger] loops[k] < path.len()
            &&& forall|a: int, b: int| 0 <= a < b < loops.len() ==> loops[a] < loops[b]
            &&& forall|k: int|
                0 <= k < kept.len() ==> {
                    let i = resolve(names, edges.len() as int, #[trigger] kept[k])->Ok_0;
                    &&& resolve(names, edges.len() as int, kept[k]) is Ok
                    &&& edges[i].source_id != edges[i].target_id
                }
            &&& self_loop_split(kept, names, edges) == Ok::<(Seq<u32>, Seq<i64>), TrajectoryError>(
                (Seq::empty(), kept),
            )
        }),
    decreases path.len(),
{
    if path.len() > 0 {
        let init = path.drop_last();
        lemma_self_loops_partition(init, names, edges);
        let (loops0, kept0) = self_loop_split(init, names, edges)->Ok_0;
        let (loops, kept) = self_loop_split(path, names, edges)->Ok_0;
        let i = resolve(names, edges.len() as int, path.last())->Ok_0;
        if edges[i].source_id != edges[i].target_id {
            assert(kept == kept0.push(path.last()));
            assert(kept.drop_last() =~= kept0);
            assert forall|k: int| 0 <= k < kept.len() implies {
                let j = resolve(names, edges.len() as int, #[trigger] kept[k])->Ok_0;
                &&& resolve(names, edges.len() as int, kept[k]) is Ok
                &&& edges[j].source_id != edges[j].target_id
            } by {
                if k < kept0.len() {
                    assert(kept[k] == kept0[k]);
                }
            }
        } else {
            assert(loops == loops0.push((path.len() - 1) as u32));
        }
    } else {
        assert(self_loop_split(Seq::<i64>::empty(), names, edges) == Ok::<
            (Seq<u32>, Seq<i64>),
            TrajectoryError,
        >((Seq::empty(), Seq::empty())));
    }
}

/// A path shares all its edges with itself, and never more edges with
/// another path than it has: the overlap of identical paths is one and an
/// overlap is at most one.
pub proof fn lemma_shared_count_bounds(a: Seq<u32>, b: Seq<u32>)
    ensures
        shared_count(a, b) <= b.len(),
        shared_count(b, b) == b.len(),
        (forall|k: int| 0 <= k < b.len() ==> !a.contains(#[trigger] b[k])) ==> shared_count(a, b)
            == 0,
    decreases b.len(),
{
    if b.len() > 0 {
        let init = b.drop_last();
        lemma_shared_count_bounds(a, init);
        lemma_shared_count_prefix(b, init);
        assert(b.contains(b.last())) by {
            assert(b[b.len() - 1] == b.last());
        }
        if forall|k: int| 0 <= k < b.len() ==> !a.contains(#[trigger] b[k]) {
            assert forall|k: int| 0 <= k < init.len() implies !a.contains(#[trigger] init[k]) by {
                assert(init[k] == b[k]);
            }
            assert(!a.contains(b[b.len() - 1]));
        }
    }
}

/// Counting the edges of a prefix of `b` that `b` holds counts them all.
proof fn lemma_shared_count_prefix(b: Seq<u32>, p: Seq<u32>)
    requires
        p.len() <= b.len(),
        forall|k: int| 0 <= k < p.len() ==> p[k] == b[k],
    ensures
        shared_count(b, p) == p.len(),
    decreases p.len(),
{
    if p.len() > 0 {
        lemma_shared_count_prefix(b, p.drop_last());
        assert(b[p.len() - 1] == p.last());
    }
}

/// Resolving a whole path resolves each name on its own.
proof fn lemma_resolve_all_each(path: Seq<i64>, names: Seq<Seq<char>>, m: int)
    requires
        resolve_all(path, names, m) is Ok,
        m <= u32::MAX + 1,
    ensures
        resolve_all(path, names, m)->Ok_0.len() == path.len(),
        forall|k: int|
            0 <= k < path.len() ==> #[trigger] resolve(names, m, path[k]) is Ok && resolve(
                names,
                m,
                path[k],
            )->Ok_0 == resolve_all(path, names, m)->Ok_0[k] as int,
    decreases path.len(),
{
    if path.len() > 0 {
        let init = path.drop_last();
        lemma_resolve_all_each(init, names, m);
        lemma_last_index_of(names, decimal_text(path.last() as int));
        assert forall|k: int| 0 <= k < path.len() implies #[trigger] resolve(names, m, path[k]) is Ok
            && resolve(names, m, path[k])->Ok_0 == resolve_all(path, names, m)->Ok_0[k] as int by {
            if k < init.len() {
                assert(path[k] == init[k]);
            }
        }
    }
}

/// Where the check finds no gap from `from` on, each edge from there on
/// ends where the next one starts.
proof fn lemma_no_gap_connects<C>(
    path: Seq<i64>,
    names: Seq<Seq<char>>,
    edges: Seq<Edge<C>>,
    from: int,
)
    requires
        0 <= from,
        first_gap(path, names, edges, from) == Ok::<Option<int>, TrajectoryError>(None),
    ensures
        forall|k: int|
            from <= k && k + 1 < path.len() ==> {
                let a = resolve(names, edges.len() as int, #[trigger] path[k])->Ok_0;
                let b = resolve(names, edges.len() as int, path[k + 1])->Ok_0;
                edges[a].target_id == edges[b].source_id
            },
    decreases path.len() - from,
{
    if from + 1 < path.len() {
        lemma_no_gap_connects(path, names, edges, from + 1);
    }
}

/// A trajectory that passes the check becomes a connected route: each of
/// its edges starts at the node before it and ends at the node after it.
pub proof fn lemma_checked_route_connected<C>(
    path: Seq<i64>,
    names: Seq<Seq<char>>,
    edges: Seq<Edge<C>>,
)
    requires
        first_gap(path, names, edges, 0) == Ok::<Option<int>, TrajectoryError>(None),
        resolve_all(path, names, edges.len() as int) is Ok,
        path.len() > 0,
        edges.len() <= u32::MAX,
    ensures
        ({
            let es = resolve_all(path, names, edges.len() as int)->Ok_0;
            let nodes = seq![edges[es[0] as int].source_id] + es.map_values(
                |e: u32| edges[e as int].target_id,
            );
            &&& nodes.len() == es.len() + 1
            &&& forall|k: int|
                0 <= k < es.len() ==> edges[#[trigger] es[k] as int].source_id == nodes[k]
                    && edges[es[k] as int].target_id == nodes[k + 1]
        }),
{
    let m = edges.len() as int;
    lemma_resolve_all_each(path, names, m);
    lemma_no_gap_connects(path, names, edges, 0);
    let es = resolve_all(path, names, m)->Ok_0;
    let nodes = seq![edges[es[0] as int].source_id] + es.map_values(
        |e: u32| edges[e as int].target_id,
    );
    assert forall|k: int| 0 <= k < es.len() implies edges[#[trigger] es[k] as int].source_id
        == nodes[k] && edges[es[k] as int].target_id == nodes[k + 1] by {
        assert(resolve(names, m, path[k]) is Ok);
        if k > 0 {
            assert(resolve(names, m, path[k - 1]) is Ok);
            assert(nodes[k] == edges[es[k - 1] as int].target_id);
        }
    }
}

} // verus!

verus! {

/// The road edge that a walk along the edge `e` takes first, where `e`
/// expands within as many levels as there are edges and its first road edge
/// is an edge of the graph.
pub open spec fn first_road_edge<C>(edges: Seq<Edge<C>>, e: u32) -> Option<u32> {
    if unpack_within(edges, e, edges.len() as nat) is Some && unpacked(edges, e).len() > 0
        && unpacked(edges, e)[0] < edges.len() {
        Some(unpacked(edges, e)[0])
    } else {
        None
    }
}

/// Where every shortcut replaces a route from its source to its target, the
/// road edge a walk takes along the edge `e` is a road edge that leaves
/// where `e` leaves.
pub proof fn lemma_first_road_edge_leaves_with_the_edge<C>(edges: Seq<Edge<C>>, e: u32)
    requires
        shortcuts_fit(edges),
        first_road_edge(edges, e) is Some,
    ensures
        ({
            let u = first_road_edge(edges, e)->Some_0;
            &&& u < edges.len()
            &&& edges[u as int].replaced_edges is None
            &&& edges[u as int].source_id == edges[e as int].source_id
        }),
{
    let d = edges.len() as nat;
    lemma_unpack_unique(edges, e, d);
    lemma_unpacked_is_walk(edges, e);
    lemma_unpack_yields_road_edges(edges, e, d);
    assert(unpack_within(edges, e, d).unwrap()[0] == unpacked(edges, e)[0]);
}

/// A random walk from a source node towards a target node, one road edge at
/// a time: at each node the caller finds a route to the target under a
/// preference drawn at random, and the walk follows the first road edge of
/// that route's first edge.
pub struct RandomWalk {
    position: u32,
    target: u32,
    path: Vec<u32>,
}

impl RandomWalk {
    /// The node the walk has reached.
    pub closed spec fn spec_position(&self) -> u32 {
        self.position
    }

    pub closed spec fn spec_target(&self) -> u32 {
        self.target
    }

    /// The road edges walked so far, in order.
    pub closed spec fn spec_path(&self) -> Seq<u32> {
        self.path@
    }

    /// Starts a walk at `source` towards `target`.
    pub fn new(source: u32, target: u32) -> (w: RandomWalk)
        ensures
            w.spec_position() == source,
            w.spec_target() == target,
            w.spec_path() == Seq::<u32>::empty(),
    {
        RandomWalk { position: source, target, path: Vec::new() }
    }

    /// The node the walk has reached.
    pub fn position(&self) -> (p: u32)
        ensures
            p == self.spec_position(),
    {
        self.position
    }

    /// Whether the walk has reached its target.
    pub fn arrived(&self) -> (b: bool)
        ensures
            b == (self.spec_position() == self.spec_target()),
    {
        self.position == self.target
    }

    /// Follows the first road edge of the edge `first_edge`, the first edge
    /// of a route from the current node: the walk records that road edge
    /// and moves to its target. Where `first_edge` does not expand into
    /// road edges of the graph, nothing changes and the result is `false`.
    pub fn step<C>(&mut self, graph: &Graph<C>, first_edge: u32) -> (moved: bool)
        ensures
            moved == first_road_edge(graph.spec_edges(), first_edge) is Some,
            moved ==> {
                let u = first_road_edge(graph.spec_edges(), first_edge)->Some_0;
                &&& final(self).spec_path() == old(self).spec_path().push(u)
                &&& final(self).spec_position() == graph.spec_edges()[u as int].target_id
                &&& final(self).spec_target() == old(self).spec_target()
            },
            !moved ==> *final(self) == *old(self),
    {
        match graph.try_unpack_edge(first_edge) {
            None => false,
            Some(unpacked) => {
                if unpacked.len() == 0 || unpacked[0] as usize >= graph.edge_count() {
                    return false;
                }
                let u = unpacked[0];
                self.position = graph.edge(u as usize).target_id;
                self.path.push(u);
                true
            },
        }
    }

    /// The trajectory of the walk: the road edges walked, by their
    /// positions as names, for the unknown vehicle `-1` and the trip
    /// `[(None, 0)]`.
    pub fn into_trajectory(self) -> (t: Trajectory)
        ensures
            t.trip_id@ == seq![(None::<u32>, 0u32)],
            t.vehicle_id == -1,
            t.path@.len() == self.spec_path().len(),
            forall|k: int| 0 <= k < t.path@.len() ==> #[trigger] t.path@[k] == self.spec_path()[k] as i64,
    {
        let mut path: Vec<i64> = Vec::new();
        let mut i: usize = 0;
        while i < self.path.len()
            invariant
                i <= self.path@.len(),
                path@.len() == i,
                forall|k: int| 0 <= k < i ==> #[trigger] path@[k] == self.path@[k] as i64,
            decreases self.path@.len() - i,
        {
            path.push(self.path[i] as i64);
            i = i + 1;
        }
        let mut trip_id: Vec<(Option<u32>, u32)> = Vec::new();
        trip_id.push((None, 0));
        Trajectory { trip_id, vehicle_id: -1, path: MyVec(path) }
    }
}

} // verus!
