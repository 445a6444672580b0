use vstd::prelude::*;

verus! {

/// A window of a path, given by node indices into the path.
#[derive(Debug, Clone, Copy, PartialEq, Eq, Structural)]
pub struct SubPath {
    /// Index of the path where the SubPath starts
    pub start_index: u32,
    /// Index of the path where the SubPath ends
    pub end_index: u32,
}

/// The decisions of the trajectory analysis: which windows of a path are
/// examined, and how their answers are combined.
pub struct TrajectoryAnalysis {}

/// Sweeps `tmp` over the windows `subpaths[j..]`: every later window that
/// starts before `tmp` ends pulls the start of `tmp` forward to its own start
/// and moves the last decomposition point to `tmp.end_index - 1`.
pub open spec fn absorb_following(
    subpaths: Seq<SubPath>,
    tmp: SubPath,
    last: u32,
    j: int,
) -> (SubPath, u32)
    decreases subpaths.len() - j,
{
    if j < 0 || j >= subpaths.len() {
        (tmp, last)
    } else if tmp.end_index > subpaths[j].start_index {
        absorb_following(
            subpaths,
            SubPath { start_index: subpaths[j].start_index, end_index: tmp.end_index },
            (tmp.end_index - 1) as u32,
            j + 1,
        )
    } else {
        absorb_following(subpaths, tmp, last, j + 1)
    }
}

/// The intersected windows that `subpaths[i..]` contributes, when the last
/// decomposition point so far is `last`: a window that strictly contains the
/// decomposition point is dropped, every other one is narrowed by the windows
/// that follow it.
pub open spec fn intersected_from(subpaths: Seq<SubPath>, i: int, last: u32) -> Seq<SubPath>
    decreases subpaths.len() - i,
{
    if i < 0 || i >= subpaths.len() {
        Seq::empty()
    } else if subpaths[i].start_index < last && last < subpaths[i].end_index {
        intersected_from(subpaths, i + 1, last)
    } else {
        let (t, l) = absorb_following(subpaths, subpaths[i], last, i + 1);
        seq![t].add(intersected_from(subpaths, i + 1, l))
    }
}

/// The windows that intersecting `subpaths` gives.
pub open spec fn intersected(subpaths: Seq<SubPath>) -> Seq<SubPath> {
    intersected_from(subpaths, 0, 0)
}

/// A window that spans at least one edge.
pub open spec fn is_proper(s: SubPath) -> bool {
    s.start_index < s.end_index
}

/// Each window ends no later than every later window starts.
pub open spec fn pairwise_disjoint(subpaths: Seq<SubPath>) -> bool {
    forall|i: int, j: int|
        0 <= i < j < subpaths.len() ==> #[trigger] subpaths[i].end_index
            <= #[trigger] subpaths[j].start_index
}

proof fn absorb_keeps_proper(subpaths: Seq<SubPath>, tmp: SubPath, last: u32, j: int)
    requires
        is_proper(tmp),
    ensures
        is_proper(absorb_following(subpaths, tmp, last, j).0),
    decreases subpaths.len() - j,
{
    if 0 <= j < subpaths.len() {
        if tmp.end_index > subpaths[j].start_index {
            absorb_keeps_proper(
                subpaths,
                SubPath { start_index: subpaths[j].start_index, end_index: tmp.end_index },
                (tmp.end_index - 1) as u32,
                j + 1,
            );
        } else {
            absorb_keeps_proper(subpaths, tmp, last, j + 1);
        }
    }
}

proof fn intersected_from_facts(subpaths: Seq<SubPath>, i: int, last: u32)
    requires
        0 <= i,
    ensures
        intersected_from(subpaths, i, last).len() <= if i <= subpaths.len() {
            subpaths.len() - i
        } else {
            0
        },
        (forall|k: int| i <= k < subpaths.len() ==> is_proper(#[trigger] subpaths[k])) ==> (
        forall|k: int|
            0 <= k < intersected_from(subpaths, i, last).len() ==> is_proper(
                #[trigger] intersected_from(subpaths, i, last)[k],
            )),
    decreases subpaths.len() - i,
{
    if i < subpaths.len() {
        if subpaths[i].start_index < last && last < subpaths[i].end_index {
            intersected_from_facts(subpaths, i + 1, last);
        } else {
            let (t, l) = absorb_following(subpaths, subpaths[i], last, i + 1);
            intersected_from_facts(subpaths, i + 1, l);
            if forall|k: int| i <= k < subpaths.len() ==> is_proper(#[trigger] subpaths[k]) {
                absorb_keeps_proper(subpaths, subpaths[i], last, i + 1);
                let r = intersected_from(subpaths, i, last);
                assert forall|k: int| 0 <= k < r.len() implies is_proper(#[trigger] r[k]) by {
                    if k > 0 {
                        assert(r[k] == intersected_from(subpaths, i + 1, l)[k - 1]);
                    }
                }
            }
        }
    }
}

/// Intersecting never produces more windows than it is given.
pub proof fn lemma_intersect_no_more_windows(subpaths: Seq<SubPath>)
    ensures
        intersected(subpaths).len() <= subpaths.len(),
{
    intersected_from_facts(subpaths, 0, 0);
}

/// Intersecting windows that each span at least one edge gives windows that
/// each span at least one edge.
pub proof fn lemma_intersect_keeps_proper(subpaths: Seq<SubPath>)
    requires
        forall|k: int| 0 <= k < subpaths.len() ==> is_proper(#[trigger] subpaths[k]),
    ensures
        forall|k: int|
            0 <= k < intersected(subpaths).len() ==> is_proper(#[trigger] intersected(subpaths)[k]),
{
    intersected_from_facts(subpaths, 0, 0);
}

proof fn absorb_disjoint_is_identity(subpaths: Seq<SubPath>, i: int, last: u32, j: int)
    requires
        pairwise_disjoint(subpaths),
        0 <= i < subpaths.len(),
        i < j,
    ensures
        absorb_following(subpaths, subpaths[i], last, j) == (subpaths[i], last),
    decreases subpaths.len() - j,
{
    if j < subpaths.len() {
        assert(subpaths[i].end_index <= subpaths[j].start_index);
        absorb_disjoint_is_identity(subpaths, i, last, j + 1);
    }
}

proof fn intersected_disjoint_from(subpaths: Seq<SubPath>, i: int)
    requires
        pairwise_disjoint(subpaths),
        0 <= i <= subpaths.len(),
    ensures
        intersected_from(subpaths, i, 0) == subpaths.subrange(i, subpaths.len() as int),
    decreases subpaths.len() - i,
{
    if i < subpaths.len() {
        absorb_disjoint_is_identity(subpaths, i, 0, i + 1);
        intersected_disjoint_from(subpaths, i + 1);
        assert(seq![subpaths[i]].add(subpaths.subrange(i + 1, subpaths.len() as int))
            =~= subpaths.subrange(i, subpaths.len() as int));
    } else {
        assert(subpaths.subrange(i, subpaths.len() as int) =~= Seq::<SubPath>::empty());
    }
}

/// Windows that do not overlap pass through intersecting unchanged.
pub proof fn lemma_intersect_disjoint_unchanged(subpaths: Seq<SubPath>)
    requires
        pairwise_disjoint(subpaths),
    ensures
        intersected(subpaths) == subpaths,
{
    intersected_disjoint_from(subpaths, 0);
    assert(subpaths.subrange(0, subpaths.len() as int) =~= subpaths);
}

/// The windows' starts and their ends never decrease, as the all-windows
/// search finds them (there they even strictly increase).
pub open spec fn ordered_windows(subpaths: Seq<SubPath>) -> bool {
    forall|i: int, j: int|
        0 <= i < j < subpaths.len() ==> #[trigger] subpaths[i].start_index
            <= #[trigger] subpaths[j].start_index && subpaths[i].end_index <= subpaths[j].end_index
}

/// `w` is the window `subpaths[i]` cut down by the run of windows after it
/// that start before it ends, the last of them `subpaths[k]`: it is the
/// intersection of `subpaths[i..=k]` when starts and ends increase.
pub open spec fn cut_by_run(subpaths: Seq<SubPath>, w: SubPath, i: int, k: int) -> bool {
    &&& 0 <= i <= k < subpaths.len()
    &&& w == SubPath { start_index: subpaths[k].start_index, end_index: subpaths[i].end_index }
    &&& forall|x: int| i <= x <= k ==> #[trigger] subpaths[x].start_index < subpaths[i].end_index
    &&& forall|x: int|
        k < x < subpaths.len() ==> #[trigger] subpaths[x].start_index >= subpaths[i].end_index
}

/// Some window of `ws` lies inside `w`.
pub open spec fn contains_one_of(ws: Seq<SubPath>, w: SubPath) -> bool {
    exists|a: int|
        0 <= a < ws.len() && w.start_index <= (#[trigger] ws[a]).start_index && ws[a].end_index
            <= w.end_index
}

/// `w` is some window `subpaths[p]`, with `p` at least `from`, cut down by
/// its run.
pub open spec fn cut_from(subpaths: Seq<SubPath>, w: SubPath, from: int) -> bool {
    exists|p: int, k: int| from <= p && #[trigger] cut_by_run(subpaths, w, p, k)
}

/// `r`, what sweeping the window `subpaths[i]` over the windows after it
/// gives with the decomposition point `last`, is `subpaths[i]` cut down by
/// its run, which reaches at least `subpaths[from]`; the point moves to one
/// node before the window's end exactly when the run is longer than the
/// window itself.
pub open spec fn cut_by_some_run(
    subpaths: Seq<SubPath>,
    r: (SubPath, u32),
    i: int,
    from: int,
    last: u32,
) -> bool {
    exists|k: int|
        from <= k && #[trigger] cut_by_run(subpaths, r.0, i, k) && (k > i ==> r.1
            == subpaths[i].end_index - 1) && (k == i ==> r.1 == last)
}

/// Sweeping the window `subpaths[i]`, already cut down by the run up to
/// `subpaths[k]`, over the windows from `j` on cuts it down by its whole run.
proof fn absorb_cuts_by_run(
    subpaths: Seq<SubPath>,
    i: int,
    k: int,
    last: u32,
    j: int,
)
    requires
        ordered_windows(subpaths),
        is_proper(subpaths[i]),
        0 <= i <= k < j <= subpaths.len(),
        subpaths[k].start_index < subpaths[i].end_index,
        forall|x: int|
            k < x < j ==> #[trigger] subpaths[x].start_index >= subpaths[i].end_index,
        k > i ==> last == subpaths[i].end_index - 1,
    ensures
        cut_by_some_run(
            subpaths,
            absorb_following(
                subpaths,
                SubPath { start_index: subpaths[k].start_index, end_index: subpaths[i].end_index },
                last,
                j,
            ),
            i,
            k,
            last,
        ),
    decreases subpaths.len() - j,
{
    let e = subpaths[i].end_index;
    let t = SubPath { start_index: subpaths[k].start_index, end_index: e };
    if j >= subpaths.len() {
        assert forall|x: int| i <= x <= k implies #[trigger] subpaths[x].start_index < e by {
            if x < k {
                assert(subpaths[x].start_index <= subpaths[k].start_index);
            }
        }
        assert(absorb_following(subpaths, t, last, j) == (t, last));
        assert(cut_by_run(subpaths, (t, last).0, i, k));
    } else if t.end_index > subpaths[j].start_index {
        let t2 = SubPath { start_index: subpaths[j].start_index, end_index: e };
        assert(absorb_following(subpaths, t, last, j) == absorb_following(
            subpaths,
            t2,
            (e - 1) as u32,
            j + 1,
        ));
        absorb_cuts_by_run(subpaths, i, j, (e - 1) as u32, j + 1);
        assert(cut_by_some_run(subpaths, absorb_following(subpaths, t, last, j), i, k, last));
    } else {
        assert(absorb_following(subpaths, t, last, j) == absorb_following(subpaths, t, last, j + 1));
        absorb_cuts_by_run(subpaths, i, k, last, j + 1);
        assert(cut_by_some_run(subpaths, absorb_following(subpaths, t, last, j), i, k, last));
    }
}

/// The sweep of the kept window `subpaths[i]`, with the run it was cut
/// down by.
proof fn kept_window_run(subpaths: Seq<SubPath>, i: int, last: u32) -> (k: int)
    requires
        ordered_windows(subpaths),
        forall|x: int| 0 <= x < subpaths.len() ==> is_proper(#[trigger] subpaths[x]),
        0 <= i < subpaths.len(),
    ensures
        ({
            let r = absorb_following(subpaths, subpaths[i], last, i + 1);
            &&& cut_by_run(subpaths, r.0, i, k)
            &&& k > i ==> r.1 == subpaths[i].end_index - 1
            &&& k == i ==> r.1 == last
        }),
{
    absorb_cuts_by_run(subpaths, i, i, last, i + 1);
    assert(SubPath { start_index: subpaths[i].start_index, end_index: subpaths[i].end_index }
        == subpaths[i]);
    let r = absorb_following(subpaths, subpaths[i], last, i + 1);
    choose|k2: int|
        i <= k2 && #[trigger] cut_by_run(subpaths, r.0, i, k2) && (k2 > i ==> r.1
            == subpaths[i].end_index - 1) && (k2 == i ==> r.1 == last)
}

/// Every window that intersecting gives from `subpaths[i..]` on is a window
/// from there cut down by its run.
proof fn intersected_from_runs(subpaths: Seq<SubPath>, i: int, last: u32)
    requires
        ordered_windows(subpaths),
        forall|x: int| 0 <= x < subpaths.len() ==> is_proper(#[trigger] subpaths[x]),
        0 <= i <= subpaths.len(),
    ensures
        forall|a: int|
            0 <= a < intersected_from(subpaths, i, last).len() ==> cut_from(
                subpaths,
                #[trigger] intersected_from(subpaths, i, last)[a],
                i,
            ),
    decreases subpaths.len() - i,
{
    if i < subpaths.len() {
        let s = subpaths[i];
        let all = intersected_from(subpaths, i, last);
        if s.start_index < last && last < s.end_index {
            intersected_from_runs(subpaths, i + 1, last);
            let rest = intersected_from(subpaths, i + 1, last);
            assert(all == rest);
            assert forall|a: int| 0 <= a < all.len() implies cut_from(subpaths, #[trigger] all[a], i) by {
                assert(all[a] == rest[a]);
                assert(cut_from(subpaths, rest[a], i + 1));
                let (p, k3) = choose|p: int, k3: int|
                    i + 1 <= p && #[trigger] cut_by_run(subpaths, rest[a], p, k3);
                assert(cut_by_run(subpaths, all[a], p, k3));
            }
        } else {
            let k = kept_window_run(subpaths, i, last);
            let r = absorb_following(subpaths, s, last, i + 1);
            intersected_from_runs(subpaths, i + 1, r.1);
            let rest = intersected_from(subpaths, i + 1, r.1);
            assert(all == seq![r.0].add(rest));
            assert forall|a: int| 0 <= a < all.len() implies cut_from(subpaths, #[trigger] all[a], i) by {
                if a == 0 {
                    assert(all[a] == r.0);
                    assert(cut_by_run(subpaths, all[a], i, k));
                } else {
                    assert(all[a] == rest[a - 1]);
                    assert(cut_from(subpaths, rest[a - 1], i + 1));
                    let (p, k3) = choose|p: int, k3: int|
                        i + 1 <= p && #[trigger] cut_by_run(subpaths, rest[a - 1], p, k3);
                    assert(cut_by_run(subpaths, all[a], p, k3));
                }
            }
        }
    }
}

/// Every window from `subpaths[i..]` on contains a window that intersecting
/// gives from there, unless it strictly contains the decomposition point
/// `last`.
proof fn intersected_from_covers(subpaths: Seq<SubPath>, i: int, last: u32)
    requires
        ordered_windows(subpaths),
        forall|x: int| 0 <= x < subpaths.len() ==> is_proper(#[trigger] subpaths[x]),
        0 <= i <= subpaths.len(),
    ensures
        forall|j: int|
            i <= j < subpaths.len() ==> contains_one_of(
                intersected_from(subpaths, i, last),
                #[trigger] subpaths[j],
            ) || (subpaths[j].start_index < last && last < subpaths[j].end_index),
    decreases subpaths.len() - i,
{
    if i < subpaths.len() {
        let s = subpaths[i];
        let all = intersected_from(subpaths, i, last);
        if s.start_index < last && last < s.end_index {
            intersected_from_covers(subpaths, i + 1, last);
            assert(all == intersected_from(subpaths, i + 1, last));
        } else {
            let k = kept_window_run(subpaths, i, last);
            let r = absorb_following(subpaths, s, last, i + 1);
            let (t, l) = r;
            intersected_from_covers(subpaths, i + 1, l);
            let rest = intersected_from(subpaths, i + 1, l);
            assert(all == seq![t].add(rest));
            assert(all[0] == t);
            assert forall|j: int| i <= j < subpaths.len() implies contains_one_of(
                all,
                #[trigger] subpaths[j],
            ) || (subpaths[j].start_index < last && last < subpaths[j].end_index) by {
                if j == i {
                    if k > i {
                        assert(subpaths[i].start_index <= subpaths[k].start_index);
                    }
                    assert(subpaths[j].start_index <= all[0].start_index);
                } else if contains_one_of(rest, subpaths[j]) {
                    let a = choose|a: int|
                        0 <= a < rest.len() && subpaths[j].start_index <= (
                        #[trigger] rest[a]).start_index && rest[a].end_index
                            <= subpaths[j].end_index;
                    assert(all[a + 1] == rest[a]);
                } else if l != last {
                    assert(k > i);
                    assert(subpaths[j].start_index < subpaths[i].end_index);
                    if j > k {
                        assert(subpaths[j].start_index >= subpaths[i].end_index);
                    }
                    if j < k {
                        assert(subpaths[j].start_index <= subpaths[k].start_index);
                    }
                    assert(subpaths[i].end_index <= subpaths[j].end_index);
                    assert(subpaths[j].start_index <= all[0].start_index);
                }
            }
        }
    }
}

/// For windows whose starts and ends never decrease (as the all-windows
/// search yields them), intersecting gives windows each of
/// which is a window `subpaths[i]` cut down by the run of windows after it
/// that start before it ends (their intersection), and every window given
/// contains one of the windows that intersecting gives.
pub proof fn lemma_intersect_runs(subpaths: Seq<SubPath>)
    requires
        ordered_windows(subpaths),
        forall|x: int| 0 <= x < subpaths.len() ==> is_proper(#[trigger] subpaths[x]),
    ensures
        forall|a: int|
            0 <= a < intersected(subpaths).len() ==> cut_from(
                subpaths,
                #[trigger] intersected(subpaths)[a],
                0,
            ),
        forall|j: int|
            0 <= j < subpaths.len() ==> contains_one_of(
                intersected(subpaths),
                #[trigger] subpaths[j],
            ),
{
    intersected_from_runs(subpaths, 0, 0);
    intersected_from_covers(subpaths, 0, 0);
}

/// Where the `i`-th stretch between the windows `ws` starts: at the path's
/// first node, or one node after the end of the window before.
pub open spec fn stretch_start(ws: Seq<SubPath>, i: int) -> int {
    if i == 0 {
        0
    } else {
        ws[i - 1].end_index + 1
    }
}

/// Where the `i`-th stretch between the windows `ws` stops: at the start of
/// the `i`-th window; past the last window, at the last window's start
/// again, or at `path_length` where there is no window.
pub open spec fn stretch_stop(ws: Seq<SubPath>, path_length: u32, i: int) -> int {
    if i < ws.len() {
        ws[i].start_index as int
    } else if ws.len() == 0 {
        path_length as int
    } else {
        ws[ws.len() - 1].start_index as int
    }
}

/// The length of the `i`-th stretch, or zero where it ends before it starts.
pub open spec fn stretch_length(ws: Seq<SubPath>, path_length: u32, i: int) -> int {
    if stretch_start(ws, i) <= stretch_stop(ws, path_length, i) {
        stretch_stop(ws, path_length, i) - stretch_start(ws, i)
    } else {
        0
    }
}

/// The `k`-th stretch is the first of greatest length among the stretches
/// `0..=ws.len()`, and that length is positive.
pub open spec fn is_longest_stretch(ws: Seq<SubPath>, path_length: u32, k: int) -> bool {
    &&& 0 <= k <= ws.len()
    &&& stretch_length(ws, path_length, k) > 0
    &&& forall|j: int|
        0 <= j < k ==> #[trigger] stretch_length(ws, path_length, j) < stretch_length(
            ws,
            path_length,
            k,
        )
    &&& forall|j: int|
        k < j <= ws.len() ==> #[trigger] stretch_length(ws, path_length, j) <= stretch_length(
            ws,
            path_length,
            k,
        )
}

/// The longest stretch of the path between the non-optimal windows `ws`
/// (given in order), as the first and last node of it: the stretches run
/// from the path's start to the first window's start and from one node
/// after each window's end to the next window's start; `(0, 0)` where
/// none has positive length. As the search for it has always done, the
/// stretch after the last window is measured to that window's start, so
/// it never wins, and a path without windows is one stretch to
/// `path_length`.
pub fn longest_optimal_stretch(ws: &Vec<SubPath>, path_length: u32) -> (r: (u32, u32))
    requires
        forall|i: int| 0 <= i < ws.len() ==> #[trigger] ws[i].end_index < u32::MAX,
    ensures
        (forall|i: int| 0 <= i <= ws.len() ==> #[trigger] stretch_length(ws@, path_length, i) == 0)
            ==> r == (0u32, 0u32),
        forall|k: int|
            #[trigger] is_longest_stretch(ws@, path_length, k) ==> r.0 == stretch_start(ws@, k)
                && r.1 == stretch_stop(ws@, path_length, k),
        (exists|i: int| 0 <= i <= ws.len() && #[trigger] stretch_length(ws@, path_length, i) > 0)
            ==> exists|k: int| #[trigger] is_longest_stretch(ws@, path_length, k),
{
    let n = ws.len();
    let mut start: u32 = 0;
    let mut stop: u32 = path_length;
    let mut best_length: u32 = 0;
    let mut best_start: u32 = 0;
    let mut best_stop: u32 = 0;
    let ghost mut best: int = -1;
    let mut i: usize = 0;
    while i < n
        invariant
            n == ws@.len(),
            i <= n,
            forall|x: int| 0 <= x < ws.len() ==> #[trigger] ws[x].end_index < u32::MAX,
            start == stretch_start(ws@, i as int),
            i == 0 ==> stop == path_length,
            i > 0 ==> stop == ws[i - 1].start_index,
            -1 <= best < i,
            best == -1 ==> best_length == 0 && best_start == 0 && best_stop == 0,
            best == -1 ==> forall|j: int| 0 <= j < i ==> #[trigger] stretch_length(ws@, path_length, j) == 0,
            best >= 0 ==> {
                &&& best_length == stretch_length(ws@, path_length, best) > 0
                &&& best_start == stretch_start(ws@, best)
                &&& best_stop == stretch_stop(ws@, path_length, best)
                &&& forall|j: int| 0 <= j < best ==> #[trigger] stretch_length(ws@, path_length, j) < best_length
                &&& forall|j: int| best < j < i ==> #[trigger] stretch_length(ws@, path_length, j) <= best_length
            },
        decreases n - i,
    {
        stop = ws[i].start_index;
        assert(stop == stretch_stop(ws@, path_length, i as int));
        if start <= stop && stop - start > best_length {
            best_length = stop - start;
            best_start = start;
            best_stop = stop;
            proof {
                best = i as int;
            }
        }
        start = ws[i].end_index + 1;
        i = i + 1;
    }
    assert(start == stretch_start(ws@, n as int));
    assert(stop == stretch_stop(ws@, path_length, n as int));
    if start <= stop && stop - start > best_length {
        best_start = start;
        best_stop = stop;
        proof {
            best = n as int;
        }
    }
    proof {
        if best >= 0 {
            assert(is_longest_stretch(ws@, path_length, best));
            assert forall|k: int| #[trigger] is_longest_stretch(ws@, path_length, k) implies k == best by {
                if k < best {
                    assert(stretch_length(ws@, path_length, k) < stretch_length(ws@, path_length, best));
                } else if k > best {
                    assert(stretch_length(ws@, path_length, best) < stretch_length(ws@, path_length, k));
                }
            }
        } else {
            assert forall|k: int| 0 <= k <= ws.len() implies #[trigger] stretch_length(ws@, path_length, k) == 0 by {}
        }
    }
    (best_start, best_stop)
}

/// Between windows whose starts and ends never decrease, each spanning at
/// least one edge, the chosen stretch meets no window: every window ends
/// before the stretch starts or starts no earlier than the stretch stops.
pub proof fn lemma_longest_stretch_avoids_windows(ws: Seq<SubPath>, path_length: u32, k: int)
    requires
        ordered_windows(ws),
        forall|x: int| 0 <= x < ws.len() ==> is_proper(#[trigger] ws[x]),
        is_longest_stretch(ws, path_length, k),
    ensures
        forall|j: int|
            0 <= j < ws.len() ==> (#[trigger] ws[j]).end_index < stretch_start(ws, k) || ws[j].start_index
                >= stretch_stop(ws, path_length, k),
{
    let n = ws.len() as int;
    if n > 0 && k == n {
        assert(is_proper(ws[n - 1]));
        assert(stretch_length(ws, path_length, k) == 0);
    }
    assert forall|j: int| 0 <= j < ws.len() implies (#[trigger] ws[j]).end_index < stretch_start(ws, k)
        || ws[j].start_index >= stretch_stop(ws, path_length, k) by {
        if j < k {
            if j < k - 1 {
                assert(ws[j].end_index <= ws[k - 1].end_index);
            }
        } else {
            if j > k {
                assert(ws[k].start_index <= ws[j].start_index);
            }
        }
    }
}

impl TrajectoryAnalysis {
    /// Intersects overlapping windows: a window that overlaps later windows
    /// is narrowed to start where the last of them starts, and windows that
    /// contain the resulting decomposition point are dropped.
    pub fn intersect_subpaths(subpaths: &[SubPath]) -> (res: Vec<SubPath>)
        ensures
            res@ == intersected(subpaths@),
    {
        let mut res: Vec<SubPath> = Vec::new();
        let mut last_decomposition_point: u32 = 0;
        let n = subpaths.len();
        let mut i: usize = 0;
        while i < n
            invariant
                n == subpaths@.len(),
                i <= n,
                res@ + intersected_from(subpaths@, i as int, last_decomposition_point)
                    == intersected(subpaths@),
            decreases n - i,
        {
            let s = subpaths[i];
            let ghost rest_before = intersected_from(subpaths@, i as int, last_decomposition_point);
            if s.start_index < last_decomposition_point && last_decomposition_point < s.end_index {
                i = i + 1;
                continue;
            }
            let ghost last_before = last_decomposition_point;
            let mut tmp = s;
            let mut j: usize = i + 1;
            while j < n
                invariant
                    n == subpaths@.len(),
                    i < j <= n,
                    absorb_following(subpaths@, tmp, last_decomposition_point, j as int)
                        == absorb_following(subpaths@, s, last_before, (i + 1) as int),
                decreases n - j,
            {
                let s2 = subpaths[j];
                if tmp.end_index > s2.start_index {
                    last_decomposition_point = tmp.end_index - 1;
                    tmp.start_index = s2.start_index;
                }
                j = j + 1;
            }
            proof {
                assert(rest_before == seq![tmp].add(
                    intersected_from(subpaths@, (i + 1) as int, last_decomposition_point),
                ));
            }
            res.push(tmp);
            proof {
                assert(res@ + intersected_from(subpaths@, (i + 1) as int, last_decomposition_point)
                    =~= (res@.drop_last() + rest_before));
            }
            i = i + 1;
        }
        res
    }
}

} // verus!
