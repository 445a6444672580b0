use vstd::prelude::*;

use super::trajectory_analysis::SubPath;

verus! {

/// What a search asks of its caller next.
#[derive(Debug, Clone, Copy, PartialEq, Eq, Structural)]
pub enum SearchAction {
    /// Decide whether the path between the node indices `source` and
    /// `target` is optimal for some preference, and report it back.
    Query { source: u32, target: u32 },
    /// The search is complete.
    Done,
    /// The search gave up: a single step of the path was found not optimal.
    Abandoned,
}

/// Greedy decomposition of a path into a few optimal segments: starting at
/// the front, a binary search finds the longest optimal segment, the path is
/// cut there, and the search continues from the cut.
pub struct PrefixSearch {
    path_length: u32,
    start: u32,
    low: u32,
    high: u32,
    best_cut: u32,
    cuts: Vec<u32>,
    answers: Ghost<Map<(u32, u32), bool>>,
}

/// The node index whose segment from `start` is examined next.
pub open spec fn midpoint(low: u32, high: u32) -> int {
    (low + high) / 2
}

/// Where a segment closed by the `k`-th cut starts.
pub open spec fn segment_start(cuts: Seq<u32>, k: int) -> u32 {
    if k == 0 {
        0
    } else {
        cuts[k - 1]
    }
}

/// The cuts are increasing, lie inside the path, and every segment they
/// close was reported optimal while the segment one node longer was not
/// (unless it would leave the path).
#[verifier::opaque]
pub open spec fn cuts_are_maximal_segments(
    cuts: Seq<u32>,
    path_length: u32,
    answers: Map<(u32, u32), bool>,
) -> bool {
    &&& forall|k: int|
        0 <= k < cuts.len() ==> segment_start(cuts, k) < #[trigger] cuts[k] < path_length
    &&& forall|i: int, j: int| 0 <= i < j < cuts.len() ==> #[trigger] cuts[i] < #[trigger] cuts[j]
    &&& forall|k: int|
        0 <= k < cuts.len() ==> answers.contains_key((segment_start(cuts, k), #[trigger] cuts[k]))
            && answers[(segment_start(cuts, k), cuts[k])]
    &&& forall|k: int|
        0 <= k < cuts.len() && #[trigger] cuts[k] + 1 < path_length ==> answers.contains_key(
            (segment_start(cuts, k), (cuts[k] + 1) as u32),
        ) && !answers[(segment_start(cuts, k), (cuts[k] + 1) as u32)]
}

proof fn lemma_maximal_insert(
    cuts: Seq<u32>,
    path_length: u32,
    answers: Map<(u32, u32), bool>,
    key: (u32, u32),
    value: bool,
)
    requires
        cuts_are_maximal_segments(cuts, path_length, answers),
        cuts.len() > 0 ==> cuts.last() <= key.0,
    ensures
        cuts_are_maximal_segments(cuts, path_length, answers.insert(key, value)),
{
    reveal(cuts_are_maximal_segments);
    assert forall|k: int| 0 <= k < cuts.len() implies segment_start(cuts, k) < key.0 by {
        if k < cuts.len() - 1 {
            assert(cuts[k] < cuts[cuts.len() - 1]);
        }
    }
    let a2 = answers.insert(key, value);
    assert forall|k: int| 0 <= k < cuts.len() implies a2.contains_key(
        (segment_start(cuts, k), #[trigger] cuts[k]),
    ) && a2[(segment_start(cuts, k), cuts[k])] by {
        assert((segment_start(cuts, k), cuts[k]) != key);
    }
    assert forall|k: int| 0 <= k < cuts.len() && #[trigger] cuts[k] + 1 < path_length implies a2.contains_key(
        (segment_start(cuts, k), (cuts[k] + 1) as u32),
    ) && !a2[(segment_start(cuts, k), (cuts[k] + 1) as u32)] by {
        assert((segment_start(cuts, k), (cuts[k] + 1) as u32) != key);
    }
}

#[verifier::rlimit(50)]
proof fn lemma_maximal_push(
    cuts: Seq<u32>,
    path_length: u32,
    answers: Map<(u32, u32), bool>,
    start: u32,
    cut: u32,
)
    requires
        cuts_are_maximal_segments(cuts, path_length, answers),
        start == (if cuts.len() == 0 { 0 } else { cuts.last() }),
        start < cut < path_length,
        answers.contains_key((start, cut)) && answers[(start, cut)],
        cut + 1 < path_length ==> answers.contains_key((start, (cut + 1) as u32)) && !answers[(
            start,
            (cut + 1) as u32,
        )],
    ensures
        cuts_are_maximal_segments(cuts.push(cut), path_length, answers),
{
    reveal(cuts_are_maximal_segments);
    let c2 = cuts.push(cut);
    let n = cuts.len() as int;
    assert forall|k: int| 0 <= k < n implies segment_start(c2, k) == segment_start(cuts, k)
        && c2[k] == cuts[k] by {}
    assert(segment_start(c2, n) == start);
    assert forall|k: int| 0 <= k < c2.len() implies segment_start(c2, k) < #[trigger] c2[k]
        < path_length by {
        if k < n {
            assert(segment_start(c2, k) == segment_start(cuts, k));
        }
    }
    assert forall|i: int, j: int| 0 <= i < j < c2.len() implies #[trigger] c2[i] < #[trigger] c2[j] by {
        if j == n && i < n - 1 {
            assert(cuts[i] < cuts[n - 1]);
        }
    }
    assert forall|k: int| 0 <= k < c2.len() implies answers.contains_key(
        (segment_start(c2, k), #[trigger] c2[k]),
    ) && answers[(segment_start(c2, k), c2[k])] by {
        if k < n {
            assert(segment_start(c2, k) == segment_start(cuts, k));
        }
    }
    assert forall|k: int| 0 <= k < c2.len() && #[trigger] c2[k] + 1 < path_length implies answers.contains_key(
        (segment_start(c2, k), (c2[k] + 1) as u32),
    ) && !answers[(segment_start(c2, k), (c2[k] + 1) as u32)] by {
        if k < n {
            assert(segment_start(c2, k) == segment_start(cuts, k));
        }
    }
}

/// What the greedy decomposition asks in a state with the path length
/// `path_length`, the current segment start `start` and the search window
/// `window`: nothing once the start is the path's last node; it gives up when
/// the window's midpoint is the start itself (a single step was reported not
/// optimal); otherwise whether the segment from the start to the midpoint is
/// optimal.
pub open spec fn prefix_action(path_length: u32, start: u32, window: (u32, u32)) -> SearchAction {
    if start + 1 >= path_length {
        SearchAction::Done
    } else if midpoint(window.0, window.1) == start {
        SearchAction::Abandoned
    } else {
        SearchAction::Query { source: start, target: midpoint(window.0, window.1) as u32 }
    }
}

impl PrefixSearch {
    pub closed spec fn spec_path_length(&self) -> u32 {
        self.path_length
    }

    pub closed spec fn spec_cuts(&self) -> Seq<u32> {
        self.cuts@
    }

    /// The answers that the caller has reported so far, by queried segment.
    pub closed spec fn spec_answers(&self) -> Map<(u32, u32), bool> {
        self.answers@
    }

    pub closed spec fn spec_start(&self) -> u32 {
        self.start
    }

    pub closed spec fn spec_window(&self) -> (u32, u32) {
        (self.low, self.high)
    }

    /// The next action, as a function of the state.
    pub open spec fn spec_action(&self) -> SearchAction {
        prefix_action(self.spec_path_length(), self.spec_start(), self.spec_window())
    }

    pub closed spec fn wf(&self) -> bool {
        &&& 1 <= self.path_length
        &&& self.start < self.path_length
        &&& self.start <= self.low < self.high <= self.path_length
        &&& self.low > self.start ==> self.best_cut + 1 == self.low && self.best_cut > self.start
            && self.answers@.contains_key(
            (self.start, self.best_cut),
        ) && self.answers@[(self.start, self.best_cut)]
        &&& self.high < self.path_length ==> self.answers@.contains_key((self.start, self.high))
            && !self.answers@[(self.start, self.high)]
        &&& self.start == (if self.cuts@.len() == 0 {
            0
        } else {
            self.cuts@.last()
        })
        &&& cuts_are_maximal_segments(self.cuts@, self.path_length, self.answers@)
    }

    /// Starts the decomposition of a path with `path_length` nodes.
    pub fn new(path_length: u32) -> (s: PrefixSearch)
        requires
            path_length >= 1,
        ensures
            s.wf(),
            s.spec_path_length() == path_length,
            s.spec_start() == 0,
            s.spec_window() == (0u32, path_length),
            s.spec_cuts() == Seq::<u32>::empty(),
            s.spec_answers() == Map::<(u32, u32), bool>::empty(),
    {
        proof {
            reveal(cuts_are_maximal_segments);
        }
        PrefixSearch {
            path_length,
            start: 0,
            low: 0,
            high: path_length,
            best_cut: 0,
            cuts: Vec::new(),
            answers: Ghost(Map::empty()),
        }
    }

    /// What the caller must do next.
    pub fn action(&self) -> (a: SearchAction)
        requires
            self.wf(),
        ensures
            a == self.spec_action(),
    {
        if self.start >= self.path_length - 1 {
            SearchAction::Done
        } else {
            let m = self.low + (self.high - self.low) / 2;
            if m == self.start {
                SearchAction::Abandoned
            } else {
                SearchAction::Query { source: self.start, target: m }
            }
        }
    }

    /// The cuts found so far.
    pub fn cuts(&self) -> (c: &Vec<u32>)
        ensures
            c@ == self.spec_cuts(),
    {
        &self.cuts
    }

    /// Reports whether the queried segment is optimal. A segment that is
    /// optimal moves the lower end of the search window past it, one that is
    /// not moves the upper end onto it; when the window closes, the path is
    /// cut at the longest optimal segment found.
    pub fn record(&mut self, optimal: bool)
        requires
            old(self).wf(),
            old(self).spec_action() is Query,
        ensures
            final(self).wf(),
            final(self).spec_path_length() == old(self).spec_path_length(),
            old(self).spec_action() matches SearchAction::Query { source, target }
                ==> source == old(self).spec_start() && final(self).spec_answers()
                == old(self).spec_answers().insert((source, target), optimal),
            ({
                let m = midpoint(old(self).spec_window().0, old(self).spec_window().1) as u32;
                let (low, high) = if optimal {
                    ((m + 1) as u32, old(self).spec_window().1)
                } else {
                    (old(self).spec_window().0, m)
                };
                &&& final(self).spec_answers() == old(self).spec_answers().insert(
                    (old(self).spec_start(), m),
                    optimal,
                )
                &&& if low >= high {
                    &&& final(self).spec_cuts() == old(self).spec_cuts().push((low - 1) as u32)
                    &&& final(self).spec_start() == low - 1
                    &&& final(self).spec_window() == ((low - 1) as u32, old(self).spec_path_length())
                } else {
                    &&& final(self).spec_cuts() == old(self).spec_cuts()
                    &&& final(self).spec_start() == old(self).spec_start()
                    &&& final(self).spec_window() == (low, high)
                }
            }),
            final(self).spec_start() > old(self).spec_start() || (final(self).spec_start() == old(self).spec_start() && final(self).spec_window().1 - final(self).spec_window().0 < old(self).spec_window().1 - old(self).spec_window().0),
    {
        let m = self.low + (self.high - self.low) / 2;
        let ghost start = self.start;
        assert(m == midpoint(self.low, self.high));
        proof {
            lemma_maximal_insert(self.cuts@, self.path_length, self.answers@, (start, m), optimal);
        }
        self.answers = Ghost(self.answers@.insert((self.start, m), optimal));
        if optimal {
            self.low = m + 1;
            self.best_cut = m;
        } else {
            self.high = m;
        }
        if self.low >= self.high {
            let cut = self.best_cut;
            proof {
                lemma_maximal_push(self.cuts@, self.path_length, self.answers@, start, cut);
            }
            self.cuts.push(cut);
            self.start = cut;
            self.low = cut;
            self.high = self.path_length;
            self.best_cut = 0;
        }
    }
}

/// The decomposition asks about the segment from its current start to the
/// midpoint of its search window, which lies inside the window and past the
/// start; `record` books the answer under exactly that segment.
pub proof fn lemma_prefix_query(s: PrefixSearch)
    requires
        s.wf(),
    ensures
        s.spec_action() matches SearchAction::Query { source, target } ==> {
            &&& source == s.spec_start()
            &&& target == midpoint(s.spec_window().0, s.spec_window().1)
            &&& s.spec_window().0 <= target < s.spec_window().1
            &&& s.spec_start() < target < s.spec_path_length()
        },
{
}

/// In every state of the decomposition, the cuts found so far close
/// segments that were each reported optimal and could not be extended by a
/// node, and the current segment starts at the last of them. Where the
/// search gave up, the single step from the current start was reported not
/// optimal.
pub proof fn lemma_prefix_search_state(s: PrefixSearch)
    requires
        s.wf(),
    ensures
        cuts_are_maximal_segments(s.spec_cuts(), s.spec_path_length(), s.spec_answers()),
        s.spec_start() == (if s.spec_cuts().len() == 0 {
            0
        } else {
            s.spec_cuts().last()
        }),
        s.spec_action() == SearchAction::Abandoned ==> s.spec_start() + 1 < s.spec_path_length()
            && s.spec_answers().contains_key((s.spec_start(), (s.spec_start() + 1) as u32))
            && !s.spec_answers()[(s.spec_start(), (s.spec_start() + 1) as u32)],
{
}

/// Once the decomposition is complete, its cuts split the whole path into
/// segments that were each reported optimal and could not be extended by a
/// node; the last cut is the end of the path.
pub proof fn lemma_prefix_search_complete(s: PrefixSearch)
    requires
        s.wf(),
        s.spec_action() == SearchAction::Done,
    ensures
        cuts_are_maximal_segments(s.spec_cuts(), s.spec_path_length(), s.spec_answers()),
        s.spec_path_length() >= 2 ==> s.spec_cuts().len() > 0 && s.spec_cuts().last() + 1
            == s.spec_path_length(),
        s.spec_path_length() == 1 ==> s.spec_cuts().len() == 0,
{
    reveal(cuts_are_maximal_segments);
    if s.spec_path_length() == 1 && s.spec_cuts().len() > 0 {
        assert(s.spec_cuts()[0] < 1);
    }
}

} // verus!

verus! {

/// For every cut of an existing decomposition but the last, finds the
/// shortest window ending one node after the cut that is not optimal, by
/// moving its start backwards one node at a time.
pub struct WindowSearch {
    cuts: Vec<u32>,
    index: usize,
    dist: u32,
    windows: Vec<SubPath>,
    answers: Ghost<Map<(int, u32, u32), bool>>,
}

/// The `k`-th window ends one node after the cut `cut`, was reported not
/// optimal, and every shorter window ending there was reported optimal.
/// Reports are keyed by the cut's position and the queried segment.
pub open spec fn is_shortest_window(
    w: SubPath,
    k: int,
    cut: u32,
    answers: Map<(int, u32, u32), bool>,
) -> bool {
    &&& w.end_index == cut + 1
    &&& w.start_index < cut
    &&& answers.get((k, w.start_index, w.end_index)) == Some(false)
    &&& forall|s: u32|
        w.start_index < s < cut ==> #[trigger] answers.get((k, s, w.end_index)) == Some(true)
}

proof fn lemma_windows_survive_insert(
    windows: Seq<SubPath>,
    cuts: Seq<u32>,
    answers: Map<(int, u32, u32), bool>,
    k: int,
    source: u32,
    target: u32,
    value: bool,
)
    requires
        windows.len() == k,
        forall|j: int|
            0 <= j < windows.len() ==> is_shortest_window(#[trigger] windows[j], j, cuts[j], answers),
    ensures
        forall|j: int|
            0 <= j < windows.len() ==> is_shortest_window(
                #[trigger] windows[j],
                j,
                cuts[j],
                answers.insert((k, source, target), value),
            ),
{
    let a2 = answers.insert((k, source, target), value);
    assert forall|j: int| 0 <= j < windows.len() implies is_shortest_window(
        #[trigger] windows[j],
        j,
        cuts[j],
        a2,
    ) by {
        let w = windows[j];
        assert(is_shortest_window(w, j, cuts[j], answers));
        assert forall|s: u32| w.start_index < s < cuts[j] implies #[trigger] a2.get(
            (j, s, w.end_index),
        ) == Some(true) by {
            assert(answers.get((j, s, w.end_index)) == Some(true));
        }
    }
}

proof fn lemma_new_window(
    cuts: Seq<u32>,
    answers: Map<(int, u32, u32), bool>,
    k: int,
    dist: u32,
    value: bool,
)
    requires
        0 <= k < cuts.len(),
        1 <= dist <= cuts[k],
        cuts[k] < u32::MAX,
        forall|s: u32|
            cuts[k] - dist < s < cuts[k] ==> #[trigger] answers.get((k, s, (cuts[k] + 1) as u32))
                == Some(true),
        !value,
    ensures
        is_shortest_window(
            SubPath { start_index: (cuts[k] - dist) as u32, end_index: (cuts[k] + 1) as u32 },
            k,
            cuts[k],
            answers.insert((k, (cuts[k] - dist) as u32, (cuts[k] + 1) as u32), value),
        ),
{
    let w = SubPath { start_index: (cuts[k] - dist) as u32, end_index: (cuts[k] + 1) as u32 };
    let a2 = answers.insert((k, (cuts[k] - dist) as u32, (cuts[k] + 1) as u32), value);
    assert forall|s: u32| w.start_index < s < cuts[k] implies #[trigger] a2.get((k, s, w.end_index))
        == Some(true) by {
        assert(answers.get((k, s, (cuts[k] + 1) as u32)) == Some(true));
    }
}

/// What the window search asks in a state with the cuts `cuts`, the current
/// cut position `index` and the window length `dist`: nothing once every cut
/// but the last has its window; it gives up when the window would start
/// before the path's first node; otherwise whether the window from `dist`
/// nodes before the cut to the node after it is optimal.
pub open spec fn window_action(cuts: Seq<u32>, index: int, dist: u32) -> SearchAction {
    if index + 1 >= cuts.len() {
        SearchAction::Done
    } else if dist > cuts[index] {
        SearchAction::Abandoned
    } else {
        SearchAction::Query {
            source: (cuts[index] - dist) as u32,
            target: (cuts[index] + 1) as u32,
        }
    }
}

impl WindowSearch {
    pub closed spec fn spec_cuts(&self) -> Seq<u32> {
        self.cuts@
    }

    pub closed spec fn spec_windows(&self) -> Seq<SubPath> {
        self.windows@
    }

    /// The answers reported so far, by cut position and queried segment.
    pub closed spec fn spec_answers(&self) -> Map<(int, u32, u32), bool> {
        self.answers@
    }

    pub closed spec fn spec_index(&self) -> int {
        self.index as int
    }

    pub closed spec fn spec_dist(&self) -> u32 {
        self.dist
    }

    /// The next action, as a function of the state.
    pub open spec fn spec_action(&self) -> SearchAction {
        window_action(self.spec_cuts(), self.spec_index(), self.spec_dist())
    }

    pub closed spec fn wf(&self) -> bool {
        &&& forall|k: int| 0 <= k < self.cuts@.len() - 1 ==> #[trigger] self.cuts@[k] < u32::MAX
        &&& self.index <= self.cuts@.len()
        &&& self.cuts@.len() > 0 ==> self.index < self.cuts@.len()
        &&& self.windows@.len() == self.index
        &&& 1 <= self.dist
        &&& self.index + 1 < self.cuts@.len() ==> self.dist <= self.cuts@[self.index as int] + 1
        &&& self.index + 1 < self.cuts@.len() ==> forall|s: u32|
            self.cuts@[self.index as int] - self.dist < s < self.cuts@[self.index as int]
                ==> #[trigger] self.answers@.get(
                (self.index as int, s, (self.cuts@[self.index as int] + 1) as u32),
            ) == Some(true)
        &&& forall|k: int|
            0 <= k < self.windows@.len() ==> is_shortest_window(
                #[trigger] self.windows@[k],
                k,
                self.cuts@[k],
                self.answers@,
            )
    }

    /// Starts the search over the cuts of a decomposition.
    pub fn new(cuts: Vec<u32>) -> (s: WindowSearch)
        requires
            forall|k: int| 0 <= k < cuts@.len() - 1 ==> #[trigger] cuts@[k] < u32::MAX,
        ensures
            s.wf(),
            s.spec_cuts() == cuts@,
            s.spec_windows() == Seq::<SubPath>::empty(),
            s.spec_index() == 0,
            s.spec_dist() == 1,
    {
        WindowSearch { cuts, index: 0, dist: 1, windows: Vec::new(), answers: Ghost(Map::empty()) }
    }

    /// What the caller must do next. `Abandoned` means that every window
    /// back to the start of the path was reported optimal, so that no start
    /// before the path's first node is left to try.
    pub fn action(&self) -> (a: SearchAction)
        requires
            self.wf(),
        ensures
            a == self.spec_action(),
    {
        if self.cuts.len() == 0 || self.index >= self.cuts.len() - 1 {
            SearchAction::Done
        } else {
            let c = self.cuts[self.index];
            if self.dist > c {
                SearchAction::Abandoned
            } else {
                SearchAction::Query { source: c - self.dist, target: c + 1 }
            }
        }
    }

    /// The windows found so far, one per examined cut.
    pub fn windows(&self) -> (w: &Vec<SubPath>)
        ensures
            w@ == self.spec_windows(),
    {
        &self.windows
    }

    /// Reports whether the queried window is optimal: an optimal window is
    /// extended one node further back, one that is not is kept and the search
    /// moves on to the next cut.
    pub fn record(&mut self, optimal: bool)
        requires
            old(self).wf(),
            old(self).spec_action() is Query,
        ensures
            final(self).wf(),
            final(self).spec_cuts() == old(self).spec_cuts(),
            old(self).spec_action() matches SearchAction::Query { source, target }
                ==> final(self).spec_answers() == old(self).spec_answers().insert(
                (old(self).spec_index(), source, target),
                optimal,
            ),
            ({
                let c = old(self).spec_cuts()[old(self).spec_index()];
                let source = (c - old(self).spec_dist()) as u32;
                let target = (c + 1) as u32;
                &&& final(self).spec_answers() == old(self).spec_answers().insert(
                    (old(self).spec_index(), source, target),
                    optimal,
                )
                &&& if optimal {
                    &&& final(self).spec_windows() == old(self).spec_windows()
                    &&& final(self).spec_index() == old(self).spec_index()
                    &&& final(self).spec_dist() == old(self).spec_dist() + 1
                } else {
                    &&& final(self).spec_windows() == old(self).spec_windows().push(
                        SubPath { start_index: source, end_index: target },
                    )
                    &&& final(self).spec_index() == old(self).spec_index() + 1
                    &&& final(self).spec_dist() == 1
                }
            }),
    {
        let n = self.cuts.len();
        assert(self.index + 1 < n);
        let c = self.cuts[self.index];
        let source = c - self.dist;
        let target = c + 1;
        let ghost k = self.index as int;
        proof {
            lemma_windows_survive_insert(self.windows@, self.cuts@, self.answers@, k, source, target, optimal);
            if !optimal {
                lemma_new_window(self.cuts@, self.answers@, k, self.dist, optimal);
            } else {
                let a2 = self.answers@.insert((k, source, target), optimal);
                assert forall|s: u32| c - (self.dist + 1) < s < c implies #[trigger] a2.get(
                    (k, s, (c + 1) as u32),
                ) == Some(true) by {
                    if s != source {
                        assert(self.answers@.get((k, s, (c + 1) as u32)) == Some(true));
                    }
                }
            }
        }
        self.answers = Ghost(self.answers@.insert((k, source, target), optimal));
        if optimal {
            self.dist = self.dist + 1;
        } else {
            let w = SubPath { start_index: source, end_index: target };
            self.windows.push(w);
            self.index = self.index + 1;
            self.dist = 1;
            assert(self.windows@ =~= old(self).windows@.push(w));
        }
    }
}

/// The window search asks about the window that ends one node after the
/// current cut and starts `dist` nodes before it, at or after the path's
/// first node; `record` books the answer under exactly that window.
pub proof fn lemma_window_query(s: WindowSearch)
    requires
        s.wf(),
    ensures
        s.spec_action() matches SearchAction::Query { source, target } ==> {
            &&& 0 <= s.spec_index() < s.spec_cuts().len() - 1
            &&& target == s.spec_cuts()[s.spec_index()] + 1
            &&& source + s.spec_dist() == s.spec_cuts()[s.spec_index()]
            &&& source < target
        },
{
}

/// In every state of the window search, each window found so far is the
/// shortest one ending after its cut that was reported not optimal. Where the
/// search gave up, every window ending after the current cut and starting
/// at or after the path's first node was reported optimal.
pub proof fn lemma_window_search_state(s: WindowSearch)
    requires
        s.wf(),
    ensures
        s.spec_windows().len() == s.spec_index(),
        forall|k: int|
            0 <= k < s.spec_windows().len() ==> is_shortest_window(
                #[trigger] s.spec_windows()[k],
                k,
                s.spec_cuts()[k],
                s.spec_answers(),
            ),
        s.spec_action() == SearchAction::Abandoned ==> {
            let c = s.spec_cuts()[s.spec_index()];
            forall|x: u32|
                x < c ==> #[trigger] s.spec_answers().get((s.spec_index(), x, (c + 1) as u32))
                    == Some(true)
        },
{
}

/// Every answer in `answers` is what `opt` says of the queried segment.
pub open spec fn prefix_answers_agree(answers: Map<(u32, u32), bool>, opt: spec_fn(u32, u32) -> bool) -> bool {
    forall|q: (u32, u32)| #[trigger] answers.contains_key(q) ==> answers[q] == opt(q.0, q.1)
}

/// Every answer in `answers` is what `opt` says of the queried window.
pub open spec fn window_answers_agree(
    answers: Map<(int, u32, u32), bool>,
    opt: spec_fn(u32, u32) -> bool,
) -> bool {
    forall|q: (int, u32, u32)| #[trigger] answers.contains_key(q) ==> answers[q] == opt(q.1, q.2)
}

/// Where the decomposition and the window search over its cuts are both
/// complete and answered by the same notion of optimality `opt`, every
/// window lies within the segment before its cut and the node after it:
/// it starts no earlier than that segment, which is optimal, while the
/// segment one node longer is not.
pub proof fn lemma_windows_within_segments(p: PrefixSearch, w: WindowSearch, opt: spec_fn(u32, u32) -> bool)
    requires
        p.wf(),
        p.spec_action() == SearchAction::Done,
        w.wf(),
        w.spec_action() == SearchAction::Done,
        w.spec_cuts() == p.spec_cuts(),
        prefix_answers_agree(p.spec_answers(), opt),
        window_answers_agree(w.spec_answers(), opt),
    ensures
        forall|i: int|
            0 <= i < w.spec_windows().len() ==> segment_start(p.spec_cuts(), i) <= (
            #[trigger] w.spec_windows()[i]).start_index && w.spec_windows()[i].end_index
                == p.spec_cuts()[i] + 1,
{
    lemma_prefix_search_complete(p);
    lemma_window_search_complete(w);
    reveal(cuts_are_maximal_segments);
    let cuts = p.spec_cuts();
    let n = cuts.len() as int;
    assert forall|i: int| 0 <= i < w.spec_windows().len() implies segment_start(cuts, i) <= (
    #[trigger] w.spec_windows()[i]).start_index && w.spec_windows()[i].end_index == cuts[i]
        + 1 by {
        let win = w.spec_windows()[i];
        let c = cuts[i];
        let seg = segment_start(cuts, i);
        assert(is_shortest_window(win, i, c, w.spec_answers()));
        if win.start_index > seg {
        } else if win.start_index < seg {
            assert(c < cuts[n - 1]);
            assert(c + 1 < p.spec_path_length());
            assert(p.spec_answers().contains_key((seg, (c + 1) as u32)));
            assert(!p.spec_answers()[(seg, (c + 1) as u32)]);
            assert(w.spec_answers().get((i, seg, win.end_index)) == Some(true));
            assert(w.spec_answers().contains_key((i, seg, win.end_index)));
            assert(false);
        }
    }
}

/// Once the search is complete, every cut but the last has its window, and
/// each window is the shortest one ending after its cut that was reported
/// not optimal.
pub proof fn lemma_window_search_complete(s: WindowSearch)
    requires
        s.wf(),
        s.spec_action() == SearchAction::Done,
    ensures
        s.spec_windows().len() == if s.spec_cuts().len() == 0 {
            0
        } else {
            s.spec_cuts().len() - 1
        },
        forall|k: int|
            0 <= k < s.spec_windows().len() ==> is_shortest_window(
                #[trigger] s.spec_windows()[k],
                k,
                s.spec_cuts()[k],
                s.spec_answers(),
            ),
{
}

} // verus!

verus! {

/// The phase of a round of the all-windows search: asking about the whole
/// rest of the path, searching forwards for the window end, searching
/// backwards for the window start, or done.
#[derive(PartialEq, Eq, Structural, Clone, Copy, Debug)]
pub enum Phase {
    Whole,
    Forward,
    Backward,
    Finished,
}

/// Where the all-windows search stands: the phase, the round's start, the
/// window end, the two bounds of the binary search, and the best cut found
/// in it.
pub type SearchState = (Phase, u32, u32, u32, u32, u32);

/// The backward search for a window ending at `stop`: its bounds are the
/// round start and `stop`, and its best cut starts at the round start.
pub open spec fn backward_from(start: u32, stop: u32) -> SearchState {
    (Phase::Backward, start, stop, start, stop, start)
}

/// The forward search with the bounds `low`, `high` and the best cut
/// `best`, unless its next midpoint would be the round start itself: then
/// the window end is the node after the start, and the backward search
/// begins.
pub open spec fn forward_or_backward(start: u32, stop: u32, low: u32, high: u32, best: u32) -> SearchState {
    if midpoint(low, high) == start {
        backward_from(start, (start + 1) as u32)
    } else {
        (Phase::Forward, start, stop, low, high, best)
    }
}

/// One step of the all-windows search after the answer `optimal` to its
/// query, and the window it adds, if any.
/// - Whole: an optimal rest ends the search; otherwise the forward search
///   for the window end starts with the bounds `start`, `path_length` and
///   the best cut `stop`.
/// - Forward: an optimal segment `start..m` moves the lower bound past the
///   midpoint `m`, a non-optimal one moves the upper bound onto it and makes
///   it the best cut if smaller; when the bounds meet, the backward search
///   for the start of the window ending at the best cut begins.
/// - Backward: an optimal segment `m..stop` moves the upper bound onto `m`,
///   a non-optimal one moves the lower bound past it and makes it the best
///   cut if larger; when the bounds meet, the window from the best cut to
///   `stop` is added, and the next round starts one node after it.
pub open spec fn next_state(st: SearchState, path_length: u32, optimal: bool) -> (
    SearchState,
    Option<SubPath>,
) {
    let (phase, start, stop, low, high, best) = st;
    match phase {
        Phase::Whole => if optimal {
            ((Phase::Finished, start, stop, low, high, best), None)
        } else {
            (forward_or_backward(start, stop, start, path_length, stop), None)
        },
        Phase::Forward => {
            let m = midpoint(low, high) as u32;
            let (l2, h2, b2) = if optimal {
                ((m + 1) as u32, high, best)
            } else {
                (low, m, if m < best { m } else { best })
            };
            if l2 >= h2 {
                (backward_from(start, b2), None)
            } else {
                (forward_or_backward(start, stop, l2, h2, b2), None)
            }
        },
        Phase::Backward => {
            let m = midpoint(low, high) as u32;
            let (l2, h2, b2) = if optimal {
                (low, m, best)
            } else {
                ((m + 1) as u32, high, if m > best { m } else { best })
            };
            if l2 >= h2 {
                (
                    (Phase::Whole, (b2 + 1) as u32, (path_length - 1) as u32, l2, h2, b2),
                    Some(SubPath { start_index: b2, end_index: stop }),
                )
            } else {
                ((Phase::Backward, start, stop, l2, h2, b2), None)
            }
        },
        Phase::Finished => (st, None),
    }
}

/// What the all-windows search asks in the state `st`: the rest of the
/// path from the round's start, the segment from the start to the forward
/// midpoint, or the segment from the backward midpoint to the window end.
pub open spec fn action_of(st: SearchState) -> SearchAction {
    let (phase, start, stop, low, high, _) = st;
    match phase {
        Phase::Finished => SearchAction::Done,
        Phase::Whole => if start < stop {
            SearchAction::Query { source: start, target: stop }
        } else {
            SearchAction::Done
        },
        Phase::Forward => SearchAction::Query { source: start, target: midpoint(low, high) as u32 },
        Phase::Backward => SearchAction::Query { source: midpoint(low, high) as u32, target: stop },
    }
}

/// The rank of a phase within a round; a round moves through them in
/// order.
pub open spec fn phase_rank(p: Phase) -> int {
    match p {
        Phase::Whole => 0,
        Phase::Forward => 1,
        Phase::Backward => 2,
        Phase::Finished => 3,
    }
}

/// Finds all windows of a path that are not optimal. Each round asks
/// whether the rest of the path from the current start is optimal; if not,
/// a binary search finds a short window end after which it stops being so,
/// and a second binary search moves the window start as far towards that end
/// as possible. The next round begins one node after the window start.
pub struct NonOptimalSearch {
    path_length: u32,
    start: u32,
    stop: u32,
    phase: Phase,
    low: u32,
    high: u32,
    best_cut: u32,
    windows: Vec<SubPath>,
    reports: Ghost<Set<(int, u32, u32, bool)>>,
}

/// Where the round that found the `k`-th window started: at the path's
/// first node, or one node after the start of the window before.
pub open spec fn round_start(windows: Seq<SubPath>, k: int) -> u32 {
    if k <= 0 {
        0
    } else {
        (windows[k - 1].start_index + 1) as u32
    }
}

/// Each window lies inside the path and spans at least one edge.
pub open spec fn windows_inside(windows: Seq<SubPath>, path_length: u32) -> bool {
    forall|k: int|
        0 <= k < windows.len() ==> #[trigger] windows[k].start_index < windows[k].end_index
            < path_length
}

/// The windows start at increasing nodes.
pub open spec fn windows_start_increasing(windows: Seq<SubPath>) -> bool {
    forall|i: int, j: int|
        0 <= i < j < windows.len() ==> #[trigger] windows[i].start_index
            < #[trigger] windows[j].start_index
}

/// Each window was reported not optimal in the round `k` that found it.
pub open spec fn windows_reported_non_optimal(
    windows: Seq<SubPath>,
    reports: Set<(int, u32, u32, bool)>,
) -> bool {
    forall|k: int|
        0 <= k < windows.len() ==> reports.contains(
            (k, (#[trigger] windows[k]).start_index, windows[k].end_index, false),
        )
}

/// In its round, the window one node shorter at the front was reported
/// optimal, unless the window spans one edge or was itself reported optimal.
pub open spec fn windows_front_reported(
    windows: Seq<SubPath>,
    reports: Set<(int, u32, u32, bool)>,
) -> bool {
    forall|k: int|
        0 <= k < windows.len() ==> {
            let w = #[trigger] windows[k];
            ||| w.start_index + 1 == w.end_index
            ||| reports.contains((k, (w.start_index + 1) as u32, w.end_index, true))
            ||| reports.contains((k, w.start_index, w.end_index, true))
        }
}

/// Each window starts no earlier than its round, and in its round the
/// segment from the round's start to one node before the window's end was
/// reported optimal, unless that is a single node or the segment to the
/// window's end was reported optimal.
pub open spec fn windows_back_reported(
    windows: Seq<SubPath>,
    reports: Set<(int, u32, u32, bool)>,
) -> bool {
    forall|k: int|
        0 <= k < windows.len() ==> {
            let w = #[trigger] windows[k];
            let t = round_start(windows, k);
            &&& t <= w.start_index
            &&& {
                ||| w.end_index == t + 1
                ||| reports.contains((k, t, (w.end_index - 1) as u32, true))
                ||| reports.contains((k, t, w.end_index, true))
            }
        }
}

/// The windows lie inside the path and start at increasing nodes. In the
/// round `k` that found it, each window was reported not optimal; the
/// window one node shorter at the front was reported optimal (unless the
/// window spans one edge); and the segment from the round's start to one
/// node before the window's end was reported optimal (unless that is a
/// single node). Where the last two fail, the window itself was also
/// reported optimal, so the reports contradict each other. Reports are
/// keyed by the round, the queried segment and the answer.
#[verifier::opaque]
pub open spec fn windows_are_reported(
    windows: Seq<SubPath>,
    path_length: u32,
    reports: Set<(int, u32, u32, bool)>,
) -> bool {
    &&& windows_inside(windows, path_length)
    &&& windows_start_increasing(windows)
    &&& windows_reported_non_optimal(windows, reports)
    &&& windows_front_reported(windows, reports)
    &&& windows_back_reported(windows, reports)
}

/// More reports keep what the windows rest on.
proof fn lemma_reported_insert(
    windows: Seq<SubPath>,
    path_length: u32,
    reports: Set<(int, u32, u32, bool)>,
    x: (int, u32, u32, bool),
)
    requires
        windows_are_reported(windows, path_length, reports),
    ensures
        windows_are_reported(windows, path_length, reports.insert(x)),
{
    reveal(windows_are_reported);
    let r2 = reports.insert(x);
    assert(windows_reported_non_optimal(windows, r2)) by {
        assert forall|k: int| 0 <= k < windows.len() implies r2.contains(
            (k, (#[trigger] windows[k]).start_index, windows[k].end_index, false),
        ) by {
            assert(reports.contains((k, windows[k].start_index, windows[k].end_index, false)));
        }
    }
    assert(windows_front_reported(windows, r2)) by {
        assert forall|k: int| 0 <= k < windows.len() implies {
            let w = #[trigger] windows[k];
            ||| w.start_index + 1 == w.end_index
            ||| r2.contains((k, (w.start_index + 1) as u32, w.end_index, true))
            ||| r2.contains((k, w.start_index, w.end_index, true))
        } by {
            let w = windows[k];
            if reports.contains((k, (w.start_index + 1) as u32, w.end_index, true)) {
            }
        }
    }
    assert(windows_back_reported(windows, r2)) by {
        assert forall|k: int| 0 <= k < windows.len() implies {
            let w = #[trigger] windows[k];
            let t = round_start(windows, k);
            &&& t <= w.start_index
            &&& {
                ||| w.end_index == t + 1
                ||| r2.contains((k, t, (w.end_index - 1) as u32, true))
                ||| r2.contains((k, t, w.end_index, true))
            }
        } by {
            let w = windows[k];
        }
    }
}

/// Pushing a window keeps the round starts of the windows before it, and
/// the next round starts one node after it.
proof fn lemma_round_start_push(ws: Seq<SubPath>, w: SubPath)
    requires
        w.start_index < w.end_index,
    ensures
        forall|k: int| 0 <= k <= ws.len() ==> #[trigger] round_start(ws.push(w), k) == round_start(ws, k),
        round_start(ws.push(w), ws.len() + 1 as int) == w.start_index + 1,
{
    let w2 = ws.push(w);
    assert forall|k: int| 0 <= k <= ws.len() implies #[trigger] round_start(w2, k) == round_start(ws, k) by {
        if k > 0 {
            assert(w2[k - 1] == ws[k - 1]);
        }
    }
    assert(w2[ws.len() as int] == w);
}

/// Pushing a window inside the path keeps the windows inside it.
proof fn lemma_inside_push(ws: Seq<SubPath>, pl: u32, w: SubPath)
    requires
        windows_inside(ws, pl),
        w.start_index < w.end_index < pl,
    ensures
        windows_inside(ws.push(w), pl),
{
    let w2 = ws.push(w);
    assert forall|k: int| 0 <= k < w2.len() implies #[trigger] w2[k].start_index < w2[k].end_index
        < pl by {
        if k < ws.len() {
            assert(w2[k] == ws[k]);
        }
    }
}

/// Pushing a window that starts no earlier than its round keeps the starts
/// increasing.
proof fn lemma_increasing_push(ws: Seq<SubPath>, pl: u32, w: SubPath)
    requires
        windows_inside(ws, pl),
        windows_start_increasing(ws),
        round_start(ws, ws.len() as int) <= w.start_index,
    ensures
        windows_start_increasing(ws.push(w)),
{
    let w2 = ws.push(w);
    let r = ws.len() as int;
    assert forall|i: int, j: int| 0 <= i < j < w2.len() implies #[trigger] w2[i].start_index
        < #[trigger] w2[j].start_index by {
        assert(w2[i] == ws[i]);
        if j < r {
            assert(w2[j] == ws[j]);
        } else {
            assert(w2[j] == w);
            assert(ws[r - 1].start_index < ws[r - 1].end_index);
            assert(round_start(ws, r) == ws[r - 1].start_index + 1);
            if i < r - 1 {
                assert(ws[i].start_index < ws[r - 1].start_index);
            }
        }
    }
}

/// Pushing a window reported not optimal in its round keeps every window
/// reported so.
proof fn lemma_non_optimal_push(ws: Seq<SubPath>, rep: Set<(int, u32, u32, bool)>, w: SubPath)
    requires
        windows_reported_non_optimal(ws, rep),
        rep.contains((ws.len() as int, w.start_index, w.end_index, false)),
    ensures
        windows_reported_non_optimal(ws.push(w), rep),
{
    let w2 = ws.push(w);
    assert forall|k: int| 0 <= k < w2.len() implies rep.contains(
        (k, (#[trigger] w2[k]).start_index, w2[k].end_index, false),
    ) by {
        if k < ws.len() {
            assert(w2[k] == ws[k]);
        }
    }
}

/// Pushing a window whose front-shortened window was reported optimal in its
/// round keeps every window reported so.
proof fn lemma_front_push(ws: Seq<SubPath>, rep: Set<(int, u32, u32, bool)>, w: SubPath)
    requires
        windows_front_reported(ws, rep),
        ({
            let (r, b, e) = (ws.len() as int, w.start_index, w.end_index);
            ||| b + 1 == e
            ||| rep.contains((r, (b + 1) as u32, e, true))
            ||| rep.contains((r, b, e, true))
        }),
    ensures
        windows_front_reported(ws.push(w), rep),
{
    let w2 = ws.push(w);
    assert forall|k: int| 0 <= k < w2.len() implies {
        let x = #[trigger] w2[k];
        ||| x.start_index + 1 == x.end_index
        ||| rep.contains((k, (x.start_index + 1) as u32, x.end_index, true))
        ||| rep.contains((k, x.start_index, x.end_index, true))
    } by {
        if k < ws.len() {
            assert(w2[k] == ws[k]);
        }
    }
}

/// Pushing a window whose end-shortened segment from the round's start was
/// reported optimal in its round keeps every window reported so.
proof fn lemma_back_push(ws: Seq<SubPath>, rep: Set<(int, u32, u32, bool)>, w: SubPath)
    requires
        windows_back_reported(ws, rep),
        w.start_index < w.end_index,
        ({
            let (r, t, e) = (ws.len() as int, round_start(ws, ws.len() as int), w.end_index);
            &&& t <= w.start_index
            &&& {
                ||| e == t + 1
                ||| rep.contains((r, t, (e - 1) as u32, true))
                ||| rep.contains((r, t, e, true))
            }
        }),
    ensures
        windows_back_reported(ws.push(w), rep),
{
    let w2 = ws.push(w);
    lemma_round_start_push(ws, w);
    assert forall|k: int| 0 <= k < w2.len() implies {
        let x = #[trigger] w2[k];
        let t2 = round_start(w2, k);
        &&& t2 <= x.start_index
        &&& {
            ||| x.end_index == t2 + 1
            ||| rep.contains((k, t2, (x.end_index - 1) as u32, true))
            ||| rep.contains((k, t2, x.end_index, true))
        }
    } by {
        assert(round_start(w2, k) == round_start(ws, k));
        if k < ws.len() {
            assert(w2[k] == ws[k]);
        }
    }
}

/// Adding a window that the reports of its round support keeps what the
/// windows rest on, and the next round starts one node after it.
proof fn lemma_reported_push(
    ws: Seq<SubPath>,
    pl: u32,
    rep: Set<(int, u32, u32, bool)>,
    t: u32,
    w: SubPath,
)
    requires
        windows_are_reported(ws, pl, rep),
        t == round_start(ws, ws.len() as int),
        t <= w.start_index < w.end_index < pl,
        ({
            let r = ws.len() as int;
            let (b, e) = (w.start_index, w.end_index);
            &&& rep.contains((r, b, e, false))
            &&& {
                ||| b + 1 == e
                ||| rep.contains((r, (b + 1) as u32, e, true))
                ||| rep.contains((r, b, e, true))
            }
            &&& {
                ||| e == t + 1
                ||| rep.contains((r, t, (e - 1) as u32, true))
                ||| rep.contains((r, t, e, true))
            }
        }),
    ensures
        windows_are_reported(ws.push(w), pl, rep),
        round_start(ws.push(w), ws.len() + 1 as int) == w.start_index + 1,
{
    reveal(windows_are_reported);
    lemma_round_start_push(ws, w);
    lemma_inside_push(ws, pl, w);
    lemma_increasing_push(ws, pl, w);
    lemma_non_optimal_push(ws, rep, w);
    lemma_front_push(ws, rep, w);
    lemma_back_push(ws, rep, w);
}

impl NonOptimalSearch {
    pub closed spec fn spec_path_length(&self) -> u32 {
        self.path_length
    }

    pub closed spec fn spec_windows(&self) -> Seq<SubPath> {
        self.windows@
    }

    /// Every answer reported so far, with the round it was given in.
    pub closed spec fn spec_reports(&self) -> Set<(int, u32, u32, bool)> {
        self.reports@
    }

    pub closed spec fn spec_start(&self) -> u32 {
        self.start
    }

    /// The search's position.
    pub closed spec fn spec_state(&self) -> SearchState {
        (self.phase, self.start, self.stop, self.low, self.high, self.best_cut)
    }

    pub closed spec fn spec_action(&self) -> SearchAction {
        match self.phase {
            Phase::Finished => SearchAction::Done,
            Phase::Whole => if self.start < self.stop {
                SearchAction::Query { source: self.start, target: self.stop }
            } else {
                SearchAction::Done
            },
            Phase::Forward => SearchAction::Query {
                source: self.start,
                target: midpoint(self.low, self.high) as u32,
            },
            Phase::Backward => SearchAction::Query {
                source: midpoint(self.low, self.high) as u32,
                target: self.stop,
            },
        }
    }

    pub closed spec fn wf(&self) -> bool {
        let r = self.windows@.len() as int;
        let pl = self.path_length;
        &&& 1 <= pl
        &&& windows_are_reported(self.windows@, pl, self.reports@)
        &&& self.start == round_start(self.windows@, r)
        &&& match self.phase {
            Phase::Finished => self.stop + 1 == pl && self.reports@.contains(
                (r, self.start, self.stop, true),
            ),
            Phase::Whole => self.start <= self.stop && self.stop + 1 == pl,
            Phase::Forward => {
                &&& self.start + 1 < pl
                &&& self.start <= self.low < self.high <= pl
                &&& midpoint(self.low, self.high) != self.start
                &&& (self.high == pl && self.best_cut + 1 == pl) || (self.high < pl
                    && self.best_cut == self.high)
                &&& self.start < self.best_cut < pl
                &&& self.reports@.contains((r, self.start, self.best_cut, false))
                &&& self.low == self.start || self.reports@.contains(
                    (r, self.start, (self.low - 1) as u32, true),
                )
            },
            Phase::Backward => {
                &&& self.start < self.stop < pl
                &&& self.start <= self.low < self.high <= self.stop
                &&& self.start <= self.best_cut < self.stop
                &&& (self.low == self.best_cut + 1 && self.reports@.contains(
                    (r, self.best_cut, self.stop, false),
                )) || (self.low == self.start && self.best_cut == self.start)
                &&& self.high == self.stop || self.reports@.contains(
                    (r, self.high, self.stop, true),
                )
                &&& self.reports@.contains((r, self.start, self.stop, false))
                &&& {
                    ||| self.stop == self.start + 1
                    ||| self.reports@.contains((r, self.start, (self.stop - 1) as u32, true))
                    ||| self.reports@.contains((r, self.start, self.stop, true))
                }
            },
        }
    }

    /// Starts the search on a path with `path_length` nodes.
    pub fn new(path_length: u32) -> (s: NonOptimalSearch)
        requires
            path_length >= 1,
        ensures
            s.wf(),
            s.spec_path_length() == path_length,
            s.spec_windows() == Seq::<SubPath>::empty(),
            s.spec_start() == 0,
            s.spec_state() == (Phase::Whole, 0u32, (path_length - 1) as u32, 0u32, 0u32, 0u32),
            s.spec_action() == (if path_length > 1 {
                SearchAction::Query { source: 0, target: (path_length - 1) as u32 }
            } else {
                SearchAction::Done
            }),
    {
        proof {
            reveal(windows_are_reported);
        }
        NonOptimalSearch {
            path_length,
            start: 0,
            stop: path_length - 1,
            phase: Phase::Whole,
            low: 0,
            high: 0,
            best_cut: 0,
            windows: Vec::new(),
            reports: Ghost(Set::empty()),
        }
    }

    /// What the caller must do next.
    pub fn action(&self) -> (a: SearchAction)
        requires
            self.wf(),
        ensures
            a == self.spec_action(),
            a == action_of(self.spec_state()),
    {
        match self.phase {
            Phase::Finished => SearchAction::Done,
            Phase::Whole => if self.start < self.stop {
                SearchAction::Query { source: self.start, target: self.stop }
            } else {
                SearchAction::Done
            },
            Phase::Forward => SearchAction::Query {
                source: self.start,
                target: self.low + (self.high - self.low) / 2,
            },
            Phase::Backward => SearchAction::Query {
                source: self.low + (self.high - self.low) / 2,
                target: self.stop,
            },
        }
    }

    /// The windows found so far.
    pub fn windows(&self) -> (w: &Vec<SubPath>)
        ensures
            w@ == self.spec_windows(),
    {
        &self.windows
    }

    /// The search `next` is what one step from `self` after the answer
    /// `optimal` gives.
    closed spec fn steps_to(self, next: Self, optimal: bool) -> bool {
        let (source, target) = match self.spec_action() {
            SearchAction::Query { source, target } => (source, target),
            _ => (0u32, 0u32),
        };
        let (st, w) = next_state(self.spec_state(), self.path_length, optimal);
        &&& next.wf()
        &&& next.path_length == self.path_length
        &&& next.reports@ == self.reports@.insert(
            (self.windows@.len() as int, source, target, optimal),
        )
        &&& next.spec_state() == st
        &&& next.windows@ == match w {
            Some(x) => self.windows@.push(x),
            None => self.windows@,
        }
        &&& {
            let (p0, s0, _, l0, h0, _) = self.spec_state();
            let (p1, s1, _, l1, h1, _) = next.spec_state();
            s1 > s0 || (s1 == s0 && (phase_rank(p1) > phase_rank(p0) || (p1 == p0 && h1 - l1
                < h0 - l0)))
        }
    }

    /// The windows found so far, what they rest on, and where the round
    /// starts: the part of the search state that every phase keeps.
    closed spec fn rounds_ok(&self) -> bool {
        &&& 1 <= self.path_length
        &&& windows_are_reported(self.windows@, self.path_length, self.reports@)
        &&& self.start == round_start(self.windows@, self.windows@.len() as int)
    }

    /// Switches to the search for the start of the window that ends at
    /// `stop`.
    fn enter_backward(&mut self, stop: u32)
        requires
            old(self).rounds_ok(),
            old(self).start < stop < old(self).path_length,
            old(self).reports@.contains((old(self).windows@.len() as int, old(self).start, stop, false)),
            ({
                let r = old(self).windows@.len() as int;
                let t = old(self).start;
                ||| stop == t + 1
                ||| old(self).reports@.contains((r, t, (stop - 1) as u32, true))
                ||| old(self).reports@.contains((r, t, stop, true))
            }),
        ensures
            final(self).wf(),
            final(self).spec_state() == backward_from(old(self).start, stop),
            final(self).path_length == old(self).path_length,
            final(self).windows == old(self).windows,
            final(self).reports == old(self).reports,
    {
        self.stop = stop;
        self.low = self.start;
        self.high = stop;
        self.best_cut = self.start;
        self.phase = Phase::Backward;
    }

    /// Ends a round with the window from the best cut to `stop`, and starts
    /// the next round one node after the window's start.
    #[verifier::rlimit(50)]
    fn finish_round(&mut self)
        requires
            old(self).rounds_ok(),
            old(self).start < old(self).stop < old(self).path_length,
            old(self).start <= old(self).best_cut < old(self).stop,
            ({
                let r = old(self).windows@.len() as int;
                let (t, b, e) = (old(self).start, old(self).best_cut, old(self).stop);
                let rep = old(self).reports@;
                &&& rep.contains((r, b, e, false))
                &&& {
                    ||| b + 1 == e
                    ||| rep.contains((r, (b + 1) as u32, e, true))
                    ||| rep.contains((r, b, e, true))
                }
                &&& {
                    ||| e == t + 1
                    ||| rep.contains((r, t, (e - 1) as u32, true))
                    ||| rep.contains((r, t, e, true))
                }
            }),
        ensures
            final(self).wf(),
            final(self).path_length == old(self).path_length,
            final(self).reports == old(self).reports,
            final(self).windows@ == old(self).windows@.push(
                SubPath { start_index: old(self).best_cut, end_index: old(self).stop },
            ),
            final(self).spec_state() == (
                Phase::Whole,
                (old(self).best_cut + 1) as u32,
                (old(self).path_length - 1) as u32,
                old(self).low,
                old(self).high,
                old(self).best_cut,
            ),
    {
        let w = SubPath { start_index: self.best_cut, end_index: self.stop };
        let ghost ws = self.windows@;
        let ghost r = ws.len() as int;
        let ghost t = self.start;
        self.windows.push(w);
        self.start = self.best_cut + 1;
        self.stop = self.path_length - 1;
        self.phase = Phase::Whole;
        proof {
            lemma_reported_push(ws, self.path_length, self.reports@, t, w);
        }
    }

    fn record_whole(&mut self, optimal: bool)
        requires
            old(self).wf(),
            old(self).phase == Phase::Whole,
            old(self).spec_action() is Query,
        ensures
            old(self).steps_to(*final(self), optimal),
    {
        let ghost r = self.windows@.len() as int;
        proof {
            lemma_reported_insert(self.windows@, self.path_length, self.reports@, (r, self.start, self.stop, optimal));
        }
        self.reports = Ghost(self.reports@.insert((r, self.start, self.stop, optimal)));
        if optimal {
            self.phase = Phase::Finished;
        } else {
            self.low = self.start;
            self.high = self.path_length;
            self.best_cut = self.stop;
            self.phase = Phase::Forward;
            self.normalize_forward();
        }
    }

    fn record_forward(&mut self, optimal: bool)
        requires
            old(self).wf(),
            old(self).phase == Phase::Forward,
        ensures
            old(self).steps_to(*final(self), optimal),
    {
        let ghost r = self.windows@.len() as int;
        let m = self.low + (self.high - self.low) / 2;
        proof {
            lemma_reported_insert(self.windows@, self.path_length, self.reports@, (r, self.start, m, optimal));
        }
        self.reports = Ghost(self.reports@.insert((r, self.start, m, optimal)));
        if optimal {
            self.low = m + 1;
        } else {
            if m < self.best_cut {
                self.best_cut = m;
            }
            self.high = m;
        }
        if self.low >= self.high {
            let stop = self.best_cut;
            self.enter_backward(stop);
        } else {
            self.normalize_forward();
        }
    }

    fn record_backward(&mut self, optimal: bool)
        requires
            old(self).wf(),
            old(self).phase == Phase::Backward,
        ensures
            old(self).steps_to(*final(self), optimal),
    {
        let ghost r = self.windows@.len() as int;
        let m = self.low + (self.high - self.low) / 2;
        proof {
            lemma_reported_insert(self.windows@, self.path_length, self.reports@, (r, m, self.stop, optimal));
        }
        self.reports = Ghost(self.reports@.insert((r, m, self.stop, optimal)));
        if optimal {
            self.high = m;
        } else {
            if m > self.best_cut {
                self.best_cut = m;
            }
            self.low = m + 1;
        }
        if self.low >= self.high {
            self.finish_round();
        }
    }

    /// Reports whether the queried segment is optimal; the search moves on
    /// as `next_state` says.
    pub fn record(&mut self, optimal: bool)
        requires
            old(self).wf(),
            old(self).spec_action() is Query,
        ensures
            final(self).wf(),
            final(self).spec_path_length() == old(self).spec_path_length(),
            ({
                let (source, target) = match old(self).spec_action() {
                    SearchAction::Query { source, target } => (source, target),
                    _ => (0u32, 0u32),
                };
                final(self).spec_reports() == old(self).spec_reports().insert(
                    (old(self).spec_windows().len() as int, source, target, optimal),
                )
            }),
            ({
                let (st, w) = next_state(old(self).spec_state(), old(self).spec_path_length(), optimal);
                &&& final(self).spec_state() == st
                &&& final(self).spec_windows() == match w {
                    Some(x) => old(self).spec_windows().push(x),
                    None => old(self).spec_windows(),
                }
            }),
            ({
                let (p0, s0, _, l0, h0, _) = old(self).spec_state();
                let (p1, s1, _, l1, h1, _) = final(self).spec_state();
                s1 > s0 || (s1 == s0 && (phase_rank(p1) > phase_rank(p0) || (p1 == p0 && h1 - l1 < h0 - l0)))
            }),
    {
        match self.phase {
            Phase::Whole => self.record_whole(optimal),
            Phase::Forward => self.record_forward(optimal),
            Phase::Backward => self.record_backward(optimal),
            Phase::Finished => {},
        }
    }

    /// In the forward search, a window that has shrunk to the start itself
    /// ends the search with a window of a single edge.
    fn normalize_forward(&mut self)
        requires
            old(self).rounds_ok(),
            old(self).phase == Phase::Forward,
            ({
                let (t, l, h, b, pl) = (old(self).start, old(self).low, old(self).high, old(self).best_cut, old(self).path_length);
                let r = old(self).windows@.len() as int;
                &&& t + 1 < pl
                &&& t <= l < h <= pl
                &&& (h == pl && b + 1 == pl) || (h < pl && b == h)
                &&& t < b < pl
                &&& old(self).reports@.contains((r, t, b, false))
                &&& l == t || old(self).reports@.contains((r, t, (l - 1) as u32, true))
            }),
        ensures
            final(self).wf(),
            final(self).spec_state() == forward_or_backward(
                old(self).start,
                old(self).stop,
                old(self).low,
                old(self).high,
                old(self).best_cut,
            ),
            final(self).path_length == old(self).path_length,
            final(self).windows == old(self).windows,
            final(self).reports == old(self).reports,
    {
        let m = self.low + (self.high - self.low) / 2;
        if m == self.start {
            let stop = self.start + 1;
            self.enter_backward(stop);
        }
    }
}

/// Once the search is complete, the windows lie inside the path, start at
/// increasing nodes, and each spans a single edge or was reported not
/// optimal; the rest of the path after the last window start was reported
/// optimal, or is a single node.
pub proof fn lemma_non_optimal_search_complete(s: NonOptimalSearch)
    requires
        s.wf(),
        s.spec_action() == SearchAction::Done,
    ensures
        windows_are_reported(s.spec_windows(), s.spec_path_length(), s.spec_reports()),
        s.spec_start() + 1 >= s.spec_path_length() || s.spec_reports().contains(
            (
                s.spec_windows().len() as int,
                s.spec_start(),
                (s.spec_path_length() - 1) as u32,
                true,
            ),
        ),
{
}

/// The answers given to the search agree with the optimality test `opt`.
pub open spec fn consistent_with(reports: Set<(int, u32, u32, bool)>, opt: spec_fn(u32, u32) -> bool) -> bool {
    forall|k: int, a: u32, b: u32, v: bool| #[trigger] reports.contains((k, a, b, v)) ==> v == opt(a, b)
}

/// Every segment inside an optimal segment of the path is optimal, and so
/// is every single edge.
pub open spec fn monotone_optimality(opt: spec_fn(u32, u32) -> bool, path_length: u32) -> bool {
    &&& forall|a: u32, b: u32, c: u32, d: u32|
        #![trigger opt(a, b), opt(c, d)]
        a <= c && c <= d && d <= b && b < path_length && opt(a, b) ==> opt(c, d)
    &&& forall|a: u32| a + 1 < path_length ==> #[trigger] opt(a, (a + 1) as u32)
}

/// The segment `s..e` is not optimal, while the segments one node shorter
/// at either end are.
pub open spec fn is_minimal_non_optimal(opt: spec_fn(u32, u32) -> bool, s: u32, e: u32) -> bool {
    &&& s < e
    &&& !opt(s, e)
    &&& opt((s + 1) as u32, e)
    &&& opt(s, (e - 1) as u32)
}

proof fn lemma_sub_optimal(opt: spec_fn(u32, u32) -> bool, pl: u32, a: u32, b: u32, c: u32, d: u32)
    requires
        monotone_optimality(opt, pl),
        a <= c <= d <= b < pl,
        opt(a, b),
    ensures
        opt(c, d),
{
}

/// What each window rests on, read with a consistent optimality test.
proof fn lemma_window_facts(
    ws: Seq<SubPath>,
    pl: u32,
    rep: Set<(int, u32, u32, bool)>,
    opt: spec_fn(u32, u32) -> bool,
    k: int,
)
    requires
        windows_are_reported(ws, pl, rep),
        consistent_with(rep, opt),
        monotone_optimality(opt, pl),
        0 <= k < ws.len(),
    ensures
        ws[k].end_index < pl,
        round_start(ws, k) <= ws[k].start_index,
        is_minimal_non_optimal(opt, ws[k].start_index, ws[k].end_index),
        opt(round_start(ws, k), (ws[k].end_index - 1) as u32),
{
    reveal(windows_are_reported);
    let w = ws[k];
    let (s, e) = (w.start_index, w.end_index);
    let t = round_start(ws, k);
    assert(rep.contains((k, s, e, false)));
    assert(!opt(s, e));
    if s + 1 == e {
        assert(opt(s, (s + 1) as u32));
        assert(false);
    }
    if rep.contains((k, s, e, true)) {
        assert(false);
    }
    if rep.contains((k, t, e, true)) {
        lemma_sub_optimal(opt, pl, t, e, s, e);
        assert(false);
    }
    if e == t + 1 {
        assert(s == t);
        assert(opt(s, (s + 1) as u32));
        assert(false);
    }
    assert(rep.contains((k, (s + 1) as u32, e, true)));
    assert(rep.contains((k, t, (e - 1) as u32, true)));
    lemma_sub_optimal(opt, pl, t, (e - 1) as u32, s, (e - 1) as u32);
}

/// Some round starts at or before `a` while the next starts after it.
proof fn lemma_find_round(ws: Seq<SubPath>, a: u32, n: int)
    requires
        0 <= n <= ws.len(),
        round_start(ws, n) > a,
    ensures
        exists|k: int| 0 <= k < n && round_start(ws, k) <= a && a < #[trigger] round_start(ws, k + 1),
    decreases n,
{
    if n > 0 && round_start(ws, n - 1) > a {
        lemma_find_round(ws, a, n - 1);
    } else if n > 0 {
        assert(round_start(ws, (n - 1) + 1) > a);
    }
}

/// Where the answers agree with an optimality test under which segments
/// inside optimal ones and single edges are optimal, the completed search
/// finds exactly the minimal non-optimal windows: each window is one, their
/// starts and ends increase strictly, every minimal non-optimal window of
/// the path is among them, and there are none exactly when the whole path
/// is optimal.
pub proof fn lemma_non_optimal_search_minimal(s: NonOptimalSearch, opt: spec_fn(u32, u32) -> bool)
    requires
        s.wf(),
        s.spec_action() == SearchAction::Done,
        consistent_with(s.spec_reports(), opt),
        monotone_optimality(opt, s.spec_path_length()),
    ensures
        ({
            let ws = s.spec_windows();
            let pl = s.spec_path_length();
            &&& forall|k: int|
                0 <= k < ws.len() ==> (#[trigger] ws[k]).end_index < pl && is_minimal_non_optimal(
                    opt,
                    ws[k].start_index,
                    ws[k].end_index,
                )
            &&& forall|i: int, j: int|
                0 <= i < j < ws.len() ==> (#[trigger] ws[i]).start_index < (#[trigger] ws[j]).start_index
                    && ws[i].end_index < ws[j].end_index
            &&& forall|a: u32, b: u32|
                b < pl && #[trigger] is_minimal_non_optimal(opt, a, b) ==> exists|k: int|
                    0 <= k < ws.len() && #[trigger] ws[k] == SubPath { start_index: a, end_index: b }
            &&& (ws.len() == 0 <==> (pl <= 1 || opt(0, (pl - 1) as u32)))
        }),
{
    let ws = s.spec_windows();
    let pl = s.spec_path_length();
    let rep = s.spec_reports();
    let n = ws.len() as int;
    lemma_non_optimal_search_complete(s);
    assert(s.spec_start() == round_start(ws, n)) by {
        reveal(windows_are_reported);
    }
    assert forall|k: int| 0 <= k < ws.len() implies (#[trigger] ws[k]).end_index < pl
        && is_minimal_non_optimal(opt, ws[k].start_index, ws[k].end_index) by {
        lemma_window_facts(ws, pl, rep, opt, k);
    }
    assert forall|i: int, j: int| 0 <= i < j < ws.len() implies (#[trigger] ws[i]).start_index
        < (#[trigger] ws[j]).start_index && ws[i].end_index < ws[j].end_index by {
        reveal(windows_are_reported);
        lemma_window_facts(ws, pl, rep, opt, i);
        lemma_window_facts(ws, pl, rep, opt, j);
        if ws[j].end_index <= ws[i].end_index {
            lemma_sub_optimal(
                opt,
                pl,
                (ws[i].start_index + 1) as u32,
                ws[i].end_index,
                ws[j].start_index,
                ws[j].end_index,
            );
        }
    }
    let t_n = s.spec_start();
    assert forall|a: u32, b: u32|
        b < pl && #[trigger] is_minimal_non_optimal(opt, a, b) implies exists|k: int|
        0 <= k < ws.len() && #[trigger] ws[k] == SubPath { start_index: a, end_index: b } by {
        if a >= t_n {
            if t_n + 1 < pl {
                assert(rep.contains((n, t_n, (pl - 1) as u32, true)));
                lemma_sub_optimal(opt, pl, t_n, (pl - 1) as u32, a, b);
            }
        }
        lemma_find_round(ws, a, n);
        let k = choose|k: int| 0 <= k < n && round_start(ws, k) <= a && a < #[trigger] round_start(ws, k + 1);
        lemma_window_facts(ws, pl, rep, opt, k);
        let (sk, ek) = (ws[k].start_index, ws[k].end_index);
        let tk = round_start(ws, k);
        assert(round_start(ws, k + 1) == sk + 1);
        if b < ek {
            lemma_sub_optimal(opt, pl, tk, (ek - 1) as u32, a, b);
        }
        if b > ek {
            lemma_sub_optimal(opt, pl, a, (b - 1) as u32, sk, ek);
        }
        if a < sk {
            lemma_sub_optimal(opt, pl, (a + 1) as u32, b, sk, ek);
        }
        assert(ws[k] == SubPath { start_index: a, end_index: b });
    }
    if n == 0 {
        assert(round_start(ws, 0) == 0);
    } else {
        lemma_window_facts(ws, pl, rep, opt, 0);
        if opt(0, (pl - 1) as u32) {
            lemma_sub_optimal(opt, pl, 0, (pl - 1) as u32, ws[0].start_index, ws[0].end_index);
        }
    }
}

} // verus!
