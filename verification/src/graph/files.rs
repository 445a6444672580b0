//! The two line-based text formats of contracted road networks.
//!
//! Both list a header, then the nodes, then the edges, one per line; a line
//! whose first token is `#` is skipped. An edge line ends with the two
//! edges a shortcut replaces, or `-1` and a placeholder for a road
//! edge. Cost values stay text here: they are decimal fractions.
use vstd::prelude::*;

use super::{Edge, Node};
use crate::graphml::{
    keep_last_declarations, keys_view, last_declarations, lemma_type_names_differ, AttributeType,
    GraphObject, GraphmlAttribute, KeyView,
};
use crate::names::NameIndex;
use crate::text::{lemma_parse_unsigned_range, chars_of, parse_unsigned, parse_unsigned_chars, spans_of, split_on_space,
    split_spaces, split_whitespace, substring, token_spans};
use crate::EDGE_COST_DIMENSION;

verus! {

/// Why a graph file could not be read.
#[derive(Debug, PartialEq, Eq, Structural)]
pub enum GraphFileError {
    /// The line with this index, which the header calls for, is missing.
    MissingLine { line: usize },
    /// A token or header line on this line is not a number of the type the
    /// format calls for.
    BadNumber { line: usize },
    /// The header declares a number of cost metrics other than
    /// `EDGE_COST_DIMENSION`.
    WrongDimension,
    /// The metric name line does not name `EDGE_COST_DIMENSION` metrics.
    WrongMetricCount,
    /// A node or edge line lacks tokens that the format calls for.
    TooFewTokens { line: usize },
    /// A node or edge line comes after all declared nodes and edges.
    TooManyLines { line: usize },
    /// No line ends the leading comment block.
    NoHeaderEnd,
}

impl GraphFileError {
    /// Whether the error stands for a malformed file rather than a number
    /// that does not parse: the readers give up on such a file outright.
    pub fn is_malformed(&self) -> (b: bool)
        ensures
            b == !(self is BadNumber),
    {
        match self {
            GraphFileError::BadNumber { .. } => false,
            _ => true,
        }
    }
}

/// What a graph file holds: the metric declarations (none in the full
/// format), the nodes, the edges with their costs as text, and the edge
/// names in file order (none in the full format).
pub struct GraphFileContents {
    /// The metric declarations by name, one per name: the last one, in
    /// declaration order.
    pub keys: Vec<(String, GraphmlAttribute)>,
    pub nodes: Vec<Node>,
    pub edges: Vec<Edge<Vec<String>>>,
    pub edge_lookup: NameIndex,
}

/// The lines of a file, as character sequences.
pub open spec fn line_views(lines: Seq<String>) -> Seq<Seq<char>> {
    lines.map_values(|l: String| l@)
}

/// An edge whose costs are text, by the views of its texts.
pub open spec fn text_edge_view(e: Edge<Vec<String>>) -> Edge<Seq<Seq<char>>> {
    Edge {
        id: e.id,
        source_id: e.source_id,
        target_id: e.target_id,
        edge_costs: e.edge_costs@.map_values(|s: String| s@),
        replaced_edges: e.replaced_edges,
    }
}

/// A token read as a `u32`.
pub open spec fn u32_token(t: Seq<char>) -> Option<int> {
    parse_unsigned(t, u32::MAX as int)
}

/// The replaced edges an edge line names in its last two tokens: `-1` for
/// none; `None` where the two tokens are not numbers.
pub open spec fn replaced_of(t: Seq<Seq<char>>) -> Option<Option<(u32, u32)>> {
    let a = t[t.len() - 2];
    let b = t[t.len() - 1];
    if a == seq!['-', '1'] {
        Some(None)
    } else {
        match (u32_token(a), u32_token(b)) {
            (Some(x), Some(y)) => Some(Some((x as u32, y as u32))),
            _ => None,
        }
    }
}

/// The node a node line describes. In the minimal format: the id, then
/// the level, which is 0 where it is not a number. In the full format:
/// the id, and the level as the sixth token.
pub open spec fn node_of_tokens(t: Seq<Seq<char>>, minimal: bool, at: usize) -> Result<
    Node,
    GraphFileError,
> {
    match u32_token(t[0]) {
        None => Err(GraphFileError::BadNumber { line: at }),
        Some(id) => if minimal {
            if t.len() < 2 {
                Err(GraphFileError::TooFewTokens { line: at })
            } else {
                Ok(
                    Node {
                        id: id as u32,
                        ch_level: match u32_token(t[1]) {
                            Some(v) => v as u32,
                            None => 0,
                        },
                    },
                )
            }
        } else {
            if t.len() < 6 {
                Err(GraphFileError::TooFewTokens { line: at })
            } else {
                match u32_token(t[5]) {
                    None => Err(GraphFileError::BadNumber { line: at }),
                    Some(v) => Ok(Node { id: id as u32, ch_level: v as u32 }),
                }
            }
        },
    }
}

/// The position of the source token on an edge line: after the edge's
/// name in the minimal format, first in the full format.
pub open spec fn source_token(minimal: bool) -> int {
    if minimal {
        1
    } else {
        0
    }
}

/// The edge an edge line describes, with the id `id`: source, target, the
/// cost tokens, and the replaced edges at the end.
pub open spec fn edge_of_tokens(t: Seq<Seq<char>>, minimal: bool, id: u32, at: usize) -> Result<
    Edge<Seq<Seq<char>>>,
    GraphFileError,
> {
    let s = source_token(minimal);
    if t.len() < 2 {
        Err(GraphFileError::TooFewTokens { line: at })
    } else {
        match replaced_of(t) {
            None => Err(GraphFileError::BadNumber { line: at }),
            Some(rep) => match u32_token(t[s]) {
                None => Err(GraphFileError::BadNumber { line: at }),
                Some(src) => if t.len() < s + 2 {
                    Err(GraphFileError::TooFewTokens { line: at })
                } else {
                    match u32_token(t[s + 1]) {
                        None => Err(GraphFileError::BadNumber { line: at }),
                        Some(tgt) => if t.len() < s + 4 {
                            Err(GraphFileError::TooFewTokens { line: at })
                        } else {
                            Ok(
                                Edge {
                                    id,
                                    source_id: src as u32,
                                    target_id: tgt as u32,
                                    edge_costs: t.subrange(s + 2, t.len() - 2),
                                    replaced_edges: rep,
                                },
                            )
                        },
                    }
                },
            },
        }
    }
}

/// The nodes, edges and edge names read so far.
pub type BodyState = (Seq<Node>, Seq<Edge<Seq<Seq<char>>>>, Seq<Seq<char>>);

/// One line of the body, read after `st`: a comment line changes nothing;
/// otherwise the line is a node line while fewer than `nn` nodes are read,
/// then an edge line while fewer than `ne` edges are read.
pub open spec fn body_line(
    l: Seq<char>,
    at: usize,
    minimal: bool,
    nn: int,
    ne: int,
    st: BodyState,
) -> Result<BodyState, GraphFileError> {
    let t = split_whitespace(l);
    if t.len() == 0 {
        Err(GraphFileError::TooFewTokens { line: at })
    } else if t[0] == seq!['#'] {
        Ok(st)
    } else if st.0.len() < nn {
        match node_of_tokens(t, minimal, at) {
            Ok(n) => Ok((st.0.push(n), st.1, st.2)),
            Err(e) => Err(e),
        }
    } else if st.1.len() < ne {
        match edge_of_tokens(t, minimal, st.1.len() as u32, at) {
            Ok(e) => Ok(
                (
                    st.0,
                    st.1.push(e),
                    if minimal {
                        st.2.push(t[0])
                    } else {
                        st.2
                    },
                ),
            ),
            Err(e) => Err(e),
        }
    } else {
        Err(GraphFileError::TooManyLines { line: at })
    }
}

/// An edge line, in either format, whose last two tokens are the numbers
/// `x` and `y`, the first of them not `-1`, describes an edge that replaces
/// the edges `x` and `y`, in token order; one whose second-to-last token is
/// `-1` describes a road edge.
pub proof fn lemma_edge_line_replaces_in_token_order(
    t: Seq<Seq<char>>,
    minimal: bool,
    id: u32,
    at: usize,
)
    requires
        edge_of_tokens(t, minimal, id, at) is Ok,
    ensures
        t.len() >= 2,
        t[t.len() - 2] == seq!['-', '1'] ==> edge_of_tokens(t, minimal, id, at)->Ok_0.replaced_edges
            is None,
        t[t.len() - 2] != seq!['-', '1'] ==> {
            &&& u32_token(t[t.len() - 2]) is Some
            &&& u32_token(t[t.len() - 1]) is Some
            &&& edge_of_tokens(t, minimal, id, at)->Ok_0.replaced_edges == Some(
                (
                    u32_token(t[t.len() - 2])->Some_0 as u32,
                    u32_token(t[t.len() - 1])->Some_0 as u32,
                ),
            )
        },
{
}

/// Reading an edge line of the body appends one edge, which replaces the
/// edges that the line's last two tokens name, in token order (none where
/// the second-to-last token is `-1`).
pub proof fn lemma_body_edge_line_replaces_in_token_order(
    l: Seq<char>,
    at: usize,
    minimal: bool,
    nn: int,
    ne: int,
    st: BodyState,
)
    requires
        body_line(l, at, minimal, nn, ne, st) is Ok,
        split_whitespace(l).len() > 0,
        split_whitespace(l)[0] != seq!['#'],
        st.0.len() >= nn,
    ensures
        ({
            let t = split_whitespace(l);
            let st2 = body_line(l, at, minimal, nn, ne, st)->Ok_0;
            let e = st2.1.last();
            &&& st2.1.len() == st.1.len() + 1
            &&& st2.1.drop_last() == st.1
            &&& t[t.len() - 2] == seq!['-', '1'] ==> e.replaced_edges is None
            &&& t[t.len() - 2] != seq!['-', '1'] ==> e.replaced_edges == Some(
                (
                    u32_token(t[t.len() - 2])->Some_0 as u32,
                    u32_token(t[t.len() - 1])->Some_0 as u32,
                ),
            )
        }),
{
    let t = split_whitespace(l);
    lemma_edge_line_replaces_in_token_order(t, minimal, st.1.len() as u32, at);
    let st2 = body_line(l, at, minimal, nn, ne, st)->Ok_0;
    assert(st2.1 == st.1.push(edge_of_tokens(t, minimal, st.1.len() as u32, at)->Ok_0));
    assert(st2.1.drop_last() =~= st.1);
}

/// A node line gives the node whose id is its first token; its level is the
/// second token in the minimal format (0 where that is not a number) and
/// the sixth in the full format.
pub proof fn lemma_node_line_fields(t: Seq<Seq<char>>, minimal: bool, at: usize)
    requires
        node_of_tokens(t, minimal, at) is Ok,
    ensures
        ({
            let n = node_of_tokens(t, minimal, at)->Ok_0;
            &&& u32_token(t[0]) == Some(n.id as int)
            &&& minimal ==> t.len() >= 2 && n.ch_level == match u32_token(t[1]) {
                Some(v) => v as u32,
                None => 0u32,
            }
            &&& !minimal ==> t.len() >= 6 && u32_token(t[5]) == Some(n.ch_level as int)
        }),
{
    lemma_parse_unsigned_range(t[0], u32::MAX as int);
    if t.len() > 1 {
        lemma_parse_unsigned_range(t[1], u32::MAX as int);
    }
    if t.len() > 5 {
        lemma_parse_unsigned_range(t[5], u32::MAX as int);
    }
}

/// An edge line gives the edge with the id it is read under, whose source
/// and target are the two tokens after the name (minimal format) or the
/// first two tokens (full format), and whose costs are the tokens between
/// those and the last two.
pub proof fn lemma_edge_line_fields(t: Seq<Seq<char>>, minimal: bool, id: u32, at: usize)
    requires
        edge_of_tokens(t, minimal, id, at) is Ok,
    ensures
        ({
            let e = edge_of_tokens(t, minimal, id, at)->Ok_0;
            let s: int = if minimal { 1 } else { 0 };
            &&& e.id == id
            &&& t.len() >= s + 4
            &&& u32_token(t[s]) == Some(e.source_id as int)
            &&& u32_token(t[s + 1]) == Some(e.target_id as int)
            &&& e.edge_costs == t.subrange(s + 2, t.len() - 2)
        }),
{
    let s: int = if minimal { 1 } else { 0 };
    if t.len() > s {
        lemma_parse_unsigned_range(t[s], u32::MAX as int);
    }
    if t.len() > s + 1 {
        lemma_parse_unsigned_range(t[s + 1], u32::MAX as int);
    }
}

/// The body lines `first..k`, read in order; the first error ends it.
pub open spec fn body_upto(
    lines: Seq<Seq<char>>,
    first: int,
    k: int,
    minimal: bool,
    nn: int,
    ne: int,
) -> Result<BodyState, GraphFileError>
    decreases k - first,
{
    if k <= first {
        Ok((Seq::empty(), Seq::empty(), Seq::empty()))
    } else {
        match body_upto(lines, first, k - 1, minimal, nn, ne) {
            Err(e) => Err(e),
            Ok(st) => body_line(lines[k - 1], (k - 1) as usize, minimal, nn, ne, st),
        }
    }
}

/// The header line at `i`, read as an unsigned number no larger than `max`.
pub open spec fn header_number(lines: Seq<Seq<char>>, i: int, max: int) -> Result<
    int,
    GraphFileError,
> {
    if i >= lines.len() {
        Err(GraphFileError::MissingLine { line: i as usize })
    } else {
        match parse_unsigned(lines[i], max) {
            None => Err(GraphFileError::BadNumber { line: i as usize }),
            Some(v) => Ok(v),
        }
    }
}

/// The header of the full format: four lines that are skipped, the number
/// of cost metrics, the number of nodes and the number of edges. Gives
/// where the body starts and the two counts.
pub open spec fn full_header(lines: Seq<Seq<char>>) -> Result<(int, int, int), GraphFileError> {
    match header_number(lines, 4, usize::MAX as int) {
        Err(e) => Err(e),
        Ok(dim) => if dim != EDGE_COST_DIMENSION {
            Err(GraphFileError::WrongDimension)
        } else {
            match header_number(lines, 5, usize::MAX as int) {
                Err(e) => Err(e),
                Ok(nn) => match header_number(lines, 6, u32::MAX as int) {
                    Err(e) => Err(e),
                    Ok(ne) => Ok((7, nn, ne)),
                },
            }
        },
    }
}

/// The first line at or after `i` that does not start with `#`.
pub open spec fn first_non_comment(lines: Seq<Seq<char>>, i: int) -> Option<int>
    decreases lines.len() - i,
{
    if i < 0 || i >= lines.len() {
        None
    } else if lines[i].len() > 0 && lines[i][0] == '#' {
        first_non_comment(lines, i + 1)
    } else {
        Some(i)
    }
}

/// The header of the minimal format: comment lines starting with `#`, one
/// more line that is skipped, the number of cost metrics, the metric
/// names separated by single spaces, the number of nodes and the number
/// of edges. Gives where the body starts, the names and the two counts.
pub open spec fn minimal_header(lines: Seq<Seq<char>>) -> Result<
    (int, Seq<Seq<char>>, int, int),
    GraphFileError,
> {
    match first_non_comment(lines, 0) {
        None => Err(GraphFileError::NoHeaderEnd),
        Some(h) => match header_number(lines, h + 1, usize::MAX as int) {
            Err(e) => Err(e),
            Ok(dim) => if dim != EDGE_COST_DIMENSION {
                Err(GraphFileError::WrongDimension)
            } else if h + 2 >= lines.len() {
                Err(GraphFileError::MissingLine { line: (h + 2) as usize })
            } else if split_on_space(lines[h + 2]).len() != EDGE_COST_DIMENSION {
                Err(GraphFileError::WrongMetricCount)
            } else {
                match header_number(lines, h + 3, usize::MAX as int) {
                    Err(e) => Err(e),
                    Ok(nn) => match header_number(lines, h + 4, u32::MAX as int) {
                        Err(e) => Err(e),
                        Ok(ne) => Ok((h + 5, split_on_space(lines[h + 2]), nn, ne)),
                    },
                }
            },
        },
    }
}

/// The full format: the nodes and edges that the header and body give.
pub open spec fn full_graph_file(lines: Seq<Seq<char>>) -> Result<BodyState, GraphFileError> {
    match full_header(lines) {
        Err(e) => Err(e),
        Ok((b, nn, ne)) => body_upto(lines, b, lines.len() as int, false, nn, ne),
    }
}

/// The minimal format: the metric names, and the nodes, edges and edge
/// names that the header and body give.
pub open spec fn minimal_graph_file(lines: Seq<Seq<char>>) -> Result<
    (Seq<Seq<char>>, BodyState),
    GraphFileError,
> {
    match minimal_header(lines) {
        Err(e) => Err(e),
        Ok((b, names, nn, ne)) => match body_upto(lines, b, lines.len() as int, true, nn, ne) {
            Err(e) => Err(e),
            Ok(st) => Ok((names, st)),
        },
    }
}

/// The view of what the body reader has built.
pub open spec fn body_view(
    nodes: Seq<Node>,
    edges: Seq<Edge<Vec<String>>>,
    names: Seq<Seq<char>>,
) -> BodyState {
    (nodes, edges.map_values(|e: Edge<Vec<String>>| text_edge_view(e)), names)
}

fn span_u32(cs: &Vec<char>, sp: (usize, usize)) -> (r: Option<u32>)
    requires
        sp.0 <= sp.1 <= cs@.len(),
    ensures
        r matches Some(v) ==> u32_token(cs@.subrange(sp.0 as int, sp.1 as int)) == Some(v as int),
        r is None ==> u32_token(cs@.subrange(sp.0 as int, sp.1 as int)) is None,
{
    match parse_unsigned_chars(cs, sp.0, sp.1, u32::MAX as u64) {
        Some(v) => Some(v as u32),
        None => None,
    }
}

fn span_is_hash(cs: &Vec<char>, sp: (usize, usize)) -> (b: bool)
    requires
        sp.0 <= sp.1 <= cs@.len(),
    ensures
        b == (cs@.subrange(sp.0 as int, sp.1 as int) == seq!['#']),
{
    let ghost t = cs@.subrange(sp.0 as int, sp.1 as int);
    if sp.1 - sp.0 != 1 {
        assert(t.len() != 1);
        return false;
    }
    let b = cs[sp.0] == '#';
    assert(b ==> t =~= seq!['#']);
    assert(t[0] == cs@[sp.0 as int]);
    b
}

fn span_is_minus_one(cs: &Vec<char>, sp: (usize, usize)) -> (b: bool)
    requires
        sp.0 <= sp.1 <= cs@.len(),
    ensures
        b == (cs@.subrange(sp.0 as int, sp.1 as int) == seq!['-', '1']),
{
    let ghost t = cs@.subrange(sp.0 as int, sp.1 as int);
    if sp.1 - sp.0 != 2 {
        assert(t.len() != 2);
        return false;
    }
    let b = cs[sp.0] == '-' && cs[sp.0 + 1] == '1';
    assert(b ==> t =~= seq!['-', '1']);
    assert(t[0] == cs@[sp.0 as int] && t[1] == cs@[sp.0 + 1]);
    b
}

/// Reads one body line into `nodes`, `edges` and `names`.
fn read_body_line(
    line: &String,
    at: usize,
    minimal: bool,
    nn: usize,
    ne: u32,
    nodes: &mut Vec<Node>,
    edges: &mut Vec<Edge<Vec<String>>>,
    names: &mut NameIndex,
) -> (r: Result<(), GraphFileError>)
    requires
        old(names).wf(),
        old(names)@.len() <= old(edges)@.len(),
    ensures
        match body_line(
            line@,
            at,
            minimal,
            nn as int,
            ne as int,
            body_view(old(nodes)@, old(edges)@, old(names)@),
        ) {
            Ok(st) => r is Ok && body_view(final(nodes)@, final(edges)@, final(names)@) == st
                && final(names).wf() && final(names)@.len() <= final(edges)@.len(),
            Err(e) => r == Err::<(), GraphFileError>(e),
        },
{
    let ghost st = body_view(nodes@, edges@, names@);
    let cs = chars_of(line.as_str());
    let spans = token_spans(&cs);
    let ghost t = split_whitespace(line@);
    assert(spans_of(cs@, spans@, t));
    let n = spans.len();
    if n == 0 {
        return Err(GraphFileError::TooFewTokens { line: at });
    }
    assert(t[0] == cs@.subrange(spans@[0].0 as int, spans@[0].1 as int));
    if span_is_hash(&cs, spans[0]) {
        return Ok(());
    }
    if nodes.len() < nn {
        let id = match span_u32(&cs, spans[0]) {
            None => {
                return Err(GraphFileError::BadNumber { line: at });
            },
            Some(v) => v,
        };
        let level = if minimal {
            if n < 2 {
                return Err(GraphFileError::TooFewTokens { line: at });
            }
            assert(t[1] == cs@.subrange(spans@[1].0 as int, spans@[1].1 as int));
            match span_u32(&cs, spans[1]) {
                Some(v) => v,
                None => 0,
            }
        } else {
            if n < 6 {
                return Err(GraphFileError::TooFewTokens { line: at });
            }
            assert(t[5] == cs@.subrange(spans@[5].0 as int, spans@[5].1 as int));
            match span_u32(&cs, spans[5]) {
                Some(v) => v,
                None => {
                    return Err(GraphFileError::BadNumber { line: at });
                },
            }
        };
        nodes.push(Node { id, ch_level: level });
        proof {
            assert(body_view(nodes@, edges@, names@).0 == st.0.push(Node { id, ch_level: level }));
        }
        return Ok(());
    }
    if edges.len() < ne as usize {
        if n < 2 {
            return Err(GraphFileError::TooFewTokens { line: at });
        }
        assert(t[n - 2] == cs@.subrange(spans@[n - 2].0 as int, spans@[n - 2].1 as int));
        assert(t[n - 1] == cs@.subrange(spans@[n - 1].0 as int, spans@[n - 1].1 as int));
        let replaced = if span_is_minus_one(&cs, spans[n - 2]) {
            None
        } else {
            match (span_u32(&cs, spans[n - 2]), span_u32(&cs, spans[n - 1])) {
                (Some(a), Some(b)) => Some((a, b)),
                _ => {
                    return Err(GraphFileError::BadNumber { line: at });
                },
            }
        };
        let s: usize = if minimal {
            1
        } else {
            0
        };
        assert(t[s as int] == cs@.subrange(spans@[s as int].0 as int, spans@[s as int].1 as int));
        let source = match span_u32(&cs, spans[s]) {
            None => {
                return Err(GraphFileError::BadNumber { line: at });
            },
            Some(v) => v,
        };
        if n < s + 2 {
            return Err(GraphFileError::TooFewTokens { line: at });
        }
        assert(t[s + 1] == cs@.subrange(spans@[s + 1].0 as int, spans@[s + 1].1 as int));
        let target = match span_u32(&cs, spans[s + 1]) {
            None => {
                return Err(GraphFileError::BadNumber { line: at });
            },
            Some(v) => v,
        };
        if n < s + 4 {
            return Err(GraphFileError::TooFewTokens { line: at });
        }
        let mut costs: Vec<String> = Vec::new();
        let mut k = s + 2;
        while k < n - 2
            invariant
                s + 2 <= k <= n - 2,
                n == spans@.len(),
                spans_of(cs@, spans@, t),
                cs@ == line@,
                costs@.map_values(|c: String| c@) == t.subrange(s + 2, k as int),
            decreases n - 2 - k,
        {
            let (a, b) = spans[k];
            assert(t[k as int] == cs@.subrange(a as int, b as int));
            let text = substring(line.as_str(), a, b);
            let ghost before = costs@;
            costs.push(text);
            assert(costs@.map_values(|c: String| c@) =~= before.map_values(|c: String| c@).push(
                text@,
            ));
            assert(costs@.map_values(|c: String| c@) =~= t.subrange(s + 2, k + 1));
            k = k + 1;
        }
        let id = edges.len() as u32;
        let edge = Edge {
            id,
            source_id: source,
            target_id: target,
            edge_costs: costs,
            replaced_edges: replaced,
        };
        edges.push(edge);
        if minimal {
            let (a, b) = spans[0];
            let name = substring(line.as_str(), a, b);
            names.push(name);
        }
        proof {
            let v = body_view(nodes@, edges@, names@);
            assert(v.1 =~= st.1.push(text_edge_view(edge)));
            assert(text_edge_view(edge) == edge_of_tokens(t, minimal, id, at)->Ok_0);
        }
        return Ok(());
    }
    Err(GraphFileError::TooManyLines { line: at })
}

/// Once reading the body fails, reading more lines gives the same error.
proof fn lemma_body_error_persists(
    lines: Seq<Seq<char>>,
    first: int,
    k: int,
    k2: int,
    minimal: bool,
    nn: int,
    ne: int,
)
    requires
        first <= k <= k2,
        body_upto(lines, first, k, minimal, nn, ne) is Err,
    ensures
        body_upto(lines, first, k2, minimal, nn, ne) == body_upto(lines, first, k, minimal, nn, ne),
    decreases k2 - k,
{
    if k2 > k {
        lemma_body_error_persists(lines, first, k, k2 - 1, minimal, nn, ne);
    }
}

/// Reads the body lines `first..` of `lines`.
fn read_body(lines: &Vec<String>, first: usize, minimal: bool, nn: usize, ne: u32) -> (r: Result<
    (Vec<Node>, Vec<Edge<Vec<String>>>, NameIndex),
    GraphFileError,
>)
    requires
        first <= lines@.len(),
    ensures
        match body_upto(line_views(lines@), first as int, lines@.len() as int, minimal, nn as int, ne as int) {
            Ok(st) => r is Ok && body_view(r->Ok_0.0@, r->Ok_0.1@, r->Ok_0.2@) == st
                && r->Ok_0.2.wf(),
            Err(e) => r == Err::<(Vec<Node>, Vec<Edge<Vec<String>>>, NameIndex), GraphFileError>(e),
        },
{
    let ghost ls = line_views(lines@);
    let mut nodes: Vec<Node> = Vec::new();
    let mut edges: Vec<Edge<Vec<String>>> = Vec::new();
    let mut names = NameIndex::new();
    let mut i = first;
    proof {
        assert(body_view(nodes@, edges@, names@) =~= (Seq::empty(), Seq::empty(), Seq::empty()));
    }
    while i < lines.len()
        invariant
            first <= i <= lines@.len(),
            ls == line_views(lines@),
            names.wf(),
            names@.len() <= edges@.len(),
            body_upto(ls, first as int, i as int, minimal, nn as int, ne as int) == Ok::<
                BodyState,
                GraphFileError,
            >(body_view(nodes@, edges@, names@)),
        decreases lines@.len() - i,
    {
        assert(ls[i as int] == lines@[i as int]@);
        match read_body_line(&lines[i], i, minimal, nn, ne, &mut nodes, &mut edges, &mut names) {
            Ok(()) => {},
            Err(e) => {
                proof {
                    lemma_body_error_persists(
                        ls,
                        first as int,
                        i + 1,
                        lines@.len() as int,
                        minimal,
                        nn as int,
                        ne as int,
                    );
                }
                return Err(e);
            },
        }
        i = i + 1;
    }
    Ok((nodes, edges, names))
}

fn read_header_number(lines: &Vec<String>, i: usize, max: u64) -> (r: Result<u64, GraphFileError>)
    ensures
        r matches Ok(v) ==> header_number(line_views(lines@), i as int, max as int) == Ok::<
            int,
            GraphFileError,
        >(v as int) && i < lines@.len() && v <= max,
        r matches Err(e) ==> header_number(line_views(lines@), i as int, max as int) == Err::<
            int,
            GraphFileError,
        >(e),
{
    if i >= lines.len() {
        return Err(GraphFileError::MissingLine { line: i });
    }
    let cs = chars_of(lines[i].as_str());
    assert(cs@.subrange(0, cs@.len() as int) =~= line_views(lines@)[i as int]);
    match parse_unsigned_chars(&cs, 0, cs.len(), max) {
        None => Err(GraphFileError::BadNumber { line: i }),
        Some(v) => Ok(v),
    }
}

fn find_first_non_comment(lines: &Vec<String>) -> (r: Option<usize>)
    ensures
        r matches Some(h) ==> first_non_comment(line_views(lines@), 0) == Some(h as int) && h
            < lines@.len(),
        r is None ==> first_non_comment(line_views(lines@), 0) is None,
{
    let ghost ls = line_views(lines@);
    let mut i: usize = 0;
    while i < lines.len()
        invariant
            i <= lines@.len(),
            ls == line_views(lines@),
            first_non_comment(ls, 0) == first_non_comment(ls, i as int),
        decreases lines@.len() - i,
    {
        let cs = chars_of(lines[i].as_str());
        assert(cs@ == ls[i as int]);
        if cs.len() == 0 || cs[0] != '#' {
            return Some(i);
        }
        i = i + 1;
    }
    None
}

/// The declarations of the metrics `names`, in order: each is an edge
/// attribute of type `double`, named and keyed by its name, at its position
/// among the metrics.
pub open spec fn metric_declarations(names: Seq<Seq<char>>) -> Seq<KeyView> {
    Seq::new(
        names.len(),
        |k: int| (names[k], GraphObject::Edge, names[k], AttributeType::Double(k as usize)),
    )
}

/// The metric declarations as a map by name keeps them: for each name the
/// last declaration, in declaration order.
pub open spec fn metric_keys(keys: Seq<(String, GraphmlAttribute)>, names: Seq<Seq<char>>) -> bool {
    keys_view(keys) == last_declarations(metric_declarations(names))
}

/// What the reader gives for a file whose header and body read as `st`.
pub open spec fn contents_are(c: GraphFileContents, st: BodyState) -> bool {
    &&& body_view(c.nodes@, c.edges@, c.edge_lookup@) == st
    &&& c.edge_lookup.wf()
}

/// Reads a graph in the full format from its lines: the nodes, and the
/// edges with their costs as text, numbered in file order.
///
/// A malformed file (a dimension other than `EDGE_COST_DIMENSION`, a
/// missing header line, a line without the tokens it needs, more node and
/// edge lines than declared) gives an error for which `is_malformed` holds,
/// where a reader that cannot go on would stop the program: the library does
/// not panic, and the program around it stops on such an error. Fewer node
/// or edge lines than declared are accepted.
pub fn parse_graph_file(lines: &Vec<String>) -> (r: Result<GraphFileContents, GraphFileError>)
    ensures
        match full_graph_file(line_views(lines@)) {
            Ok(st) => r is Ok && contents_are(r->Ok_0, st) && r->Ok_0.keys@.len() == 0,
            Err(e) => r is Err && r->Err_0 == e,
        },
        header_number(line_views(lines@), 4, usize::MAX as int) matches Ok(dim) && dim
            != EDGE_COST_DIMENSION ==> r == Err::<GraphFileContents, GraphFileError>(
            GraphFileError::WrongDimension,
        ),
{
    let dim = match read_header_number(lines, 4, usize::MAX as u64) {
        Ok(v) => v,
        Err(e) => {
            return Err(e);
        },
    };
    if dim != EDGE_COST_DIMENSION as u64 {
        return Err(GraphFileError::WrongDimension);
    }
    let nn = match read_header_number(lines, 5, usize::MAX as u64) {
        Ok(v) => v as usize,
        Err(e) => {
            return Err(e);
        },
    };
    let ne = match read_header_number(lines, 6, u32::MAX as u64) {
        Ok(v) => v as u32,
        Err(e) => {
            return Err(e);
        },
    };
    match read_body(lines, 7, false, nn, ne) {
        Ok((nodes, edges, names)) => Ok(
            GraphFileContents { keys: Vec::new(), nodes, edges, edge_lookup: names },
        ),
        Err(e) => Err(e),
    }
}

/// Reads a graph in the minimal format from its lines: the metric
/// declarations, the nodes, the edges with their costs as text, numbered
/// in file order, and the edge names.
///
/// A malformed file (no line after the comments, a dimension other than
/// `EDGE_COST_DIMENSION`, a metric line without that many names, a missing
/// header line, a line without the tokens it needs, more node and edge
/// lines than declared) gives an error for which `is_malformed` holds,
/// where a reader that cannot go on would stop the program: the library
/// does not panic, and the program around it stops on such an error. Fewer
/// node or edge lines than declared are accepted.
pub fn parse_minimal_graph_file(lines: &Vec<String>) -> (r: Result<GraphFileContents, GraphFileError>)
    ensures
        match minimal_graph_file(line_views(lines@)) {
            Ok((names, st)) => r is Ok && contents_are(r->Ok_0, st) && metric_keys(
                r->Ok_0.keys@,
                names,
            ),
            Err(e) => r is Err && r->Err_0 == e,
        },
        first_non_comment(line_views(lines@), 0) is None ==> r == Err::<
            GraphFileContents,
            GraphFileError,
        >(GraphFileError::NoHeaderEnd),
        ({
            let ls = line_views(lines@);
            first_non_comment(ls, 0) matches Some(h) && header_number(ls, h + 1, usize::MAX as int)
                matches Ok(dim) && dim != EDGE_COST_DIMENSION
        }) ==> r == Err::<GraphFileContents, GraphFileError>(GraphFileError::WrongDimension),
        ({
            let ls = line_views(lines@);
            first_non_comment(ls, 0) matches Some(h) && header_number(ls, h + 1, usize::MAX as int)
                == Ok::<int, GraphFileError>(EDGE_COST_DIMENSION as int) && h + 2 < ls.len()
                && split_on_space(ls[h + 2]).len() != EDGE_COST_DIMENSION
        }) ==> r == Err::<GraphFileContents, GraphFileError>(GraphFileError::WrongMetricCount),
{
    let ghost ls = line_views(lines@);
    let n = lines.len();
    let h = match find_first_non_comment(lines) {
        Some(h) => h,
        None => {
            return Err(GraphFileError::NoHeaderEnd);
        },
    };
    let dim = match read_header_number(lines, h + 1, usize::MAX as u64) {
        Ok(v) => v,
        Err(e) => {
            return Err(e);
        },
    };
    if dim != EDGE_COST_DIMENSION as u64 {
        return Err(GraphFileError::WrongDimension);
    }
    if h + 2 >= n {
        return Err(GraphFileError::MissingLine { line: h + 2 });
    }
    let pieces = split_spaces(lines[h + 2].as_str());
    assert(ls[h + 2] == lines@[h + 2]@);
    if pieces.len() != EDGE_COST_DIMENSION {
        return Err(GraphFileError::WrongMetricCount);
    }
    let nn = match read_header_number(lines, h + 3, usize::MAX as u64) {
        Ok(v) => v as usize,
        Err(e) => {
            return Err(e);
        },
    };
    let ne = match read_header_number(lines, h + 4, u32::MAX as u64) {
        Ok(v) => v as u32,
        Err(e) => {
            return Err(e);
        },
    };
    let ghost names = split_on_space(ls[h + 2]);
    let mut keys: Vec<(String, GraphmlAttribute)> = Vec::new();
    let mut i: usize = 0;
    while i < pieces.len()
        invariant
            i <= pieces@.len(),
            pieces@.len() == names.len(),
            forall|k: int| 0 <= k < pieces@.len() ==> #[trigger] pieces@[k]@ == names[k],
            keys_view(keys@) == metric_declarations(names).take(i as int),
        decreases pieces@.len() - i,
    {
        proof {
            lemma_type_names_differ();
        }
        let attr = GraphmlAttribute::new("edge", pieces[i].as_str(), "double", i);
        let name = pieces[i].clone();
        let ghost before = keys_view(keys@);
        keys.push((name, attr));
        proof {
            assert(keys_view(keys@) =~= before.push(keys_view(keys@).last()));
            assert(metric_declarations(names).take(i + 1) =~= metric_declarations(names).take(
                i as int,
            ).push(metric_declarations(names)[i as int]));
        }
        i = i + 1;
    }
    proof {
        assert(metric_declarations(names).take(i as int) =~= metric_declarations(names));
    }
    let keys = keep_last_declarations(&keys);
    match read_body(lines, h + 5, true, nn, ne) {
        Ok((nodes, edges, edge_lookup)) => Ok(GraphFileContents { keys, nodes, edges, edge_lookup }),
        Err(e) => Err(e),
    }
}

/// The body numbers its edges by their position, and in the minimal
/// format names each edge, in the same order: the edge name at position
/// `k` belongs to the edge with id `k`.
pub proof fn lemma_body_numbering(
    lines: Seq<Seq<char>>,
    first: int,
    k: int,
    minimal: bool,
    nn: int,
    ne: int,
)
    requires
        first <= k,
        body_upto(lines, first, k, minimal, nn, ne) is Ok,
        0 <= ne <= u32::MAX + 1,
    ensures
        ({
            let st = body_upto(lines, first, k, minimal, nn, ne)->Ok_0;
            &&& st.1.len() <= ne
            &&& forall|j: int| 0 <= j < st.1.len() ==> (#[trigger] st.1[j]).id == j
            &&& minimal ==> st.2.len() == st.1.len()
            &&& !minimal ==> st.2.len() == 0
        }),
    decreases k - first,
{
    if k > first {
        lemma_body_numbering(lines, first, k - 1, minimal, nn, ne);
        let st0 = body_upto(lines, first, k - 1, minimal, nn, ne)->Ok_0;
        let st = body_upto(lines, first, k, minimal, nn, ne)->Ok_0;
        if st.1.len() > st0.1.len() {
            assert forall|j: int| 0 <= j < st.1.len() implies (#[trigger] st.1[j]).id == j by {
                if j < st0.1.len() {
                    assert(st.1[j] == st0.1[j]);
                }
            }
        }
    }
}

} // verus!
