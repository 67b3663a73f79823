//! Reading an edge list: one edge per line, two whitespace-separated names.

use vstd::prelude::*;
use crate::graph::{Graph, built, edges_view, holds_edges};

verus! {

/// Whether `c` has the Unicode `White_Space` property.
pub open spec fn is_white_space(c: char) -> bool {
    ||| '\u{9}' <= c <= '\u{d}'
    ||| c == ' '
    ||| c == '\u{85}'
    ||| c == '\u{a0}'
    ||| c == '\u{1680}'
    ||| '\u{2000}' <= c <= '\u{200a}'
    ||| c == '\u{2028}'
    ||| c == '\u{2029}'
    ||| c == '\u{202f}'
    ||| c == '\u{205f}'
    ||| c == '\u{3000}'
}

/// The tokens of a line, in order: its maximal runs of characters that are
/// not white space.
pub open spec fn split_tokens(s: Seq<char>) -> Seq<Seq<char>>
    decreases s.len(),
{
    if s.len() == 0 {
        Seq::empty()
    } else {
        let prev = split_tokens(s.drop_last());
        let c = s.last();
        if is_white_space(c) {
            prev
        } else if s.len() >= 2 && !is_white_space(s[s.len() - 2]) {
            prev.drop_last().push(prev.last().push(c))
        } else {
            prev.push(seq![c])
        }
    }
}

/// Relies on `str::split_whitespace`: the substrings between runs of
/// `White_Space` characters, in order, with no empty ones.
#[verifier::external_body]
fn tokens(line: &str) -> (r: Vec<String>)
    ensures
        r@.len() == split_tokens(line@).len(),
        forall|i: int| 0 <= i < r@.len() ==> #[trigger] r@[i]@ == split_tokens(line@)[i],
{
    line.split_whitespace().map(|t| t.to_string()).collect()
}

/// Why an edge list was refused.
#[derive(Debug, Clone, Copy, PartialEq, Eq, Structural)]
pub enum ParseError {
    /// The line at this index (from zero) holds fewer than two tokens.
    MalformedLine { line: usize },
}

/// Whether a line names an edge: it holds at least two tokens.
pub open spec fn is_edge_line(line: Seq<char>) -> bool {
    split_tokens(line).len() >= 2
}

/// The edge a line names: its first two tokens; any further ones are ignored.
pub open spec fn line_edge(line: Seq<char>) -> (Seq<char>, Seq<char>) {
    (split_tokens(line)[0], split_tokens(line)[1])
}

/// The edge named by a line, or `None` when it holds fewer than two tokens.
pub fn parse_edge(line: &str) -> (r: Option<(String, String)>)
    ensures
        r.is_some() == is_edge_line(line@),
        r.is_some() ==> (r.unwrap().0@, r.unwrap().1@) == line_edge(line@),
{
    let mut t = tokens(line);
    if t.len() < 2 {
        return None;
    }
    let ghost t0 = t@;
    let b = t.remove(1);
    let a = t.remove(0);
    assert(a@ == t0[0]@);
    assert(b@ == t0[1]@);
    Some((a, b))
}

/// The view of a list of lines.
pub open spec fn lines_view(lines: Seq<String>) -> Seq<Seq<char>> {
    lines.map_values(|l: String| l@)
}

/// The index of the first line in `lines` that names no edge, if any.
pub open spec fn first_malformed(lines: Seq<Seq<char>>) -> Option<int> {
    if exists|i: int| 0 <= i < lines.len() && !is_edge_line(lines[i]) {
        Some(
            choose|i: int|
                0 <= i < lines.len() && !is_edge_line(lines[i]) && forall|j: int|
                    0 <= j < i ==> is_edge_line(#[trigger] lines[j]),
        )
    } else {
        None
    }
}

/// The edges named by lines that all name one.
pub open spec fn lines_edges(lines: Seq<Seq<char>>) -> Seq<(Seq<char>, Seq<char>)> {
    lines.map_values(|l: Seq<char>| line_edge(l))
}

/// Builds the adjacency model of an edge list given as lines. The first line
/// with fewer than two tokens is reported; otherwise every line's first two
/// tokens are inserted as an edge, in order.
pub fn parse_edgelist(lines: &Vec<String>) -> (r: Result<Graph, ParseError>)
    ensures
        match first_malformed(lines_view(lines@)) {
            Some(i) => r == Err::<Graph, ParseError>(ParseError::MalformedLine { line: i as usize }),
            None => r.is_ok(),
        },
        r.is_ok() ==> {
            let g = r.unwrap();
            &&& g.wf()
            &&& (g.names_view(), g.adj_view()) == built(lines_edges(lines_view(lines@)))
            &&& holds_edges(g.names_view(), g.adj_view(), lines_edges(lines_view(lines@)))
        },
{
    let ghost lv = lines_view(lines@);
    let mut edges: Vec<(String, String)> = Vec::new();
    let mut i: usize = 0;
    while i < lines.len()
        invariant
            i <= lines@.len(),
            lv == lines_view(lines@),
            forall|j: int| 0 <= j < i ==> is_edge_line(#[trigger] lv[j]),
            edges_view(edges@) =~= lines_edges(lv.subrange(0, i as int)),
        decreases lines@.len() - i,
    {
        match parse_edge(lines[i].as_str()) {
            None => {
                proof {
                    let k = first_malformed(lv);
                    assert(!is_edge_line(lv[i as int]));
                    let c = choose|c: int|
                        0 <= c < lv.len() && !is_edge_line(lv[c]) && forall|j: int|
                            0 <= j < c ==> is_edge_line(#[trigger] lv[j]);
                    if c < i {
                        assert(is_edge_line(lv[c]));
                    }
                    if c > i {
                        assert(is_edge_line(lv[i as int]));
                    }
                }
                return Err(ParseError::MalformedLine { line: i });
            },
            Some(e) => {
                edges.push(e);
                assert(lines_edges(lv.subrange(0, i + 1)) =~= lines_edges(
                    lv.subrange(0, i as int),
                ).push(line_edge(lv[i as int])));
            },
        }
        i = i + 1;
    }
    assert(lv.subrange(0, lines@.len() as int) =~= lv);
    Ok(Graph::from_edges(&edges))
}

} // verus!
