use vstd::prelude::*;
use graphviz_rust::dot_structures::Graph;
use vstd::string::StringExecFns;

use crate::distance::{lists_edges, neighbours, Distance};
use crate::VertexId;

verus! {

#[verifier::external_type_specification]
#[verifier::external_body]
pub struct ExGraph(Graph);

/// Whether the DOT grammar accepts the text `text`.
pub uninterp spec fn dot_parses(text: Seq<char>) -> bool;

/// Relies on graphviz_rust::parse, which reads DOT text into a graph: a graph comes back only
/// for text that the DOT grammar accepts. The parser may still refuse such text (it gives up
/// when the stack runs low or a call limit is reached), so nothing is promised of a refusal.
/// The parser backtracks without memoising, so deeply nested text can take exponential time;
/// it is only handed the flat descriptions that `dot_text` writes, which it reads in one pass.
#[verifier::external_body]
fn parse_dot(text: &str) -> (r: Result<Graph, String>)
    requires
        exists|degrees: Seq<nat>, edges: Seq<[VertexId; 2]>| text@ == dot_text(degrees, edges),
    ensures
        r is Ok ==> dot_parses(text@),
{
    graphviz_rust::parse(text)
}

/// The decimal digit `d` as text.
pub open spec fn digit_text(d: nat) -> Seq<char> {
    if d == 0 {
        "0"@
    } else if d == 1 {
        "1"@
    } else if d == 2 {
        "2"@
    } else if d == 3 {
        "3"@
    } else if d == 4 {
        "4"@
    } else if d == 5 {
        "5"@
    } else if d == 6 {
        "6"@
    } else if d == 7 {
        "7"@
    } else if d == 8 {
        "8"@
    } else {
        "9"@
    }
}

/// `n` written in decimal, without leading zeros.
pub open spec fn decimal(n: nat) -> Seq<char>
    decreases n,
{
    if n < 10 {
        digit_text(n)
    } else {
        decimal(n / 10) + digit_text(n % 10)
    }
}

/// The colour that marks a vertex of degree `deg`.
pub open spec fn colour(deg: nat) -> Seq<char> {
    if deg % 3 == 0 {
        "red"@
    } else if deg % 3 == 1 {
        "green"@
    } else {
        "blue"@
    }
}

/// The line that declares vertex `v` with its colour.
pub open spec fn vertex_line(v: nat, deg: nat) -> Seq<char> {
    "\tV"@ + decimal(v) + " [color=\""@ + colour(deg) + "\"];\n"@
}

/// The line that draws the edge between `v` and `u`.
pub open spec fn edge_line(v: nat, u: nat) -> Seq<char> {
    "\tV"@ + decimal(v) + " -- V"@ + decimal(u) + ";\n"@
}

/// The declarations of the first `k` vertices, whose degrees are `degrees`.
pub open spec fn vertex_lines(degrees: Seq<nat>, k: nat) -> Seq<char>
    decreases k,
{
    if k == 0 || k > degrees.len() {
        Seq::empty()
    } else {
        vertex_lines(degrees, (k - 1) as nat) + vertex_line((k - 1) as nat, degrees[k - 1])
    }
}

/// The lines of the first `k` edges.
pub open spec fn edge_lines(edges: Seq<[VertexId; 2]>, k: nat) -> Seq<char>
    decreases k,
{
    if k == 0 || k > edges.len() {
        Seq::empty()
    } else {
        edge_lines(edges, (k - 1) as nat) + edge_line(edges[k - 1][0] as nat, edges[k - 1][1] as nat)
    }
}

/// A Graphviz description of a graph with vertices `0..degrees.len()` of the given degrees and
/// the given edges, laid out by `neato`.
pub open spec fn dot_text(degrees: Seq<nat>, edges: Seq<[VertexId; 2]>) -> Seq<char> {
    "graph G{\nlayout=neato\n"@ + vertex_lines(degrees, degrees.len()) + edge_lines(
        edges,
        edges.len(),
    ) + "}"@
}

/// The degree of every vertex of `m`.
pub open spec fn degrees(m: Seq<Seq<bool>>) -> Seq<nat> {
    Seq::new(m.len(), |v: int| neighbours(m, v).len())
}

/// The decimal digit `d`.
fn digit(d: usize) -> (r: &'static str)
    requires
        d < 10,
    ensures
        r@ == digit_text(d as nat),
{
    if d == 0 {
        "0"
    } else if d == 1 {
        "1"
    } else if d == 2 {
        "2"
    } else if d == 3 {
        "3"
    } else if d == 4 {
        "4"
    } else if d == 5 {
        "5"
    } else if d == 6 {
        "6"
    } else if d == 7 {
        "7"
    } else if d == 8 {
        "8"
    } else {
        "9"
    }
}

/// Appends `n` in decimal to `s`.
fn push_decimal(s: &mut String, n: usize)
    ensures
        final(s)@ == old(s)@ + decimal(n as nat),
    decreases n,
{
    if n < 10 {
        s.append(digit(n));
    } else {
        push_decimal(s, n / 10);
        s.append(digit(n % 10));
        assert(final(s)@ =~= old(s)@ + decimal(n as nat));
    }
}

/// A Graphviz description of a graph with vertices `0..degrees.len()` of the given degrees and
/// the given edges: each vertex coloured by its degree, each edge drawn once.
pub fn dot(degrees: &Vec<usize>, edges: &Vec<[VertexId; 2]>) -> (r: String)
    ensures
        r@ == dot_text(degrees@.map_values(|d: usize| d as nat), edges@),
{
    let ghost degs = degrees@.map_values(|d: usize| d as nat);
    let mut s = String::from_str("graph G{\nlayout=neato\n");
    let mut v: usize = 0;
    while v < degrees.len()
        invariant
            v <= degrees@.len(),
            degs == degrees@.map_values(|d: usize| d as nat),
            s@ == "graph G{\nlayout=neato\n"@ + vertex_lines(degs, v as nat),
        decreases degrees@.len() - v,
    {
        s.append("\tV");
        push_decimal(&mut s, v);
        s.append(" [color=\"");
        let deg = degrees[v];
        if deg % 3 == 0 {
            s.append("red");
        } else if deg % 3 == 1 {
            s.append("green");
        } else {
            s.append("blue");
        }
        s.append("\"];\n");
        v = v + 1;
        assert(s@ =~= "graph G{\nlayout=neato\n"@ + vertex_lines(degs, v as nat));
    }
    let ghost head = s@;
    let mut k: usize = 0;
    while k < edges.len()
        invariant
            k <= edges@.len(),
            s@ == head + edge_lines(edges@, k as nat),
        decreases edges@.len() - k,
    {
        let e = edges[k];
        s.append("\tV");
        push_decimal(&mut s, e[0]);
        s.append(" -- V");
        push_decimal(&mut s, e[1]);
        s.append(";\n");
        k = k + 1;
        assert(s@ =~= head + edge_lines(edges@, k as nat));
    }
    s.append("}");
    assert(s@ =~= dot_text(degs, edges@));
    s
}

impl Distance {
    /// A Graphviz description of the connectivity: every vertex, coloured by its degree, and
    /// every edge once, in the order of `edges`.
    pub fn graphviz(&self) -> (r: String)
        requires
            self.wf(),
        ensures
            exists|es: Seq<[VertexId; 2]>|
                lists_edges(self@, es) && r@ == dot_text(degrees(self@), es),
    {
        let n = self.len();
        let mut degs: Vec<usize> = Vec::new();
        let mut v: usize = 0;
        while v < n
            invariant
                self.wf(),
                n == self.n(),
                v <= n,
                degs@.len() == v,
                forall|u: int| 0 <= u < v ==> #[trigger] degs@[u] as nat == neighbours(self@, u).len(),
            decreases n - v,
        {
            let nb = self.connections(v);
            degs.push(nb.len());
            v = v + 1;
        }
        let es = self.edges();
        assert(degs@.map_values(|d: usize| d as nat) =~= degrees(self@));
        dot(&degs, &es)
    }

    /// The Graphviz description of `graphviz`, parsed into a graph for the Graphviz tools;
    /// `None` where the parser refuses it. A graph comes back only for text the grammar accepts.
    pub fn dot_graph(&self) -> (r: Option<Graph>)
        requires
            self.wf(),
        ensures
            exists|es: Seq<[VertexId; 2]>|
                lists_edges(self@, es) && (r is Some ==> dot_parses(dot_text(degrees(self@), es))),
    {
        let text = self.graphviz();
        let ghost es = choose|es: Seq<[VertexId; 2]>|
            lists_edges(self@, es) && text@ == dot_text(degrees(self@), es);
        let flat = text.as_str();
        assert(flat@ == dot_text(degrees(self@), es));
        match parse_dot(flat) {
            Ok(g) => Some(g),
            Err(_) => None,
        }
    }
}

} // verus!
