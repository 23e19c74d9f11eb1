//! The overlay graph and the text format it is read from.
//!
//! A graph file is read line by line.  A line that starts with `c` is a
//! comment.  The line `p <tag> V E` opens the graph and gives it the vertices
//! `1..=V`: it must come before any edge.  A line `e A B` adds the undirected
//! edge between `A` and `B`.  Both take two numbers and nothing besides.
//! Anything else is an error, and so is a file without a `p` line.

use crate::ident::{canonical_pair, contains_node, lemma_push_contains, Connection, NodeId};
use crate::text::{
    after, chars_of, decimal_digits, field_count, fields, lemma_two_numbers, lines, numbers,
    numeric_fields, parse_number, piece_end, push_decimal, string_of, Separator,
};
use vstd::prelude::*;

verus! {

/// One line of a graph file.
#[derive(Debug, Clone, PartialEq, Eq)]
pub enum Line {
    /// A comment, with the whole line as it was written.
    Comment(String),
    /// The manifest: the number of vertices and of edges that the file
    /// announces.
    Manifest(usize, usize),
    /// An edge between two vertices, in the order in which they were written.
    Edge(usize, usize),
}

/// Why a line could not be read.
#[derive(Debug, Clone, PartialEq, Eq)]
pub enum LineParsingError {
    /// The line holds no character at all.
    EmptyLine,
    /// The line starts with a character that opens no kind of line.  Holds the
    /// line and that character.
    UnknownMarker(String, char),
    /// The line does not hold two arguments, or they are not both numbers.
    /// Holds the line, the number two, and the count of its arguments that are
    /// numbers.
    UnexpectedArguments(String, usize, usize),
}

/// Why a graph could not be read.
#[derive(Debug, Clone, PartialEq, Eq)]
pub enum GraphParsingError {
    /// The text was read to its end and held no manifest.
    InvalidGraph,
    /// An edge stands before the manifest.
    Uninitialized,
    /// A line could not be read.
    LineParsing(LineParsingError),
}

/// What a [`Line`] says, with its text as a sequence of characters.
pub enum LineView {
    Comment(Seq<char>),
    Manifest(usize, usize),
    Edge(usize, usize),
}

/// What a [`LineParsingError`] says, with its text as a sequence of
/// characters.
pub enum LineErrorView {
    EmptyLine,
    UnknownMarker(Seq<char>, char),
    UnexpectedArguments(Seq<char>, usize, usize),
}

/// What a [`GraphParsingError`] says.
pub enum GraphErrorView {
    InvalidGraph,
    Uninitialized,
    LineParsing(LineErrorView),
}

impl View for Line {
    type V = LineView;

    open spec fn view(&self) -> LineView {
        match self {
            Line::Comment(text) => LineView::Comment(text@),
            Line::Manifest(v, e) => LineView::Manifest(*v, *e),
            Line::Edge(a, b) => LineView::Edge(*a, *b),
        }
    }
}

impl View for LineParsingError {
    type V = LineErrorView;

    open spec fn view(&self) -> LineErrorView {
        match self {
            LineParsingError::EmptyLine => LineErrorView::EmptyLine,
            LineParsingError::UnknownMarker(text, c) => LineErrorView::UnknownMarker(text@, *c),
            LineParsingError::UnexpectedArguments(text, a, b) => LineErrorView::UnexpectedArguments(
                text@,
                *a,
                *b,
            ),
        }
    }
}

impl View for GraphParsingError {
    type V = GraphErrorView;

    open spec fn view(&self) -> GraphErrorView {
        match self {
            GraphParsingError::InvalidGraph => GraphErrorView::InvalidGraph,
            GraphParsingError::Uninitialized => GraphErrorView::Uninitialized,
            GraphParsingError::LineParsing(e) => GraphErrorView::LineParsing(e@),
        }
    }
}

/// What a line gives whose first `skip` fields are to be followed by two
/// numbers and nothing else: the two numbers, if just that is what follows;
/// else the error, with the count of numbers that do follow.
pub open spec fn two_numbers(s: Seq<char>, skip: nat) -> Result<(usize, usize), LineErrorView> {
    let rest = after(fields(s), skip);
    if rest.len() == 2 && parse_number(rest[0]) is Some && parse_number(rest[1]) is Some {
        Ok((parse_number(rest[0])->0, parse_number(rest[1])->0))
    } else {
        Err(LineErrorView::UnexpectedArguments(s, 2, numbers(rest).len() as usize))
    }
}

/// What the line `s` says.
///
/// The first character decides the kind.  After `p` the first two fields (the
/// marker and the tag) are passed over, after `e` the first one.  Two fields
/// must follow, no more and no fewer, and both must be numbers.
pub open spec fn parse_line(s: Seq<char>) -> Result<LineView, LineErrorView> {
    if s.len() == 0 {
        Err(LineErrorView::EmptyLine)
    } else if s[0] == 'c' {
        Ok(LineView::Comment(s))
    } else if s[0] == 'p' {
        match two_numbers(s, 2) {
            Ok((v, e)) => Ok(LineView::Manifest(v, e)),
            Err(err) => Err(err),
        }
    } else if s[0] == 'e' {
        match two_numbers(s, 1) {
            Ok((a, b)) => Ok(LineView::Edge(a, b)),
            Err(err) => Err(err),
        }
    } else {
        Err(LineErrorView::UnknownMarker(s, s[0]))
    }
}

/// The result of reading a line, with its texts as sequences of characters.
pub open spec fn line_outcome(r: Result<Line, LineParsingError>) -> Result<
    LineView,
    LineErrorView,
> {
    match r {
        Ok(line) => Ok(line@),
        Err(e) => Err(e@),
    }
}

/// The text that reports a line error.
pub open spec fn line_error_text(e: LineErrorView) -> Seq<char> {
    match e {
        LineErrorView::EmptyLine => "Attempting to parse an empty line"@,
        LineErrorView::UnknownMarker(text, c) => "Unknown marker '"@ + seq![c] + "' for line \""@
            + text + "\""@,
        LineErrorView::UnexpectedArguments(text, a, b) => "Unexpected arguments length (actual: "@
            + decimal_digits(a as nat) + ", expected: "@ + decimal_digits(b as nat) + ") in \""@
            + text + "\""@,
    }
}

/// The text that reports a graph error.
pub open spec fn graph_error_text(e: GraphErrorView) -> Seq<char> {
    match e {
        GraphErrorView::InvalidGraph => "The file has been read without throwing an error yet the graph is uninitialized (is it a graph) ?"@,
        GraphErrorView::Uninitialized => "An edge has been read when the graph is not yet initialized (there must be a line that starts with p before edges)"@,
        GraphErrorView::LineParsing(inner) => line_error_text(inner),
    }
}

impl Line {
    /// Reads one line.
    pub fn from_str(s: &str) -> (r: Result<Line, LineParsingError>)
        ensures
            line_outcome(r) == parse_line(s@),
    {
        let chars = chars_of(s);
        proof {
            assert(chars@.subrange(0, chars@.len() as int) =~= s@);
        }
        Line::read(&chars, 0, chars.len())
    }

    /// Reads the line that `chars[from..to]` holds.
    pub fn read(chars: &Vec<char>, from: usize, to: usize) -> (r: Result<Line, LineParsingError>)
        requires
            from <= to <= chars.len(),
        ensures
            line_outcome(r) == parse_line(chars@.subrange(from as int, to as int)),
    {
        if from == to {
            return Err(LineParsingError::EmptyLine);
        }
        let first: char = chars[from];
        proof {
            assert(chars@.subrange(from as int, to as int)[0] == first);
        }
        if first == 'c' {
            Ok(Line::Comment(string_of(chars, from, to)))
        } else if first == 'p' {
            match Line::arguments(chars, from, to, 2) {
                Ok((v, e)) => Ok(Line::Manifest(v, e)),
                Err(err) => Err(err),
            }
        } else if first == 'e' {
            match Line::arguments(chars, from, to, 1) {
                Ok((a, b)) => Ok(Line::Edge(a, b)),
                Err(err) => Err(err),
            }
        } else {
            Err(LineParsingError::UnknownMarker(string_of(chars, from, to), first))
        }
    }

    /// Reads the two numbers that follow the first `skip` fields of the line
    /// `chars[from..to]`, if two numbers and nothing else follow them.
    pub fn arguments(chars: &Vec<char>, from: usize, to: usize, skip: usize) -> (r: Result<
        (usize, usize),
        LineParsingError,
    >)
        requires
            from <= to <= chars.len(),
        ensures
            match two_numbers(chars@.subrange(from as int, to as int), skip as nat) {
                Ok(pair) => r == Ok::<(usize, usize), LineParsingError>(pair),
                Err(e) => r is Err && r->Err_0@ == e,
            },
    {
        let count = field_count(chars, from, to, skip);
        let found = numeric_fields(chars, from, to, skip);
        proof {
            let rest = after(fields(chars@.subrange(from as int, to as int)), skip as nat);
            if rest.len() == 2 {
                lemma_two_numbers(rest);
            }
        }
        if count == 2 && found.len() == 2 {
            Ok((found[0], found[1]))
        } else {
            Err(LineParsingError::UnexpectedArguments(string_of(chars, from, to), 2, found.len()))
        }
    }
}

impl LineParsingError {
    /// The text that reports this error.
    pub fn message(&self) -> (text: String)
        ensures
            text@ == line_error_text(self@),
    {
        match self {
            LineParsingError::EmptyLine => String::from_str("Attempting to parse an empty line"),
            LineParsingError::UnknownMarker(line, c) => {
                let mut text = String::from_str("Unknown marker '");
                text.push(*c);
                text.append("' for line \"");
                text.append(line.as_str());
                text.append("\"");
                proof {
                    assert(text@ =~= line_error_text(self@));
                }
                text
            },
            LineParsingError::UnexpectedArguments(line, a, b) => {
                let mut text = String::from_str("Unexpected arguments length (actual: ");
                push_decimal(&mut text, *a);
                text.append(", expected: ");
                push_decimal(&mut text, *b);
                text.append(") in \"");
                text.append(line.as_str());
                text.append("\"");
                text
            },
        }
    }
}

impl From<LineParsingError> for GraphParsingError {
    fn from(inner: LineParsingError) -> (e: GraphParsingError) {
        GraphParsingError::LineParsing(inner)
    }
}

impl vstd::std_specs::convert::FromSpecImpl<LineParsingError> for GraphParsingError {
    open spec fn obeys_from_spec() -> bool {
        true
    }

    open spec fn from_spec(inner: LineParsingError) -> GraphParsingError {
        GraphParsingError::LineParsing(inner)
    }
}

impl std::str::FromStr for Line {
    type Err = LineParsingError;

    /// Reads one line, as [`Line::from_str`] does; this is what `str::parse`
    /// calls.
    fn from_str(s: &str) -> (r: Result<Line, LineParsingError>)
        ensures
            line_outcome(r) == parse_line(s@),
    {
        Line::from_str(s)
    }
}

impl std::str::FromStr for Graph {
    type Err = GraphParsingError;

    /// Reads a graph from its text, as [`Graph::from_str`] does; this is
    /// what `str::parse` calls.
    fn from_str(s: &str) -> (r: Result<Graph, GraphParsingError>)
        ensures
            graph_outcome(r) == parse_graph(s@),
            r matches Ok(g) ==> g.wf(),
    {
        Graph::from_str(s)
    }
}

impl GraphParsingError {
    /// The text that reports this error.
    pub fn message(&self) -> (text: String)
        ensures
            text@ == graph_error_text(self@),
    {
        match self {
            GraphParsingError::InvalidGraph => String::from_str(
                "The file has been read without throwing an error yet the graph is uninitialized (is it a graph) ?",
            ),
            GraphParsingError::Uninitialized => String::from_str(
                "An edge has been read when the graph is not yet initialized (there must be a line that starts with p before edges)",
            ),
            GraphParsingError::LineParsing(inner) => inner.message(),
        }
    }
}

/// A graph: vertices, and undirected edges in canonical form.
///
/// The vertices are `1..=vertex_count`, and whatever else an edge names.  Both
/// lists are kept free of repetitions, so each stands for a set.  The order of
/// their entries carries no meaning.
#[derive(Debug, Clone)]
pub struct Graph {
    /// How many vertices the manifest announces.  There is one node for each.
    pub vertex_count: usize,
    /// The vertices that edges name.
    pub vertices: Vec<NodeId>,
    /// The edges, each with its lower endpoint first.
    pub edges: Vec<Connection>,
}

/// A graph as two sets: vertex numbers, and edges as pairs `(lower, higher)`;
/// and with them the number of vertices that the manifest announces.
pub struct GraphView {
    pub vertex_count: usize,
    pub vertices: Set<usize>,
    pub edges: Set<(usize, usize)>,
}

impl GraphView {
    /// The graph with the vertices `1..=vertex_count` and no edge.
    pub open spec fn edgeless(vertex_count: usize) -> GraphView {
        GraphView {
            vertex_count,
            vertices: Set::new(|n: usize| 1 <= n <= vertex_count),
            edges: Set::empty(),
        }
    }

    /// This graph with the edge between `a` and `b`, and with both as
    /// vertices.
    pub open spec fn with_edge(self, a: usize, b: usize) -> GraphView {
        GraphView {
            vertex_count: self.vertex_count,
            vertices: self.vertices.insert(a).insert(b),
            edges: self.edges.insert(canonical_pair(a, b)),
        }
    }
}

/// What a line does to the graph read so far; `None` stands for the time
/// before the manifest.
pub open spec fn apply_line(acc: Option<GraphView>, line: LineView) -> Result<
    Option<GraphView>,
    GraphErrorView,
> {
    match line {
        LineView::Comment(_) => Ok(acc),
        LineView::Manifest(v, _) => Ok(Some(GraphView::edgeless(v))),
        LineView::Edge(a, b) => match acc {
            None => Err(GraphErrorView::Uninitialized),
            Some(g) => Ok(Some(g.with_edge(a, b))),
        },
    }
}

/// What the lines `ls`, read in order on top of `acc`, leave behind; the first
/// line that fails ends the reading.
pub open spec fn read_lines(ls: Seq<Seq<char>>, acc: Option<GraphView>) -> Result<
    Option<GraphView>,
    GraphErrorView,
>
    decreases ls.len(),
{
    if ls.len() == 0 {
        Ok(acc)
    } else {
        match parse_line(ls[0]) {
            Err(e) => Err(GraphErrorView::LineParsing(e)),
            Ok(line) => match apply_line(acc, line) {
                Err(e) => Err(e),
                Ok(next) => read_lines(ls.drop_first(), next),
            },
        }
    }
}

/// The graph that the text `s` describes.
///
/// Empty lines are passed over.  The manifest `p <tag> V E` gives the graph
/// its vertices `1..=V`, and starts it afresh if it stands a second time.  An
/// edge joins two vertices; one that names a vertex outside `1..=V` makes it
/// a vertex too.  The number of edges that the manifest announces is read and
/// not held against the edges that follow.
pub open spec fn parse_graph(s: Seq<char>) -> Result<GraphView, GraphErrorView> {
    match read_lines(lines(s), None) {
        Err(e) => Err(e),
        Ok(None) => Err(GraphErrorView::InvalidGraph),
        Ok(Some(g)) => Ok(g),
    }
}

/// The result of reading a graph, as sets and sequences of characters.
pub open spec fn graph_outcome(r: Result<Graph, GraphParsingError>) -> Result<
    GraphView,
    GraphErrorView,
> {
    match r {
        Ok(g) => Ok(g@),
        Err(e) => Err(e@),
    }
}

impl View for Graph {
    type V = GraphView;

    open spec fn view(&self) -> GraphView {
        GraphView {
            vertex_count: self.vertex_count,
            vertices: Set::new(
                |v: usize| 1 <= v <= self.vertex_count || self.vertices@.contains(NodeId(v)),
            ),
            edges: Set::new(
                |p: (usize, usize)| self.edges@.contains(Connection(NodeId(p.0), NodeId(p.1))),
            ),
        }
    }
}

impl Graph {
    /// Whether the two lists stand for sets of vertices and of canonical
    /// edges between them.
    ///
    /// An edge may join a vertex to itself: the line `e A A` is read and kept
    /// as `(A, A)`.  Such an edge makes nobody a neighbour of anybody, and no
    /// plan dials or accepts it.
    pub open spec fn wf(&self) -> bool {
        &&& self.vertices@.no_duplicates()
        &&& self.edges@.no_duplicates()
        &&& forall|k: int|
            0 <= k < self.edges@.len() ==> {
                &&& (#[trigger] self.edges@[k]).is_canonical()
                &&& self.vertices@.contains(self.edges@[k].0)
                &&& self.vertices@.contains(self.edges@[k].1)
            }
    }

    /// The graph with the vertices `1..=vertex_count` and no edge.
    pub fn new(vertex_count: usize) -> (g: Graph)
        ensures
            g.wf(),
            g@ == GraphView::edgeless(vertex_count),
            g.vertex_count == vertex_count,
    {
        let g = Graph { vertex_count, vertices: Vec::new(), edges: Vec::new() };
        proof {
            assert(g@.vertices =~= GraphView::edgeless(vertex_count).vertices);
            assert(g@.edges =~= Set::empty());
        }
        g
    }

    /// Whether `id` is a vertex: one of `1..=vertex_count`, or named by an
    /// edge.
    pub fn has_vertex(&self, id: NodeId) -> (found: bool)
        ensures
            found == self@.vertices.contains(id.0),
    {
        (1 <= id.0 && id.0 <= self.vertex_count) || contains_node(&self.vertices, id)
    }

    /// Whether `edge` is an edge, as it is written: the lower endpoint first.
    pub fn has_edge(&self, edge: Connection) -> (found: bool)
        ensures
            found == self.edges@.contains(edge),
            found == self@.edges.contains(edge.pair()),
    {
        let mut i: usize = 0;
        while i < self.edges.len()
            invariant
                i <= self.edges.len(),
                forall|k: int| 0 <= k < i ==> self.edges@[k] != edge,
            decreases self.edges.len() - i,
        {
            if self.edges[i].0.0 == edge.0.0 && self.edges[i].1.0 == edge.1.0 {
                return true;
            }
            i += 1;
        }
        false
    }

    /// Makes `id` a vertex, and lists it among those that edges name.
    pub fn add_vertex(&mut self, id: NodeId)
        requires
            old(self).wf(),
        ensures
            final(self).wf(),
            final(self)@.vertices == old(self)@.vertices.insert(id.0),
            final(self).edges == old(self).edges,
            final(self).vertex_count == old(self).vertex_count,
            final(self).vertices@.contains(id),
            forall|v: NodeId| old(self).vertices@.contains(v) ==> final(self).vertices@.contains(v),
    {
        if !contains_node(&self.vertices, id) {
            self.vertices.push(id);
            proof {
                lemma_push_contains(old(self).vertices@, id);
            }
        }
        proof {
            assert(self@.vertices =~= old(self)@.vertices.insert(id.0));
        }
    }

    /// Adds the edge between `a` and `b`, in canonical form, and makes both
    /// vertices.  An edge that is there already is not added again.
    pub fn connect(&mut self, a: NodeId, b: NodeId)
        requires
            old(self).wf(),
        ensures
            final(self).wf(),
            final(self)@ == old(self)@.with_edge(a.0, b.0),
    {
        self.add_vertex(a);
        self.add_vertex(b);
        let edge = Connection::new(a, b);
        let ghost before = self.edges@;
        proof {
            assert(edge.0 == a || edge.0 == b);
            assert(edge.1 == a || edge.1 == b);
        }
        if !self.has_edge(edge) {
            self.edges.push(edge);
            proof {
                lemma_push_contains(before, edge);
                assert forall|k: int| 0 <= k < self.edges@.len() implies {
                    &&& (#[trigger] self.edges@[k]).is_canonical()
                    &&& self.vertices@.contains(self.edges@[k].0)
                    &&& self.vertices@.contains(self.edges@[k].1)
                } by {
                    if k < before.len() {
                        assert(self.edges@[k] == old(self).edges@[k]);
                    }
                }
            }
        }
        proof {
            assert(self@.edges =~= old(self)@.edges.insert(canonical_pair(a.0, b.0)));
            assert(self@.vertices =~= old(self)@.vertices.insert(a.0).insert(b.0));
        }
    }

    /// Reads a graph from its text.
    pub fn from_str(s: &str) -> (r: Result<Graph, GraphParsingError>)
        ensures
            graph_outcome(r) == parse_graph(s@),
            r matches Ok(g) ==> g.wf(),
    {
        let chars = chars_of(s);
        let n: usize = chars.len();
        let mut graph = Graph::new(0);
        let mut opened: bool = false;
        let mut i: usize = 0;
        proof {
            assert(chars@.subrange(0, n as int) =~= s@);
        }
        while i < n
            invariant
                i <= n == chars.len(),
                graph.wf(),
                read_lines(lines(s@), None) == read_lines(
                    lines(chars@.subrange(i as int, n as int)),
                    if opened {
                        Some(graph@)
                    } else {
                        None
                    },
                ),
            decreases n - i,
        {
            let ghost rest = chars@.subrange(i as int, n as int);
            let ghost acc = if opened {
                Some(graph@)
            } else {
                None
            };
            proof {
                assert(rest[0] == chars@[i as int]);
            }
            if chars[i] == '\n' {
                proof {
                    assert(rest.drop_first() =~= chars@.subrange(i + 1, n as int));
                }
                i += 1;
            } else {
                let end = piece_end(Separator::LineFeed, &chars, i, n);
                let ghost k = (end - i) as int;
                let ghost head = rest.subrange(0, k);
                let ghost tail = lines(rest.subrange(k, rest.len() as int));
                proof {
                    crate::text::lemma_run_len_bounds(Separator::LineFeed, rest);
                    assert(head =~= chars@.subrange(i as int, end as int));
                    assert(rest.subrange(k, rest.len() as int) =~= chars@.subrange(
                        end as int,
                        n as int,
                    ));
                    assert(lines(rest) == seq![head] + tail);
                    assert((seq![head] + tail)[0] == head);
                    assert((seq![head] + tail).drop_first() =~= tail);
                }
                match Line::read(&chars, i, end) {
                    Err(e) => {
                        return Err(GraphParsingError::LineParsing(e));
                    },
                    Ok(Line::Comment(_)) => {},
                    Ok(Line::Manifest(v, _)) => {
                        graph = Graph::new(v);
                        opened = true;
                    },
                    Ok(Line::Edge(a, b)) => {
                        if !opened {
                            return Err(GraphParsingError::Uninitialized);
                        }
                        graph.connect(NodeId(a), NodeId(b));
                    },
                }
                i = end;
            }
        }
        proof {
            assert(chars@.subrange(i as int, n as int).len() == 0);
        }
        if opened {
            Ok(graph)
        } else {
            Err(GraphParsingError::InvalidGraph)
        }
    }
}

/// An edge is the same whichever endpoint is named first: reading `e A B`
/// and reading `e B A` leave the same graph.
pub proof fn lemma_edge_order_irrelevant(acc: Option<GraphView>, a: usize, b: usize)
    ensures
        apply_line(acc, LineView::Edge(a, b)) == apply_line(acc, LineView::Edge(b, a)),
        canonical_pair(a, b) == canonical_pair(b, a),
{
    if let Some(g) = acc {
        assert(g.vertices.insert(a).insert(b) =~= g.vertices.insert(b).insert(a));
    }
}

/// Whether every line of `ls` is an edge line that can be read.
pub open spec fn edges_only(ls: Seq<Seq<char>>) -> bool {
    forall|k: int| 0 <= k < ls.len() ==> (#[trigger] parse_line(ls[k])) matches Ok(LineView::Edge(_, _))
}

/// The edge that the edge line `l` gives, lower endpoint first.
pub open spec fn edge_of(l: Seq<char>) -> (usize, usize) {
    match parse_line(l) {
        Ok(LineView::Edge(a, b)) => canonical_pair(a, b),
        _ => (0, 0),
    }
}

/// The edges that the edge lines `ls` give, as a set.
pub open spec fn edges_of(ls: Seq<Seq<char>>) -> Set<(usize, usize)>
    decreases ls.len(),
{
    if ls.len() == 0 {
        Set::empty()
    } else {
        edges_of(ls.drop_first()).insert(edge_of(ls[0]))
    }
}

/// The vertices that the edges of `edges` join.
pub open spec fn endpoints(edges: Set<(usize, usize)>) -> Set<usize> {
    Set::new(|v: usize| exists|p: (usize, usize)| #[trigger] edges.contains(p) && (p.0 == v || p.1 == v))
}

impl GraphView {
    /// This graph with all of `edges`, and with their endpoints as vertices.
    pub open spec fn with_edges(self, edges: Set<(usize, usize)>) -> GraphView {
        GraphView {
            vertex_count: self.vertex_count,
            vertices: self.vertices.union(endpoints(edges)),
            edges: self.edges.union(edges),
        }
    }
}

/// The set of edges that some lines give holds the edge of each line, and
/// nothing else.
pub proof fn lemma_edges_of_lines(ls: Seq<Seq<char>>, p: (usize, usize))
    ensures
        edges_of(ls).contains(p) <==> exists|k: int| 0 <= k < ls.len() && edge_of(#[trigger] ls[k]) == p,
    decreases ls.len(),
{
    if ls.len() > 0 {
        let rest = ls.drop_first();
        lemma_edges_of_lines(rest, p);
        if edges_of(ls).contains(p) {
            if edge_of(ls[0]) != p {
                let k = choose|k: int| 0 <= k < rest.len() && edge_of(#[trigger] rest[k]) == p;
                assert(ls[k + 1] == rest[k]);
            }
        }
        if exists|k: int| 0 <= k < ls.len() && edge_of(#[trigger] ls[k]) == p {
            let k = choose|k: int| 0 <= k < ls.len() && edge_of(#[trigger] ls[k]) == p;
            if k > 0 {
                assert(rest[k - 1] == ls[k]);
            }
        }
    }
}

/// Edge lines add their edges to the graph as a set: what they leave behind
/// is the graph before them with the set of their edges.
pub proof fn lemma_edge_lines_add_a_set(ls: Seq<Seq<char>>, g: GraphView)
    requires
        edges_only(ls),
    ensures
        read_lines(ls, Some(g)) == Ok::<Option<GraphView>, GraphErrorView>(
            Some(g.with_edges(edges_of(ls))),
        ),
    decreases ls.len(),
{
    if ls.len() == 0 {
        assert(endpoints(Set::<(usize, usize)>::empty()) =~= Set::<usize>::empty());
        assert(g.with_edges(edges_of(ls)).vertices =~= g.vertices);
        assert(g.with_edges(edges_of(ls)).edges =~= g.edges);
    } else {
        let rest = ls.drop_first();
        assert(parse_line(ls[0]) matches Ok(LineView::Edge(_, _)));
        assert forall|k: int| 0 <= k < rest.len() implies (#[trigger] parse_line(
            rest[k],
        )) matches Ok(LineView::Edge(_, _)) by {
            assert(rest[k] == ls[k + 1]);
        }
        match parse_line(ls[0]) {
            Ok(LineView::Edge(a, b)) => {
                let next = g.with_edge(a, b);
                let pair = canonical_pair(a, b);
                let tail = edges_of(rest);
                lemma_edge_lines_add_a_set(rest, next);
                let one = next.with_edges(tail);
                let other = g.with_edges(tail.insert(pair));
                assert(one.edges =~= other.edges);
                assert forall|v: usize| one.vertices.contains(v) <==> other.vertices.contains(v) by {
                    if endpoints(tail).contains(v) {
                        let p = choose|p: (usize, usize)| #[trigger]
                            tail.contains(p) && (p.0 == v || p.1 == v);
                        assert(tail.insert(pair).contains(p));
                    }
                    if v == a || v == b {
                        assert(tail.insert(pair).contains(pair));
                    }
                    if endpoints(tail.insert(pair)).contains(v) {
                        let p = choose|p: (usize, usize)| #[trigger]
                            tail.insert(pair).contains(p) && (p.0 == v || p.1 == v);
                        if p != pair {
                            assert(tail.contains(p));
                        }
                    }
                }
                assert(one.vertices =~= other.vertices);
            },
            _ => {},
        }
    }
}

/// The edges of a graph are a set of unordered pairs: edge lines that give
/// the same set of edges leave the same graph behind, in whatever order they
/// stand, however often one is repeated, and whichever endpoint each names
/// first.
pub proof fn lemma_edge_lines_in_any_order(
    one: Seq<Seq<char>>,
    other: Seq<Seq<char>>,
    g: GraphView,
)
    requires
        edges_only(one),
        edges_only(other),
        edges_of(one) == edges_of(other),
    ensures
        read_lines(one, Some(g)) == read_lines(other, Some(g)),
{
    lemma_edge_lines_add_a_set(one, g);
    lemma_edge_lines_add_a_set(other, g);
}

/// What the lines `ls` leave behind when they are read after lines that left
/// `before` behind.
pub open spec fn read_on(
    before: Result<Option<GraphView>, GraphErrorView>,
    ls: Seq<Seq<char>>,
) -> Result<Option<GraphView>, GraphErrorView> {
    match before {
        Err(e) => Err(e),
        Ok(acc) => read_lines(ls, acc),
    }
}

/// Lines can be read in two parts, the second on top of the first.
pub proof fn lemma_read_lines_in_parts(
    first: Seq<Seq<char>>,
    second: Seq<Seq<char>>,
    acc: Option<GraphView>,
)
    ensures
        read_lines(first + second, acc) == read_on(read_lines(first, acc), second),
    decreases first.len(),
{
    if first.len() == 0 {
        assert(first + second =~= second);
    } else {
        let all = first + second;
        assert(all[0] == first[0]);
        assert(all.drop_first() =~= first.drop_first() + second);
        match parse_line(first[0]) {
            Err(_) => {},
            Ok(line) => match apply_line(acc, line) {
                Err(_) => {},
                Ok(next) => {
                    lemma_read_lines_in_parts(first.drop_first(), second, next);
                },
            },
        }
    }
}

/// Graph canonicalisation over a whole text: where the lines of two texts
/// differ only in a stretch of edge lines, and the two stretches give the same
/// set of edges, both texts are read to the same result.
pub proof fn theorem_edges_are_a_set(
    head: Seq<Seq<char>>,
    one: Seq<Seq<char>>,
    other: Seq<Seq<char>>,
    tail: Seq<Seq<char>>,
    acc: Option<GraphView>,
)
    requires
        edges_only(one),
        edges_only(other),
        edges_of(one) == edges_of(other),
    ensures
        read_lines(head + one + tail, acc) == read_lines(head + other + tail, acc),
{
    lemma_read_lines_in_parts(head + one, tail, acc);
    lemma_read_lines_in_parts(head + other, tail, acc);
    lemma_read_lines_in_parts(head, one, acc);
    lemma_read_lines_in_parts(head, other, acc);
    match read_lines(head, acc) {
        Err(_) => {},
        Ok(None) => {
            if one.len() > 0 {
                assert(edges_of(one).contains(edge_of(one[0])));
            }
            if other.len() > 0 {
                assert(edges_of(other).contains(edge_of(other[0])));
            }
            if one.len() > 0 {
                assert(parse_line(one[0]) matches Ok(LineView::Edge(_, _)));
                assert(parse_line(other[0]) matches Ok(LineView::Edge(_, _)));
            }
        },
        Ok(Some(g)) => {
            lemma_edge_lines_in_any_order(one, other, g);
        },
    }
}

/// The same of the texts themselves: two texts whose lines differ only in
/// such a stretch of edge lines describe the same graph, or fail alike.
pub proof fn theorem_texts_with_the_same_edges(
    s: Seq<char>,
    t: Seq<char>,
    head: Seq<Seq<char>>,
    one: Seq<Seq<char>>,
    other: Seq<Seq<char>>,
    tail: Seq<Seq<char>>,
)
    requires
        lines(s) == head + one + tail,
        lines(t) == head + other + tail,
        edges_only(one),
        edges_only(other),
        edges_of(one) == edges_of(other),
    ensures
        parse_graph(s) == parse_graph(t),
{
    theorem_edges_are_a_set(head, one, other, tail, None);
}

} // verus!
