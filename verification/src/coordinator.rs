//! What the coordinator decides: who gets which identifier, and who dials
//! whom.
//!
//! Nodes register one after the other and are numbered `1..=N` in that order.
//! Each edge of the graph becomes one stream, dialed by its lower endpoint and
//! accepted by its higher one.  Since every dial goes upward, no two nodes
//! wait for each other.

use crate::graph::{
    apply_line, endpoints, parse_graph, parse_line, read_lines, Graph, GraphErrorView, GraphView,
    LineView,
};
use crate::text::lines;
use crate::ident::{canonical_pair, Connection, NodeId};
use crate::wire::{count_bytes, encode_count, encode_identity, identity_bytes};
use vstd::prelude::*;

verus! {

impl GraphView {
    /// Whether an edge joins the two distinct vertices `a` and `b`.
    pub open spec fn joined(self, a: usize, b: usize) -> bool {
        a != b && self.edges.contains(canonical_pair(a, b))
    }

    /// The neighbours of `i`.
    pub open spec fn neighbours(self, i: usize) -> Set<usize> {
        Set::new(|j: usize| self.joined(i, j))
    }

    /// The neighbours of `i` that dial it: those with a lower number.
    pub open spec fn dialers(self, i: usize) -> Set<usize> {
        Set::new(|j: usize| j < i && self.edges.contains((j, i)))
    }

    /// The neighbours that `i` dials: those with a higher number, as far as
    /// they are among the `node_count` nodes that registered.
    pub open spec fn dialed(self, i: usize, node_count: usize) -> Set<usize> {
        Set::new(|j: usize| i < j && j <= node_count && self.edges.contains((i, j)))
    }

    /// Whether every edge is stored with its lower endpoint first.
    pub open spec fn canonical(self) -> bool {
        forall|p: (usize, usize)| #[trigger] self.edges.contains(p) ==> p.0 <= p.1
    }

    /// Whether every edge joins two of the nodes `1..=node_count`.
    pub open spec fn within(self, node_count: usize) -> bool {
        forall|p: (usize, usize)| #[trigger]
            self.edges.contains(p) ==> 1 <= p.0 && p.1 <= node_count
    }
}

/// What the coordinator tells one node.
#[derive(Debug, Clone, PartialEq, Eq)]
pub struct Plan {
    /// How many nodes there are.
    pub node_count: usize,
    /// The identifier of the node that the plan is for.
    pub id: NodeId,
    /// How many streams the node has to accept.
    pub incoming: usize,
    /// The peers that the node has to dial.
    pub outgoing: Vec<NodeId>,
}

impl Plan {
    /// The datagrams that open the plan, in the order in which they go out:
    /// the number of nodes with the identifier, the number of streams to
    /// accept, the number of streams to dial.  The addresses to dial follow
    /// them, one datagram each.
    pub fn announce(&self) -> (datagrams: Vec<Vec<u8>>)
        ensures
            datagrams@.len() == 3,
            datagrams@[0]@ == identity_bytes(self.node_count, self.id),
            datagrams@[1]@ == count_bytes(self.incoming),
            datagrams@[2]@ == count_bytes(self.outgoing.len()),
    {
        let mut datagrams: Vec<Vec<u8>> = Vec::new();
        datagrams.push(encode_identity(self.node_count, self.id));
        datagrams.push(encode_count(self.incoming));
        datagrams.push(encode_count(self.outgoing.len()));
        datagrams
    }
}

/// Counts the nodes as they register.
#[derive(Debug, Clone, Copy, PartialEq, Eq, Structural)]
pub struct Registrar {
    /// How many nodes are to register.
    pub expected: usize,
    /// How many have.
    pub registered: usize,
}

impl Registrar {
    /// A registrar that waits for `expected` nodes.
    pub fn new(expected: usize) -> (r: Registrar)
        ensures
            r == (Registrar { expected, registered: 0 }),
    {
        Registrar { expected, registered: 0 }
    }

    /// Whether every node has registered.
    pub fn complete(&self) -> (done: bool)
        ensures
            done == (self.registered >= self.expected),
    {
        self.registered >= self.expected
    }

    /// Takes note of one more registration and gives the newcomer its
    /// identifier: the next number, starting at one.  Once every expected
    /// node has registered, a registration is passed over.
    pub fn enrol(&mut self) -> (id: Option<NodeId>)
        ensures
            old(self).registered < old(self).expected ==> {
                &&& id == Some(NodeId((old(self).registered + 1) as usize))
                &&& *final(self) == (Registrar {
                    expected: old(self).expected,
                    registered: (old(self).registered + 1) as usize,
                })
            },
            old(self).registered >= old(self).expected ==> id.is_none() && *final(self) == *old(
                self,
            ),
    {
        if self.registered < self.expected {
            self.registered = self.registered + 1;
            Some(NodeId(self.registered))
        } else {
            None
        }
    }
}

/// A list without repetitions has as many entries as the set it stands for
/// has members.
pub proof fn lemma_list_counts_set(list: Seq<NodeId>, set: Set<usize>)
    requires
        list.no_duplicates(),
        forall|j: usize| list.contains(NodeId(j)) <==> set.contains(j),
    ensures
        set.finite(),
        set.len() == list.len(),
{
    let numbers = list.map_values(|n: NodeId| n.0);
    assert(numbers.no_duplicates());
    assert forall|j: usize| numbers.to_set().contains(j) <==> set.contains(j) by {
        if numbers.to_set().contains(j) {
            let k = choose|k: int| 0 <= k < numbers.len() && numbers[k] == j;
            assert(list[k] == NodeId(j));
        }
        if set.contains(j) {
            let k = choose|k: int| 0 <= k < list.len() && list[k] == NodeId(j);
            assert(numbers[k] == j);
        }
    }
    assert(numbers.to_set() =~= set);
    numbers.unique_seq_to_set();
    vstd::seq_lib::seq_to_set_is_finite(numbers);
}

impl Graph {
    /// Whether every edge joins two of the nodes `1..=node_count`.
    pub fn within(&self, node_count: usize) -> (fits: bool)
        requires
            self.wf(),
        ensures
            fits == self@.within(node_count),
    {
        let mut k: usize = 0;
        while k < self.edges.len()
            invariant
                k <= self.edges.len(),
                forall|at: int|
                    0 <= at < k ==> 1 <= (#[trigger] self.edges@[at]).0.0 && self.edges@[at].1.0
                        <= node_count,
            decreases self.edges.len() - k,
        {
            if self.edges[k].0.0 < 1 || self.edges[k].1.0 > node_count {
                proof {
                    let p = (self.edges@[k as int].0.0, self.edges@[k as int].1.0);
                    assert(self.edges@[k as int] == Connection(NodeId(p.0), NodeId(p.1)));
                    assert(self@.edges.contains(p));
                }
                return false;
            }
            k += 1;
        }
        proof {
            assert forall|p: (usize, usize)| #[trigger] self@.edges.contains(p) implies 1 <= p.0
                && p.1 <= node_count by {
                let edge = Connection(NodeId(p.0), NodeId(p.1));
                let at = choose|at: int| 0 <= at < self.edges@.len() && self.edges@[at] == edge;
                assert(self.edges@[at].0.0 == p.0);
            }
        }
        true
    }

    /// The plan for node `id` when `node_count` nodes have registered: how
    /// many lower neighbours will dial it, and which higher neighbours it
    /// dials.
    pub fn plan(&self, id: NodeId, node_count: usize) -> (plan: Plan)
        requires
            self.wf(),
        ensures
            plan.node_count == node_count,
            plan.id == id,
            plan.incoming == self@.dialers(id.0).len(),
            self@.dialers(id.0).finite(),
            plan.outgoing@.no_duplicates(),
            forall|j: usize|
                plan.outgoing@.contains(NodeId(j)) <==> self@.dialed(id.0, node_count).contains(j),
            plan.outgoing@.len() == self@.dialed(id.0, node_count).len(),
            self@.dialed(id.0, node_count).finite(),
            plan.incoming + plan.outgoing@.len() <= self.edges@.len(),
    {
        let mut lower: Vec<NodeId> = Vec::new();
        let mut higher: Vec<NodeId> = Vec::new();
        let mut k: usize = 0;
        while k < self.edges.len()
            invariant
                k <= self.edges.len(),
                self.wf(),
                lower@.no_duplicates(),
                higher@.no_duplicates(),
                lower@.len() + higher@.len() <= k,
                forall|j: usize|
                    lower@.contains(NodeId(j)) <==> j < id.0 && self.edges@.take(k as int).contains(
                        Connection(NodeId(j), id),
                    ),
                forall|j: usize|
                    higher@.contains(NodeId(j)) <==> id.0 < j && j <= node_count
                        && self.edges@.take(k as int).contains(Connection(id, NodeId(j))),
            decreases self.edges.len() - k,
        {
            let edge = self.edges[k];
            let ghost seen = self.edges@.take(k as int);
            let ghost lower_before = lower@;
            let ghost higher_before = higher@;
            proof {
                assert(self.edges@.take(k + 1) =~= seen.push(edge));
                assert(!seen.contains(edge)) by {
                    if seen.contains(edge) {
                        let at = choose|at: int| 0 <= at < seen.len() && seen[at] == edge;
                        assert(self.edges@[at] == self.edges@[k as int]);
                    }
                }
            }
            if edge.1.0 == id.0 && edge.0.0 < id.0 {
                proof {
                    assert(edge == Connection(NodeId(edge.0.0), id));
                    assert(!lower_before.contains(NodeId(edge.0.0)));
                    crate::ident::lemma_push_contains(lower_before, edge.0);
                }
                lower.push(edge.0);
            }
            if edge.0.0 == id.0 && id.0 < edge.1.0 && edge.1.0 <= node_count {
                proof {
                    assert(edge == Connection(id, NodeId(edge.1.0)));
                    assert(!higher_before.contains(NodeId(edge.1.0)));
                    crate::ident::lemma_push_contains(higher_before, edge.1);
                }
                higher.push(edge.1);
            }
            proof {
                assert forall|j: usize|
                    lower@.contains(NodeId(j)) <==> j < id.0 && seen.push(edge).contains(
                        Connection(NodeId(j), id),
                    ) by {
                    vstd::seq_lib::lemma_seq_contains_after_push(
                        seen,
                        edge,
                        Connection(NodeId(j), id),
                    );
                    vstd::seq_lib::lemma_seq_contains_after_push(lower_before, edge.0, NodeId(j));
                }
                assert forall|j: usize|
                    higher@.contains(NodeId(j)) <==> id.0 < j && j <= node_count && seen.push(
                        edge,
                    ).contains(Connection(id, NodeId(j))) by {
                    vstd::seq_lib::lemma_seq_contains_after_push(
                        seen,
                        edge,
                        Connection(id, NodeId(j)),
                    );
                    vstd::seq_lib::lemma_seq_contains_after_push(higher_before, edge.1, NodeId(j));
                }
            }
            k += 1;
        }
        proof {
            assert(self.edges@.take(k as int) =~= self.edges@);
            assert forall|j: usize| lower@.contains(NodeId(j)) <==> self@.dialers(id.0).contains(
                j,
            ) by {
                assert(self@.edges.contains((j, id.0)) <==> self.edges@.contains(
                    Connection(NodeId(j), NodeId(id.0)),
                ));
            }
            assert forall|j: usize| higher@.contains(NodeId(j)) <==> self@.dialed(
                id.0,
                node_count,
            ).contains(j) by {
                assert(self@.edges.contains((id.0, j)) <==> self.edges@.contains(
                    Connection(NodeId(id.0), NodeId(j)),
                ));
            }
            lemma_list_counts_set(lower@, self@.dialers(id.0));
            lemma_list_counts_set(higher@, self@.dialed(id.0, node_count));
        }
        Plan { node_count, id, incoming: lower.len(), outgoing: higher }
    }
}

/// The edges of a well-formed graph are stored with the lower endpoint
/// first.
pub proof fn lemma_wf_graph_canonical(g: Graph)
    requires
        g.wf(),
    ensures
        g@.canonical(),
{
    assert forall|p: (usize, usize)| #[trigger] g@.edges.contains(p) implies p.0 <= p.1 by {
        let edge = Connection(NodeId(p.0), NodeId(p.1));
        let at = choose|at: int| 0 <= at < g.edges@.len() && g.edges@[at] == edge;
        assert(g.edges@[at].is_canonical());
    }
}

/// Every stream has one end that dials and one that accepts: `i` dials `j`
/// exactly when `j` counts `i` among those that dial it, and then `i` is the
/// lower of the two.
pub proof fn lemma_dial_meets_accept(g: GraphView, node_count: usize, i: usize, j: usize)
    requires
        j <= node_count,
    ensures
        g.dialed(i, node_count).contains(j) <==> g.dialers(j).contains(i),
        g.dialed(i, node_count).contains(j) ==> i < j,
{
}

/// The peers of a node are its neighbours, each once: those that dial it
/// and those that it dials make up the neighbours between them, and no node
/// is on both sides.
pub proof fn lemma_plan_covers_neighbours(g: GraphView, node_count: usize, i: usize)
    requires
        g.canonical(),
        g.within(node_count),
    ensures
        g.dialers(i).union(g.dialed(i, node_count)) == g.neighbours(i),
        g.dialers(i).disjoint(g.dialed(i, node_count)),
{
    assert forall|j: usize|
        g.dialers(i).union(g.dialed(i, node_count)).contains(j) <==> g.neighbours(i).contains(
            j,
        ) by {
        if g.neighbours(i).contains(j) {
            assert(g.edges.contains(canonical_pair(i, j)));
        }
        if g.dialers(i).contains(j) {
            assert(canonical_pair(i, j) == (j, i));
        }
        if g.dialed(i, node_count).contains(j) {
            assert(canonical_pair(i, j) == (i, j));
        }
    }
    assert(g.dialers(i).union(g.dialed(i, node_count)) =~= g.neighbours(i));
}

/// A node has as many peers as it has neighbours: the streams it accepts and
/// the streams it dials add up to its degree.
pub proof fn lemma_plan_counts_degree(g: GraphView, node_count: usize, i: usize)
    requires
        g.canonical(),
        g.within(node_count),
        g.dialers(i).finite(),
        g.dialed(i, node_count).finite(),
    ensures
        g.neighbours(i).finite(),
        g.dialers(i).len() + g.dialed(i, node_count).len() == g.neighbours(i).len(),
{
    lemma_plan_covers_neighbours(g, node_count, i);
    vstd::set_lib::lemma_set_disjoint_lens(g.dialers(i), g.dialed(i, node_count));
}

impl GraphView {
    /// Whether the graph has no vertex but those that its manifest counts and
    /// those that its edges join.
    pub open spec fn tidy(self) -> bool {
        self.vertices =~= Set::new(|n: usize| 1 <= n <= self.vertex_count).union(
            endpoints(self.edges),
        )
    }
}

/// Reading lines leaves a graph with no vertex but those that its manifest
/// counts and those that its edges join.
pub proof fn lemma_reading_keeps_tidy(ls: Seq<Seq<char>>, acc: Option<GraphView>)
    requires
        acc matches Some(g) ==> g.tidy(),
    ensures
        read_lines(ls, acc) matches Ok(Some(g)) ==> g.tidy(),
    decreases ls.len(),
{
    if ls.len() > 0 {
        match parse_line(ls[0]) {
            Err(_) => {},
            Ok(line) => match apply_line(acc, line) {
                Err(_) => {},
                Ok(next) => {
                    match line {
                        LineView::Manifest(v, _) => {
                            let g = GraphView::edgeless(v);
                            assert(endpoints(g.edges) =~= Set::<usize>::empty());
                        },
                        LineView::Edge(a, b) => {
                            let before = acc->0;
                            let after = before.with_edge(a, b);
                            let pair = canonical_pair(a, b);
                            assert forall|v: usize|
                                endpoints(after.edges).contains(v) <==> (endpoints(
                                    before.edges,
                                ).contains(v) || v == a || v == b) by {
                                if endpoints(before.edges).contains(v) {
                                    let p = choose|p: (usize, usize)| #[trigger]
                                        before.edges.contains(p) && (p.0 == v || p.1 == v);
                                    assert(after.edges.contains(p));
                                }
                                if v == a || v == b {
                                    assert(after.edges.contains(pair));
                                }
                                if endpoints(after.edges).contains(v) {
                                    let p = choose|p: (usize, usize)| #[trigger]
                                        after.edges.contains(p) && (p.0 == v || p.1 == v);
                                    if p != pair {
                                        assert(before.edges.contains(p));
                                    }
                                }
                            }
                        },
                        LineView::Comment(_) => {},
                    }
                    lemma_reading_keeps_tidy(ls.drop_first(), next);
                },
            },
        }
    }
}

/// Reading lines leaves a graph whose edges name the lower endpoint first.
pub proof fn lemma_reading_keeps_canonical(ls: Seq<Seq<char>>, acc: Option<GraphView>)
    requires
        acc matches Some(g) ==> g.canonical(),
    ensures
        read_lines(ls, acc) matches Ok(Some(g)) ==> g.canonical(),
    decreases ls.len(),
{
    if ls.len() > 0 {
        match parse_line(ls[0]) {
            Err(_) => {},
            Ok(line) => match apply_line(acc, line) {
                Err(_) => {},
                Ok(next) => {
                    lemma_reading_keeps_canonical(ls.drop_first(), next);
                },
            },
        }
    }
}

/// The vertices of a graph are `1..=N`: where a text is read to a graph whose
/// edges all join vertices that its manifest counts, the graph has just those
/// vertices, one for each node.
pub proof fn theorem_vertices_are_numbered(s: Seq<char>)
    requires
        parse_graph(s) matches Ok(g) && g.within(g.vertex_count),
    ensures
        parse_graph(s) matches Ok(g) && g.vertices == Set::new(
            |n: usize| 1 <= n <= g.vertex_count,
        ),
{
    lemma_reading_keeps_tidy(lines(s), None);
    lemma_reading_keeps_canonical(lines(s), None);
    let g = parse_graph(s)->Ok_0;
    assert(read_lines(lines(s), None) == Ok::<Option<GraphView>, GraphErrorView>(Some(g)));
    assert forall|v: usize| endpoints(g.edges).contains(v) implies 1 <= v <= g.vertex_count by {
        let p = choose|p: (usize, usize)| #[trigger] g.edges.contains(p) && (p.0 == v || p.1 == v);
        assert(p.0 <= p.1);
    }
    assert(g.vertices =~= Set::new(|n: usize| 1 <= n <= g.vertex_count));
}

} // verus!
