//! The bootstrap of all nodes together.
//!
//! This module holds no executable code.  It lets every node follow the
//! sequence of [`crate::bootstrap`] under the plan of [`crate::coordinator`],
//! and proves three things: no handshake is ever refused, the nodes never
//! come to wait for each other, and a node that is ready has its neighbours
//! as peers, each once and nobody else.

use crate::bootstrap::{Event, Phase, Progress};
use crate::graph::GraphView;
use crate::ident::NodeId;
use vstd::prelude::*;

verus! {

/// What the coordinator has decided: how many nodes there are, which graph
/// joins them, and whom each node dials, in which order.
pub struct Scheme {
    pub node_count: usize,
    pub graph: GraphView,
    pub dials: Map<usize, Seq<NodeId>>,
}

impl Scheme {
    /// Whether `i` is one of the nodes.
    pub open spec fn is_node(self, i: usize) -> bool {
        1 <= i <= self.node_count
    }

    /// How many streams node `i` accepts.
    pub open spec fn incoming(self, i: usize) -> nat {
        self.graph.dialers(i).len()
    }

    /// Whether the scheme is one that the coordinator makes: the graph joins
    /// the nodes `1..=node_count` and nothing else, and each node dials its
    /// higher neighbours, each once.  These are the plans that
    /// [`crate::graph::Graph::plan`] gives for such a graph.
    pub open spec fn wf(self) -> bool {
        &&& self.graph.canonical()
        &&& self.graph.within(self.node_count)
        &&& forall|i: usize| #[trigger]
            self.is_node(i) ==> {
                &&& self.dials.dom().contains(i)
                &&& self.graph.dialers(i).finite()
                &&& self.dials[i].no_duplicates()
                &&& self.incoming(i) + self.dials[i].len() <= usize::MAX
                &&& forall|j: usize|
                    self.dials[i].contains(NodeId(j)) <==> self.graph.dialed(
                        i,
                        self.node_count,
                    ).contains(j)
            }
    }

    /// What the coordinator tells node `i` next, when `i` is in `phase`.
    pub open spec fn tells(self, i: usize, phase: Phase) -> Event {
        match phase {
            Phase::AwaitingIdentity => Event::Identity {
                node_count: self.node_count,
                id: NodeId(i),
            },
            Phase::AwaitingIncoming => Event::Count(self.incoming(i) as usize),
            _ => Event::Count(self.dials[i].len() as usize),
        }
    }
}

/// Where every node stands in its bootstrap.
pub struct Assembly {
    pub nodes: Map<usize, Progress>,
}

/// One thing that happens during the bootstrap.
pub enum Move {
    /// `node` tells the coordinator where it listens.
    Register { node: usize },
    /// The next datagram of the coordinator reaches `node`.
    Tell { node: usize },
    /// `dialer` has dialed `accepter`, `accepter` accepts, and each names
    /// itself to the other.
    Shake { dialer: usize, accepter: usize },
}

/// Whether a node in `phase` has its whole plan.
pub open spec fn planned(phase: Phase) -> bool {
    phase == Phase::Accepting || phase == Phase::Dialing || phase == Phase::Ready
}

/// What `event` makes of `p`; an event that cannot follow leaves it as it
/// was.
pub open spec fn moved(p: Progress, event: Event) -> Progress {
    match p.advanced(event) {
        Ok(next) => next,
        Err(_) => p,
    }
}

impl Assembly {
    /// Whether no node has done anything yet.
    pub open spec fn initial(self, scheme: Scheme) -> bool {
        forall|i: usize| #[trigger]
            scheme.is_node(i) ==> self.nodes.dom().contains(i) && self.nodes[i]
                == Progress::start()
    }

    /// The peer that `dialer` dials next.
    pub open spec fn target(self, scheme: Scheme, dialer: usize) -> NodeId {
        scheme.dials[dialer][self.nodes[dialer].peers.len() - self.nodes[dialer].incoming]
    }

    /// Whether `m` can happen.
    pub open spec fn enabled(self, scheme: Scheme, m: Move) -> bool {
        match m {
            Move::Register { node } => {
                &&& scheme.is_node(node)
                &&& self.nodes[node].phase == Phase::Registering
            },
            Move::Tell { node } => {
                &&& scheme.is_node(node)
                &&& (self.nodes[node].phase == Phase::AwaitingIdentity || self.nodes[node].phase
                    == Phase::AwaitingIncoming || self.nodes[node].phase
                    == Phase::AwaitingOutgoing)
            },
            Move::Shake { dialer, accepter } => {
                &&& scheme.is_node(dialer)
                &&& scheme.is_node(accepter)
                &&& self.nodes[dialer].phase == Phase::Dialing
                &&& self.nodes[accepter].phase == Phase::Accepting
                &&& self.target(scheme, dialer) == NodeId(accepter)
            },
        }
    }

    /// The state after `m` has happened.
    pub open spec fn after(self, scheme: Scheme, m: Move) -> Assembly {
        match m {
            Move::Register { node } => Assembly {
                nodes: self.nodes.insert(node, moved(self.nodes[node], Event::Registered)),
            },
            Move::Tell { node } => Assembly {
                nodes: self.nodes.insert(
                    node,
                    moved(self.nodes[node], scheme.tells(node, self.nodes[node].phase)),
                ),
            },
            Move::Shake { dialer, accepter } => Assembly {
                nodes: self.nodes.insert(
                    dialer,
                    moved(self.nodes[dialer], Event::Peer(NodeId(accepter))),
                ).insert(accepter, moved(self.nodes[accepter], Event::Peer(NodeId(dialer)))),
            },
        }
    }

    /// What holds of one node at all times: what it has learnt is what the
    /// scheme says, the peers it has accepted are lower neighbours, and the
    /// peers it has dialed are the first of those it is to dial.
    pub open spec fn node_ok(self, scheme: Scheme, i: usize) -> bool {
        let p = self.nodes[i];
        &&& self.nodes.dom().contains(i)
        &&& p.wf()
        &&& (p.phase != Phase::Registering && p.phase != Phase::AwaitingIdentity) ==> p.id
            == NodeId(i) && p.node_count == scheme.node_count
        &&& (p.phase == Phase::AwaitingOutgoing || planned(p.phase)) ==> p.incoming
            == scheme.incoming(i)
        &&& planned(p.phase) ==> p.outgoing == scheme.dials[i].len()
        &&& forall|k: int|
            0 <= k < p.peers.len() ==> if k < p.incoming {
                scheme.graph.dialers(i).contains((#[trigger] p.peers[k]).0)
            } else {
                k - p.incoming < scheme.dials[i].len() && p.peers[k] == scheme.dials[i][k
                    - p.incoming]
            }
    }

    /// Whether `i` and `j` agree on being peers: each has the other, or
    /// neither has.
    pub open spec fn pair_ok(self, i: usize, j: usize) -> bool {
        self.nodes[i].peers.contains(NodeId(j)) <==> self.nodes[j].peers.contains(NodeId(i))
    }

    /// What holds of the bootstrap at all times.
    pub open spec fn inv(self, scheme: Scheme) -> bool {
        &&& forall|i: usize| scheme.is_node(i) ==> #[trigger] self.node_ok(scheme, i)
        &&& forall|i: usize, j: usize|
            scheme.is_node(i) && scheme.is_node(j) ==> #[trigger] self.pair_ok(i, j)
    }

    /// Whether every node is ready.
    pub open spec fn complete(self, scheme: Scheme) -> bool {
        forall|i: usize| scheme.is_node(i) ==> (#[trigger] self.nodes[i]).phase == Phase::Ready
    }
}

/// At the start the invariant holds.
pub proof fn lemma_initial_inv(scheme: Scheme, start: Assembly)
    requires
        start.initial(scheme),
    ensures
        start.inv(scheme),
{
    assert forall|i: usize| scheme.is_node(i) implies #[trigger] start.node_ok(scheme, i) by {
        assert(start.nodes[i] == Progress::start());
    }
    assert forall|i: usize, j: usize| scheme.is_node(i) && scheme.is_node(j) implies #[trigger]
        start.pair_ok(i, j) by {
        assert(start.nodes[i] == Progress::start());
        assert(start.nodes[j] == Progress::start());
    }
}

/// A node has not yet the peer that it dials next.
pub proof fn lemma_target_is_new(scheme: Scheme, now: Assembly, dialer: usize)
    requires
        scheme.wf(),
        now.inv(scheme),
        scheme.is_node(dialer),
        now.nodes[dialer].phase == Phase::Dialing,
    ensures
        !now.nodes[dialer].peers.contains(now.target(scheme, dialer)),
        scheme.graph.dialed(dialer, scheme.node_count).contains(now.target(scheme, dialer).0),
        now.nodes[dialer].incoming <= now.nodes[dialer].peers.len(),
        now.nodes[dialer].peers.len() - now.nodes[dialer].incoming < scheme.dials[dialer].len(),
{
    let p = now.nodes[dialer];
    let next = p.peers.len() - p.incoming;
    let target = now.target(scheme, dialer);
    assert(now.node_ok(scheme, dialer));
    assert(0 <= next < scheme.dials[dialer].len());
    assert(scheme.dials[dialer][next] == target);
    assert(scheme.dials[dialer].contains(NodeId(target.0)));
    assert(scheme.graph.dialed(dialer, scheme.node_count).contains(target.0));
    if p.peers.contains(target) {
        let k = choose|k: int| 0 <= k < p.peers.len() && p.peers[k] == target;
        if k < p.incoming {
            assert(scheme.graph.dialers(dialer).contains(p.peers[k].0));
        } else {
            assert(scheme.dials[dialer][k - p.incoming] == scheme.dials[dialer][next]);
            assert(k - p.incoming != next);
        }
    }
}

/// No event of the bootstrap is ever refused: what the coordinator tells a
/// node fits the phase of the node, and the peer that a handshake names is
/// neither the node itself nor a peer it has already.
pub proof fn lemma_nothing_is_refused(scheme: Scheme, pre: Assembly, m: Move)
    requires
        scheme.wf(),
        pre.inv(scheme),
        pre.enabled(scheme, m),
    ensures
        match m {
            Move::Register { node } => pre.nodes[node].advanced(Event::Registered) is Ok,
            Move::Tell { node } => pre.nodes[node].advanced(
                scheme.tells(node, pre.nodes[node].phase),
            ) is Ok,
            Move::Shake { dialer, accepter } => {
                &&& pre.nodes[dialer].advanced(Event::Peer(NodeId(accepter))) is Ok
                &&& pre.nodes[accepter].advanced(Event::Peer(NodeId(dialer))) is Ok
                &&& dialer < accepter
                &&& scheme.graph.dialers(accepter).contains(dialer)
            },
        },
{
    match m {
        Move::Register { node } => {},
        Move::Tell { node } => {
            assert(pre.node_ok(scheme, node));
        },
        Move::Shake { dialer, accepter } => {
            assert(pre.node_ok(scheme, dialer));
            assert(pre.node_ok(scheme, accepter));
            assert(pre.pair_ok(dialer, accepter));
            lemma_target_is_new(scheme, pre, dialer);
        },
    }
}

/// Every move keeps the invariant.
pub proof fn lemma_move_keeps_inv(scheme: Scheme, pre: Assembly, m: Move)
    requires
        scheme.wf(),
        pre.inv(scheme),
        pre.enabled(scheme, m),
    ensures
        pre.after(scheme, m).inv(scheme),
{
    let post = pre.after(scheme, m);
    lemma_nothing_is_refused(scheme, pre, m);
    match m {
        Move::Register { node } => {
            assert forall|i: usize| scheme.is_node(i) implies #[trigger] post.node_ok(
                scheme,
                i,
            ) by {
                assert(pre.node_ok(scheme, i));
            }
            assert forall|i: usize, j: usize|
                scheme.is_node(i) && scheme.is_node(j) implies #[trigger] post.pair_ok(i, j) by {
                assert(pre.pair_ok(i, j));
            }
        },
        Move::Tell { node } => {
            assert(pre.node_ok(scheme, node));
            assert forall|i: usize| scheme.is_node(i) implies #[trigger] post.node_ok(
                scheme,
                i,
            ) by {
                assert(pre.node_ok(scheme, i));
            }
            assert forall|i: usize, j: usize|
                scheme.is_node(i) && scheme.is_node(j) implies #[trigger] post.pair_ok(i, j) by {
                assert(pre.pair_ok(i, j));
            }
        },
        Move::Shake { dialer, accepter } => {
            let d = pre.nodes[dialer];
            let a = pre.nodes[accepter];
            assert(pre.node_ok(scheme, dialer));
            assert(pre.node_ok(scheme, accepter));
            lemma_target_is_new(scheme, pre, dialer);
            assert(post.nodes[dialer].peers == d.peers.push(NodeId(accepter)));
            assert(post.nodes[accepter].peers == a.peers.push(NodeId(dialer)));
            assert forall|i: usize| scheme.is_node(i) implies #[trigger] post.node_ok(
                scheme,
                i,
            ) by {
                assert(pre.node_ok(scheme, i));
                if i == dialer {
                    crate::ident::lemma_push_contains(d.peers, NodeId(accepter));
                } else if i == accepter {
                    crate::ident::lemma_push_contains(a.peers, NodeId(dialer));
                }
            }
            assert forall|i: usize, j: usize|
                scheme.is_node(i) && scheme.is_node(j) implies #[trigger] post.pair_ok(i, j) by {
                assert(pre.pair_ok(i, j));
                crate::ident::lemma_push_contains(d.peers, NodeId(accepter));
                crate::ident::lemma_push_contains(a.peers, NodeId(dialer));
            }
        },
    }
}

/// A node that dials, or is ready, has accepted every lower neighbour.
pub proof fn lemma_accepted_all(scheme: Scheme, now: Assembly, i: usize)
    requires
        scheme.wf(),
        now.inv(scheme),
        scheme.is_node(i),
        now.nodes[i].phase == Phase::Dialing || now.nodes[i].phase == Phase::Ready,
    ensures
        forall|j: usize| #[trigger]
            scheme.graph.dialers(i).contains(j) ==> now.nodes[i].peers.contains(NodeId(j)),
{
    let p = now.nodes[i];
    assert(now.node_ok(scheme, i));
    let accepted = p.peers.take(p.incoming as int);
    let numbers = accepted.map_values(|n: NodeId| n.0);
    assert(accepted.no_duplicates());
    assert(numbers.no_duplicates());
    numbers.unique_seq_to_set();
    vstd::seq_lib::seq_to_set_is_finite(numbers);
    assert(numbers.to_set().subset_of(scheme.graph.dialers(i))) by {
        assert forall|j: usize| numbers.to_set().contains(j) implies scheme.graph.dialers(
            i,
        ).contains(j) by {
            let k = choose|k: int| 0 <= k < numbers.len() && numbers[k] == j;
            assert(p.peers[k].0 == j);
        }
    }
    vstd::set_lib::lemma_subset_equality(numbers.to_set(), scheme.graph.dialers(i));
    assert forall|j: usize| #[trigger] scheme.graph.dialers(i).contains(j) implies p.peers.contains(
        NodeId(j),
    ) by {
        assert(numbers.to_set().contains(j));
        let k = choose|k: int| 0 <= k < numbers.len() && numbers[k] == j;
        assert(p.peers[k] == NodeId(j));
    }
}

/// Handshake completeness: a node that is ready has its neighbours as peers,
/// each once and nobody else; so it has as many peers as it has neighbours.
pub proof fn lemma_ready_has_neighbours(scheme: Scheme, now: Assembly, i: usize)
    requires
        scheme.wf(),
        now.inv(scheme),
        scheme.is_node(i),
        now.nodes[i].phase == Phase::Ready,
    ensures
        now.nodes[i].peers.no_duplicates(),
        forall|j: usize|
            now.nodes[i].peers.contains(NodeId(j)) <==> scheme.graph.neighbours(i).contains(j),
        scheme.graph.neighbours(i).finite(),
        now.nodes[i].peers.len() == scheme.graph.neighbours(i).len(),
{
    let p = now.nodes[i];
    let n = scheme.node_count;
    assert(now.node_ok(scheme, i));
    lemma_accepted_all(scheme, now, i);
    crate::coordinator::lemma_plan_covers_neighbours(scheme.graph, n, i);
    assert forall|j: usize| p.peers.contains(NodeId(j)) <==> scheme.graph.neighbours(
        i,
    ).contains(j) by {
        if p.peers.contains(NodeId(j)) {
            let k = choose|k: int| 0 <= k < p.peers.len() && p.peers[k] == NodeId(j);
            if k >= p.incoming {
                assert(scheme.dials[i].contains(NodeId(j)));
                assert(scheme.graph.dialed(i, n).contains(j));
            } else {
                assert(scheme.graph.dialers(i).contains(p.peers[k].0));
            }
            assert(scheme.graph.dialers(i).union(scheme.graph.dialed(i, n)).contains(j));
        }
        if scheme.graph.neighbours(i).contains(j) {
            assert(scheme.graph.dialers(i).union(scheme.graph.dialed(i, n)).contains(j));
            if scheme.graph.dialed(i, n).contains(j) {
                assert(scheme.dials[i].contains(NodeId(j)));
                let at = choose|at: int|
                    0 <= at < scheme.dials[i].len() && scheme.dials[i][at] == NodeId(j);
                assert(p.peers[p.incoming + at] == NodeId(j));
            }
        }
    }
    crate::coordinator::lemma_list_counts_set(p.peers, scheme.graph.neighbours(i));
}

/// Among the nodes that are not ready there is a lowest.
pub proof fn lemma_lowest_unready(scheme: Scheme, now: Assembly, bound: usize) -> (i: usize)
    requires
        scheme.is_node(bound),
        now.nodes[bound].phase != Phase::Ready,
    ensures
        scheme.is_node(i),
        now.nodes[i].phase != Phase::Ready,
        forall|j: usize|
            scheme.is_node(j) && j < i ==> (#[trigger] now.nodes[j]).phase == Phase::Ready,
    decreases bound,
{
    if exists|j: usize| scheme.is_node(j) && j < bound && now.nodes[j].phase != Phase::Ready {
        let j = choose|j: usize|
            scheme.is_node(j) && j < bound && now.nodes[j].phase != Phase::Ready;
        lemma_lowest_unready(scheme, now, j)
    } else {
        bound
    }
}

/// The nodes never come to wait for each other: as long as some node is not
/// ready, something can happen.
pub proof fn lemma_never_stuck(scheme: Scheme, now: Assembly) -> (m: Move)
    requires
        scheme.wf(),
        now.inv(scheme),
        !now.complete(scheme),
    ensures
        now.enabled(scheme, m),
{
    let some = choose|i: usize| scheme.is_node(i) && now.nodes[i].phase != Phase::Ready;
    let i = lemma_lowest_unready(scheme, now, some);
    let p = now.nodes[i];
    let n = scheme.node_count;
    assert(now.node_ok(scheme, i));
    match p.phase {
        Phase::Registering => Move::Register { node: i },
        Phase::AwaitingIdentity | Phase::AwaitingIncoming | Phase::AwaitingOutgoing => Move::Tell {
            node: i,
        },
        Phase::Accepting => {
            // Every lower neighbour is ready and has dialed this node, so this
            // node has accepted them all and accepts no longer.
            let numbers = p.peers.map_values(|x: NodeId| x.0);
            assert(numbers.no_duplicates());
            numbers.unique_seq_to_set();
            vstd::seq_lib::seq_to_set_is_finite(numbers);
            assert(scheme.graph.dialers(i).subset_of(numbers.to_set())) by {
                assert forall|j: usize|
                    scheme.graph.dialers(i).contains(j) implies numbers.to_set().contains(j) by {
                    assert(scheme.graph.edges.contains((j, i)));
                    assert(scheme.is_node(j));
                    assert(now.nodes[j].phase == Phase::Ready);
                    lemma_ready_has_neighbours(scheme, now, j);
                    crate::coordinator::lemma_plan_covers_neighbours(scheme.graph, n, j);
                    assert(scheme.graph.dialed(j, n).contains(i));
                    assert(scheme.graph.dialers(j).union(scheme.graph.dialed(j, n)).contains(i));
                    assert(scheme.graph.neighbours(j).contains(i));
                    assert(now.nodes[j].peers.contains(NodeId(i)));
                    assert(now.pair_ok(j, i));
                    let k = choose|k: int| 0 <= k < p.peers.len() && p.peers[k] == NodeId(j);
                    assert(numbers[k] == j);
                }
            }
            vstd::set_lib::lemma_len_subset(scheme.graph.dialers(i), numbers.to_set());
            assert(false);
            Move::Register { node: i }
        },
        Phase::Dialing => {
            lemma_target_is_new(scheme, now, i);
            let t = now.target(scheme, i).0;
            assert(now.target(scheme, i) == NodeId(t));
            assert(scheme.graph.edges.contains((i, t)));
            assert(scheme.is_node(t));
            assert(now.node_ok(scheme, t));
            match now.nodes[t].phase {
                Phase::Registering => Move::Register { node: t },
                Phase::AwaitingIdentity
                | Phase::AwaitingIncoming
                | Phase::AwaitingOutgoing => Move::Tell { node: t },
                Phase::Accepting => Move::Shake { dialer: i, accepter: t },
                Phase::Dialing | Phase::Ready => {
                    // It has accepted every lower neighbour, this node among
                    // them; but this node has not dialed it yet.
                    lemma_accepted_all(scheme, now, t);
                    assert(scheme.graph.dialers(t).contains(i));
                    assert(now.nodes[t].peers.contains(NodeId(i)));
                    assert(now.pair_ok(i, t));
                    assert(false);
                    Move::Register { node: t }
                },
            }
        },
        Phase::Ready => Move::Register { node: i },
    }
}

/// The overlay that the bootstrap leaves behind: each node with the peers it
/// has, and nobody else with any.
pub open spec fn overlay_of(scheme: Scheme, now: Assembly) -> crate::network::Overlay {
    crate::network::Overlay {
        peers: Map::total(
            |i: usize|
                if scheme.is_node(i) {
                    now.nodes[i].peers
                } else {
                    Seq::empty()
                },
        ),
    }
}

/// The overlay that the bootstrap leaves behind is one on which the
/// algorithm can run: whoever has a peer is a peer of that peer.
pub proof fn lemma_bootstrap_leaves_overlay(scheme: Scheme, now: Assembly)
    requires
        scheme.wf(),
        now.inv(scheme),
        now.complete(scheme),
    ensures
        overlay_of(scheme, now).wf(),
        forall|i: usize, j: usize|
            scheme.is_node(i) ==> (overlay_of(scheme, now).linked(i, j)
                <==> scheme.graph.joined(i, j)),
{
    let overlay = overlay_of(scheme, now);
    assert forall|i: usize, j: usize| scheme.is_node(i) implies (overlay.linked(i, j)
        <==> scheme.graph.joined(i, j)) by {
        assert(now.nodes[i].phase == Phase::Ready);
        lemma_ready_has_neighbours(scheme, now, i);
        assert(now.node_ok(scheme, i));
        assert(overlay.peers[i] == now.nodes[i].peers);
        assert(now.nodes[i].peers.contains(NodeId(j)) <==> scheme.graph.neighbours(i).contains(
            j,
        ));
    }
    assert forall|a: usize, b: usize| #[trigger] overlay.linked(a, b) implies overlay.linked(
        b,
        a,
    ) by {
        assert(scheme.is_node(a));
        assert(scheme.graph.joined(a, b));
        assert(scheme.graph.edges.contains(crate::ident::canonical_pair(a, b)));
        assert(scheme.is_node(b));
        assert(now.pair_ok(a, b));
    }
}

/// Whether `states` is a course that the bootstrap can take: it starts with
/// nothing done, and each state follows from the one before it by the move of
/// the same index.
pub open spec fn is_course(scheme: Scheme, states: Seq<Assembly>, moves: Seq<Move>) -> bool {
    &&& states.len() == moves.len() + 1
    &&& states[0].initial(scheme)
    &&& forall|k: int|
        0 <= k < moves.len() ==> {
            &&& states[k].enabled(scheme, #[trigger] moves[k])
            &&& states[k + 1] == states[k].after(scheme, moves[k])
        }
}

/// The invariant holds all along a course.
pub proof fn lemma_course_inv(scheme: Scheme, states: Seq<Assembly>, moves: Seq<Move>, at: int)
    requires
        scheme.wf(),
        is_course(scheme, states, moves),
        0 <= at < states.len(),
    ensures
        states[at].inv(scheme),
    decreases at,
{
    if at == 0 {
        lemma_initial_inv(scheme, states[0]);
    } else {
        lemma_course_inv(scheme, states, moves, at - 1);
        assert(states[at - 1].enabled(scheme, moves[at - 1]));
        lemma_move_keeps_inv(scheme, states[at - 1], moves[at - 1]);
    }
}

/// Whatever course the bootstrap takes, it is not stuck before every node is
/// ready; and a node that is ready has exactly its neighbours as peers.
pub proof fn theorem_bootstrap(
    scheme: Scheme,
    states: Seq<Assembly>,
    moves: Seq<Move>,
    at: int,
    i: usize,
)
    requires
        scheme.wf(),
        is_course(scheme, states, moves),
        0 <= at < states.len(),
        scheme.is_node(i),
    ensures
        !states[at].complete(scheme) ==> exists|m: Move| states[at].enabled(scheme, m),
        states[at].nodes[i].phase == Phase::Ready ==> {
            &&& states[at].nodes[i].peers.no_duplicates()
            &&& states[at].nodes[i].peers.len() == scheme.graph.neighbours(i).len()
            &&& forall|j: usize|
                states[at].nodes[i].peers.contains(NodeId(j)) <==> scheme.graph.neighbours(
                    i,
                ).contains(j)
        },
{
    lemma_course_inv(scheme, states, moves, at);
    if !states[at].complete(scheme) {
        let m = lemma_never_stuck(scheme, states[at]);
    }
    if states[at].nodes[i].phase == Phase::Ready {
        lemma_ready_has_neighbours(scheme, states[at], i);
    }
}

} // verus!
