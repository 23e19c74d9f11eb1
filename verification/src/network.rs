//! The system as a whole: every node's engine, and the messages in flight.
//!
//! This module holds no executable code.  It puts the engines of
//! [`crate::algorithm`] side by side, joins them by wires, and proves that
//! whatever the nodes do and in whatever order messages arrive, two
//! neighbours are never inside their critical sections together.
//!
//! A wire holds the messages that were sent and have not arrived yet.  It does
//! not say in which order they arrive: delivery may take any of them.  What is
//! proved therefore holds of streams that keep the order, and of any others.

use crate::algorithm::{older, Engine, Message, Reaction, State};
use crate::ident::NodeId;
use vstd::multiset::Multiset;
use vstd::prelude::*;

verus! {

/// Who is joined to whom: for each node, the list of its peers.
pub struct Overlay {
    pub peers: Map<usize, Seq<NodeId>>,
}

impl Overlay {
    /// Whether `a` counts `b` among its peers, and is another node.
    pub open spec fn linked(self, a: usize, b: usize) -> bool {
        a != b && self.peers[a].contains(NodeId(b))
    }

    /// Whether every node has its list of peers, and every link goes both
    /// ways.
    pub open spec fn wf(self) -> bool {
        &&& forall|a: usize| #[trigger] self.peers.dom().contains(a)
        &&& forall|a: usize, b: usize| #[trigger] self.linked(a, b) ==> self.linked(b, a)
    }
}

/// The state of the whole system.
pub struct Network {
    /// The engine of each node.
    pub engines: Map<usize, Engine>,
    /// For each node that is asking, the neighbours to which its request has
    /// still to be sent.
    pub unsent: Map<usize, Set<usize>>,
    /// For each pair `(from, to)`, the messages on their way.
    pub wires: Map<(usize, usize), Multiset<Message>>,
}

/// One thing that happens in the system.
///
/// Each step but the second is one call of the engine: of `ask`, `handle`,
/// `enter` and `free`.  The requests that `ask` hands back go out one by one,
/// while other things happen; the answers of `handle` and `free` go out at
/// once.
pub enum Step {
    /// `node` asks for its critical section.  Its requests are due.
    Ask { node: usize },
    /// `node` sends its request to `to`.
    Send { node: usize, to: usize },
    /// `message`, on its way from `from`, arrives at `to` and is handled; the
    /// answer, if there is one, is sent.
    Deliver { from: usize, to: usize, message: Message },
    /// `node` goes in.
    Enter { node: usize },
    /// `node` leaves and answers the requests it had put aside.
    Free { node: usize },
    /// Nothing happens.
    Rest,
}

/// One for `true`, zero for `false`.
pub open spec fn flag(b: bool) -> nat {
    if b {
        1
    } else {
        0
    }
}

impl Network {
    /// The request that `a` has out, if it has one.
    pub open spec fn request_of(self, a: usize) -> Message {
        Message::Request { date: self.engines[a].last_request, requester: NodeId(a) }
    }

    /// The permission that `b` gives.
    pub open spec fn grant_of(b: usize) -> Message {
        Message::Permission { authorizer: NodeId(b) }
    }

    /// Whether the state speaks of every node and of every pair of nodes.
    pub open spec fn total(self) -> bool {
        &&& forall|a: usize| #[trigger] self.engines.dom().contains(a)
        &&& forall|a: usize| #[trigger] self.unsent.dom().contains(a)
        &&& forall|k: (usize, usize)| #[trigger] self.wires.dom().contains(k)
    }

    /// Whether this is the state in which the system starts: every node idle,
    /// nothing to send, nothing in flight.
    pub open spec fn initial(self) -> bool {
        &&& self.total()
        &&& forall|a: usize| #[trigger] self.engines[a] == Engine::idle()
        &&& forall|a: usize, n: usize| !(#[trigger] self.unsent[a].contains(n))
        &&& forall|a: usize, b: usize, m: Message| #[trigger] self.wires[(a, b)].count(m) == 0
    }

    /// Whether `step` can happen in this state.
    pub open spec fn enabled(self, overlay: Overlay, step: Step) -> bool {
        match step {
            Step::Ask { node } => {
                &&& self.engines[node].state == State::Idling
                &&& self.engines[node].clock < usize::MAX
            },
            Step::Send { node, to } => self.unsent[node].contains(to),
            Step::Deliver { from, to, message } => {
                &&& self.wires[(from, to)].count(message) > 0
                &&& self.engines[to].handled(NodeId(to), overlay.peers[to], message) is Ok
            },
            Step::Enter { node } => self.engines[node].can_enter(),
            Step::Free { node } => self.engines[node].state == State::CriticalSection,
            Step::Rest => true,
        }
    }

    /// The state after `step` has happened.
    pub open spec fn after(self, overlay: Overlay, step: Step) -> Network {
        match step {
            Step::Ask { node } => {
                let asking = self.engines[node].asking(NodeId(node), overlay.peers[node]);
                Network {
                    engines: self.engines.insert(node, asking),
                    unsent: self.unsent.insert(node, asking.awaited),
                    wires: self.wires,
                }
            },
            Step::Send { node, to } => Network {
                engines: self.engines,
                unsent: self.unsent.insert(node, self.unsent[node].remove(to)),
                wires: self.wires.insert(
                    (node, to),
                    self.wires[(node, to)].insert(self.request_of(node)),
                ),
            },
            Step::Deliver { from, to, message } => {
                let outcome = self.engines[to].handled(NodeId(to), overlay.peers[to], message)->Ok_0;
                let taken = self.wires.insert((from, to), self.wires[(from, to)].remove(message));
                Network {
                    engines: self.engines.insert(to, outcome.0),
                    unsent: self.unsent,
                    wires: match outcome.1 {
                        Reaction::Reply(answer) => taken.insert(
                            (to, answer.to.0),
                            taken[(to, answer.to.0)].insert(answer.message),
                        ),
                        _ => taken,
                    },
                }
            },
            Step::Enter { node } => Network {
                engines: self.engines.insert(node, self.engines[node].entered()),
                unsent: self.unsent,
                wires: self.wires,
            },
            Step::Free { node } => {
                let aside = self.engines[node].deferred;
                Network {
                    engines: self.engines.insert(node, self.engines[node].freed()),
                    unsent: self.unsent,
                    wires: Map::new(
                        |k: (usize, usize)| true,
                        |k: (usize, usize)|
                            if k.0 == node && aside.contains(NodeId(k.1)) {
                                self.wires[k].insert(Self::grant_of(node))
                            } else {
                                self.wires[k]
                            },
                    ),
                }
            },
            Step::Rest => self,
        }
    }

    /// Whether `a` and `b` are both inside their critical sections.
    pub open spec fn both_inside(self, a: usize, b: usize) -> bool {
        &&& self.engines[a].state == State::CriticalSection
        &&& self.engines[b].state == State::CriticalSection
    }

    /// What holds of one node at all times.
    pub open spec fn node_ok(self, overlay: Overlay, a: usize) -> bool {
        let e = self.engines[a];
        &&& e.wf()
        &&& e.deferred.no_duplicates()
        &&& forall|n: usize| e.state != State::Askin ==> !(#[trigger] e.awaited.contains(n))
        &&& forall|n: usize| #[trigger] self.unsent[a].contains(n) ==> e.awaited.contains(n)
        &&& forall|n: usize| #[trigger] e.awaited.contains(n) ==> overlay.linked(a, n)
        &&& forall|d: NodeId| #[trigger] e.deferred.contains(d) ==> overlay.linked(a, d.0)
    }

    /// What holds at all times of a node `a` and its neighbour `b`, seen from
    /// the side of `a`'s request.
    ///
    /// Only `a`'s current request and `a`'s permissions travel from `a` to
    /// `b`.  While `a` waits for `b`, its request is in exactly one place:
    /// not sent yet, on the wire, put aside at `b`, or answered with the
    /// answer on the wire; otherwise it is in none.  Once `b` has seen the
    /// request, `b`'s clock is not behind it.  If `b` has answered it and has
    /// a request of its own, `a`'s is the older of the two.  If `b` has put it
    /// aside, `b`'s own is the older.
    pub open spec fn pair_ok(self, a: usize, b: usize) -> bool {
        let ea = self.engines[a];
        let eb = self.engines[b];
        let request = self.request_of(a);
        let grant = Self::grant_of(b);
        let aside = eb.deferred.contains(NodeId(a));
        &&& forall|m: Message| #[trigger]
            self.wires[(a, b)].count(m) > 0 ==> m == request || m == Self::grant_of(a)
        &&& flag(self.unsent[a].contains(b)) + self.wires[(a, b)].count(request) + flag(aside)
            + self.wires[(b, a)].count(grant) == flag(ea.awaited.contains(b))
        &&& (aside || self.wires[(b, a)].count(grant) > 0 || (ea.state != State::Idling
            && !ea.awaited.contains(b))) ==> ea.last_request <= eb.clock
        &&& (ea.state != State::Idling && eb.state != State::Idling && (self.wires[(b, a)].count(
            grant,
        ) > 0 || !ea.awaited.contains(b))) ==> older(
            ea.last_request,
            NodeId(a),
            eb.last_request,
            NodeId(b),
        )
        &&& aside ==> eb.state != State::Idling && older(
            eb.last_request,
            NodeId(b),
            ea.last_request,
            NodeId(a),
        )
    }

    /// What holds of the system at all times.
    pub open spec fn inv(self, overlay: Overlay) -> bool {
        &&& self.total()
        &&& forall|a: usize| #[trigger] self.node_ok(overlay, a)
        &&& forall|a: usize, b: usize| overlay.linked(a, b) ==> #[trigger] self.pair_ok(a, b)
        &&& forall|a: usize, b: usize, m: Message|
            !overlay.linked(a, b) ==> #[trigger] self.wires[(a, b)].count(m) == 0
    }
}

/// The system starts in a state of which the invariant holds.
pub proof fn lemma_initial_inv(overlay: Overlay, net: Network)
    requires
        net.initial(),
    ensures
        net.inv(overlay),
{
    assert forall|a: usize| #[trigger] net.node_ok(overlay, a) by {
        assert(net.engines[a] == Engine::idle());
    }
    assert forall|a: usize, b: usize| overlay.linked(a, b) implies #[trigger] net.pair_ok(
        a,
        b,
    ) by {
        assert(net.engines[a] == Engine::idle());
        assert(net.engines[b] == Engine::idle());
    }
}

/// Where the invariant holds, two neighbours are not inside together.
pub proof fn lemma_inv_excludes(overlay: Overlay, net: Network, a: usize, b: usize)
    requires
        overlay.wf(),
        net.inv(overlay),
        overlay.linked(a, b),
    ensures
        !net.both_inside(a, b),
{
    assert(overlay.linked(b, a));
    assert(net.pair_ok(a, b));
    assert(net.pair_ok(b, a));
    assert(net.node_ok(overlay, a));
    assert(net.node_ok(overlay, b));
}

/// Going in keeps the invariant.
pub proof fn lemma_enter_keeps_inv(overlay: Overlay, pre: Network, node: usize)
    requires
        overlay.wf(),
        pre.inv(overlay),
        pre.enabled(overlay, Step::Enter { node }),
    ensures
        pre.after(overlay, Step::Enter { node }).inv(overlay),
{
    let post = pre.after(overlay, Step::Enter { node });
    assert forall|a: usize| #[trigger] post.node_ok(overlay, a) by {
        assert(pre.node_ok(overlay, a));
    }
    assert forall|a: usize, b: usize| overlay.linked(a, b) implies #[trigger] post.pair_ok(
        a,
        b,
    ) by {
        assert(pre.pair_ok(a, b));
    }
    assert forall|a: usize, b: usize, m: Message| !overlay.linked(a, b) implies #[trigger]
        post.wires[(a, b)].count(m) == 0 by {
        assert(pre.wires[(a, b)].count(m) == 0);
    }
}

/// Sending a request keeps the invariant.
pub proof fn lemma_send_keeps_inv(overlay: Overlay, pre: Network, node: usize, to: usize)
    requires
        overlay.wf(),
        pre.inv(overlay),
        pre.enabled(overlay, Step::Send { node, to }),
    ensures
        pre.after(overlay, Step::Send { node, to }).inv(overlay),
{
    let post = pre.after(overlay, Step::Send { node, to });
    assert(pre.node_ok(overlay, node));
    assert(overlay.linked(node, to));
    assert forall|a: usize| #[trigger] post.node_ok(overlay, a) by {
        assert(pre.node_ok(overlay, a));
    }
    assert forall|a: usize, b: usize| overlay.linked(a, b) implies #[trigger] post.pair_ok(
        a,
        b,
    ) by {
        assert(pre.pair_ok(a, b));
        assert(post.engines == pre.engines);
        if a == node && b == to {
            assert(post.wires[(b, a)] == pre.wires[(b, a)]);
        } else if a == to && b == node {
            assert(post.wires[(a, b)] == pre.wires[(a, b)]);
        } else {
            assert(post.wires[(a, b)] == pre.wires[(a, b)]);
            assert(post.wires[(b, a)] == pre.wires[(b, a)]);
        }
    }
    assert forall|a: usize, b: usize, m: Message| !overlay.linked(a, b) implies #[trigger]
        post.wires[(a, b)].count(m) == 0 by {
        assert(pre.wires[(a, b)].count(m) == 0);
    }
}

/// The neighbours whose permission a node awaits once it has asked are
/// finitely many.
pub proof fn lemma_awaited_finite(id: NodeId, peers: Seq<NodeId>)
    ensures
        Set::new(|n: usize| n != id.0 && peers.contains(NodeId(n))).finite(),
{
    let awaited = Set::new(|n: usize| n != id.0 && peers.contains(NodeId(n)));
    let numbers = peers.map_values(|p: NodeId| p.0);
    vstd::seq_lib::seq_to_set_is_finite(numbers);
    assert forall|n: usize| awaited.contains(n) implies numbers.to_set().contains(n) by {
        let k = choose|k: int| 0 <= k < peers.len() && peers[k] == NodeId(n);
        assert(numbers[k] == n);
    }
    vstd::set_lib::lemma_set_subset_finite(numbers.to_set(), awaited);
}

/// Asking keeps the invariant.
pub proof fn lemma_ask_keeps_inv(overlay: Overlay, pre: Network, node: usize)
    requires
        overlay.wf(),
        pre.inv(overlay),
        pre.enabled(overlay, Step::Ask { node }),
    ensures
        pre.after(overlay, Step::Ask { node }).inv(overlay),
{
    let post = pre.after(overlay, Step::Ask { node });
    let before = pre.engines[node];
    let asking = post.engines[node];
    assert(pre.node_ok(overlay, node));
    lemma_awaited_finite(NodeId(node), overlay.peers[node]);
    assert forall|a: usize| #[trigger] post.node_ok(overlay, a) by {
        assert(pre.node_ok(overlay, a));
    }
    assert forall|a: usize, b: usize| overlay.linked(a, b) implies #[trigger] post.pair_ok(
        a,
        b,
    ) by {
        assert(pre.pair_ok(a, b));
        assert(overlay.linked(b, a));
        assert(pre.pair_ok(b, a));
        assert(post.wires == pre.wires);
        if a == node {
            assert(!before.awaited.contains(b));
            assert(asking.awaited.contains(b));
            assert(post.request_of(a) != pre.request_of(a));
            assert(post.wires[(a, b)].count(post.request_of(a)) == 0);
        } else if b == node {
            assert(post.engines[a] == pre.engines[a]);
        } else {
            assert(post.engines[a] == pre.engines[a]);
            assert(post.engines[b] == pre.engines[b]);
        }
    }
    assert forall|a: usize, b: usize, m: Message| !overlay.linked(a, b) implies #[trigger]
        post.wires[(a, b)].count(m) == 0 by {
        assert(pre.wires[(a, b)].count(m) == 0);
    }
}

/// Handling a message that arrives keeps the invariant.
pub proof fn lemma_deliver_keeps_inv(
    overlay: Overlay,
    pre: Network,
    from: usize,
    to: usize,
    message: Message,
)
    requires
        overlay.wf(),
        pre.inv(overlay),
        pre.enabled(overlay, Step::Deliver { from, to, message }),
    ensures
        pre.after(overlay, Step::Deliver { from, to, message }).inv(overlay),
{
    let post = pre.after(overlay, Step::Deliver { from, to, message });
    let outcome = pre.engines[to].handled(NodeId(to), overlay.peers[to], message)->Ok_0;
    assert(overlay.linked(from, to)) by {
        if !overlay.linked(from, to) {
            assert(pre.wires[(from, to)].count(message) == 0);
        }
    }
    assert(overlay.linked(to, from));
    assert(pre.pair_ok(from, to));
    assert(pre.pair_ok(to, from));
    assert(pre.node_ok(overlay, to));
    assert(pre.node_ok(overlay, from));
    assert(message == pre.request_of(from) || message == Network::grant_of(from));
    vstd::seq_lib::lemma_seq_contains_after_push(
        pre.engines[to].deferred,
        NodeId(from),
        NodeId(from),
    );
    assert forall|a: usize| #[trigger] post.node_ok(overlay, a) by {
        assert(pre.node_ok(overlay, a));
        if a == to {
            if message == pre.request_of(from) && outcome.1 == Reaction::Deferred {
                assert forall|d: NodeId| #[trigger]
                    post.engines[a].deferred.contains(d) implies overlay.linked(a, d.0) by {
                    vstd::seq_lib::lemma_seq_contains_after_push(
                        pre.engines[to].deferred,
                        NodeId(from),
                        d,
                    );
                }
            }
        }
    }
    assert forall|a: usize, b: usize| overlay.linked(a, b) implies #[trigger] post.pair_ok(
        a,
        b,
    ) by {
        assert(pre.pair_ok(a, b));
        assert(overlay.linked(b, a));
        assert(pre.pair_ok(b, a));
        assert(pre.node_ok(overlay, a));
        assert(pre.node_ok(overlay, b));
        vstd::seq_lib::lemma_seq_contains_after_push(
            pre.engines[to].deferred,
            NodeId(from),
            NodeId(a),
        );
        if a == from && b == to {
        } else if a == to && b == from {
        } else if a == to {
            assert(post.wires[(a, b)] == pre.wires[(a, b)]);
            assert(post.wires[(b, a)] == pre.wires[(b, a)]);
        } else if b == to {
            assert(post.wires[(a, b)] == pre.wires[(a, b)]);
            assert(post.wires[(b, a)] == pre.wires[(b, a)]);
        } else {
            assert(post.wires[(a, b)] == pre.wires[(a, b)]);
            assert(post.wires[(b, a)] == pre.wires[(b, a)]);
            assert(post.engines[a] == pre.engines[a]);
            assert(post.engines[b] == pre.engines[b]);
        }
    }
    assert forall|a: usize, b: usize, m: Message| !overlay.linked(a, b) implies #[trigger]
        post.wires[(a, b)].count(m) == 0 by {
        assert(pre.wires[(a, b)].count(m) == 0);
    }
}

/// Leaving keeps the invariant.
pub proof fn lemma_free_keeps_inv(overlay: Overlay, pre: Network, node: usize)
    requires
        overlay.wf(),
        pre.inv(overlay),
        pre.enabled(overlay, Step::Free { node }),
    ensures
        pre.after(overlay, Step::Free { node }).inv(overlay),
{
    let post = pre.after(overlay, Step::Free { node });
    assert(pre.node_ok(overlay, node));
    assert forall|a: usize| #[trigger] post.node_ok(overlay, a) by {
        assert(pre.node_ok(overlay, a));
    }
    assert forall|a: usize, b: usize| overlay.linked(a, b) implies #[trigger] post.pair_ok(
        a,
        b,
    ) by {
        assert(pre.pair_ok(a, b));
        assert(overlay.linked(b, a));
        assert(pre.pair_ok(b, a));
        assert(pre.node_ok(overlay, a));
        assert(pre.node_ok(overlay, b));
        if a == node {
            assert(post.wires[(b, a)] == pre.wires[(b, a)]);
        } else if b == node {
            assert(post.wires[(a, b)] == pre.wires[(a, b)]);
            assert(post.engines[a] == pre.engines[a]);
        } else {
            assert(post.wires[(a, b)] == pre.wires[(a, b)]);
            assert(post.wires[(b, a)] == pre.wires[(b, a)]);
            assert(post.engines[a] == pre.engines[a]);
            assert(post.engines[b] == pre.engines[b]);
        }
    }
    assert forall|a: usize, b: usize, m: Message| !overlay.linked(a, b) implies #[trigger]
        post.wires[(a, b)].count(m) == 0 by {
        assert(pre.wires[(a, b)].count(m) == 0);
        if a == node && pre.engines[node].deferred.contains(NodeId(b)) {
            assert(overlay.linked(a, b));
        }
    }
}

/// Every step keeps the invariant.
pub proof fn lemma_step_keeps_inv(overlay: Overlay, pre: Network, step: Step)
    requires
        overlay.wf(),
        pre.inv(overlay),
        pre.enabled(overlay, step),
    ensures
        pre.after(overlay, step).inv(overlay),
{
    match step {
        Step::Ask { node } => lemma_ask_keeps_inv(overlay, pre, node),
        Step::Send { node, to } => lemma_send_keeps_inv(overlay, pre, node, to),
        Step::Deliver { from, to, message } => lemma_deliver_keeps_inv(
            overlay,
            pre,
            from,
            to,
            message,
        ),
        Step::Enter { node } => lemma_enter_keeps_inv(overlay, pre, node),
        Step::Free { node } => lemma_free_keeps_inv(overlay, pre, node),
        Step::Rest => {},
    }
}

/// A run of the system: the state at each moment, and the step that leads
/// from it to the next.  A system that has come to rest goes on resting.
pub struct Run {
    pub states: spec_fn(nat) -> Network,
    pub steps: spec_fn(nat) -> Step,
}

impl Run {
    /// The state at moment `t`.
    pub open spec fn at(self, t: nat) -> Network {
        (self.states)(t)
    }

    /// The step taken at moment `t`.
    pub open spec fn step(self, t: nat) -> Step {
        (self.steps)(t)
    }

    /// Whether the run starts in the initial state, and each of its steps can
    /// happen where it does and leads to the next state.
    pub open spec fn valid(self, overlay: Overlay) -> bool {
        &&& self.at(0).initial()
        &&& forall|t: nat|
            {
                &&& self.at(t).enabled(overlay, #[trigger] self.step(t))
                &&& self.at(t + 1) == self.at(t).after(overlay, self.step(t))
            }
    }
}

/// The invariant holds at every moment of a run.
pub proof fn lemma_run_inv(overlay: Overlay, run: Run, t: nat)
    requires
        overlay.wf(),
        run.valid(overlay),
    ensures
        run.at(t).inv(overlay),
    decreases t,
{
    if t == 0 {
        lemma_initial_inv(overlay, run.at(0));
    } else {
        let before = (t - 1) as nat;
        lemma_run_inv(overlay, run, before);
        assert(run.at(before).enabled(overlay, run.step(before)));
        assert(run.at(t) == run.at(before).after(overlay, run.step(before)));
        lemma_step_keeps_inv(overlay, run.at(before), run.step(before));
    }
}

/// Mutual exclusion at the edge: at no moment of any run are two neighbours
/// inside their critical sections together.
pub proof fn theorem_mutual_exclusion(overlay: Overlay, run: Run, t: nat, a: usize, b: usize)
    requires
        overlay.wf(),
        run.valid(overlay),
        overlay.linked(a, b),
    ensures
        !run.at(t).both_inside(a, b),
{
    lemma_run_inv(overlay, run, t);
    lemma_inv_excludes(overlay, run.at(t), a, b);
}

/// No message that is on its way is refused where it arrives: it comes from a
/// neighbour.
pub proof fn lemma_no_protocol_error(
    overlay: Overlay,
    net: Network,
    from: usize,
    to: usize,
    message: Message,
)
    requires
        overlay.wf(),
        net.inv(overlay),
        net.wires[(from, to)].count(message) > 0,
    ensures
        net.engines[to].handled(NodeId(to), overlay.peers[to], message) is Ok,
{
    if !overlay.linked(from, to) {
        assert(net.wires[(from, to)].count(message) == 0);
    }
    assert(overlay.linked(to, from));
    assert(net.pair_ok(from, to));
}

/// What is due can be done: as long as the invariant holds, a request that
/// has to be sent can be sent, a message on its way can be delivered, a node
/// that has every permission can go in, and a node that is inside can leave.
pub proof fn lemma_what_is_due_can_be_done(
    overlay: Overlay,
    net: Network,
    a: usize,
    b: usize,
    message: Message,
)
    requires
        overlay.wf(),
        net.inv(overlay),
    ensures
        net.unsent[a].contains(b) ==> net.enabled(overlay, Step::Send { node: a, to: b }),
        net.wires[(a, b)].count(message) > 0 ==> net.enabled(
            overlay,
            Step::Deliver { from: a, to: b, message },
        ),
        net.engines[a].can_enter() ==> net.enabled(overlay, Step::Enter { node: a }),
        net.engines[a].state == State::CriticalSection ==> net.enabled(
            overlay,
            Step::Free { node: a },
        ),
{
    if net.wires[(a, b)].count(message) > 0 {
        lemma_no_protocol_error(overlay, net, a, b, message);
    }
}

/// No step takes a clock back.
pub proof fn lemma_clocks_never_decrease(overlay: Overlay, pre: Network, step: Step, a: usize)
    requires
        pre.enabled(overlay, step),
    ensures
        pre.engines[a].clock <= pre.after(overlay, step).engines[a].clock,
{
}

/// Clock monotonicity: in a run, the clock of a node at a later moment is not
/// behind its clock at an earlier one.
pub proof fn theorem_clock_monotone(overlay: Overlay, run: Run, a: usize, earlier: nat, later: nat)
    requires
        run.valid(overlay),
        earlier <= later,
    ensures
        run.at(earlier).engines[a].clock <= run.at(later).engines[a].clock,
    decreases later - earlier,
{
    if earlier < later {
        let before = (later - 1) as nat;
        theorem_clock_monotone(overlay, run, a, earlier, before);
        assert(run.at(before).enabled(overlay, run.step(before)));
        assert(run.at(later) == run.at(before).after(overlay, run.step(before)));
        lemma_clocks_never_decrease(overlay, run.at(before), run.step(before), a);
    }
}

} // verus!
