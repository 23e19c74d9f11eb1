//! The Ricart–Agrawala engine of one node.
//!
//! A node that wants to enter its critical section stamps a request with its
//! logical clock and sends it to every neighbour.  A neighbour answers with a
//! permission at once, unless it is itself asking or inside and its own
//! request is the older one: then it answers when it leaves.  A node enters
//! once every neighbour has answered.
//!
//! The engine decides; it sends nothing.  Each operation takes the state from
//! one value to the next and hands back the messages that are due.

use crate::ident::{contains_node, NodeId};
use std::collections::HashSet;
use vstd::prelude::*;

verus! {

broadcast use vstd::std_specs::hash::group_hash_axioms;

/// What nodes say to each other.
#[derive(Debug, Clone, Copy, PartialEq, Eq, Structural)]
pub enum Message {
    /// `requester` asks for the critical section; `date` is its clock at that
    /// moment.
    Request { date: usize, requester: NodeId },
    /// `authorizer` lets the receiver in.
    Permission { authorizer: NodeId },
}

/// Where a node stands in the protocol.
#[derive(Debug, Clone, Copy, PartialEq, Eq, Structural)]
pub enum State {
    /// Neither asking nor inside.
    Idling,
    /// Has asked and waits for its neighbours.
    Askin,
    /// Inside the critical section.
    CriticalSection,
}

/// A message together with the neighbour it is for.
#[derive(Debug, Clone, Copy, PartialEq, Eq, Structural)]
pub struct Outgoing {
    pub to: NodeId,
    pub message: Message,
}

/// What is left to do once a message has been handled.
#[derive(Debug, Clone, Copy, PartialEq, Eq, Structural)]
pub enum Reaction {
    /// Send this answer.
    Reply(Outgoing),
    /// The request was put aside; it is answered on release.
    Deferred,
    /// The last permission has come in: wake whoever waits to enter.
    Wake,
    /// Nothing.
    Nothing,
}

/// A message that a peer had no right to send.
#[derive(Debug, Clone, Copy, PartialEq, Eq, Structural)]
pub enum ProtocolError {
    /// A request from a node that is no neighbour.
    UnknownPeer(NodeId),
}

/// The variables of the algorithm.
#[derive(Debug)]
pub struct RicAgrawala {
    pub state: State,
    /// The logical clock.
    pub timestamp: usize,
    /// The clock at the moment of the latest own request.
    pub last_request_timestamp: usize,
    /// Whether the latest request that came in has to wait for this node.
    pub prioritized: bool,
    /// The neighbours whose permission is still due.
    pub awaited: HashSet<usize>,
    /// The neighbours whose requests were put aside, oldest first.
    pub differed_permission: Vec<NodeId>,
}

/// The variables of the algorithm as mathematical values.
pub struct Engine {
    pub state: State,
    pub clock: usize,
    pub last_request: usize,
    pub prioritized: bool,
    pub awaited: Set<usize>,
    pub deferred: Seq<NodeId>,
}

/// Whether the request that `id` stamped `date` goes before the one that
/// `other` stamped `other_date`: the earlier stamp wins, and between equal
/// stamps the lower identifier.
pub open spec fn older(date: usize, id: NodeId, other_date: usize, other: NodeId) -> bool {
    date < other_date || (date == other_date && id.0 < other.0)
}

/// The requests that go out when `id` asks at clock `date`: one to each entry
/// of `neighbours` other than `id` itself, in order.
pub open spec fn requests(id: NodeId, date: usize, neighbours: Seq<NodeId>) -> Seq<Outgoing>
    decreases neighbours.len(),
{
    if neighbours.len() == 0 {
        Seq::empty()
    } else {
        let before = requests(id, date, neighbours.drop_last());
        if neighbours.last() != id {
            before.push(
                Outgoing {
                    to: neighbours.last(),
                    message: Message::Request { date, requester: id },
                },
            )
        } else {
            before
        }
    }
}

/// The permissions that go out when `id` leaves: one to each entry of
/// `deferred`, in order.
pub open spec fn permissions(id: NodeId, deferred: Seq<NodeId>) -> Seq<Outgoing> {
    Seq::new(
        deferred.len(),
        |k: int| Outgoing { to: deferred[k], message: Message::Permission { authorizer: id } },
    )
}

impl Engine {
    /// The state in which every node starts.
    pub open spec fn idle() -> Engine {
        Engine {
            state: State::Idling,
            clock: 0,
            last_request: 0,
            prioritized: false,
            awaited: Set::empty(),
            deferred: Seq::empty(),
        }
    }

    /// What holds of the variables at all times: an idle node has put nothing
    /// aside, the clock is not behind the latest request, and only finitely
    /// many permissions are due.
    pub open spec fn wf(self) -> bool {
        &&& self.state == State::Idling ==> self.deferred.len() == 0
        &&& self.last_request <= self.clock
        &&& self.awaited.finite()
    }

    /// Whether node `id`, in this state, goes before a request stamped `date`
    /// from `requester`: it is asking or inside, and its own request is older,
    /// or as old and from the lower identifier.
    pub open spec fn has_priority(self, id: NodeId, date: usize, requester: NodeId) -> bool {
        self.state != State::Idling && older(self.last_request, id, date, requester)
    }

    /// The state after `message` has been taken note of: a request moves the
    /// clock up to its date and settles who goes first, a permission is struck
    /// off the list of those due.
    pub open spec fn altered(self, id: NodeId, message: Message) -> Engine {
        match message {
            Message::Request { date, requester } => Engine {
                clock: if self.clock < date {
                    date
                } else {
                    self.clock
                },
                prioritized: self.has_priority(id, date, requester),
                ..self
            },
            Message::Permission { authorizer } => Engine {
                awaited: self.awaited.remove(authorizer.0),
                ..self
            },
        }
    }

    /// The state after the request of `node` has been put aside.
    pub open spec fn deferring(self, node: NodeId) -> Engine {
        Engine { deferred: self.deferred.push(node), ..self }
    }

    /// The state after `message` has been handled by node `id`, and what is
    /// left to do; or the error, if the message is a request from a node
    /// outside `neighbours`.
    pub open spec fn handled(self, id: NodeId, neighbours: Seq<NodeId>, message: Message) -> Result<
        (Engine, Reaction),
        ProtocolError,
    > {
        match message {
            Message::Request { date, requester } => {
                if !neighbours.contains(requester) {
                    Err(ProtocolError::UnknownPeer(requester))
                } else {
                    let noted = self.altered(id, message);
                    if noted.prioritized {
                        Ok((noted.deferring(requester), Reaction::Deferred))
                    } else {
                        Ok(
                            (
                                noted,
                                Reaction::Reply(
                                    Outgoing {
                                        to: requester,
                                        message: Message::Permission { authorizer: id },
                                    },
                                ),
                            ),
                        )
                    }
                }
            },
            Message::Permission { authorizer } => {
                let noted = self.altered(id, message);
                if noted.can_enter() {
                    Ok((noted, Reaction::Wake))
                } else {
                    Ok((noted, Reaction::Nothing))
                }
            },
        }
    }

    /// The state after node `id` has asked: the clock has ticked, the request
    /// bears the new clock, and every neighbour's permission is due.
    pub open spec fn asking(self, id: NodeId, neighbours: Seq<NodeId>) -> Engine {
        Engine {
            state: State::Askin,
            clock: (self.clock + 1) as usize,
            last_request: (self.clock + 1) as usize,
            awaited: Set::new(|n: usize| n != id.0 && neighbours.contains(NodeId(n))),
            ..self
        }
    }

    /// Whether the node may go in: it has asked and no permission is due.
    pub open spec fn can_enter(self) -> bool {
        self.state == State::Askin && self.awaited.is_empty()
    }

    /// The state inside the critical section.
    pub open spec fn entered(self) -> Engine {
        Engine { state: State::CriticalSection, ..self }
    }

    /// The state after the node has left: idle, with nothing put aside.
    pub open spec fn freed(self) -> Engine {
        Engine { state: State::Idling, deferred: Seq::empty(), ..self }
    }
}

impl View for RicAgrawala {
    type V = Engine;

    open spec fn view(&self) -> Engine {
        Engine {
            state: self.state,
            clock: self.timestamp,
            last_request: self.last_request_timestamp,
            prioritized: self.prioritized,
            awaited: self.awaited@,
            deferred: self.differed_permission@,
        }
    }
}

impl Default for RicAgrawala {
    fn default() -> (engine: RicAgrawala)
        ensures
            engine@ == Engine::idle(),
            engine@.wf(),
    {
        RicAgrawala {
            state: State::Idling,
            timestamp: 0,
            last_request_timestamp: 0,
            prioritized: false,
            awaited: HashSet::new(),
            differed_permission: Vec::new(),
        }
    }
}

impl Clone for RicAgrawala {
    fn clone(&self) -> (copy: RicAgrawala)
        ensures
            copy@ == self@,
    {
        let mut awaited: HashSet<usize> = HashSet::new();
        for k in it: self.awaited.iter()
            invariant
                awaited@ == it.seq().take(it.index() as int).unref().to_set(),
                it.seq().unref().to_set() == self.awaited@,
                it.index() == it.seq().len() ==> awaited@ == self.awaited@,
        {
            proof {
                let seen = it.seq().take(it.index() as int).unref();
                assert(it.seq().take(it.index() + 1).unref() =~= seen.push(*k));
                seen.lemma_push_to_set_commute(*k);
                assert(it.index() + 1 == it.seq().len() ==> it.seq().take(it.index() + 1)
                    =~= it.seq());
            }
            awaited.insert(*k);
        }
        RicAgrawala {
            state: self.state,
            timestamp: self.timestamp,
            last_request_timestamp: self.last_request_timestamp,
            prioritized: self.prioritized,
            awaited,
            differed_permission: self.differed_permission.clone(),
        }
    }
}

impl RicAgrawala {
    /// Puts the request of `node` aside until this node leaves.
    pub fn differ_permission(&mut self, node: NodeId)
        ensures
            final(self)@ == old(self)@.deferring(node),
    {
        self.differed_permission.push(node);
    }

    /// Takes note of `message`, which has come in at node `id`.
    pub fn alter_on(&mut self, id: NodeId, message: &Message)
        ensures
            final(self)@ == old(self)@.altered(id, *message),
            final(self).timestamp >= old(self).timestamp,
    {
        match message {
            Message::Request { date, requester } => {
                if self.timestamp < *date {
                    self.timestamp = *date;
                }
                self.prioritized = match self.state {
                    State::Idling => false,
                    _ => self.last_request_timestamp < *date || (self.last_request_timestamp
                        == *date && id.0 < requester.0),
                };
            },
            Message::Permission { authorizer } => {
                self.awaited.remove(&authorizer.0);
            },
        }
    }

    /// Handles `message`, which has come in at node `id`, whose neighbours are
    /// `neighbours`.
    ///
    /// A request from a neighbour is answered or put aside; a request from
    /// anyone else is an error and leaves the state as it was.  A permission
    /// is struck off, and the one that completes the set wakes the node.
    pub fn handle(&mut self, message: Message, id: NodeId, neighbours: &Vec<NodeId>) -> (r: Result<
        Reaction,
        ProtocolError,
    >)
        ensures
            match old(self)@.handled(id, neighbours@, message) {
                Ok((next, reaction)) => {
                    &&& r == Ok::<Reaction, ProtocolError>(reaction)
                    &&& final(self)@ == next
                },
                Err(e) => {
                    &&& r == Err::<Reaction, ProtocolError>(e)
                    &&& final(self)@ == old(self)@
                },
            },
            final(self).timestamp >= old(self).timestamp,
            old(self)@.wf() ==> final(self)@.wf(),
    {
        match message {
            Message::Request { date, requester } => {
                if !contains_node(neighbours, requester) {
                    return Err(ProtocolError::UnknownPeer(requester));
                }
                self.alter_on(id, &message);
                if self.prioritized {
                    self.differ_permission(requester);
                    Ok(Reaction::Deferred)
                } else {
                    Ok(
                        Reaction::Reply(
                            Outgoing {
                                to: requester,
                                message: Message::Permission { authorizer: id },
                            },
                        ),
                    )
                }
            },
            Message::Permission { authorizer } => {
                self.alter_on(id, &message);
                let ready = match self.state {
                    State::Askin => self.awaited.is_empty(),
                    _ => false,
                };
                if ready {
                    Ok(Reaction::Wake)
                } else {
                    Ok(Reaction::Nothing)
                }
            },
        }
    }

    /// Asks for the critical section on behalf of node `id`, and returns the
    /// requests to send.
    ///
    /// This is the move of a node that is idle.  Whatever the state, the clock
    /// ticks, the request bears the new clock, and every neighbour's
    /// permission is due anew.
    pub fn ask(&mut self, id: NodeId, neighbours: &Vec<NodeId>) -> (out: Vec<Outgoing>)
        requires
            old(self).timestamp < usize::MAX,
        ensures
            final(self)@ == old(self)@.asking(id, neighbours@),
            out@ == requests(id, final(self).last_request_timestamp, neighbours@),
            final(self).timestamp == old(self).timestamp + 1,
            final(self).last_request_timestamp == final(self).timestamp,
            old(self)@.wf() ==> final(self)@.wf(),
    {
        self.state = State::Askin;
        self.timestamp = self.timestamp + 1;
        self.last_request_timestamp = self.timestamp;
        self.awaited.clear();
        let date: usize = self.timestamp;
        let mut out: Vec<Outgoing> = Vec::new();
        let mut i: usize = 0;
        while i < neighbours.len()
            invariant
                i <= neighbours.len(),
                self.state == State::Askin,
                self.timestamp == date,
                self.last_request_timestamp == date,
                self.prioritized == old(self).prioritized,
                self.differed_permission == old(self).differed_permission,
                self.awaited@.finite(),
                self.awaited@ == Set::new(
                    |n: usize| n != id.0 && neighbours@.take(i as int).contains(NodeId(n)),
                ),
                out@ == requests(id, date, neighbours@.take(i as int)),
            decreases neighbours.len() - i,
        {
            let n = neighbours[i];
            proof {
                assert(neighbours@.take(i + 1).drop_last() =~= neighbours@.take(i as int));
                assert(neighbours@.take(i + 1).last() == n);
                crate::ident::lemma_push_contains(neighbours@.take(i as int), n);
                assert(neighbours@.take(i + 1) =~= neighbours@.take(i as int).push(n));
            }
            if n.0 != id.0 {
                self.awaited.insert(n.0);
                out.push(Outgoing { to: n, message: Message::Request { date, requester: id } });
                proof {
                    assert(self.awaited@ =~= Set::new(
                        |m: usize| m != id.0 && neighbours@.take(i + 1).contains(NodeId(m)),
                    ));
                }
            } else {
                proof {
                    assert(self.awaited@ =~= Set::new(
                        |m: usize| m != id.0 && neighbours@.take(i + 1).contains(NodeId(m)),
                    ));
                }
            }
            i += 1;
        }
        proof {
            assert(neighbours@.take(i as int) =~= neighbours@);
        }
        out
    }

    /// Goes into the critical section if the node has asked and every
    /// permission is in; says whether it did.
    pub fn enter(&mut self) -> (inside: bool)
        ensures
            inside == old(self)@.can_enter(),
            final(self)@ == if inside {
                old(self)@.entered()
            } else {
                old(self)@
            },
            final(self).timestamp == old(self).timestamp,
            old(self)@.wf() ==> final(self)@.wf(),
    {
        let ready = match self.state {
            State::Askin => self.awaited.is_empty(),
            _ => false,
        };
        if ready {
            self.state = State::CriticalSection;
        }
        ready
    }

    /// Leaves the critical section on behalf of node `id`, and returns the
    /// permissions to send: one for each request that was put aside, oldest
    /// first.  Nothing stays put aside.
    ///
    /// This is the move of a node that is inside.  Whatever the state, the
    /// node is idle afterwards, and nothing changes but the state and the
    /// list of requests put aside.
    pub fn free(&mut self, id: NodeId) -> (out: Vec<Outgoing>)
        ensures
            final(self)@ == old(self)@.freed(),
            out@ == permissions(id, old(self)@.deferred),
            final(self)@.deferred.len() == 0,
            final(self).timestamp == old(self).timestamp,
            final(self).last_request_timestamp == old(self).last_request_timestamp,
            final(self)@.awaited == old(self)@.awaited,
            old(self)@.wf() ==> final(self)@.wf(),
    {
        self.state = State::Idling;
        let mut out: Vec<Outgoing> = Vec::new();
        let mut i: usize = 0;
        while i < self.differed_permission.len()
            invariant
                i <= self.differed_permission.len(),
                self.differed_permission == old(self).differed_permission,
                self.awaited == old(self).awaited,
                self.timestamp == old(self).timestamp,
                self.last_request_timestamp == old(self).last_request_timestamp,
                self.prioritized == old(self).prioritized,
                self.state == State::Idling,
                out@.len() == i,
                forall|k: int|
                    0 <= k < i ==> out@[k] == (Outgoing {
                        to: self.differed_permission@[k],
                        message: Message::Permission { authorizer: id },
                    }),
            decreases self.differed_permission.len() - i,
        {
            out.push(
                Outgoing {
                    to: self.differed_permission[i],
                    message: Message::Permission { authorizer: id },
                },
            );
            i += 1;
        }
        self.differed_permission.clear();
        proof {
            assert(out@ =~= permissions(id, old(self)@.deferred));
            assert(self@.deferred =~= Seq::empty());
        }
        out
    }
}

/// The addressees of a list of messages, in order.
pub open spec fn addressees(out: Seq<Outgoing>) -> Seq<NodeId> {
    out.map_values(|o: Outgoing| o.to)
}

/// The requests of a node reach its neighbours and nobody else: each bears
/// the date and the name of the node that asks, each goes to a neighbour
/// other than that node, every such neighbour gets one, and where the list
/// of neighbours names nobody twice, nobody gets two.
pub proof fn lemma_requests_reach_neighbours(id: NodeId, date: usize, neighbours: Seq<NodeId>)
    ensures
        forall|k: int|
            0 <= k < requests(id, date, neighbours).len() ==> (#[trigger] requests(
                id,
                date,
                neighbours,
            )[k]).message == (Message::Request { date, requester: id }),
        forall|n: NodeId| #[trigger]
            addressees(requests(id, date, neighbours)).contains(n) <==> n != id
                && neighbours.contains(n),
        neighbours.no_duplicates() ==> addressees(requests(id, date, neighbours)).no_duplicates(),
    decreases neighbours.len(),
{
    let out = requests(id, date, neighbours);
    if neighbours.len() == 0 {
        assert(addressees(out) =~= Seq::empty());
        assert forall|n: NodeId|
            addressees(out).contains(n) <==> n != id && neighbours.contains(n) by {}
    } else {
        let shorter = neighbours.drop_last();
        let last = neighbours.last();
        let before = requests(id, date, shorter);
        lemma_requests_reach_neighbours(id, date, shorter);
        assert(neighbours =~= shorter.push(last));
        assert forall|n: NodeId| neighbours.contains(n) <==> (shorter.contains(n) || n == last) by {
            vstd::seq_lib::lemma_seq_contains_after_push(shorter, last, n);
        }
        if last != id {
            assert(addressees(out) =~= addressees(before).push(last));
            assert forall|n: NodeId|
                addressees(out).contains(n) <==> (addressees(before).contains(n) || n == last) by {
                vstd::seq_lib::lemma_seq_contains_after_push(addressees(before), last, n);
            }
            if neighbours.no_duplicates() {
                assert(shorter.no_duplicates());
                assert(!shorter.contains(last)) by {
                    if shorter.contains(last) {
                        let k = choose|k: int| 0 <= k < shorter.len() && shorter[k] == last;
                        assert(neighbours[k] == neighbours[neighbours.len() - 1]);
                    }
                }
                crate::ident::lemma_push_contains(addressees(before), last);
            }
        } else {
            if neighbours.no_duplicates() {
                assert(shorter.no_duplicates());
            }
        }
        assert forall|n: NodeId|
            addressees(out).contains(n) <==> n != id && neighbours.contains(n) by {
            assert(addressees(before).contains(n) <==> n != id && shorter.contains(n));
            assert(neighbours.contains(n) <==> (shorter.contains(n) || n == last));
            if last != id {
                assert(addressees(out).contains(n) <==> (addressees(before).contains(n) || n
                    == last));
            }
        }
    }
}

/// The permissions of a node that leaves go to those whose requests it had
/// put aside, in the order in which it had put them aside, one each.
pub proof fn lemma_permissions_answer_deferred(id: NodeId, deferred: Seq<NodeId>)
    ensures
        addressees(permissions(id, deferred)) == deferred,
        forall|k: int|
            0 <= k < deferred.len() ==> (#[trigger] permissions(id, deferred)[k]).message == (
            Message::Permission { authorizer: id }),
{
    assert(addressees(permissions(id, deferred)) =~= deferred);
}

} // verus!
