//! How a node joins the overlay, step by step.
//!
//! The node tells the coordinator where it listens, learns its identifier and
//! how many streams to accept and to dial, accepts, then dials.  It accepts
//! before it dials: the peers that dial it have lower identifiers than it,
//! the peers it dials have higher ones, so some node always has nothing left
//! to wait for.
//!
//! [`Bootstrap`] keeps the place in that sequence.  The caller does what
//! [`Bootstrap::phase`] names, and reports what came of it to
//! [`Bootstrap::advance`].

use crate::ident::{contains_node, NodeId};
use vstd::prelude::*;

verus! {

/// What the node has to do next.
#[derive(Debug, Clone, Copy, PartialEq, Eq, Structural)]
pub enum Phase {
    /// Send the port of the listener to the coordinator.
    Registering,
    /// Receive the number of nodes and the own identifier.
    AwaitingIdentity,
    /// Receive the number of streams to accept.
    AwaitingIncoming,
    /// Receive the number of streams to dial.
    AwaitingOutgoing,
    /// Accept a stream, read the peer's identifier, write the own one.
    Accepting,
    /// Receive an address, dial it, write the own identifier, read the
    /// peer's.
    Dialing,
    /// Nothing: the overlay stands.
    Ready,
}

/// What came of a step.
#[derive(Debug, Clone, Copy, PartialEq, Eq, Structural)]
pub enum Event {
    /// The port was sent.
    Registered,
    /// The coordinator told the number of nodes and the identifier.
    Identity { node_count: usize, id: NodeId },
    /// The coordinator told a number of streams.
    Count(usize),
    /// A stream stands, and the peer at its other end named itself.
    Peer(NodeId),
}

/// Why the bootstrap cannot go on.
#[derive(Debug, Clone, Copy, PartialEq, Eq, Structural)]
pub enum BootstrapError {
    /// The event does not belong to the phase.
    Unexpected { phase: Phase, event: Event },
    /// The streams to accept and to dial are more than can be counted.
    TooManyPeers,
    /// A peer named the identifier of this node.
    OwnIdentifier,
    /// A second stream names a peer that a first one named.
    DuplicatePeer(NodeId),
}

/// The place of a node in the bootstrap sequence, and what it has learnt.
#[derive(Debug, Clone)]
pub struct Bootstrap {
    pub phase: Phase,
    pub node_count: usize,
    pub id: NodeId,
    /// How many streams to accept.
    pub incoming: usize,
    /// How many streams to dial.
    pub outgoing: usize,
    /// The peers at the other end of the streams that stand, in the order in
    /// which they came.
    pub peers: Vec<NodeId>,
}

/// What the bootstrap of a node has come to, as mathematical values.
pub struct Progress {
    pub phase: Phase,
    pub node_count: usize,
    pub id: NodeId,
    pub incoming: usize,
    pub outgoing: usize,
    pub peers: Seq<NodeId>,
}

/// The phase of a node that has `recorded` of its streams: it accepts until
/// it has accepted `incoming`, then dials until it has dialed `outgoing`.
pub open spec fn phase_after(incoming: usize, outgoing: usize, recorded: nat) -> Phase {
    if recorded < incoming {
        Phase::Accepting
    } else if recorded < incoming + outgoing {
        Phase::Dialing
    } else {
        Phase::Ready
    }
}

impl Progress {
    /// The start.
    pub open spec fn start() -> Progress {
        Progress {
            phase: Phase::Registering,
            node_count: 0,
            id: NodeId(0),
            incoming: 0,
            outgoing: 0,
            peers: Seq::empty(),
        }
    }

    /// What holds at every point of the sequence: no peer is recorded twice,
    /// none is the node itself, and the phase fits the number of streams that
    /// stand.
    pub open spec fn wf(self) -> bool {
        &&& self.peers.no_duplicates()
        &&& !self.peers.contains(self.id)
        &&& match self.phase {
            Phase::Accepting | Phase::Dialing | Phase::Ready => {
                &&& self.incoming + self.outgoing <= usize::MAX
                &&& self.peers.len() <= self.incoming + self.outgoing
                &&& self.phase == phase_after(self.incoming, self.outgoing, self.peers.len())
            },
            _ => self.peers.len() == 0,
        }
    }

    /// What `event` makes of this point of the sequence, or why it cannot
    /// follow it.
    pub open spec fn advanced(self, event: Event) -> Result<Progress, BootstrapError> {
        match (self.phase, event) {
            (Phase::Registering, Event::Registered) => Ok(
                Progress { phase: Phase::AwaitingIdentity, ..self },
            ),
            (Phase::AwaitingIdentity, Event::Identity { node_count, id }) => Ok(
                Progress { phase: Phase::AwaitingIncoming, node_count, id, ..self },
            ),
            (Phase::AwaitingIncoming, Event::Count(n)) => Ok(
                Progress { phase: Phase::AwaitingOutgoing, incoming: n, ..self },
            ),
            (Phase::AwaitingOutgoing, Event::Count(n)) => {
                if self.incoming + n > usize::MAX {
                    Err(BootstrapError::TooManyPeers)
                } else {
                    Ok(
                        Progress {
                            phase: phase_after(self.incoming, n, self.peers.len()),
                            outgoing: n,
                            ..self
                        },
                    )
                }
            },
            (Phase::Accepting, Event::Peer(peer)) | (Phase::Dialing, Event::Peer(peer)) => {
                if peer == self.id {
                    Err(BootstrapError::OwnIdentifier)
                } else if self.peers.contains(peer) {
                    Err(BootstrapError::DuplicatePeer(peer))
                } else {
                    Ok(
                        Progress {
                            phase: phase_after(self.incoming, self.outgoing, self.peers.len() + 1),
                            peers: self.peers.push(peer),
                            ..self
                        },
                    )
                }
            },
            _ => Err(BootstrapError::Unexpected { phase: self.phase, event }),
        }
    }
}

impl View for Bootstrap {
    type V = Progress;

    open spec fn view(&self) -> Progress {
        Progress {
            phase: self.phase,
            node_count: self.node_count,
            id: self.id,
            incoming: self.incoming,
            outgoing: self.outgoing,
            peers: self.peers@,
        }
    }
}

impl Bootstrap {
    /// A node that has not registered yet.
    pub fn new() -> (b: Bootstrap)
        ensures
            b@ == Progress::start(),
            b@.wf(),
    {
        Bootstrap {
            phase: Phase::Registering,
            node_count: 0,
            id: NodeId(0),
            incoming: 0,
            outgoing: 0,
            peers: Vec::new(),
        }
    }

    /// What to do next.
    pub fn phase(&self) -> (phase: Phase)
        ensures
            phase == self@.phase,
    {
        self.phase
    }

    /// The phase once `recorded` streams stand.
    fn phase_for(incoming: usize, outgoing: usize, recorded: usize) -> (phase: Phase)
        requires
            incoming + outgoing <= usize::MAX,
        ensures
            phase == phase_after(incoming, outgoing, recorded as nat),
    {
        if recorded < incoming {
            Phase::Accepting
        } else if recorded < incoming + outgoing {
            Phase::Dialing
        } else {
            Phase::Ready
        }
    }

    /// Takes note of what came of the step that the phase named.  An event
    /// that cannot follow leaves everything as it was.
    pub fn advance(&mut self, event: Event) -> (r: Result<(), BootstrapError>)
        requires
            old(self)@.wf(),
        ensures
            match old(self)@.advanced(event) {
                Ok(next) => r.is_ok() && final(self)@ == next,
                Err(e) => r == Err::<(), BootstrapError>(e) && final(self)@ == old(self)@,
            },
            final(self)@.wf(),
    {
        match (self.phase, event) {
            (Phase::Registering, Event::Registered) => {
                self.phase = Phase::AwaitingIdentity;
                Ok(())
            },
            (Phase::AwaitingIdentity, Event::Identity { node_count, id }) => {
                self.phase = Phase::AwaitingIncoming;
                self.node_count = node_count;
                self.id = id;
                Ok(())
            },
            (Phase::AwaitingIncoming, Event::Count(n)) => {
                self.phase = Phase::AwaitingOutgoing;
                self.incoming = n;
                Ok(())
            },
            (Phase::AwaitingOutgoing, Event::Count(n)) => {
                if n > usize::MAX - self.incoming {
                    Err(BootstrapError::TooManyPeers)
                } else {
                    self.outgoing = n;
                    self.phase = Self::phase_for(self.incoming, n, self.peers.len());
                    Ok(())
                }
            },
            (Phase::Accepting, Event::Peer(peer)) | (Phase::Dialing, Event::Peer(peer)) => {
                if peer.0 == self.id.0 {
                    Err(BootstrapError::OwnIdentifier)
                } else if contains_node(&self.peers, peer) {
                    Err(BootstrapError::DuplicatePeer(peer))
                } else {
                    proof {
                        crate::ident::lemma_push_contains(self.peers@, peer);
                    }
                    self.peers.push(peer);
                    self.phase = Self::phase_for(self.incoming, self.outgoing, self.peers.len());
                    Ok(())
                }
            },
            _ => Err(BootstrapError::Unexpected { phase: self.phase, event }),
        }
    }

    /// Whether the overlay stands: every stream that the plan names has been
    /// accepted or dialed.  Then there is one peer for each of them.
    pub fn is_ready(&self) -> (ready: bool)
        ensures
            ready == (self@.phase == Phase::Ready),
            ready && self@.wf() ==> self@.peers.len() == self@.incoming + self@.outgoing,
    {
        match self.phase {
            Phase::Ready => true,
            _ => false,
        }
    }
}

} // verus!
