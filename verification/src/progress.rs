//! A node that asks gets in.
//!
//! [`crate::network`] shows that nothing bad happens; this module shows that
//! something good does.  It speaks of runs in which what is due is done in
//! the end: every request is sent, every message arrives, every node that
//! may go in does.  Whether a run is such a one is for the network and the
//! scheduler to see to; the engine neither helps nor hinders.
//!
//! Two things are proved of such runs.  A node that has asked gets into its
//! critical section if each of its neighbours comes back to idleness again
//! and again ([`theorem_no_starvation`]).  And if no node stays inside for
//! ever, every neighbour does so, and every node that asks gets in
//! ([`theorem_everyone_gets_in`]).
//!
//! The request of a node for one neighbour is always in one of four places:
//! not sent yet, on its way, put aside by the neighbour, or answered with the
//! answer on its way.  It moves from each place to a later one and never
//! back, and after the last the neighbour's permission is in.

use crate::algorithm::State;
use crate::ident::NodeId;
use crate::network::{Network, Overlay, Run, Step};
use vstd::prelude::*;

verus! {

/// Whether node `i` is still asking with the request it stamped `date`, and
/// waits for nobody outside `awaited`.
pub open spec fn waiting(net: Network, i: usize, date: usize, awaited: Set<usize>) -> bool {
    &&& net.engines[i].state == State::Askin
    &&& net.engines[i].last_request == date
    &&& net.engines[i].awaited.subset_of(awaited)
}

/// Whether the request of `i` for `b` has still to be sent.
pub open spec fn unsent(net: Network, i: usize, b: usize) -> bool {
    net.unsent[i].contains(b)
}

/// Whether the request of `i` is on its way to `b`.
pub open spec fn flying(net: Network, i: usize, b: usize) -> bool {
    net.wires[(i, b)].count(net.request_of(i)) > 0
}

/// Whether `b` has put the request of `i` aside.
pub open spec fn aside(net: Network, i: usize, b: usize) -> bool {
    net.engines[b].deferred.contains(NodeId(i))
}

/// Whether the permission of `b` is on its way to `i`.
pub open spec fn granted(net: Network, i: usize, b: usize) -> bool {
    net.wires[(b, i)].count(Network::grant_of(b)) > 0
}

/// One step takes the request of `i` for its neighbour `b` to the next place
/// or leaves it where it is; and all the while `i` goes on waiting.
///
/// A request not sent yet stays so until it is sent, and is then on its way.
/// A request on its way stays so until it is delivered, and is then put aside
/// or answered.  A request put aside stays so until the neighbour leaves, and
/// is then answered.  An answer on its way stays so until it is delivered,
/// and then `i` waits for `b` no longer.
pub proof fn lemma_request_moves_on(
    overlay: Overlay,
    pre: Network,
    step: Step,
    i: usize,
    b: usize,
    date: usize,
    awaited: Set<usize>,
)
    requires
        overlay.wf(),
        pre.inv(overlay),
        pre.enabled(overlay, step),
        overlay.linked(i, b),
        waiting(pre, i, date, awaited),
    ensures
        ({
            let post = pre.after(overlay, step);
            let request = pre.request_of(i);
            let grant = Network::grant_of(b);
            &&& unsent(pre, i, b) ==> waiting(post, i, date, awaited) && if step == (Step::Send {
                node: i,
                to: b,
            }) {
                flying(post, i, b)
            } else {
                unsent(post, i, b)
            }
            &&& flying(pre, i, b) ==> waiting(post, i, date, awaited) && if step == (Step::Deliver {
                from: i,
                to: b,
                message: request,
            }) {
                !flying(post, i, b) && (aside(post, i, b) || granted(post, i, b))
            } else {
                flying(post, i, b)
            }
            &&& aside(pre, i, b) ==> waiting(post, i, date, awaited) && if step == (Step::Free {
                node: b,
            }) {
                granted(post, i, b)
            } else {
                aside(post, i, b)
            }
            &&& granted(pre, i, b) ==> waiting(post, i, date, awaited) && if step == (Step::Deliver {
                from: b,
                to: i,
                message: grant,
            }) {
                !granted(post, i, b) && !post.engines[i].awaited.contains(b)
            } else {
                granted(post, i, b)
            }
        }),
{
    let post = pre.after(overlay, step);
    assert(overlay.linked(b, i));
    assert(pre.pair_ok(i, b));
    assert(pre.pair_ok(b, i));
    assert(pre.node_ok(overlay, i));
    assert(pre.node_ok(overlay, b));
    match step {
        Step::Deliver { from, to, message } => {
            if !overlay.linked(from, to) {
                assert(pre.wires[(from, to)].count(message) == 0);
            }
            assert(overlay.linked(to, from));
            assert(pre.pair_ok(from, to));
            assert(pre.pair_ok(to, from));
            assert(pre.node_ok(overlay, to));
            vstd::seq_lib::lemma_seq_contains_after_push(
                pre.engines[to].deferred,
                NodeId(from),
                NodeId(i),
            );
        },
        Step::Free { node } => {
            assert(pre.node_ok(overlay, node));
        },
        _ => {},
    }
}

impl Run {
    /// Whether `a` sends its request to `b` at some moment from `t` on.
    pub open spec fn sends_from(self, t: nat, a: usize, b: usize) -> bool {
        exists|u: nat| u >= t && #[trigger] self.step(u) == (Step::Send { node: a, to: b })
    }

    /// Whether `m` arrives at `b` from `a` at some moment from `t` on.
    pub open spec fn delivers_from(
        self,
        t: nat,
        a: usize,
        b: usize,
        m: crate::algorithm::Message,
    ) -> bool {
        exists|u: nat|
            u >= t && #[trigger] self.step(u) == (Step::Deliver { from: a, to: b, message: m })
    }

    /// Whether `a` goes in at some moment from `t` on.
    pub open spec fn enters_from(self, t: nat, a: usize) -> bool {
        exists|u: nat| u >= t && #[trigger] self.step(u) == (Step::Enter { node: a })
    }

    /// Whether `b` is idle at some moment from `t` on.
    pub open spec fn idle_from(self, t: nat, b: usize) -> bool {
        exists|u: nat| u >= t && (#[trigger] self.at(u)).engines[b].state == State::Idling
    }

    /// Whether `a` leaves its critical section at some moment from `t` on.
    pub open spec fn leaves_from(self, t: nat, a: usize) -> bool {
        exists|u: nat| u >= t && #[trigger] self.step(u) == (Step::Free { node: a })
    }

    /// Whether what is due is done in the end: a request that has to be sent
    /// is sent, a message on its way arrives, a node that may go in does.
    pub open spec fn punctual(self) -> bool {
        &&& forall|t: nat, a: usize, b: usize|
            unsent(self.at(t), a, b) ==> #[trigger] self.sends_from(t, a, b)
        &&& forall|t: nat, a: usize, b: usize, m: crate::algorithm::Message|
            self.at(t).wires[(a, b)].count(m) > 0 ==> #[trigger] self.delivers_from(t, a, b, m)
        &&& forall|t: nat, a: usize|
            self.at(t).engines[a].can_enter() ==> #[trigger] self.enters_from(t, a)
    }

    /// Whether, besides, no node stays inside for ever.
    pub open spec fn fair(self) -> bool {
        &&& self.punctual()
        &&& forall|t: nat, a: usize|
            self.at(t).engines[a].state == State::CriticalSection ==> #[trigger] self.leaves_from(
                t,
                a,
            )
    }

    /// Whether `b` comes back to idleness again and again: it neither stays
    /// inside nor goes on asking for ever.
    pub open spec fn comes_to_rest(self, b: usize) -> bool {
        forall|t: nat| #[trigger] self.idle_from(t, b)
    }
}

/// What holds at one moment and not at a later one holds for a last time in
/// between, and has held all the while until then.
pub proof fn lemma_last_moment(p: spec_fn(nat) -> bool, from: nat, until: nat) -> (last: nat)
    requires
        from <= until,
        p(from),
        !p(until),
    ensures
        from <= last < until,
        p(last),
        !p(last + 1),
        forall|k: nat| from <= k <= last ==> #[trigger] p(k),
    decreases until - from,
{
    if p(from + 1) {
        let last = lemma_last_moment(p, from + 1, until);
        assert forall|k: nat| from <= k <= last implies #[trigger] p(k) by {
            if k > from {
                assert(from + 1 <= k);
            }
        }
        last
    } else {
        from
    }
}

/// Where the request of a node for one of its neighbours can be.
pub enum Place {
    /// Not sent yet.
    Unsent,
    /// On its way to the neighbour.
    Flying,
    /// Put aside by the neighbour.
    Aside,
    /// Answered, with the answer on its way back.
    Granted,
}

/// Whether the request of `i` for `b` is at `place`.
pub open spec fn is_at(net: Network, i: usize, b: usize, place: Place) -> bool {
    match place {
        Place::Unsent => unsent(net, i, b),
        Place::Flying => flying(net, i, b),
        Place::Aside => aside(net, i, b),
        Place::Granted => granted(net, i, b),
    }
}

/// Whether the request of `i` for `b` has got beyond `place`.
pub open spec fn is_past(net: Network, i: usize, b: usize, place: Place) -> bool {
    match place {
        Place::Unsent => flying(net, i, b),
        Place::Flying => aside(net, i, b) || granted(net, i, b),
        Place::Aside => granted(net, i, b),
        Place::Granted => !net.engines[i].awaited.contains(b),
    }
}

/// A request that is at a place at one moment and not at a later one has got
/// beyond that place in between, and its node has not stopped waiting.
pub proof fn lemma_leaves_place(
    overlay: Overlay,
    run: Run,
    i: usize,
    b: usize,
    date: usize,
    awaited: Set<usize>,
    place: Place,
    from: nat,
    until: nat,
) -> (then: nat)
    requires
        overlay.wf(),
        run.valid(overlay),
        overlay.linked(i, b),
        from <= until,
        waiting(run.at(from), i, date, awaited),
        is_at(run.at(from), i, b, place),
        !(waiting(run.at(until), i, date, awaited) && is_at(run.at(until), i, b, place)),
    ensures
        from < then <= until,
        waiting(run.at(then), i, date, awaited),
        is_past(run.at(then), i, b, place),
{
    let p = |k: nat| waiting(run.at(k), i, date, awaited) && is_at(run.at(k), i, b, place);
    let last = lemma_last_moment(p, from, until);
    crate::network::lemma_run_inv(overlay, run, last);
    assert(run.at(last).enabled(overlay, run.step(last)));
    assert(run.at(last + 1) == run.at(last).after(overlay, run.step(last)));
    lemma_request_moves_on(overlay, run.at(last), run.step(last), i, b, date, awaited);
    assert(p(last));
    assert(!p(last + 1));
    (last + 1) as nat
}

/// The moment after the step taken at `t`.
pub proof fn lemma_step_taken(overlay: Overlay, run: Run, t: nat)
    requires
        overlay.wf(),
        run.valid(overlay),
    ensures
        run.at(t).inv(overlay),
        run.at(t).enabled(overlay, run.step(t)),
        run.at(t + 1) == run.at(t).after(overlay, run.step(t)),
{
    crate::network::lemma_run_inv(overlay, run, t);
    assert(run.at(t).enabled(overlay, run.step(t)));
}

/// Where every request is sent and every message arrives in the end, a
/// request reaches its neighbour: from a moment at which `i` waits for `b`
/// there is one, then or later, at which `i` waits for no more than it did,
/// and `b` has put the request aside or has answered it.
pub proof fn lemma_request_arrives(
    overlay: Overlay,
    run: Run,
    i: usize,
    b: usize,
    t: nat,
) -> (then: nat)
    requires
        overlay.wf(),
        run.valid(overlay),
        run.punctual(),
        run.at(t).engines[i].state == State::Askin,
        run.at(t).engines[i].awaited.contains(b),
    ensures
        t <= then,
        overlay.linked(i, b),
        waiting(run.at(then), i, run.at(t).engines[i].last_request, run.at(t).engines[i].awaited),
        aside(run.at(then), i, b) || granted(run.at(then), i, b),
{
    let date = run.at(t).engines[i].last_request;
    let awaited = run.at(t).engines[i].awaited;
    crate::network::lemma_run_inv(overlay, run, t);
    assert(run.at(t).node_ok(overlay, i));
    assert(overlay.linked(i, b));
    assert(run.at(t).pair_ok(i, b));
    assert(waiting(run.at(t), i, date, awaited));

    // Not sent yet: it is sent in the end.
    let mut now: nat = t;
    if unsent(run.at(now), i, b) {
        assert(run.sends_from(now, i, b));
        let s = choose|s: nat| s >= now && run.step(s) == (Step::Send { node: i, to: b });
        lemma_step_taken(overlay, run, s);
        let until = (s + 1) as nat;
        now = lemma_leaves_place(overlay, run, i, b, date, awaited, Place::Unsent, now, until);
    }
    crate::network::lemma_run_inv(overlay, run, now);
    assert(run.at(now).pair_ok(i, b));

    // On its way: it arrives in the end.
    if flying(run.at(now), i, b) {
        let request = run.at(now).request_of(i);
        assert(run.delivers_from(now, i, b, request));
        let s = choose|s: nat|
            s >= now && run.step(s) == (Step::Deliver { from: i, to: b, message: request });
        lemma_step_taken(overlay, run, s);
        let until = if waiting(run.at(s), i, date, awaited) && flying(run.at(s), i, b) {
            lemma_request_moves_on(overlay, run.at(s), run.step(s), i, b, date, awaited);
            (s + 1) as nat
        } else {
            s
        };
        now = lemma_leaves_place(overlay, run, i, b, date, awaited, Place::Flying, now, until);
    }
    now
}

/// Where every message arrives in the end, so does a permission: from a
/// moment at which the answer of `b` is on its way to `i` there is a later
/// one at which `i` waits for fewer, and no longer for `b`.
pub proof fn lemma_answer_arrives(
    overlay: Overlay,
    run: Run,
    i: usize,
    b: usize,
    date: usize,
    awaited: Set<usize>,
    t: nat,
) -> (then: nat)
    requires
        overlay.wf(),
        run.valid(overlay),
        run.punctual(),
        overlay.linked(i, b),
        waiting(run.at(t), i, date, awaited),
        granted(run.at(t), i, b),
    ensures
        t < then,
        waiting(run.at(then), i, date, awaited),
        !run.at(then).engines[i].awaited.contains(b),
{
    let grant = Network::grant_of(b);
    assert(run.delivers_from(t, b, i, grant));
    let s = choose|s: nat|
        s >= t && run.step(s) == (Step::Deliver { from: b, to: i, message: grant });
    lemma_step_taken(overlay, run, s);
    let until = if waiting(run.at(s), i, date, awaited) && granted(run.at(s), i, b) {
        lemma_request_moves_on(overlay, run.at(s), run.step(s), i, b, date, awaited);
        (s + 1) as nat
    } else {
        s
    };
    lemma_leaves_place(overlay, run, i, b, date, awaited, Place::Granted, t, until)
}

/// A neighbour that comes to rest again and again gives its permission in
/// the end: from a moment at which `i` waits for `b` there is a later one at
/// which it waits for fewer, and no longer for `b`.
pub proof fn lemma_neighbour_answers(
    overlay: Overlay,
    run: Run,
    i: usize,
    b: usize,
    t: nat,
) -> (then: nat)
    requires
        overlay.wf(),
        run.valid(overlay),
        run.punctual(),
        run.comes_to_rest(b),
        run.at(t).engines[i].state == State::Askin,
        run.at(t).engines[i].awaited.contains(b),
    ensures
        t < then,
        waiting(run.at(then), i, run.at(t).engines[i].last_request, run.at(t).engines[i].awaited),
        !run.at(then).engines[i].awaited.contains(b),
{
    let date = run.at(t).engines[i].last_request;
    let awaited = run.at(t).engines[i].awaited;
    let mut now = lemma_request_arrives(overlay, run, i, b, t);

    // Put aside: the neighbour comes to rest in the end, and answers as it
    // does.
    if aside(run.at(now), i, b) {
        assert(run.idle_from(now, b));
        let s = choose|s: nat| s >= now && run.at(s).engines[b].state == State::Idling;
        crate::network::lemma_run_inv(overlay, run, s);
        assert(run.at(s).pair_ok(i, b));
        now = lemma_leaves_place(overlay, run, i, b, date, awaited, Place::Aside, now, s);
    }
    lemma_answer_arrives(overlay, run, i, b, date, awaited, now)
}

/// In a run in which what is due is done in the end and the neighbours of
/// `i` come to rest again and again, a moment at which `i` is asking is
/// followed by one at which it is inside.
pub proof fn lemma_enters_in_the_end(overlay: Overlay, run: Run, i: usize, t: nat) -> (then: nat)
    requires
        overlay.wf(),
        run.valid(overlay),
        run.punctual(),
        forall|b: usize| overlay.linked(i, b) ==> #[trigger] run.comes_to_rest(b),
        run.at(t).engines[i].state == State::Askin,
    ensures
        t < then,
        run.at(then).engines[i].state == State::CriticalSection,
    decreases run.at(t).engines[i].awaited.len(),
{
    let awaited = run.at(t).engines[i].awaited;
    crate::network::lemma_run_inv(overlay, run, t);
    assert(run.at(t).node_ok(overlay, i));
    if awaited.len() == 0 {
        awaited.lemma_len0_is_empty();
        assert(run.enters_from(t, i));
        let s = choose|s: nat| s >= t && run.step(s) == (Step::Enter { node: i });
        lemma_step_taken(overlay, run, s);
        (s + 1) as nat
    } else {
        let b = awaited.choose();
        assert(awaited.contains(b)) by {
            if awaited.is_empty() {
                assert(awaited =~= Set::empty());
            }
        }
        assert(overlay.linked(i, b));
        let later = lemma_neighbour_answers(overlay, run, i, b, t);
        let fewer = run.at(later).engines[i].awaited;
        assert(fewer.subset_of(awaited.remove(b)));
        vstd::set_lib::lemma_len_subset(fewer, awaited.remove(b));
        lemma_enters_in_the_end(overlay, run, i, later)
    }
}

/// No starvation under reliable delivery: in a run in which every request
/// is sent, every message arrives and every node that may go in does, a node
/// that has asked gets into its critical section, provided that each of its
/// neighbours comes back to idleness again and again.
pub proof fn theorem_no_starvation(overlay: Overlay, run: Run, i: usize, t: nat)
    requires
        overlay.wf(),
        run.valid(overlay),
        run.punctual(),
        forall|b: usize| overlay.linked(i, b) ==> #[trigger] run.comes_to_rest(b),
        run.at(t).engines[i].state == State::Askin,
    ensures
        exists|then: nat| then > t && run.at(then).engines[i].state == State::CriticalSection,
{
    let then = lemma_enters_in_the_end(overlay, run, i, t);
}

/// In a fair run a neighbour gives its permission in the end, whatever it is
/// busy with: from a moment at which `i` waits for `b` there is a later one
/// at which it waits for fewer, and no longer for `b`.
///
/// If `b` has put the request aside, its own request is the older one; so it
/// gets in (that is [`lemma_gets_in`] for an older request), leaves, and
/// answers as it does.
pub proof fn lemma_neighbour_lets_in(
    overlay: Overlay,
    run: Run,
    i: usize,
    b: usize,
    t: nat,
) -> (then: nat)
    requires
        overlay.wf(),
        run.valid(overlay),
        run.fair(),
        run.at(t).engines[i].state == State::Askin,
        run.at(t).engines[i].awaited.contains(b),
    ensures
        t < then,
        waiting(run.at(then), i, run.at(t).engines[i].last_request, run.at(t).engines[i].awaited),
        !run.at(then).engines[i].awaited.contains(b),
    decreases
            run.at(t).engines[i].last_request,
            i,
            run.at(t).engines[i].awaited.len(),
            0nat,
{
    let date = run.at(t).engines[i].last_request;
    let awaited = run.at(t).engines[i].awaited;
    let mut now = lemma_request_arrives(overlay, run, i, b, t);
    if aside(run.at(now), i, b) {
        crate::network::lemma_run_inv(overlay, run, now);
        assert(run.at(now).pair_ok(i, b));
        let inside = if run.at(now).engines[b].state == State::Askin {
            lemma_gets_in(overlay, run, b, now)
        } else {
            now
        };
        assert(run.leaves_from(inside, b));
        let s = choose|s: nat| s >= inside && run.step(s) == (Step::Free { node: b });
        lemma_step_taken(overlay, run, s);
        let until = (s + 1) as nat;
        assert(!aside(run.at(until), i, b));
        now = lemma_leaves_place(overlay, run, i, b, date, awaited, Place::Aside, now, until);
    }
    lemma_answer_arrives(overlay, run, i, b, date, awaited, now)
}

/// In a fair run, a moment at which a node is asking is followed by one at
/// which it is inside.
pub proof fn lemma_gets_in(overlay: Overlay, run: Run, i: usize, t: nat) -> (then: nat)
    requires
        overlay.wf(),
        run.valid(overlay),
        run.fair(),
        run.at(t).engines[i].state == State::Askin,
    ensures
        t < then,
        run.at(then).engines[i].state == State::CriticalSection,
    decreases
            run.at(t).engines[i].last_request,
            i,
            run.at(t).engines[i].awaited.len(),
            1nat,
{
    let awaited = run.at(t).engines[i].awaited;
    crate::network::lemma_run_inv(overlay, run, t);
    assert(run.at(t).node_ok(overlay, i));
    if awaited.len() == 0 {
        awaited.lemma_len0_is_empty();
        assert(run.enters_from(t, i));
        let s = choose|s: nat| s >= t && run.step(s) == (Step::Enter { node: i });
        lemma_step_taken(overlay, run, s);
        (s + 1) as nat
    } else {
        let b = awaited.choose();
        assert(awaited.contains(b)) by {
            if awaited.is_empty() {
                assert(awaited =~= Set::empty());
            }
        }
        let later = lemma_neighbour_lets_in(overlay, run, i, b, t);
        let fewer = run.at(later).engines[i].awaited;
        assert(fewer.subset_of(awaited.remove(b)));
        vstd::set_lib::lemma_len_subset(fewer, awaited.remove(b));
        lemma_gets_in(overlay, run, i, later)
    }
}

/// Liveness: in a fair run every node that asks gets into its critical
/// section, and every node comes back to idleness again and again.
pub proof fn theorem_everyone_gets_in(overlay: Overlay, run: Run, i: usize, t: nat)
    requires
        overlay.wf(),
        run.valid(overlay),
        run.fair(),
    ensures
        run.at(t).engines[i].state == State::Askin ==> exists|then: nat|
            then > t && run.at(then).engines[i].state == State::CriticalSection,
        run.idle_from(t, i),
{
    let mut now: nat = t;
    if run.at(now).engines[i].state == State::Askin {
        now = lemma_gets_in(overlay, run, i, now);
    }
    if run.at(now).engines[i].state == State::CriticalSection {
        assert(run.leaves_from(now, i));
        let s = choose|s: nat| s >= now && run.step(s) == (Step::Free { node: i });
        lemma_step_taken(overlay, run, s);
        now = (s + 1) as nat;
    }
    assert(run.at(now).engines[i].state == State::Idling);
}

/// A permission answers a request: if the request of `i` for `n` has still to
/// be sent at one moment, and `i` awaits `n` no longer at a later one, then in
/// between the request went out, and after that the permission of `n` came
/// in.  So a node that goes in has had, from each of its neighbours, a
/// permission that was handled after its request was sent.
pub proof fn theorem_permission_answers_request(
    overlay: Overlay,
    run: Run,
    i: usize,
    n: usize,
    t: nat,
    u: nat,
)
    requires
        overlay.wf(),
        run.valid(overlay),
        t <= u,
        unsent(run.at(t), i, n),
        !run.at(u).engines[i].awaited.contains(n),
    ensures
        exists|sent: nat, answered: nat|
            {
                &&& t <= sent < answered < u
                &&& #[trigger] run.step(sent) == (Step::Send { node: i, to: n })
                &&& #[trigger] run.step(answered) == (Step::Deliver {
                    from: n,
                    to: i,
                    message: Network::grant_of(n),
                })
            },
{
    crate::network::lemma_run_inv(overlay, run, u);
    assert(run.at(u).node_ok(overlay, i));

    // The request stays unsent until it is sent.
    let due = |k: nat| unsent(run.at(k), i, n);
    let sent = lemma_last_moment(due, t, u);
    lemma_step_taken(overlay, run, sent);
    crate::network::lemma_run_inv(overlay, run, (sent + 1) as nat);
    let before = run.at(sent);
    assert(before.node_ok(overlay, i));
    assert(overlay.linked(i, n));
    lemma_request_moves_on(
        overlay,
        before,
        run.step(sent),
        i,
        n,
        before.engines[i].last_request,
        before.engines[i].awaited,
    );
    assert(run.step(sent) == (Step::Send { node: i, to: n }));
    let after = run.at((sent + 1) as nat);
    assert(after.pair_ok(i, n));
    assert(after.engines[i].awaited.contains(n));

    // The neighbour stays awaited until its permission comes in.
    let awaited = |k: nat| run.at(k).engines[i].awaited.contains(n);
    let answered = lemma_last_moment(awaited, (sent + 1) as nat, u);
    lemma_step_taken(overlay, run, answered);
    crate::network::lemma_run_inv(overlay, run, (answered + 1) as nat);
    let pre = run.at(answered);
    assert(pre.node_ok(overlay, i));
    assert(pre.pair_ok(i, n));
    lemma_request_moves_on(
        overlay,
        pre,
        run.step(answered),
        i,
        n,
        pre.engines[i].last_request,
        pre.engines[i].awaited,
    );
    assert(run.at((answered + 1) as nat).pair_ok(i, n));
    assert(run.step(answered) == (Step::Deliver {
        from: n,
        to: i,
        message: Network::grant_of(n),
    }));
}

/// Between the moment a node asks and the moment it goes in, its request
/// goes out to each neighbour, and after that the neighbour's permission comes
/// in.
pub proof fn theorem_entry_follows_permissions(
    overlay: Overlay,
    run: Run,
    i: usize,
    n: usize,
    asked: nat,
    entered: nat,
)
    requires
        overlay.wf(),
        run.valid(overlay),
        overlay.linked(i, n),
        asked < entered,
        run.step(asked) == (Step::Ask { node: i }),
        run.step(entered) == (Step::Enter { node: i }),
    ensures
        exists|sent: nat, answered: nat|
            {
                &&& asked < sent < answered < entered
                &&& #[trigger] run.step(sent) == (Step::Send { node: i, to: n })
                &&& #[trigger] run.step(answered) == (Step::Deliver {
                    from: n,
                    to: i,
                    message: Network::grant_of(n),
                })
            },
{
    lemma_step_taken(overlay, run, asked);
    lemma_step_taken(overlay, run, entered);
    let start = (asked + 1) as nat;
    assert(unsent(run.at(start), i, n));
    assert(run.at(entered).engines[i].awaited.is_empty());
    theorem_permission_answers_request(overlay, run, i, n, start, entered);
}

} // verus!
