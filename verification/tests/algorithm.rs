use renraku::algorithm::{Message, Outgoing, ProtocolError, Reaction, RicAgrawala, State};
use renraku::ident::NodeId;

fn request(date: usize, requester: usize) -> Message {
    Message::Request { date, requester: NodeId(requester) }
}

fn permission(authorizer: usize) -> Message {
    Message::Permission { authorizer: NodeId(authorizer) }
}

fn ids(list: &[usize]) -> Vec<NodeId> {
    list.iter().map(|n| NodeId(*n)).collect()
}

fn awaited(engine: &RicAgrawala) -> Vec<usize> {
    let mut v: Vec<usize> = engine.awaited.iter().copied().collect();
    v.sort();
    v
}

#[test]
fn an_engine_starts_idle() {
    let engine = RicAgrawala::default();
    assert_eq!(engine.state, State::Idling);
    assert_eq!(engine.timestamp, 0);
    assert_eq!(engine.last_request_timestamp, 0);
    assert!(!engine.prioritized);
    assert!(engine.awaited.is_empty());
    assert!(engine.differed_permission.is_empty());
}

#[test]
fn asking_ticks_the_clock_and_awaits_every_neighbour() {
    let mut engine = RicAgrawala::default();
    let out = engine.ask(NodeId(2), &ids(&[1, 3, 4]));
    assert_eq!(engine.state, State::Askin);
    assert_eq!(engine.timestamp, 1);
    assert_eq!(engine.last_request_timestamp, 1);
    assert_eq!(awaited(&engine), vec![1, 3, 4]);
    assert_eq!(
        out,
        vec![
            Outgoing { to: NodeId(1), message: request(1, 2) },
            Outgoing { to: NodeId(3), message: request(1, 2) },
            Outgoing { to: NodeId(4), message: request(1, 2) },
        ]
    );
}

#[test]
fn a_node_does_not_ask_itself() {
    let mut engine = RicAgrawala::default();
    let out = engine.ask(NodeId(2), &ids(&[1, 2, 3]));
    assert_eq!(awaited(&engine), vec![1, 3]);
    assert_eq!(out.len(), 2);
    assert!(out.iter().all(|o| o.to != NodeId(2)));
}

#[test]
fn asking_forgets_who_was_awaited_before() {
    let mut engine = RicAgrawala::default();
    engine.awaited.insert(9);
    engine.ask(NodeId(1), &ids(&[2]));
    assert_eq!(awaited(&engine), vec![2]);
}

#[test]
fn a_request_bears_the_clock_of_its_issue() {
    let mut engine = RicAgrawala::default();
    engine.timestamp = 41;
    let out = engine.ask(NodeId(1), &ids(&[2]));
    assert_eq!(out, vec![Outgoing { to: NodeId(2), message: request(42, 1) }]);
    assert_eq!(engine.last_request_timestamp, 42);
    assert_eq!(engine.timestamp, 42);
}

#[test]
fn a_node_without_neighbours_may_go_in_at_once() {
    let mut engine = RicAgrawala::default();
    let out = engine.ask(NodeId(1), &Vec::new());
    assert!(out.is_empty());
    assert!(engine.enter());
    assert_eq!(engine.state, State::CriticalSection);
}

#[test]
fn an_idle_node_grants_at_once() {
    let mut engine = RicAgrawala::default();
    let r = engine.handle(request(5, 2), NodeId(1), &ids(&[2, 3]));
    assert_eq!(r, Ok(Reaction::Reply(Outgoing { to: NodeId(2), message: permission(1) })));
    assert_eq!(engine.timestamp, 5);
    assert!(engine.differed_permission.is_empty());
    assert_eq!(engine.state, State::Idling);
}

#[test]
fn a_request_moves_the_clock_up_and_never_back() {
    let mut engine = RicAgrawala::default();
    engine.timestamp = 10;
    engine.handle(request(4, 2), NodeId(1), &ids(&[2])).unwrap();
    assert_eq!(engine.timestamp, 10);
    engine.handle(request(10, 2), NodeId(1), &ids(&[2])).unwrap();
    assert_eq!(engine.timestamp, 10);
    engine.handle(request(11, 2), NodeId(1), &ids(&[2])).unwrap();
    assert_eq!(engine.timestamp, 11);
}

#[test]
fn the_older_request_goes_first() {
    let mut engine = RicAgrawala::default();
    engine.timestamp = 2;
    engine.ask(NodeId(5), &ids(&[1, 9]));
    assert_eq!(engine.last_request_timestamp, 3);
    let later = engine.handle(request(4, 1), NodeId(5), &ids(&[1, 9]));
    assert_eq!(later, Ok(Reaction::Deferred));
    assert_eq!(engine.differed_permission, ids(&[1]));
    let earlier = engine.handle(request(2, 9), NodeId(5), &ids(&[1, 9]));
    assert_eq!(earlier, Ok(Reaction::Reply(Outgoing { to: NodeId(9), message: permission(5) })));
    assert_eq!(engine.differed_permission, ids(&[1]));
}

#[test]
fn between_equal_dates_the_lower_identifier_goes_first() {
    let mut low = RicAgrawala::default();
    let mut high = RicAgrawala::default();
    let from_low = low.ask(NodeId(1), &ids(&[2]));
    let from_high = high.ask(NodeId(2), &ids(&[1]));
    assert_eq!(from_low[0].message, request(1, 1));
    assert_eq!(from_high[0].message, request(1, 2));

    let at_low = low.handle(from_high[0].message, NodeId(1), &ids(&[2]));
    assert_eq!(at_low, Ok(Reaction::Deferred));
    let at_high = high.handle(from_low[0].message, NodeId(2), &ids(&[1]));
    assert_eq!(at_high, Ok(Reaction::Reply(Outgoing { to: NodeId(1), message: permission(2) })));

    assert!(!high.enter());
    assert_eq!(low.handle(permission(2), NodeId(1), &ids(&[2])), Ok(Reaction::Wake));
    assert!(low.enter());
    assert!(!high.enter());

    let released = low.free(NodeId(1));
    assert_eq!(released, vec![Outgoing { to: NodeId(2), message: permission(1) }]);
    assert_eq!(high.handle(released[0].message, NodeId(2), &ids(&[1])), Ok(Reaction::Wake));
    assert!(high.enter());
}

#[test]
fn the_flag_says_who_goes_first() {
    let mut engine = RicAgrawala::default();
    engine.alter_on(NodeId(1), &request(3, 2));
    assert!(!engine.prioritized);
    engine.ask(NodeId(1), &ids(&[2]));
    assert_eq!(engine.last_request_timestamp, 4);
    engine.alter_on(NodeId(1), &request(5, 2));
    assert!(engine.prioritized);
    engine.alter_on(NodeId(1), &request(4, 2));
    assert!(engine.prioritized);
    engine.alter_on(NodeId(1), &request(4, 0));
    assert!(!engine.prioritized);
    engine.alter_on(NodeId(1), &request(3, 2));
    assert!(!engine.prioritized);
    assert_eq!(engine.timestamp, 5);
}

#[test]
fn a_node_inside_defers_whoever_asks() {
    let mut engine = RicAgrawala::default();
    engine.ask(NodeId(1), &ids(&[2, 3]));
    engine.handle(permission(2), NodeId(1), &ids(&[2, 3])).unwrap();
    engine.handle(permission(3), NodeId(1), &ids(&[2, 3])).unwrap();
    assert!(engine.enter());
    assert_eq!(engine.handle(request(2, 2), NodeId(1), &ids(&[2, 3])), Ok(Reaction::Deferred));
    assert_eq!(engine.handle(request(2, 3), NodeId(1), &ids(&[2, 3])), Ok(Reaction::Deferred));
    assert_eq!(engine.differed_permission, ids(&[2, 3]));
}

#[test]
fn leaving_answers_the_deferred_in_order_and_forgets_them() {
    let neighbours = ids(&[2, 3]);
    let mut a = RicAgrawala::default();
    a.ask(NodeId(1), &neighbours);
    a.handle(permission(2), NodeId(1), &neighbours).unwrap();
    a.handle(permission(3), NodeId(1), &neighbours).unwrap();
    assert!(a.enter());

    let mut b = RicAgrawala::default();
    b.timestamp = 1;
    let from_b = b.ask(NodeId(2), &ids(&[1]));
    let mut c = RicAgrawala::default();
    c.timestamp = 1;
    let from_c = c.ask(NodeId(3), &ids(&[1]));

    assert_eq!(a.handle(from_b[0].message, NodeId(1), &neighbours), Ok(Reaction::Deferred));
    assert_eq!(a.handle(from_c[0].message, NodeId(1), &neighbours), Ok(Reaction::Deferred));

    let clock = a.timestamp;
    let out = a.free(NodeId(1));
    assert_eq!(
        out,
        vec![
            Outgoing { to: NodeId(2), message: permission(1) },
            Outgoing { to: NodeId(3), message: permission(1) },
        ]
    );
    assert!(a.differed_permission.is_empty());
    assert_eq!(a.state, State::Idling);
    assert_eq!(a.timestamp, clock);

    assert_eq!(b.handle(out[0].message, NodeId(2), &ids(&[1])), Ok(Reaction::Wake));
    assert_eq!(c.handle(out[1].message, NodeId(3), &ids(&[1])), Ok(Reaction::Wake));
    assert!(b.enter());
    assert!(c.enter());
}

#[test]
fn leaving_with_nothing_deferred_sends_nothing() {
    let mut engine = RicAgrawala::default();
    engine.ask(NodeId(1), &Vec::new());
    assert!(engine.enter());
    assert!(engine.free(NodeId(1)).is_empty());
    assert_eq!(engine.state, State::Idling);
}

#[test]
fn the_last_permission_wakes_the_node() {
    let neighbours = ids(&[2, 3]);
    let mut engine = RicAgrawala::default();
    engine.ask(NodeId(1), &neighbours);
    assert_eq!(engine.handle(permission(2), NodeId(1), &neighbours), Ok(Reaction::Nothing));
    assert!(!engine.enter());
    assert_eq!(awaited(&engine), vec![3]);
    assert_eq!(engine.handle(permission(3), NodeId(1), &neighbours), Ok(Reaction::Wake));
    assert!(engine.awaited.is_empty());
    assert!(engine.enter());
    assert!(!engine.enter());
}

#[test]
fn a_permission_that_nobody_awaits_changes_nothing() {
    let neighbours = ids(&[2, 3]);
    let mut engine = RicAgrawala::default();
    assert_eq!(engine.handle(permission(2), NodeId(1), &neighbours), Ok(Reaction::Nothing));
    engine.ask(NodeId(1), &neighbours);
    assert_eq!(engine.handle(permission(7), NodeId(1), &neighbours), Ok(Reaction::Nothing));
    assert_eq!(engine.handle(permission(2), NodeId(1), &neighbours), Ok(Reaction::Nothing));
    assert_eq!(engine.handle(permission(2), NodeId(1), &neighbours), Ok(Reaction::Nothing));
    assert_eq!(awaited(&engine), vec![3]);
    assert_eq!(engine.timestamp, 1);
}

#[test]
fn a_request_from_a_stranger_is_an_error() {
    let mut engine = RicAgrawala::default();
    engine.timestamp = 3;
    let r = engine.handle(request(9, 7), NodeId(1), &ids(&[2, 3]));
    assert_eq!(r, Err(ProtocolError::UnknownPeer(NodeId(7))));
    assert_eq!(engine.timestamp, 3);
    assert!(engine.differed_permission.is_empty());
    engine.ask(NodeId(1), &ids(&[2, 3]));
    let r = engine.handle(request(9, 7), NodeId(1), &ids(&[2, 3]));
    assert_eq!(r, Err(ProtocolError::UnknownPeer(NodeId(7))));
    assert!(engine.differed_permission.is_empty());
    assert_eq!(engine.timestamp, 4);
}

#[test]
fn a_request_is_put_aside_by_hand() {
    let mut engine = RicAgrawala::default();
    engine.differ_permission(NodeId(4));
    engine.differ_permission(NodeId(2));
    assert_eq!(engine.differed_permission, ids(&[4, 2]));
}

#[test]
fn the_clock_never_goes_back() {
    let neighbours = ids(&[2, 3]);
    let mut engine = RicAgrawala::default();
    let mut seed: u64 = 99;
    let mut last = engine.timestamp;
    for _ in 0..2000 {
        seed = seed.wrapping_mul(6364136223846793005).wrapping_add(1442695040888963407);
        let pick = (seed >> 60) as usize;
        let date = ((seed >> 20) % 50) as usize;
        let peer = 2 + ((seed >> 40) % 2) as usize;
        match pick % 5 {
            0 => {
                if engine.state == State::Idling {
                    engine.ask(NodeId(1), &neighbours);
                }
            }
            1 => {
                engine.handle(request(date, peer), NodeId(1), &neighbours).unwrap();
            }
            2 => {
                engine.handle(permission(peer), NodeId(1), &neighbours).unwrap();
            }
            3 => {
                engine.enter();
            }
            _ => {
                if engine.state == State::CriticalSection {
                    engine.free(NodeId(1));
                }
            }
        }
        assert!(engine.timestamp >= last);
        assert!(engine.timestamp >= engine.last_request_timestamp);
        if engine.state == State::Idling {
            assert!(engine.differed_permission.is_empty());
        }
        last = engine.timestamp;
    }
}

#[test]
fn a_copy_holds_what_the_engine_holds() {
    let mut engine = RicAgrawala::default();
    engine.ask(NodeId(1), &ids(&[2, 3, 4]));
    engine.handle(request(9, 3), NodeId(1), &ids(&[2, 3, 4])).unwrap();
    let copy = engine.clone();
    assert_eq!(copy.state, engine.state);
    assert_eq!(copy.timestamp, engine.timestamp);
    assert_eq!(copy.last_request_timestamp, engine.last_request_timestamp);
    assert_eq!(copy.prioritized, engine.prioritized);
    assert_eq!(copy.awaited, engine.awaited);
    assert_eq!(copy.differed_permission, engine.differed_permission);
}

#[test]
fn asking_does_the_same_in_every_state() {
    for state in [State::Idling, State::Askin, State::CriticalSection] {
        let mut engine = RicAgrawala::default();
        engine.state = state;
        engine.timestamp = 7;
        engine.last_request_timestamp = 3;
        engine.differed_permission = ids(&[4]);
        let out = engine.ask(NodeId(1), &ids(&[2, 3]));
        assert_eq!(engine.state, State::Askin);
        assert_eq!(engine.timestamp, 8);
        assert_eq!(engine.last_request_timestamp, 8);
        assert_eq!(awaited(&engine), vec![2, 3]);
        assert_eq!(engine.differed_permission, ids(&[4]));
        assert_eq!(
            out,
            vec![
                Outgoing { to: NodeId(2), message: request(8, 1) },
                Outgoing { to: NodeId(3), message: request(8, 1) },
            ]
        );
    }
}

#[test]
fn leaving_changes_the_state_and_the_deferred_and_nothing_else() {
    for state in [State::Idling, State::Askin, State::CriticalSection] {
        let mut engine = RicAgrawala::default();
        engine.state = state;
        engine.timestamp = 9;
        engine.last_request_timestamp = 5;
        engine.prioritized = true;
        engine.awaited.insert(6);
        engine.differed_permission = ids(&[3, 2]);
        let out = engine.free(NodeId(1));
        assert_eq!(engine.state, State::Idling);
        assert_eq!(engine.timestamp, 9);
        assert_eq!(engine.last_request_timestamp, 5);
        assert!(engine.prioritized);
        assert_eq!(awaited(&engine), vec![6]);
        assert!(engine.differed_permission.is_empty());
        assert_eq!(
            out,
            vec![
                Outgoing { to: NodeId(3), message: permission(1) },
                Outgoing { to: NodeId(2), message: permission(1) },
            ]
        );
    }
}
