use renraku::bootstrap::{Bootstrap, Event, Phase};
use renraku::coordinator::{Plan, Registrar};
use renraku::graph::Graph;
use renraku::ident::NodeId;
use renraku::wire::{decode_count, decode_identity};

fn ids(list: &[usize]) -> Vec<NodeId> {
    list.iter().map(|n| NodeId(*n)).collect()
}

fn sorted(list: &[NodeId]) -> Vec<usize> {
    let mut v: Vec<usize> = list.iter().map(|n| n.0).collect();
    v.sort();
    v
}

fn complete(n: usize) -> Graph {
    let mut text = format!("p edge {} {}\n", n, n * (n - 1) / 2);
    for a in 1..=n {
        for b in (a + 1)..=n {
            text.push_str(&format!("e {} {}\n", b, a));
        }
    }
    Graph::from_str(&text).unwrap()
}

#[test]
fn identifiers_are_handed_out_in_the_order_of_arrival() {
    let mut registrar = Registrar::new(3);
    assert!(!registrar.complete());
    assert_eq!(registrar.enrol(), Some(NodeId(1)));
    assert_eq!(registrar.enrol(), Some(NodeId(2)));
    assert!(!registrar.complete());
    assert_eq!(registrar.enrol(), Some(NodeId(3)));
    assert!(registrar.complete());
    assert_eq!(registrar.registered, 3);
}

#[test]
fn a_registration_beyond_the_last_is_passed_over() {
    let mut registrar = Registrar::new(1);
    assert_eq!(registrar.enrol(), Some(NodeId(1)));
    assert_eq!(registrar.enrol(), None);
    assert_eq!(registrar.enrol(), None);
    assert_eq!(registrar, Registrar { expected: 1, registered: 1 });
    let mut nobody = Registrar::new(0);
    assert!(nobody.complete());
    assert_eq!(nobody.enrol(), None);
}

#[test]
fn the_lower_endpoint_dials_and_the_higher_accepts() {
    let g = Graph::from_str("p edge 2 1\ne 2 1\n").unwrap();
    let low = g.plan(NodeId(1), 2);
    let high = g.plan(NodeId(2), 2);
    assert_eq!(low, Plan { node_count: 2, id: NodeId(1), incoming: 0, outgoing: ids(&[2]) });
    assert_eq!(high, Plan { node_count: 2, id: NodeId(2), incoming: 1, outgoing: ids(&[]) });
}

#[test]
fn the_plans_of_a_triangle() {
    let g = Graph::from_str("p edge 3 3\ne 1 2\ne 2 3\ne 1 3\n").unwrap();
    let one = g.plan(NodeId(1), 3);
    let two = g.plan(NodeId(2), 3);
    let three = g.plan(NodeId(3), 3);
    assert_eq!((one.incoming, sorted(&one.outgoing)), (0, vec![2, 3]));
    assert_eq!((two.incoming, sorted(&two.outgoing)), (1, vec![3]));
    assert_eq!((three.incoming, sorted(&three.outgoing)), (2, vec![]));
}

#[test]
fn the_plans_of_a_star() {
    let g = Graph::from_str("p edge 4 3\ne 1 2\ne 1 3\ne 1 4\n").unwrap();
    let centre = g.plan(NodeId(1), 4);
    assert_eq!((centre.incoming, sorted(&centre.outgoing)), (0, vec![2, 3, 4]));
    for leaf in 2..=4 {
        let plan = g.plan(NodeId(leaf), 4);
        assert_eq!((plan.incoming, plan.outgoing.len()), (1, 0));
    }
}

#[test]
fn a_node_has_as_many_peers_as_neighbours() {
    let text = "p edge 7 9\ne 1 2\ne 2 3\ne 3 1\ne 4 1\ne 5 4\ne 6 7\ne 7 2\ne 5 2\ne 6 2\n";
    let g = Graph::from_str(text).unwrap();
    assert!(g.within(7));
    let mut dials = 0;
    let mut accepts = 0;
    for i in 1..=7usize {
        let plan = g.plan(NodeId(i), 7);
        let degree =
            g.edges.iter().filter(|e| (e.0 .0 == i || e.1 .0 == i) && e.0 != e.1).count();
        assert_eq!(plan.incoming + plan.outgoing.len(), degree);
        for peer in &plan.outgoing {
            assert!(i < peer.0);
            assert!(g.edges.iter().any(|e| e.0 .0 == i && e.1 == *peer));
        }
        dials += plan.outgoing.len();
        accepts += plan.incoming;
    }
    assert_eq!(dials, g.edges.len());
    assert_eq!(accepts, g.edges.len());
}

#[test]
fn a_loop_is_neither_dialed_nor_accepted() {
    let g = Graph::from_str("p edge 2 2\ne 1 1\ne 1 2\n").unwrap();
    let one = g.plan(NodeId(1), 2);
    assert_eq!((one.incoming, sorted(&one.outgoing)), (0, vec![2]));
}

#[test]
fn a_peer_that_did_not_register_is_not_dialed() {
    let g = Graph::from_str("p edge 9 2\ne 1 2\ne 1 9\n").unwrap();
    assert!(!g.within(3));
    assert!(g.within(9));
    let one = g.plan(NodeId(1), 3);
    assert_eq!(sorted(&one.outgoing), vec![2]);
    let nine = g.plan(NodeId(9), 9);
    assert_eq!(nine.incoming, 1);
}

#[test]
fn a_vertex_numbered_zero_is_outside_the_nodes() {
    let g = Graph::from_str("p edge 2 1\ne 0 1\n").unwrap();
    assert!(!g.within(2));
    assert!(!g.within(usize::MAX));
}

#[test]
fn a_plan_opens_with_three_datagrams() {
    let plan = Plan { node_count: 5, id: NodeId(2), incoming: 1, outgoing: ids(&[3, 4, 5]) };
    let datagrams = plan.announce();
    assert_eq!(datagrams.len(), 3);
    assert_eq!(decode_identity(&datagrams[0]), Ok((5, NodeId(2))));
    assert_eq!(decode_count(&datagrams[1]), Ok(1));
    assert_eq!(decode_count(&datagrams[2]), Ok(3));
    assert_eq!(datagrams[0].len(), 16);
    assert_eq!(datagrams[1], vec![1, 0, 0, 0, 0, 0, 0, 0]);
    assert_eq!(datagrams[2], vec![3, 0, 0, 0, 0, 0, 0, 0]);
}

/// Lets every node of `g` follow its plan; a dial is answered once the peer
/// at the other end accepts.  Returns the peers of each node, or nothing if
/// the nodes come to wait for each other.
fn bootstrap_all(g: &Graph, n: usize) -> Option<Vec<Vec<NodeId>>> {
    let plans: Vec<Plan> = (1..=n).map(|i| g.plan(NodeId(i), n)).collect();
    let mut nodes: Vec<Bootstrap> = Vec::new();
    let mut dialed: Vec<usize> = vec![0; n];
    for plan in &plans {
        let mut node = Bootstrap::new();
        node.advance(Event::Registered).unwrap();
        node.advance(Event::Identity { node_count: plan.node_count, id: plan.id }).unwrap();
        node.advance(Event::Count(plan.incoming)).unwrap();
        node.advance(Event::Count(plan.outgoing.len())).unwrap();
        nodes.push(node);
    }
    loop {
        if nodes.iter().all(|node| node.is_ready()) {
            return Some(nodes.into_iter().map(|node| node.peers).collect());
        }
        let mut moved = false;
        for i in 0..n {
            if nodes[i].phase() == Phase::Dialing {
                let target = plans[i].outgoing[dialed[i]];
                if nodes[target.0 - 1].phase() == Phase::Accepting {
                    nodes[target.0 - 1].advance(Event::Peer(NodeId(i + 1))).unwrap();
                    nodes[i].advance(Event::Peer(target)).unwrap();
                    dialed[i] += 1;
                    moved = true;
                }
            }
        }
        if !moved {
            return None;
        }
    }
}

#[test]
fn a_complete_graph_of_five_completes_its_bootstrap() {
    let g = complete(5);
    assert_eq!(g.vertex_count, 5);
    assert!(g.within(g.vertex_count));
    assert_eq!(g.edges.len(), 10);
    let peers = bootstrap_all(&g, 5).expect("the nodes wait for each other");
    for (i, list) in peers.iter().enumerate() {
        let expected: Vec<usize> = (1..=5).filter(|j| *j != i + 1).collect();
        assert_eq!(sorted(list), expected);
    }
}

#[test]
fn after_bootstrap_the_peers_are_the_neighbours() {
    let text = "p edge 6 7\ne 1 2\ne 2 3\ne 3 4\ne 4 5\ne 5 6\ne 6 1\ne 2 5\n";
    let g = Graph::from_str(text).unwrap();
    let peers = bootstrap_all(&g, 6).expect("the nodes wait for each other");
    for i in 1..=6usize {
        let mut neighbours: Vec<usize> = g
            .edges
            .iter()
            .filter(|e| e.0 .0 == i || e.1 .0 == i)
            .map(|e| if e.0 .0 == i { e.1 .0 } else { e.0 .0 })
            .collect();
        neighbours.sort();
        assert_eq!(sorted(&peers[i - 1]), neighbours);
    }
}

#[test]
fn larger_complete_graphs_complete_their_bootstrap_too() {
    for n in 2..=9 {
        let g = complete(n);
        let peers = bootstrap_all(&g, n).expect("the nodes wait for each other");
        assert!(peers.iter().all(|list| list.len() == n - 1));
    }
}
