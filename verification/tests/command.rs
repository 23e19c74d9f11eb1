use renraku::command::{Arguments, NodeArguments};
use renraku::driver::{pause_of, random_pause, PAUSE_LIMIT};

#[test]
fn the_coordinator_listens_on_the_default_address() {
    let args = Arguments::new("graph.col".to_string(), None);
    assert_eq!(args.graph, "graph.col");
    assert_eq!(args.address, "localhost:3000");
}

#[test]
fn the_coordinator_listens_where_it_is_told() {
    let args = Arguments::new("g".to_string(), Some("0.0.0.0:9".to_string()));
    assert_eq!(args, Arguments { graph: "g".to_string(), address: "0.0.0.0:9".to_string() });
}

#[test]
fn a_node_looks_for_the_coordinator_at_the_default_address() {
    assert_eq!(NodeArguments::new(None).controller, "localhost:3000");
    assert_eq!(NodeArguments::new(Some("host:1".to_string())).controller, "host:1");
}

#[test]
fn a_pause_is_the_draw_reduced_below_the_limit() {
    assert_eq!(PAUSE_LIMIT, 5000);
    assert_eq!(pause_of(0), 0);
    assert_eq!(pause_of(4999), 4999);
    assert_eq!(pause_of(5000), 0);
    assert_eq!(pause_of(12_345), 2345);
    assert_eq!(pause_of(u64::MAX), u64::MAX % 5000);
}

#[test]
fn a_random_pause_stays_below_the_limit_and_varies() {
    let mut seen = std::collections::HashSet::new();
    for _ in 0..200 {
        let pause = random_pause();
        assert!(pause < PAUSE_LIMIT);
        seen.insert(pause);
    }
    assert!(seen.len() > 1);
}
