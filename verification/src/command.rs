//! What the two programs are told on the command line.

use vstd::prelude::*;

verus! {

/// The address that is taken where none is given.
pub open spec fn default_address() -> Seq<char> {
    "localhost:3000"@
}

/// What the coordinator is told.
#[derive(Debug, Clone, PartialEq, Eq)]
pub struct Arguments {
    /// The path of the graph file.
    pub graph: String,
    /// The address on which the coordinator waits for nodes.
    pub address: String,
}

/// What a node is told.
#[derive(Debug, Clone, PartialEq, Eq)]
pub struct NodeArguments {
    /// The address of the coordinator.
    pub controller: String,
}

impl Arguments {
    /// The arguments for the graph at `graph`; the address is the one given,
    /// or the default.
    pub fn new(graph: String, address: Option<String>) -> (args: Arguments)
        ensures
            args.graph@ == graph@,
            args.address@ == match address {
                Some(given) => given@,
                None => default_address(),
            },
    {
        let address = match address {
            Some(given) => given,
            None => String::from_str("localhost:3000"),
        };
        Arguments { graph, address }
    }
}

impl NodeArguments {
    /// The arguments of a node; the coordinator is at the address given, or
    /// at the default.
    pub fn new(controller: Option<String>) -> (args: NodeArguments)
        ensures
            args.controller@ == match controller {
                Some(given) => given@,
                None => default_address(),
            },
    {
        let controller = match controller {
            Some(given) => given,
            None => String::from_str("localhost:3000"),
        };
        NodeArguments { controller }
    }
}

} // verus!
