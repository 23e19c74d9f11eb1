//! Ricart–Agrawala mutual exclusion over a static overlay.
//!
//! A coordinator reads a graph, hands every participant an identifier and a
//! connection plan, and each node then runs the request/permission protocol
//! with its neighbours.  This crate holds the rules of that system and the
//! proofs that they do what they are for.  Sockets, threads and timers are
//! left to the caller.
//!
//! What runs:
//!
//! - [`ident`]: identifiers and edges;
//! - [`text`] and [`graph`]: the graph file format;
//! - [`coordinator`]: who gets which identifier, and who dials whom;
//! - [`bootstrap`]: the steps by which a node joins the overlay;
//! - [`wire`]: the bytes of every datagram and message;
//! - [`algorithm`]: the engine of a node;
//! - [`driver`] and [`command`]: the pace of the loop, and the command line.
//!
//! What is proved of all nodes together:
//!
//! - [`assembly`]: the bootstrap is never stuck, and ends with every node
//!   joined to its neighbours;
//! - [`network`]: two neighbours are never inside together;
//! - [`progress`]: a node that asks gets in.

pub mod algorithm;
pub mod assembly;
pub mod bootstrap;
pub mod command;
pub mod coordinator;
pub mod driver;
pub mod graph;
pub mod ident;
pub mod network;
pub mod progress;
pub mod text;
pub mod wire;
