//! Node identifiers and undirected edges in canonical orientation.

use vstd::prelude::*;

verus! {

/// The identifier of a node: a vertex of the overlay graph.
///
/// The coordinator hands out `1..=N` in the order in which nodes register.
#[derive(Debug, Clone, Copy, Hash, PartialEq, Eq, Structural)]
pub struct NodeId(pub usize);

/// An undirected edge, stored as `(lower, higher)`.
///
/// The lower endpoint dials and the higher endpoint accepts, so that no two
/// nodes ever wait on each other while the overlay is being set up.
#[derive(Debug, Clone, Copy, Hash, PartialEq, Eq, Structural)]
pub struct Connection(pub NodeId, pub NodeId);

/// The canonical form of the unordered pair `{a, b}`.
pub open spec fn canonical_pair(a: usize, b: usize) -> (usize, usize) {
    if a <= b {
        (a, b)
    } else {
        (b, a)
    }
}

impl Connection {
    /// The two endpoints as plain integers, lower first when canonical.
    pub open spec fn pair(self) -> (usize, usize) {
        (self.0.0, self.1.0)
    }

    /// Whether the lower endpoint is stored first.  An edge from a vertex to
    /// itself is in this form as it stands.
    pub open spec fn is_canonical(self) -> bool {
        self.0.0 <= self.1.0
    }

    /// The edge between `a` and `b`, whichever way round they are given.
    pub fn new(a: NodeId, b: NodeId) -> (edge: Connection)
        ensures
            edge.pair() == canonical_pair(a.0, b.0),
            edge.is_canonical(),
    {
        if a.0 <= b.0 {
            Connection(a, b)
        } else {
            Connection(b, a)
        }
    }
}

/// Whether `id` stands in `list`.
pub fn contains_node(list: &Vec<NodeId>, id: NodeId) -> (found: bool)
    ensures
        found == list@.contains(id),
{
    let mut i: usize = 0;
    while i < list.len()
        invariant
            i <= list.len(),
            forall|k: int| 0 <= k < i ==> list@[k] != id,
        decreases list.len() - i,
    {
        if list[i].0 == id.0 {
            return true;
        }
        i += 1;
    }
    false
}

/// A list with one more entry holds what it held, and that entry.
pub proof fn lemma_push_contains<A>(s: Seq<A>, x: A)
    ensures
        forall|y: A| s.push(x).contains(y) <==> (s.contains(y) || y == x),
        s.no_duplicates() && !s.contains(x) ==> s.push(x).no_duplicates(),
{
    assert forall|y: A| s.push(x).contains(y) <==> (s.contains(y) || y == x) by {
        if s.contains(y) {
            let i = choose|i: int| 0 <= i < s.len() && s[i] == y;
            assert(s.push(x)[i] == y);
        }
        if y == x {
            assert(s.push(x)[s.len() as int] == y);
        }
    }
}

/// An edge does not depend on the order in which its endpoints are named.
pub proof fn lemma_canonical_pair_symmetric(a: usize, b: usize)
    ensures
        canonical_pair(a, b) == canonical_pair(b, a),
        canonical_pair(a, b).0 <= canonical_pair(a, b).1,
{
}

} // verus!
