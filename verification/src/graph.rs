//! The graph: a dense, append-only table of nodes with a symmetric
//! adjacency relation, stored as one bit set of neighbors per node.

use vstd::prelude::*;
use tindex::TBitSet;
use crate::bits::{bits_of, bits_new, bits_add, bits_remove, bits_get, bits_to_vec};

verus! {

/// Identifier of a node: an index into the graph's dense node table.
///
/// Identifiers are handed out by [`Graph::add_node`] in increasing order,
/// starting at zero; nodes are never removed, so an identifier stays valid
/// for the lifetime of the graph that produced it.
#[derive(Debug, Clone, Copy, PartialEq, Eq, PartialOrd, Ord, Hash, Structural)]
pub struct NodeId(pub usize);

impl View for NodeId {
    type V = usize;

    open spec fn view(&self) -> usize {
        self.0
    }
}

impl NodeId {
    /// The position of this node in the node table.
    pub fn as_index(&self) -> (i: usize)
        ensures
            i == self@,
    {
        self.0
    }
}

impl From<usize> for NodeId {
    fn from(v: usize) -> (r: Self) {
        NodeId(v)
    }
}

impl vstd::std_specs::convert::FromSpecImpl<usize> for NodeId {
    open spec fn obeys_from_spec() -> bool {
        true
    }

    open spec fn from_spec(v: usize) -> NodeId {
        NodeId(v)
    }
}

/// Everything the adjacency relation promises of one node `i`: its neighbor
/// set is finite, never contains `i` itself, and every neighbor is a valid
/// node that lists `i` back.
pub open spec fn node_ok(adj: Seq<Set<usize>>, i: usize) -> bool {
    &&& adj[i as int].finite()
    &&& !adj[i as int].contains(i)
    &&& forall|x: usize| #[trigger] adj[i as int].contains(x)
        ==> x < adj.len() && adj[x as int].contains(i)
}

/// The adjacency relation is well formed: every node satisfies [`node_ok`].
/// In particular the relation is symmetric and has no self-loops.
pub open spec fn adj_wf(adj: Seq<Set<usize>>) -> bool {
    forall|i: usize| i < adj.len() ==> #[trigger] node_ok(adj, i)
}

/// The adjacency relation after inserting the edge `a - b`: each endpoint is
/// added to the other's neighbor set, unless `a == b`.
pub open spec fn spec_add_edge(adj: Seq<Set<usize>>, a: usize, b: usize) -> Seq<Set<usize>> {
    if a == b {
        adj
    } else {
        adj.update(a as int, adj[a as int].insert(b)).update(b as int, adj[b as int].insert(a))
    }
}

/// The adjacency relation after removing the edge `a - b`: each endpoint is
/// removed from the other's neighbor set.
pub open spec fn spec_remove_edge(adj: Seq<Set<usize>>, a: usize, b: usize) -> Seq<Set<usize>> {
    adj.update(a as int, adj[a as int].remove(b)).update(b as int, adj[b as int].remove(a))
}

/// An undirected graph made of nodes connected by edges.
#[derive(Debug, Clone)]
pub struct Graph {
    pub(crate) nodes: Vec<TBitSet<usize>>,
}

impl View for Graph {
    type V = Seq<Set<usize>>;

    /// A graph is modeled as the sequence of its nodes' neighbor sets.
    closed spec fn view(&self) -> Seq<Set<usize>> {
        Seq::new(self.nodes@.len() as nat, |i: int| bits_of(self.nodes@[i]))
    }
}

/// How the abstract adjacency of a graph reads off its node table.
pub(crate) proof fn lemma_graph_view(g: &Graph)
    ensures
        g@.len() == g.nodes@.len(),
        forall|i: int| 0 <= i < g@.len() ==> g@[i] == bits_of(#[trigger] g.nodes@[i]),
{
}

impl Default for Graph {
    fn default() -> (g: Graph)
        ensures
            g.wf(),
            g@ == Seq::<Set<usize>>::empty(),
    {
        let g = Graph { nodes: Vec::new() };
        proof {
            assert(g@ =~= Seq::<Set<usize>>::empty());
        }
        g
    }
}

impl Graph {
    /// The graph's internal invariant; [`Graph::new`] establishes it and
    /// every mutating operation preserves it.
    pub open spec fn wf(&self) -> bool {
        adj_wf(self@)
    }

    /// Creates a new empty graph.
    pub fn new() -> (g: Graph)
        ensures
            g.wf(),
            g@ == Seq::<Set<usize>>::empty(),
    {
        let g = Graph { nodes: Vec::new() };
        proof {
            assert(g@ =~= Seq::<Set<usize>>::empty());
        }
        g
    }

    /// Appends a node with no edges and returns its identifier.
    pub fn add_node(&mut self) -> (id: NodeId)
        requires
            old(self).wf(),
        ensures
            final(self).wf(),
            id@ == old(self)@.len(),
            final(self)@ == old(self)@.push(Set::<usize>::empty()),
    {
        let id = self.nodes.len();
        self.nodes.push(bits_new());
        proof {
            assert(self@ =~= old(self)@.push(Set::<usize>::empty()));
            assert forall|i: usize| i < self@.len() implies #[trigger] node_ok(self@, i) by {
                if (i as int) < old(self)@.len() {
                    assert(node_ok(old(self)@, i));
                    assert(self@[i as int] == old(self)@[i as int]);
                }
            }
        }
        NodeId(id)
    }

    /// Adds an edge between `a` and `b`.
    ///
    /// Edges with `a` == `b` are ignored, and adding an existing edge is a
    /// no-op.  Both identifiers must have been returned by
    /// [`Graph::add_node`] on this graph: passing any other identifier is a
    /// contract violation, not a recoverable error.
    pub fn add_edge(&mut self, a: NodeId, b: NodeId)
        requires
            old(self).wf(),
            a@ < old(self)@.len(),
            b@ < old(self)@.len(),
        ensures
            final(self).wf(),
            final(self)@ == spec_add_edge(old(self)@, a@, b@),
    {
        if a != b {
            bits_add(&mut self.nodes[a.0], b.0);
            bits_add(&mut self.nodes[b.0], a.0);
        }
        proof {
            assert(self@ =~~= spec_add_edge(old(self)@, a@, b@));
            lemma_add_edge_wf(old(self)@, a@, b@);
        }
    }

    /// Removes the edge between `a` and `b`.
    ///
    /// Removing an absent edge is a no-op, not an error.  Both identifiers
    /// must have been returned by [`Graph::add_node`] on this graph.
    pub fn remove_edge(&mut self, a: NodeId, b: NodeId)
        requires
            old(self).wf(),
            a@ < old(self)@.len(),
            b@ < old(self)@.len(),
        ensures
            final(self).wf(),
            final(self)@ == spec_remove_edge(old(self)@, a@, b@),
    {
        bits_remove(&mut self.nodes[a.0], b.0);
        bits_remove(&mut self.nodes[b.0], a.0);
        proof {
            assert(self@ =~~= spec_remove_edge(old(self)@, a@, b@));
            lemma_remove_edge_wf(old(self)@, a@, b@);
        }
    }

    /// Checks if this graph is correct and panics in case the internal
    /// invariants are not met.
    ///
    /// This should never happen: the walk below re-checks what [`Graph::wf`]
    /// already guarantees, so every check is proved to succeed.
    pub fn check_invariants(&self)
        requires
            self.wf(),
    {
        let n = self.nodes.len();
        for a in 0..n
            invariant
                self.wf(),
                n == self@.len(),
        {
            let nb = bits_to_vec(&self.nodes[a]);
            for t in 0..nb.len()
                invariant
                    self.wf(),
                    n == self@.len(),
                    a < n,
                    forall|u: int| 0 <= u < nb@.len() ==> self@[a as int].contains(#[trigger] nb@[u]),
            {
                let b = nb[t];
                proof {
                    assert(node_ok(self@, a));
                }
                assert(b < n);
                let sym = bits_get(&self.nodes[b], a);
                assert(sym);
            }
        }
    }
}

/// Inserting an edge between valid nodes keeps the adjacency well formed.
pub proof fn lemma_add_edge_wf(adj: Seq<Set<usize>>, a: usize, b: usize)
    requires
        adj_wf(adj),
        a < adj.len(),
        b < adj.len(),
    ensures
        adj_wf(spec_add_edge(adj, a, b)),
{
    if a != b {
        let adj2 = spec_add_edge(adj, a, b);
        assert forall|i: usize| i < adj2.len() implies #[trigger] node_ok(adj2, i) by {
            assert(node_ok(adj, i));
            assert(node_ok(adj, a));
            assert(node_ok(adj, b));
            assert forall|x: usize| #[trigger] adj2[i as int].contains(x)
                implies x < adj2.len() && adj2[x as int].contains(i) by {
                if i == a && x == b {
                } else if i == b && x == a {
                } else {
                    assert(adj[i as int].contains(x));
                }
            }
        }
    }
}

/// Removing an edge between valid nodes keeps the adjacency well formed.
pub proof fn lemma_remove_edge_wf(adj: Seq<Set<usize>>, a: usize, b: usize)
    requires
        adj_wf(adj),
        a < adj.len(),
        b < adj.len(),
    ensures
        adj_wf(spec_remove_edge(adj, a, b)),
{
    let adj2 = spec_remove_edge(adj, a, b);
    assert forall|i: usize| i < adj2.len() implies #[trigger] node_ok(adj2, i) by {
        assert(node_ok(adj, i));
        assert(node_ok(adj, a));
        assert(node_ok(adj, b));
        assert forall|x: usize| #[trigger] adj2[i as int].contains(x)
            implies x < adj2.len() && adj2[x as int].contains(i) by {
            assert(adj[i as int].contains(x));
            assert(node_ok(adj, x));
        }
    }
}

/// A well-formed adjacency is symmetric: `b` is a neighbor of `a` if and
/// only if `a` is a neighbor of `b`.
pub proof fn lemma_wf_symmetric(adj: Seq<Set<usize>>, a: usize, b: usize)
    requires
        adj_wf(adj),
        a < adj.len(),
        b < adj.len(),
    ensures
        adj[a as int].contains(b) <==> adj[b as int].contains(a),
{
    assert(node_ok(adj, a));
    assert(node_ok(adj, b));
}

/// A well-formed adjacency has no self-loops: no node is its own neighbor.
pub proof fn lemma_wf_no_self_loop(adj: Seq<Set<usize>>, a: usize)
    requires
        adj_wf(adj),
        a < adj.len(),
    ensures
        !adj[a as int].contains(a),
{
    assert(node_ok(adj, a));
}

/// Adding the edge `a - b` twice yields the same adjacency as adding it
/// once.
pub proof fn lemma_add_edge_idempotent(adj: Seq<Set<usize>>, a: usize, b: usize)
    requires
        a < adj.len(),
        b < adj.len(),
    ensures
        spec_add_edge(spec_add_edge(adj, a, b), a, b) == spec_add_edge(adj, a, b),
{
    assert(spec_add_edge(spec_add_edge(adj, a, b), a, b) =~~= spec_add_edge(adj, a, b));
}

/// Removing the edge `a - b` twice yields the same adjacency as removing it
/// once.
pub proof fn lemma_remove_edge_idempotent(adj: Seq<Set<usize>>, a: usize, b: usize)
    requires
        a < adj.len(),
        b < adj.len(),
    ensures
        spec_remove_edge(spec_remove_edge(adj, a, b), a, b) == spec_remove_edge(adj, a, b),
{
    assert(spec_remove_edge(spec_remove_edge(adj, a, b), a, b) =~~= spec_remove_edge(adj, a, b));
}

} // verus!
