//! Graphs are adjacency matrices of `petgraph`. The verified code reads and
//! builds them through the few functions at the head of this file, whose
//! contracts are taken from the matrix graph's source and are not proved
//! here.

use petgraph::matrix_graph::MatrixGraph;
use petgraph::matrix_graph::NodeIndex;
use petgraph::Undirected;
use vstd::prelude::*;

verus! {

/// An undirected graph without weights, with self-loops allowed and no
/// parallel edges. Its vertices are `0..n` for its order `n`.
#[verifier::external_body]
pub struct Graph {
    matrix: MatrixGraph<(), (), Undirected>,
}

/// The number of vertices of a graph.
pub uninterp spec fn graph_order(g: Graph) -> nat;

/// The pairs of vertices that are joined by an edge of the graph. An edge
/// between `a` and `b` stands for both `(a, b)` and `(b, a)`; a self-loop at
/// `a` is the pair `(a, a)`.
pub uninterp spec fn graph_edges(g: Graph) -> Set<(usize, usize)>;

/// The largest vertex that the 16-bit index of the matrix can address.
pub const MAX_VERTEX: usize = 65535;

/// `MatrixGraph::new_undirected`: a graph without vertices and edges.
#[verifier::external_body]
fn matrix_new() -> (g: Graph)
    ensures
        graph_order(g) == 0,
        graph_edges(g) == Set::<(usize, usize)>::empty(),
{
    Graph { matrix: MatrixGraph::new_undirected() }
}

/// `MatrixGraph::node_count`: the number of vertices.
#[verifier::external_body]
fn matrix_node_count(g: &Graph) -> (n: usize)
    ensures
        n == graph_order(*g),
{
    g.matrix.node_count()
}

/// `MatrixGraph::has_edge`: whether an edge joins `a` and `b`. Vertices are
/// turned into 16-bit indices, which keeps them as they are up to
/// `MAX_VERTEX`; within that range the method answers for every pair,
/// also for one beyond the matrix, and does not panic.
#[verifier::external_body]
fn matrix_has_edge(g: &Graph, a: usize, b: usize) -> (r: bool)
    requires
        a <= MAX_VERTEX,
        b <= MAX_VERTEX,
    ensures
        r == graph_edges(*g).contains((a, b)),
{
    g.matrix.has_edge(NodeIndex::new(a), NodeIndex::new(b))
}

/// `MatrixGraph::add_node`: one more vertex, no edge touched. The method is
/// documented to panic when the index type is exhausted, so the graph must
/// have room.
#[verifier::external_body]
fn matrix_add_node(g: &mut Graph)
    requires
        graph_order(*old(g)) < MAX_VERTEX,
    ensures
        graph_order(*final(g)) == graph_order(*old(g)) + 1,
        graph_edges(*final(g)) == graph_edges(*old(g)),
{
    g.matrix.add_node(());
}

/// `MatrixGraph::add_edge`: joins `a` and `b`, in both directions. The
/// method panics if the edge is there already, and is documented to panic
/// if one of the vertices is not.
#[verifier::external_body]
fn matrix_add_edge(g: &mut Graph, a: usize, b: usize)
    requires
        a <= MAX_VERTEX,
        b <= MAX_VERTEX,
        a < graph_order(*old(g)),
        b < graph_order(*old(g)),
        !graph_edges(*old(g)).contains((a, b)),
        !graph_edges(*old(g)).contains((b, a)),
    ensures
        graph_order(*final(g)) == graph_order(*old(g)),
        graph_edges(*final(g)) == graph_edges(*old(g)).insert((a, b)).insert((b, a)),
{
    g.matrix.add_edge(NodeIndex::new(a), NodeIndex::new(b), ());
}

impl Graph {
    /// The number of vertices.
    pub open spec fn order(&self) -> nat {
        graph_order(*self)
    }

    /// Whether an edge joins `a` and `b`.
    pub open spec fn adjacent(&self, a: usize, b: usize) -> bool {
        a <= MAX_VERTEX && b <= MAX_VERTEX && graph_edges(*self).contains((a, b))
    }

    /// A graph without vertices.
    pub fn new_undirected() -> (g: Graph)
        ensures
            g.order() == 0,
            forall|a: usize, b: usize| !g.adjacent(a, b),
    {
        matrix_new()
    }

    /// The number of vertices.
    pub fn node_count(&self) -> (n: usize)
        ensures
            n == self.order(),
    {
        matrix_node_count(self)
    }

    /// Whether an edge joins `a` and `b`.
    pub fn has_edge(&self, a: usize, b: usize) -> (r: bool)
        ensures
            r == self.adjacent(a, b),
    {
        if a > MAX_VERTEX || b > MAX_VERTEX {
            false
        } else {
            matrix_has_edge(self, a, b)
        }
    }

    /// Adds a vertex, unless the graph is full; says whether it did.
    pub fn add_node(&mut self) -> (added: bool)
        ensures
            added == (old(self).order() < MAX_VERTEX),
            added ==> final(self).order() == old(self).order() + 1,
            !added ==> final(self).order() == old(self).order(),
            forall|a: usize, b: usize| final(self).adjacent(a, b) == old(self).adjacent(a, b),
    {
        if matrix_node_count(self) < MAX_VERTEX {
            matrix_add_node(self);
            true
        } else {
            false
        }
    }

    /// Joins the vertices `a` and `b` by an edge, unless one of them is not
    /// a vertex of the graph or they are joined already; says whether it
    /// did.
    pub fn add_edge(&mut self, a: usize, b: usize) -> (added: bool)
        ensures
            added == (a < old(self).order() && b < old(self).order() && a <= MAX_VERTEX && b
                <= MAX_VERTEX && !old(self).adjacent(a, b) && !old(self).adjacent(b, a)),
            final(self).order() == old(self).order(),
            forall|x: usize, y: usize|
                final(self).adjacent(x, y) == (old(self).adjacent(x, y) || (added && ((x == a && y
                    == b) || (x == b && y == a)))),
    {
        let n: usize = matrix_node_count(self);
        if a < n && b < n && a <= MAX_VERTEX && b <= MAX_VERTEX {
            if matrix_has_edge(self, a, b) || matrix_has_edge(self, b, a) {
                false
            } else {
                matrix_add_edge(self, a, b);
                true
            }
        } else {
            false
        }
    }
}

/// The graph joins the vertex `b` to the vertex `a` whenever it joins
/// `a` to `b`.
pub open spec fn symmetric(g: Graph) -> bool {
    forall|a: usize, b: usize|
        #![trigger g.adjacent(a, b)]
        a < g.order() && b < g.order() ==> g.adjacent(a, b) == g.adjacent(b, a)
}

} // verus!
