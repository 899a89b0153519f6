//! A directed multigraph whose nodes and edges are addressed by the index
//! they were given when added. Indices are dense, assigned in insertion
//! order, and never reused; self-loops and parallel edges are allowed.
use vstd::prelude::*;

verus! {

/// An edge: its endpoints' node indices and a payload.
pub struct Edge<E> {
    source: usize,
    target: usize,
    data: E,
}

impl<E> Edge<E> {
    /// The (source, target) node indices.
    pub closed spec fn ends(&self) -> (nat, nat) {
        (self.source as nat, self.target as nat)
    }

    /// The payload.
    pub closed spec fn payload(&self) -> E {
        self.data
    }

    /// The index of the node the edge leaves.
    pub fn source(&self) -> (r: usize)
        ensures
            r == self.ends().0,
    {
        self.source
    }

    /// The index of the node the edge enters.
    pub fn target(&self) -> (r: usize)
        ensures
            r == self.ends().1,
    {
        self.target
    }
}

/// Nodes carry `N`, edges carry `E`.
pub struct Graph<N, E> {
    nodes: Vec<N>,
    edges: Vec<Edge<E>>,
}

impl<N, E> Graph<N, E> {
    /// The node payloads, by index.
    pub closed spec fn node_view(&self) -> Seq<N> {
        self.nodes@
    }

    /// The edges' (source, target) pairs, by index.
    pub closed spec fn edge_view(&self) -> Seq<(nat, nat)> {
        self.edges@.map_values(|e: Edge<E>| e.ends())
    }

    /// The edges' payloads, by index.
    pub closed spec fn edge_data_view(&self) -> Seq<E> {
        self.edges@.map_values(|e: Edge<E>| e.payload())
    }

    /// Every edge joins nodes that exist.
    pub open spec fn wf(&self) -> bool {
        forall|i: int|
            0 <= i < self.edge_view().len() ==> (#[trigger] self.edge_view()[i]).0 < self.node_view().len()
                && self.edge_view()[i].1 < self.node_view().len()
    }

    /// A graph with no nodes and no edges.
    pub fn new() -> (r: Graph<N, E>)
        ensures
            r.wf(),
            r.node_view() == Seq::<N>::empty(),
            r.edge_view() == Seq::<(nat, nat)>::empty(),
    {
        let r = Graph { nodes: Vec::new(), edges: Vec::new() };
        assert(r.edge_view() =~= Seq::<(nat, nat)>::empty());
        r
    }

    /// Appends a node and returns its index.
    pub fn add_node(&mut self, data: N) -> (r: usize)
        requires
            old(self).wf(),
        ensures
            final(self).wf(),
            r == old(self).node_view().len(),
            final(self).node_view() == old(self).node_view().push(data),
            final(self).edge_view() == old(self).edge_view(),
            final(self).edge_data_view() == old(self).edge_data_view(),
    {
        let r = self.nodes.len();
        self.nodes.push(data);
        assert forall|i: int| 0 <= i < self.edge_view().len() implies (#[trigger] self.edge_view()[i]).0
            < self.node_view().len() && self.edge_view()[i].1 < self.node_view().len() by {
            assert(self.edge_view()[i] == old(self).edge_view()[i]);
        }
        r
    }

    /// Appends an edge from `source` to `target` and returns its index.
    pub fn add_edge(&mut self, source: usize, target: usize, data: E) -> (r: usize)
        requires
            old(self).wf(),
            source < old(self).node_view().len(),
            target < old(self).node_view().len(),
        ensures
            final(self).wf(),
            r == old(self).edge_view().len(),
            final(self).node_view() == old(self).node_view(),
            final(self).edge_view() == old(self).edge_view().push((source as nat, target as nat)),
            final(self).edge_data_view() == old(self).edge_data_view().push(data),
    {
        let r = self.edges.len();
        let ghost d = data;
        self.edges.push(Edge { source, target, data });
        assert(self.edge_view() =~= old(self).edge_view().push((source as nat, target as nat)));
        assert(self.edge_data_view() =~= old(self).edge_data_view().push(d));
        r
    }

    /// The number of nodes.
    pub fn node_count(&self) -> (r: usize)
        ensures
            r == self.node_view().len(),
    {
        self.nodes.len()
    }

    /// The number of edges.
    pub fn edge_count(&self) -> (r: usize)
        ensures
            r == self.edge_view().len(),
    {
        self.edges.len()
    }

    /// The payload of node `index`.
    pub fn node_data(&self, index: usize) -> (r: &N)
        requires
            index < self.node_view().len(),
        ensures
            *r == self.node_view()[index as int],
    {
        &self.nodes[index]
    }

    /// Edge `index`.
    pub fn edge(&self, index: usize) -> (r: &Edge<E>)
        requires
            index < self.edge_view().len(),
        ensures
            r.ends() == self.edge_view()[index as int],
            r.payload() == self.edge_data_view()[index as int],
    {
        &self.edges[index]
    }
}

} // verus!
