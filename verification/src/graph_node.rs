//! What a graph has to offer to be explored: every node tells its identity and its successors.

use crate::graph::{all_in, well_formed, Graph};
use std::hash::Hash;
use vstd::prelude::*;

verus! {

/// A node of a directed graph that is explored lazily: the node hands out its successors as
/// nodes of their own, and nothing else of the graph needs to exist in memory.
///
/// An implementation names the graph that its nodes walk over, as a mathematical value, and
/// shows that every node it hands out is a vertex of that same graph. Two nodes with the same
/// identity are then the same vertex, with the same successors in the same order, however
/// they were come by.
pub trait GraphNode: Sized {
    /// The identity of a vertex: a small value that is copied freely and compared for
    /// equality. Only identities are stored while a graph is explored, never the nodes.
    type NodeId: Copy + Eq + Hash;

    /// The identity of this node.
    spec fn id(&self) -> Self::NodeId;

    /// The graph that this node is a vertex of.
    spec fn graph(&self) -> Graph<Self::NodeId>;

    /// What has to hold of a node for the implementation to hand out its successors. The
    /// successors of a valid node are valid.
    spec fn valid(&self) -> bool;

    /// A valid node is a vertex of its graph, and that graph is finite and holds the targets
    /// of all its edges.
    proof fn lemma_valid_node_in_graph(&self)
        requires
            self.valid(),
        ensures
            well_formed(self.graph()),
            self.graph().dom().contains(self.id()),
    ;

    /// The successors of this node, in the order of its outgoing edges.
    fn get_neighbors(&self) -> (neighbors: Vec<Self>)
        requires
            self.valid(),
        ensures
            neighbors@.len() == self.graph()[self.id()].len(),
            forall|i: int|
                0 <= i < neighbors@.len() ==> {
                    &&& (#[trigger] neighbors@[i]).valid()
                    &&& neighbors@[i].graph() == self.graph()
                    &&& neighbors@[i].id() == self.graph()[self.id()][i]
                },
    ;

    /// The identity of this node.
    fn get_id(&self) -> (id: Self::NodeId)
        ensures
            id == self.id(),
    ;
}

/// `neighbors` are the successors of `node`: valid nodes of the same graph, one for each
/// outgoing edge of `node` and in the order of these edges.
pub open spec fn are_neighbors_of<Node: GraphNode>(neighbors: Seq<Node>, node: Node) -> bool {
    &&& neighbors.len() == node.graph()[node.id()].len()
    &&& forall|i: int|
        0 <= i < neighbors.len() ==> {
            &&& (#[trigger] neighbors[i]).valid()
            &&& neighbors[i].graph() == node.graph()
            &&& neighbors[i].id() == node.graph()[node.id()][i]
        }
}

/// The nodes of `nodes` are valid and belong to one graph.
pub open spec fn in_one_graph<Node: GraphNode>(nodes: Seq<Node>) -> bool {
    forall|i: int, j: int|
        0 <= i < nodes.len() && 0 <= j < nodes.len() ==> {
            &&& (#[trigger] nodes[i]).valid()
            &&& nodes[i].graph() == (#[trigger] nodes[j]).graph()
        }
}

/// The graph that the nodes of `nodes` belong to; the empty graph where there is no node.
pub open spec fn graph_of<Node: GraphNode>(nodes: Seq<Node>) -> Graph<Node::NodeId> {
    if nodes.len() == 0 {
        Map::empty()
    } else {
        nodes[0].graph()
    }
}

/// The identities of the nodes of `nodes`, in order.
pub open spec fn ids_of<Node: GraphNode>(nodes: Seq<Node>) -> Seq<Node::NodeId> {
    Seq::new(nodes.len(), |i: int| nodes[i].id())
}

/// Nodes of one graph name vertices of that graph, and the graph is finite and holds the
/// targets of all its edges.
pub proof fn lemma_nodes_in_graph<Node: GraphNode>(nodes: Seq<Node>)
    requires
        in_one_graph(nodes),
    ensures
        well_formed(graph_of(nodes)),
        all_in(graph_of(nodes), ids_of(nodes)),
{
    if nodes.len() > 0 {
        nodes[0].lemma_valid_node_in_graph();
        assert forall|i: int| 0 <= i < nodes.len() implies graph_of(nodes).dom().contains(
            #[trigger] ids_of(nodes)[i],
        ) by {
            assert(nodes[i].valid() && nodes[i].graph() == nodes[0].graph());
            nodes[i].lemma_valid_node_in_graph();
        }
    }
}

} // verus!
