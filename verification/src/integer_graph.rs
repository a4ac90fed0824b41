//! Graphs whose vertices are the numbers from zero up, given by the list of successors of
//! each vertex, and a node type to explore them with.

use crate::graph::{well_formed, Graph};
use crate::graph_node::GraphNode;
use vstd::prelude::*;

verus! {

/// The successor lists of a graph in memory, as mathematical sequences.
pub open spec fn successor_lists(graph: Seq<Vec<usize>>) -> Seq<Seq<usize>> {
    Seq::new(graph.len(), |v: int| graph[v]@)
}

/// The graph whose vertices are the numbers below `lists.len()`, vertex `v` with the
/// successors `lists[v]` in this order.
pub open spec fn graph_of_lists(lists: Seq<Seq<usize>>) -> Graph<usize> {
    Map::new(|v: usize| v < lists.len(), |v: usize| lists[v as int])
}

/// Every successor named in `lists` is a vertex: a number below `lists.len()`.
pub open spec fn in_range(lists: Seq<Seq<usize>>) -> bool {
    forall|v: int, i: int|
        0 <= v < lists.len() && 0 <= i < lists[v].len() ==> #[trigger] lists[v][i] < lists.len()
}

/// The numbers below `n`.
pub open spec fn below(n: nat) -> Set<usize> {
    Set::new(|v: usize| v < n)
}

/// There are finitely many numbers below `n`.
pub proof fn lemma_below_finite(n: nat)
    ensures
        below(n).finite(),
    decreases n,
{
    if n == 0 {
        assert(below(n) =~= Set::<usize>::empty());
    } else if n - 1 > usize::MAX {
        lemma_below_finite((n - 1) as nat);
        assert(below(n) =~= below((n - 1) as nat));
    } else {
        lemma_below_finite((n - 1) as nat);
        assert(below(n) =~= below((n - 1) as nat).insert((n - 1) as usize));
    }
}

/// Successor lists that stay in range give a finite graph that holds the targets of all its
/// edges.
pub proof fn lemma_lists_well_formed(lists: Seq<Seq<usize>>)
    requires
        in_range(lists),
    ensures
        well_formed(graph_of_lists(lists)),
{
    let g = graph_of_lists(lists);
    lemma_below_finite(lists.len());
    assert(g.dom() =~= below(lists.len()));
    assert forall|v: usize, i: int|
        g.dom().contains(v) && 0 <= i < g[v].len() implies g.dom().contains(#[trigger] g[v][i]) by {
        assert(lists[v as int][i] < lists.len());
    }
}

/// A copy of a graph in memory has the same successor lists.
proof fn lemma_copy_keeps_lists(a: Vec<Vec<usize>>, b: Vec<Vec<usize>>)
    requires
        a.len() == b.len(),
        forall|i| #![all_triggers] 0 <= i < a.len() ==> cloned::<Vec<usize>>(a[i], b[i]),
    ensures
        successor_lists(a@) == successor_lists(b@),
{
    assert forall|v: int| 0 <= v < a.len() implies #[trigger] a[v]@ == b[v]@ by {
        assert(cloned::<Vec<usize>>(a[v], b[v]));
        assert(a[v]@ =~= b[v]@);
    }
    assert(successor_lists(a@) =~= successor_lists(b@));
}

/// A node of a graph that is given by successor lists. Every node carries the whole graph.
#[derive(PartialEq, Eq, Hash)]
pub struct IntegerNode {
    /// The vertex that this node stands for.
    pub id: usize,
    /// The neighbors of each node.
    pub graph: Vec<Vec<usize>>,
}

impl Clone for IntegerNode {
    fn clone(&self) -> (copy: Self)
        ensures
            copy.id == self.id,
            successor_lists(copy.graph@) == successor_lists(self.graph@),
    {
        let graph = self.graph.clone();
        proof {
            lemma_copy_keeps_lists(self.graph, graph);
        }
        IntegerNode { id: self.id, graph }
    }
}

impl GraphNode for IntegerNode {
    type NodeId = usize;

    open spec fn id(&self) -> usize {
        self.id
    }

    open spec fn graph(&self) -> Graph<usize> {
        graph_of_lists(successor_lists(self.graph@))
    }

    /// The node stands for a vertex of its graph, and no successor list of the graph names a
    /// number that is no vertex.
    open spec fn valid(&self) -> bool {
        self.id < self.graph@.len() && in_range(successor_lists(self.graph@))
    }

    proof fn lemma_valid_node_in_graph(&self) {
        lemma_lists_well_formed(successor_lists(self.graph@));
    }

    fn get_neighbors(&self) -> (neighbors: Vec<Self>) {
        let successors = &self.graph[self.id];
        let mut neighbors: Vec<IntegerNode> = Vec::new();
        let mut i: usize = 0;
        while i < successors.len()
            invariant
                self.valid(),
                successors@ == self.graph@[self.id as int]@,
                0 <= i <= successors@.len(),
                neighbors@.len() == i,
                forall|k: int|
                    0 <= k < i ==> {
                        &&& (#[trigger] neighbors@[k]).id == successors@[k]
                        &&& successor_lists(neighbors@[k].graph@) == successor_lists(self.graph@)
                    },
            decreases successors@.len() - i,
        {
            let graph = self.graph.clone();
            proof {
                lemma_copy_keeps_lists(self.graph, graph);
            }
            neighbors.push(IntegerNode { id: successors[i], graph });
            i += 1;
        }
        proof {
            assert forall|k: int| 0 <= k < neighbors@.len() implies {
                &&& (#[trigger] neighbors@[k]).valid()
                &&& neighbors@[k].graph() == self.graph()
                &&& neighbors@[k].id() == self.graph()[self.id()][k]
            } by {
                assert(successor_lists(self.graph@)[self.id as int][k] < self.graph@.len());
            }
        }
        neighbors
    }

    fn get_id(&self) -> (id: usize) {
        self.id
    }
}

} // verus!
