//! A feedback-vertex-set is a set of vertices whose removal leaves a graph without cycles
//! (<https://en.wikipedia.org/wiki/Feedback_vertex_set>).
//! An efficient algorithm to find the minimum feedback-vertex-set in a directed graph is not known,
//! so here we implement some straight-forward algorithm that guarantees to cover all the cycles in
//! the graph, but doesn't necessarily produce the minimum size of such a set.
//!
//! The algorithm explores the graph depth-first from the entry points. Whenever an edge leads
//! back to a node whose exploration is still under way, it closes a cycle, and the target of
//! that edge joins the feedback set.

use crate::graph::{
    acyclic_from, cuts_all_cycles_from, on_cycle, reachable_from, well_formed,
    without_edges_out_of, Graph,
};
use crate::graph_node::{
    are_neighbors_of, graph_of, ids_of, in_one_graph, lemma_nodes_in_graph, GraphNode,
};
use crate::theorems::{
    theorem_cuts_all_reachable_cycles, theorem_feedback_vertices_lie_on_cycles,
    theorem_pruned_graph_has_no_reachable_cycle,
};
use std::collections::HashSet;
use vstd::prelude::*;
use vstd::std_specs::hash::obeys_key_model;

verus! {

/// What an exploration has found so far.
#[verifier::reject_recursive_types(Id)]
pub struct Progress<Id> {
    /// The feedback set accumulated so far.
    pub feedback: Set<Id>,
    /// The vertices whose exploration is complete.
    pub visited: Set<Id>,
}

/// The progress of an exploration that has not started.
pub open spec fn no_progress<Id>() -> Progress<Id> {
    Progress { feedback: Set::empty(), visited: Set::empty() }
}

/// The progress after vertex `u` has been explored depth-first, where `path` holds the vertices
/// whose exploration is under way and `st` is the progress before.
///
/// A vertex that was visited before is left alone. Otherwise its edges are followed in order,
/// and the vertex counts as visited afterwards.
pub open spec fn explore<Id>(g: Graph<Id>, path: Set<Id>, st: Progress<Id>, u: Id) -> Progress<Id>
    decreases g.dom().difference(path).len(), 0nat, 0nat,
    when well_formed(g) && g.dom().contains(u) && !path.contains(u)
{
    if st.visited.contains(u) {
        st
    } else {
        proof {
            assert(g.dom().difference(path.insert(u)) =~= g.dom().difference(path).remove(u));
        }
        let after = explore_edges(g, path.insert(u), st, u, 0);
        Progress { feedback: after.feedback, visited: after.visited.insert(u) }
    }
}

/// The progress after the edges of `u` from the `i`-th on have been followed in order, where
/// `path` holds the vertices whose exploration is under way, `u` among them.
pub open spec fn explore_edges<Id>(
    g: Graph<Id>,
    path: Set<Id>,
    st: Progress<Id>,
    u: Id,
    i: int,
) -> Progress<Id>
    decreases g.dom().difference(path).len(), 2nat, g[u].len() - i,
    when well_formed(g) && g.dom().contains(u) && path.contains(u) && 0 <= i
{
    if i >= g[u].len() {
        st
    } else {
        explore_edges(g, path, follow_edge(g, path, st, g[u][i]), u, i + 1)
    }
}

/// The progress after one edge has been followed to its target `w`.
///
/// An edge to a vertex of the feedback set is skipped. An edge to a vertex of `path` closes a
/// cycle: its target joins the feedback set and is not explored from here. Any other target
/// is explored.
pub open spec fn follow_edge<Id>(g: Graph<Id>, path: Set<Id>, st: Progress<Id>, w: Id) -> Progress<
    Id,
>
    decreases g.dom().difference(path).len(), 1nat, 0nat,
    when well_formed(g) && g.dom().contains(w)
{
    if st.feedback.contains(w) {
        st
    } else if path.contains(w) {
        Progress { feedback: st.feedback.insert(w), visited: st.visited }
    } else {
        explore(g, path, st, w)
    }
}

/// The progress after the vertices of `roots` have been explored one after the other, each
/// with nothing under way, starting from the progress `st`.
pub open spec fn explore_roots<Id>(g: Graph<Id>, st: Progress<Id>, roots: Seq<Id>) -> Progress<Id>
    decreases roots.len(),
{
    if roots.len() == 0 {
        st
    } else {
        explore(g, Set::empty(), explore_roots(g, st, roots.drop_last()), roots.last())
    }
}

/// The feedback set that the exploration of `g` from `roots`, in this order, arrives at.
pub open spec fn feedback_set_of<Id>(g: Graph<Id>, roots: Seq<Id>) -> Set<Id> {
    explore_roots(g, no_progress(), roots).feedback
}

/// Context for the feedback-set algorithm.
struct FeedbackSetAlgoContext<Node: GraphNode> {
    /// The accumulated feedback set so far in the process of the algorithm. In the end of the
    /// algorithm, this is also the result.
    pub feedback_set: HashSet<Node::NodeId>,
    /// Nodes that are currently during the recursion call on them. That is - if one of these is
    /// reached, it indicates it's in some cycle that was not "resolved" yet.
    pub in_flight: HashSet<Node::NodeId>,
    /// The set of nodes that were visited during the algorithm so far.
    pub visited: HashSet<Node::NodeId>,
}

impl<Node: GraphNode> FeedbackSetAlgoContext<Node> {
    /// The feedback set and the visited vertices, as mathematical sets.
    spec fn progress(&self) -> Progress<Node::NodeId> {
        Progress { feedback: self.feedback_set@, visited: self.visited@ }
    }

    fn new() -> (ctx: Self)
        ensures
            ctx.progress() == no_progress::<Node::NodeId>(),
            ctx.in_flight@ == Set::<Node::NodeId>::empty(),
    {
        FeedbackSetAlgoContext {
            feedback_set: HashSet::<Node::NodeId>::new(),
            in_flight: HashSet::<Node::NodeId>::new(),
            visited: HashSet::<Node::NodeId>::new(),
        }
    }
}

/// Calculates a feedback-vertex-set of the graph induced by the given entry points (that is - the
/// graph reachable from the set of entry points).
/// The feedback-vertex-set is not guaranteed to be minimal.
///
/// The result is the set that the exploration arrives at when it takes the entry points in
/// their order and the edges of each node in theirs. It holds a vertex of every cycle that can
/// be reached from the entry points, so that no such cycle is left once the outgoing edges of
/// its vertices are taken away. It holds only vertices that lie on such a cycle: where none
/// can be reached, it is empty.
///
/// The entry points have to be valid nodes of one graph, and their identities have to serve
/// as keys of a hash set: two of them are equal exactly if they are the same value.
pub fn calc_feedback_set_for_graph<Node: GraphNode>(entry_points: &[Node]) -> (feedback_set:
    HashSet<Node::NodeId>)
    requires
        obeys_key_model::<Node::NodeId>(),
        in_one_graph(entry_points@),
    ensures
        feedback_set@ == feedback_set_of(graph_of(entry_points@), ids_of(entry_points@)),
        cuts_all_cycles_from(
            graph_of(entry_points@),
            ids_of(entry_points@).to_set(),
            feedback_set@,
        ),
        acyclic_from(
            without_edges_out_of(graph_of(entry_points@), feedback_set@),
            ids_of(entry_points@).to_set(),
        ),
        forall|w: Node::NodeId| #[trigger]
            feedback_set@.contains(w) ==> on_cycle(graph_of(entry_points@), w) && reachable_from(
                graph_of(entry_points@),
                ids_of(entry_points@).to_set(),
                w,
            ),
{
    let mut ctx = FeedbackSetAlgoContext::<Node>::new();
    let ghost g = graph_of(entry_points@);
    let ghost roots = ids_of(entry_points@);
    let mut i: usize = 0;
    while i < entry_points.len()
        invariant
            obeys_key_model::<Node::NodeId>(),
            in_one_graph(entry_points@),
            g == graph_of(entry_points@),
            roots == ids_of(entry_points@),
            0 <= i <= entry_points@.len(),
            ctx.in_flight@ == Set::<Node::NodeId>::empty(),
            ctx.progress() == explore_roots(g, no_progress(), roots.take(i as int)),
        decreases entry_points@.len() - i,
    {
        let entry_point = &entry_points[i];
        proof {
            assert(entry_point.valid() && entry_point.graph() == entry_points@[0].graph());
            assert(roots.take(i + 1).drop_last() == roots.take(i as int));
            assert(roots.take(i + 1).last() == entry_point.id());
        }
        calc_feedback_set_recursive(&mut ctx, entry_point);
        i += 1;
    }
    proof {
        assert(roots.take(i as int) == roots);
        lemma_nodes_in_graph(entry_points@);
        theorem_cuts_all_reachable_cycles(g, roots);
        theorem_pruned_graph_has_no_reachable_cycle(g, roots);
        theorem_feedback_vertices_lie_on_cycles(g, roots);
    }
    ctx.feedback_set
}

fn calc_feedback_set_recursive<Node: GraphNode>(
    ctx: &mut FeedbackSetAlgoContext<Node>,
    node: &Node,
)
    requires
        obeys_key_model::<Node::NodeId>(),
        node.valid(),
        !old(ctx).in_flight@.contains(node.id()),
    ensures
        final(ctx).in_flight@ == old(ctx).in_flight@,
        final(ctx).progress() == explore(
            node.graph(),
            old(ctx).in_flight@,
            old(ctx).progress(),
            node.id(),
        ),
    decreases node.graph().dom().difference(old(ctx).in_flight@).len(),
{
    broadcast use vstd::std_specs::hash::group_hash_axioms;

    let ghost g = node.graph();
    let ghost u = node.id();
    let ghost path = old(ctx).in_flight@.insert(u);
    let ghost before = old(ctx).progress();
    proof {
        node.lemma_valid_node_in_graph();
    }
    let cur_node_id = node.get_id();
    if ctx.visited.contains(&cur_node_id) {
        return ;
    }
    ctx.in_flight.insert(cur_node_id);
    proof {
        assert(g.dom().difference(path) =~= g.dom().difference(old(ctx).in_flight@).remove(u));
    }

    let neighbors = node.get_neighbors();
    let mut i: usize = 0;
    while i < neighbors.len()
        invariant
            obeys_key_model::<Node::NodeId>(),
            well_formed(g),
            g.dom().contains(u),
            path.contains(u),
            g == node.graph(),
            u == node.id(),
            are_neighbors_of(neighbors@, *node),
            0 <= i <= neighbors@.len(),
            ctx.in_flight@ == path,
            g.dom().difference(path).len() < g.dom().difference(old(ctx).in_flight@).len(),
            explore_edges(g, path, ctx.progress(), u, i as int) == explore_edges(
                g,
                path,
                before,
                u,
                0,
            ),
        decreases neighbors@.len() - i,
    {
        let ghost st = ctx.progress();
        let neighbor = &neighbors[i];
        let neighbor_id = neighbor.get_id();
        assert(neighbor_id == g[u][i as int] && g.dom().contains(g[u][i as int]));
        if ctx.feedback_set.contains(&neighbor_id) {
        } else if ctx.in_flight.contains(&neighbor_id) {
            ctx.feedback_set.insert(neighbor_id);
        } else {
            calc_feedback_set_recursive(ctx, neighbor);
        }
        assert(ctx.progress() == follow_edge(g, path, st, neighbor_id));
        i += 1;
    }
    ctx.in_flight.remove(&cur_node_id);
    ctx.visited.insert(cur_node_id);
    proof {
        assert(path.remove(u) =~= old(ctx).in_flight@);
    }
}

} // verus!
