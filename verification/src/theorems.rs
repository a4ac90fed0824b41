//! What holds of the feedback set that the exploration arrives at, for every finite graph and
//! every choice and order of entry points, and what holds of the progress at every moment on
//! the way there.

use crate::feedback_set::{
    explore, explore_edges, explore_roots, feedback_set_of, follow_edge, no_progress, Progress,
};
use crate::graph::{
    acyclic, acyclic_from, all_in, connects, cuts_all_cycles, cuts_all_cycles_from, edges_stay,
    has_edge, hits, is_cycle, is_walk, lemma_connects_self, lemma_connects_step,
    lemma_reachable_step, lemma_root_reachable, lemma_walk_push, lemma_walk_stays_inside,
    lemma_walk_without_edges, on_cycle, reachable_from, step, well_formed, without_edges_out_of,
    Graph,
};
use crate::graph_node::{graph_of, ids_of, GraphNode};
use vstd::prelude::*;

verus! {

/// What holds of the progress `st` at every moment of an exploration from `roots`, where
/// `path` holds the vertices whose exploration is under way.
pub open spec fn consistent<Id>(
    g: Graph<Id>,
    roots: Set<Id>,
    path: Set<Id>,
    st: Progress<Id>,
) -> bool {
    // No vertex is both under way and visited.
    &&& path.disjoint(st.visited)
    // A vertex enters the feedback set while it is under way.
    &&& st.feedback.subset_of(st.visited.union(path))
    // Every edge of a visited vertex was followed, or skipped because its target was cut.
    &&& edges_stay(g, st.visited, st.feedback)
    // Every cycle through a visited vertex is cut.
    &&& forall|p: Seq<Id>| #[trigger]
        is_cycle(g, p) && st.visited.contains(p[0]) ==> hits(p, st.feedback)
    // Only vertices within reach are visited.
    &&& forall|v: Id| #[trigger] st.visited.contains(v) ==> reachable_from(g, roots, v)
    // Only vertices on a cycle are cut.
    &&& forall|w: Id| #[trigger] st.feedback.contains(w) ==> on_cycle(g, w)
}

/// From every vertex of `path` there is a walk to `u`.
pub open spec fn leads_to<Id>(g: Graph<Id>, path: Set<Id>, u: Id) -> bool {
    forall|x: Id| #[trigger] path.contains(x) ==> connects(g, x, u)
}

/// The target of `w` is visited or cut.
pub open spec fn dealt_with<Id>(st: Progress<Id>, w: Id) -> bool {
    st.visited.contains(w) || st.feedback.contains(w)
}

/// The first `i` edges of `u` end at a vertex that is visited or cut.
pub open spec fn edges_done<Id>(g: Graph<Id>, st: Progress<Id>, u: Id, i: int) -> bool {
    forall|j: int| 0 <= j < i ==> dealt_with(st, #[trigger] g[u][j])
}

/// The progress `later` holds all that `earlier` holds: nothing leaves the feedback set, and
/// no vertex is visited twice.
pub open spec fn extends<Id>(later: Progress<Id>, earlier: Progress<Id>) -> bool {
    earlier.visited.subset_of(later.visited) && earlier.feedback.subset_of(later.feedback)
}

/// A sequence that meets `s` meets every set that holds `s`.
pub proof fn lemma_hits_larger<Id>(p: Seq<Id>, s: Set<Id>, t: Set<Id>)
    requires
        hits(p, s),
        s.subset_of(t),
    ensures
        hits(p, t),
{
    let k = choose|k: int| 0 <= k < p.len() && #[trigger] s.contains(p[k]);
    assert(t.contains(p[k]));
}

/// Exploring a vertex keeps the progress consistent, takes nothing out of the feedback set or
/// of the visited vertices, and leaves the vertex visited.
pub proof fn lemma_explore<Id>(
    g: Graph<Id>,
    roots: Set<Id>,
    path: Set<Id>,
    st: Progress<Id>,
    u: Id,
)
    requires
        well_formed(g),
        g.dom().contains(u),
        !path.contains(u),
        consistent(g, roots, path, st),
        reachable_from(g, roots, u),
        leads_to(g, path, u),
    ensures
        consistent(g, roots, path, explore(g, path, st, u)),
        explore(g, path, st, u).visited.contains(u),
        extends(explore(g, path, st, u), st),
    decreases g.dom().difference(path).len(), 0nat, 0nat,
{
    if !st.visited.contains(u) {
        let inner = path.insert(u);
        assert(g.dom().difference(inner) =~= g.dom().difference(path).remove(u));
        assert(leads_to(g, inner, u)) by {
            lemma_connects_self(g, u);
        }
        lemma_explore_edges(g, roots, inner, st, u, 0);
        let after = explore_edges(g, inner, st, u, 0);
        let done = Progress { feedback: after.feedback, visited: after.visited.insert(u) };
        assert(done == explore(g, path, st, u));
        assert forall|v: Id, i: int|
            done.visited.contains(v) && g.dom().contains(v) && 0 <= i < g[v].len()
            implies done.visited.contains(#[trigger] g[v][i]) || done.feedback.contains(
            g[v][i],
        ) by {
            if v == u {
                assert(dealt_with(after, g[u][i]));
            } else {
                assert(dealt_with(after, g[v][i]));
            }
        }
        assert forall|p: Seq<Id>| #[trigger]
            is_cycle(g, p) && done.visited.contains(p[0]) implies hits(p, done.feedback) by {
            if !after.visited.contains(p[0]) && !hits(p, after.feedback) {
                // The cycle starts at `u` and meets no cut vertex. Its second vertex is a
                // successor of `u`, so it was visited before `u` was done, and from there
                // on the cycle cannot leave the visited vertices: it never gets back to `u`.
                assert(p[0] == u);
                assert(step(g, p, 0));
                let i = choose|i: int| 0 <= i < g[u].len() && g[u][i] == p[1];
                assert(dealt_with(after, g[u][i]));
                assert(!after.feedback.contains(p[1]));
                assert forall|k: int| 1 < k <= p.len() - 1 implies !after.feedback.contains(
                    #[trigger] p[k],
                ) by {}
                lemma_walk_stays_inside(g, after.visited, after.feedback, p, 1, p.len() - 1);
                assert(inner.contains(u));
                assert(false);
            }
        }
    }
}

/// Following the edges of a vertex under way keeps the progress consistent, takes nothing out
/// of the feedback set or of the visited vertices, and leaves the target of each edge visited
/// or cut.
pub proof fn lemma_explore_edges<Id>(
    g: Graph<Id>,
    roots: Set<Id>,
    path: Set<Id>,
    st: Progress<Id>,
    u: Id,
    i: int,
)
    requires
        well_formed(g),
        g.dom().contains(u),
        path.contains(u),
        0 <= i <= g[u].len(),
        consistent(g, roots, path, st),
        reachable_from(g, roots, u),
        leads_to(g, path, u),
        edges_done(g, st, u, i),
    ensures
        consistent(g, roots, path, explore_edges(g, path, st, u, i)),
        extends(explore_edges(g, path, st, u, i), st),
        edges_done(g, explore_edges(g, path, st, u, i), u, g[u].len() as int),
    decreases g.dom().difference(path).len(), 2nat, g[u].len() - i,
{
    if i < g[u].len() {
        let w = g[u][i];
        assert(has_edge(g, u, w));
        lemma_follow_edge(g, roots, path, st, u, w);
        let next = follow_edge(g, path, st, w);
        assert forall|j: int| 0 <= j < i + 1 implies dealt_with(next, #[trigger] g[u][j]) by {
            if j < i {
                assert(dealt_with(st, g[u][j]));
            }
        }
        lemma_explore_edges(g, roots, path, next, u, i + 1);
    }
}

/// Following one edge of a vertex under way keeps the progress consistent, takes nothing out
/// of the feedback set or of the visited vertices, and leaves the target visited or cut.
pub proof fn lemma_follow_edge<Id>(
    g: Graph<Id>,
    roots: Set<Id>,
    path: Set<Id>,
    st: Progress<Id>,
    u: Id,
    w: Id,
)
    requires
        well_formed(g),
        path.contains(u),
        has_edge(g, u, w),
        consistent(g, roots, path, st),
        reachable_from(g, roots, u),
        leads_to(g, path, u),
    ensures
        consistent(g, roots, path, follow_edge(g, path, st, w)),
        extends(follow_edge(g, path, st, w), st),
        dealt_with(follow_edge(g, path, st, w), w),
    decreases g.dom().difference(path).len(), 1nat, 0nat,
{
    let i = choose|i: int| 0 <= i < g[u].len() && g[u][i] == w;
    assert(g.dom().contains(g[u][i]));
    let next = follow_edge(g, path, st, w);
    if st.feedback.contains(w) {
    } else if path.contains(w) {
        // The edge closes a cycle: the walk from `w` to `u`, and then the edge back to `w`.
        assert(on_cycle(g, w)) by {
            let q = choose|q: Seq<Id>| #[trigger]
                is_walk(g, q) && q[0] == w && q[q.len() - 1] == u;
            lemma_walk_push(g, q, w);
            assert(is_cycle(g, q.push(w)));
        }
        assert forall|p: Seq<Id>| #[trigger]
            is_cycle(g, p) && next.visited.contains(p[0]) implies hits(p, next.feedback) by {
            lemma_hits_larger(p, st.feedback, next.feedback);
        }
    } else {
        lemma_reachable_step(g, roots, u, w);
        assert forall|x: Id| #[trigger] path.contains(x) implies connects(g, x, w) by {
            lemma_connects_step(g, x, u, w);
        }
        lemma_explore(g, roots, path, st, w);
    }
}

/// Exploring roots one after the other keeps the progress consistent and leaves every root
/// visited.
pub proof fn lemma_explore_roots<Id>(g: Graph<Id>, all: Set<Id>, roots: Seq<Id>)
    requires
        well_formed(g),
        all_in(g, roots),
        forall|i: int| 0 <= i < roots.len() ==> all.contains(#[trigger] roots[i]),
    ensures
        consistent(g, all, Set::empty(), explore_roots(g, no_progress(), roots)),
        forall|i: int|
            0 <= i < roots.len() ==> explore_roots(g, no_progress(), roots).visited.contains(
                #[trigger] roots[i],
            ),
    decreases roots.len(),
{
    if roots.len() > 0 {
        let front = roots.drop_last();
        let r = roots.last();
        assert forall|i: int| 0 <= i < front.len() implies g.dom().contains(#[trigger] front[i])
            && all.contains(front[i]) by {
            assert(front[i] == roots[i]);
        }
        lemma_explore_roots(g, all, front);
        let st = explore_roots(g, no_progress(), front);
        lemma_root_reachable(g, all, r);
        lemma_explore(g, all, Set::empty(), st, r);
        let done = explore(g, Set::empty(), st, r);
        assert(done == explore_roots(g, no_progress(), roots));
        assert forall|i: int| 0 <= i < roots.len() implies done.visited.contains(
            #[trigger] roots[i],
        ) by {
            if i < front.len() {
                assert(front[i] == roots[i]);
            }
        }
    }
}

/// Every vertex within reach of the roots is visited when the exploration ends.
pub proof fn lemma_reachable_is_visited<Id>(g: Graph<Id>, roots: Seq<Id>, v: Id)
    requires
        well_formed(g),
        all_in(g, roots),
        reachable_from(g, roots.to_set(), v),
    ensures
        explore_roots(g, no_progress(), roots).visited.contains(v),
{
    let end = explore_roots(g, no_progress(), roots);
    lemma_explore_roots(g, roots.to_set(), roots);
    let p = choose|p: Seq<Id>| #[trigger]
        is_walk(g, p) && roots.to_set().contains(p[0]) && p[p.len() - 1] == v;
    let i = choose|i: int| 0 <= i < roots.len() && roots[i] == p[0];
    assert(end.visited.contains(roots[i]));
    assert(edges_stay(g, end.visited, Set::empty())) by {
        assert forall|x: Id, k: int|
            end.visited.contains(x) && g.dom().contains(x) && 0 <= k < g[x].len()
            implies end.visited.contains(#[trigger] g[x][k]) by {
            assert(end.visited.contains(g[x][k]) || end.feedback.contains(g[x][k]));
        }
    }
    lemma_walk_stays_inside(g, end.visited, Set::empty(), p, 0, p.len() - 1);
}

/// The feedback set holds a vertex of every cycle that can be reached from the roots: without
/// its vertices, what can be reached of the graph has no cycle.
pub proof fn theorem_cuts_all_reachable_cycles<Id>(g: Graph<Id>, roots: Seq<Id>)
    requires
        well_formed(g),
        all_in(g, roots),
    ensures
        cuts_all_cycles_from(g, roots.to_set(), feedback_set_of(g, roots)),
{
    lemma_explore_roots(g, roots.to_set(), roots);
    assert forall|p: Seq<Id>| #[trigger]
        is_cycle(g, p) && reachable_from(g, roots.to_set(), p[0]) implies hits(
        p,
        feedback_set_of(g, roots),
    ) by {
        lemma_reachable_is_visited(g, roots, p[0]);
    }
}

/// Where every vertex of the graph can be reached from the roots, the feedback set holds a
/// vertex of every cycle of the graph.
pub proof fn theorem_cuts_all_cycles_of_reachable_graph<Id>(g: Graph<Id>, roots: Seq<Id>)
    requires
        well_formed(g),
        all_in(g, roots),
        forall|v: Id| g.dom().contains(v) ==> reachable_from(g, roots.to_set(), v),
    ensures
        cuts_all_cycles(g, feedback_set_of(g, roots)),
{
    theorem_cuts_all_reachable_cycles(g, roots);
}

/// Once every outgoing edge of the vertices of the feedback set is taken away, no cycle can be
/// reached from the roots.
pub proof fn theorem_pruned_graph_has_no_reachable_cycle<Id>(g: Graph<Id>, roots: Seq<Id>)
    requires
        well_formed(g),
        all_in(g, roots),
    ensures
        acyclic_from(without_edges_out_of(g, feedback_set_of(g, roots)), roots.to_set()),
{
    let cut = feedback_set_of(g, roots);
    let h = without_edges_out_of(g, cut);
    theorem_cuts_all_reachable_cycles(g, roots);
    assert forall|p: Seq<Id>| #[trigger] is_cycle(h, p) implies !reachable_from(
        h,
        roots.to_set(),
        p[0],
    ) by {
        if reachable_from(h, roots.to_set(), p[0]) {
            let q = choose|q: Seq<Id>| #[trigger]
                is_walk(h, q) && roots.to_set().contains(q[0]) && q[q.len() - 1] == p[0];
            lemma_walk_without_edges(g, cut, q);
            lemma_walk_without_edges(g, cut, p);
            assert(is_walk(g, q));
            assert(is_cycle(g, p));
            assert(hits(p, cut));
            let k = choose|k: int| 0 <= k < p.len() && #[trigger] cut.contains(p[k]);
            if k == p.len() - 1 {
                assert(cut.contains(p[0]));
            }
            assert(false);
        }
    }
}

/// Every vertex of the feedback set lies on a cycle and can be reached from the roots: the
/// exploration cuts nothing without a reason.
pub proof fn theorem_feedback_vertices_lie_on_cycles<Id>(g: Graph<Id>, roots: Seq<Id>)
    requires
        well_formed(g),
        all_in(g, roots),
    ensures
        forall|w: Id| #[trigger]
            feedback_set_of(g, roots).contains(w) ==> on_cycle(g, w) && reachable_from(
                g,
                roots.to_set(),
                w,
            ),
{
    lemma_explore_roots(g, roots.to_set(), roots);
}

/// Where no cycle can be reached from the roots, the feedback set is empty.
pub proof fn theorem_no_reachable_cycle_gives_empty_set<Id>(g: Graph<Id>, roots: Seq<Id>)
    requires
        well_formed(g),
        all_in(g, roots),
        acyclic_from(g, roots.to_set()),
    ensures
        feedback_set_of(g, roots) == Set::<Id>::empty(),
{
    theorem_feedback_vertices_lie_on_cycles(g, roots);
    let cut = feedback_set_of(g, roots);
    assert forall|w: Id| !cut.contains(w) by {
        if cut.contains(w) {
            let p = choose|p: Seq<Id>| #[trigger] is_cycle(g, p) && p[0] == w;
            assert(!reachable_from(g, roots.to_set(), p[0]));
        }
    }
    assert(cut =~= Set::<Id>::empty());
}

/// The feedback set of an acyclic graph is empty, whatever the roots.
pub proof fn theorem_acyclic_graph_gives_empty_set<Id>(g: Graph<Id>, roots: Seq<Id>)
    requires
        well_formed(g),
        all_in(g, roots),
        acyclic(g),
    ensures
        feedback_set_of(g, roots) == Set::<Id>::empty(),
{
    theorem_no_reachable_cycle_gives_empty_set(g, roots);
}

/// A vertex with an edge to itself that can be reached from the roots is in the feedback set.
pub proof fn theorem_self_loop_is_cut<Id>(g: Graph<Id>, roots: Seq<Id>, v: Id)
    requires
        well_formed(g),
        all_in(g, roots),
        reachable_from(g, roots.to_set(), v),
        has_edge(g, v, v),
    ensures
        feedback_set_of(g, roots).contains(v),
{
    theorem_cuts_all_reachable_cycles(g, roots);
    let p = seq![v, v];
    assert(is_cycle(g, p)) by {
        assert forall|k: int| 0 <= k < p.len() - 1 implies #[trigger] step(g, p, k) by {}
    }
    let cut = feedback_set_of(g, roots);
    let k = choose|k: int| 0 <= k < p.len() && #[trigger] cut.contains(p[k]);
    assert(p[k] == v);
}

/// The feedback set depends on nothing but the graph and the identities of the entry points
/// in their order: entry points that agree on these give the same set, however often and
/// from whatever nodes it is computed.
pub proof fn theorem_same_identities_same_set<Node: GraphNode>(a: Seq<Node>, b: Seq<Node>)
    requires
        graph_of(a) == graph_of(b),
        a.len() == b.len(),
        forall|i: int| 0 <= i < a.len() ==> (#[trigger] a[i]).id() == b[i].id(),
    ensures
        feedback_set_of(graph_of(a), ids_of(a)) == feedback_set_of(graph_of(b), ids_of(b)),
{
    assert(ids_of(a) =~= ids_of(b));
}

} // verus!
