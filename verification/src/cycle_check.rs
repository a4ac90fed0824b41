//! An independent check of a feedback set: the vertices of the set are taken out of the graph,
//! and a depth-first search of its own looks for a cycle in what is left.

use crate::graph::{
    acyclic, acyclic_from, connects, cuts_all_cycles, edges_stay, has_edge, hits, is_cycle,
    is_walk, lemma_connects_self, lemma_reachable_step, lemma_root_reachable,
    lemma_walk_avoiding, lemma_walk_push, lemma_walk_stays_inside, lemma_walk_without_edges,
    reachable_from, step, within_reach, without_edges_out_of, Graph,
};
use crate::integer_graph::{below, graph_of_lists, in_range, lemma_below_finite, successor_lists};
use std::collections::HashSet;
use vstd::prelude::*;

verus! {

/// The successor lists `lists` after the vertices of `removed` have been taken out: a removed
/// vertex keeps its place, with no successor, and is no longer the successor of any vertex.
pub open spec fn without_vertices(lists: Seq<Seq<usize>>, removed: Set<usize>) -> Seq<Seq<usize>> {
    Seq::new(
        lists.len(),
        |v: int|
            if removed.contains(v as usize) {
                Seq::empty()
            } else {
                lists[v].filter(|w: usize| !removed.contains(w))
            },
    )
}

/// Build a new graph by removing nodes from the given graph.
pub fn build_graph_removing_nodes(
    graph: &[Vec<usize>],
    nodes_to_remove: HashSet<usize>,
) -> (new_graph: Vec<Vec<usize>>)
    ensures
        successor_lists(new_graph@) == without_vertices(
            successor_lists(graph@),
            nodes_to_remove@,
        ),
{
    broadcast use vstd::std_specs::hash::group_hash_axioms;

    let ghost lists = successor_lists(graph@);
    let ghost removed = nodes_to_remove@;
    let ghost keep = |w: usize| !removed.contains(w);
    let mut new_graph: Vec<Vec<usize>> = Vec::new();
    let mut i: usize = 0;
    while i < graph.len()
        invariant
            lists == successor_lists(graph@),
            removed == nodes_to_remove@,
            keep == |w: usize| !removed.contains(w),
            0 <= i <= graph@.len(),
            new_graph@.len() == i,
            forall|v: int|
                0 <= v < i ==> (#[trigger] new_graph@[v])@ == without_vertices(lists, removed)[v],
        decreases graph@.len() - i,
    {
        let node = &graph[i];
        if nodes_to_remove.contains(&i) {
            new_graph.push(Vec::new());
        } else {
            let mut neighbors: Vec<usize> = Vec::new();
            let mut j: usize = 0;
            assert(node@.take(0).filter(keep) == Seq::<usize>::empty()) by {
                reveal(Seq::filter);
            }
            while j < node.len()
                invariant
                    removed == nodes_to_remove@,
                    keep == |w: usize| !removed.contains(w),
                    0 <= j <= node@.len(),
                    neighbors@ == node@.take(j as int).filter(keep),
                decreases node@.len() - j,
            {
                let neighbor = node[j];
                proof {
                    reveal(Seq::filter);
                    assert(node@.take(j + 1).drop_last() == node@.take(j as int));
                    assert(node@.take(j + 1).last() == neighbor);
                }
                if !nodes_to_remove.contains(&neighbor) {
                    neighbors.push(neighbor);
                }
                j += 1;
            }
            assert(node@.take(j as int) == node@);
            new_graph.push(neighbors);
        }
        i += 1;
    }
    assert(successor_lists(new_graph@) =~= without_vertices(lists, removed));
    new_graph
}

/// What a depth-first search for a cycle comes back with, as a pair: whether it ran into a
/// vertex that is under way, and the vertices that count as visited afterwards.
///
/// The search starts at `cur`, where `path` holds the vertices under way and `visited` those
/// visited before. It stops at the first cycle it finds. Every vertex that it has entered
/// counts as visited afterwards, also when a cycle was found below it.
pub open spec fn search(
    lists: Seq<Seq<usize>>,
    path: Set<usize>,
    visited: Set<usize>,
    cur: usize,
) -> (bool, Set<usize>)
    decreases below(lists.len()).difference(path).len(), 0nat, 0nat,
    when in_range(lists) && cur < lists.len()
{
    if path.contains(cur) {
        (true, visited)
    } else if visited.contains(cur) {
        (false, visited)
    } else {
        proof {
            lemma_below_finite(lists.len());
            assert(below(lists.len()).difference(path.insert(cur)) =~= below(
                lists.len(),
            ).difference(path).remove(cur));
        }
        let below_cur = search_successors(lists, path.insert(cur), visited, cur, 0);
        (below_cur.0, below_cur.1.insert(cur))
    }
}

/// What the search comes back with from the successors of `cur`, from the `i`-th on and in
/// order, where `cur` is under way. It goes on to the next successor only while no cycle was
/// found.
pub open spec fn search_successors(
    lists: Seq<Seq<usize>>,
    path: Set<usize>,
    visited: Set<usize>,
    cur: usize,
    i: int,
) -> (bool, Set<usize>)
    decreases below(lists.len()).difference(path).len(), 1nat, lists[cur as int].len() - i,
    when in_range(lists) && cur < lists.len() && path.contains(cur) && 0 <= i
{
    if i >= lists[cur as int].len() {
        (false, visited)
    } else {
        let first = search(lists, path, visited, lists[cur as int][i]);
        if first.0 {
            first
        } else {
            search_successors(lists, path, first.1, cur, i + 1)
        }
    }
}

/// The graph that a search walks over when it takes the vertices of `blocked` for dead ends:
/// the graph of `lists` without the edges out of these vertices.
pub open spec fn search_graph(lists: Seq<Seq<usize>>, blocked: Set<usize>) -> Graph<usize> {
    without_edges_out_of(graph_of_lists(lists), blocked)
}

/// No edge leaves `done`, and no cycle starts in it.
pub open spec fn settled(h: Graph<usize>, done: Set<usize>) -> bool {
    &&& edges_stay(h, done, Set::empty())
    &&& forall|p: Seq<usize>| #[trigger] is_cycle(h, p) ==> !done.contains(p[0])
}

/// What holds during a search that has found no cycle so far: the vertices that were blocked
/// at the start count as visited, no vertex is both under way and visited, and the visited
/// vertices are settled.
pub open spec fn searching(
    h: Graph<usize>,
    blocked: Set<usize>,
    path: Set<usize>,
    visited: Set<usize>,
) -> bool {
    &&& blocked.subset_of(visited)
    &&& path.disjoint(visited)
    &&& settled(h, visited)
}

/// From every vertex of `path` there is a walk of at least one edge to `cur`.
pub open spec fn all_return_to(h: Graph<usize>, path: Set<usize>, cur: usize) -> bool {
    forall|x: usize| #[trigger]
        path.contains(x) ==> exists|q: Seq<usize>| #[trigger]
            is_walk(h, q) && q.len() >= 2 && q[0] == x && q[q.len() - 1] == cur
}

/// `later` holds `earlier`, and besides only vertices within reach of `root`.
pub open spec fn grown_within_reach(
    h: Graph<usize>,
    root: usize,
    earlier: Set<usize>,
    later: Set<usize>,
) -> bool {
    &&& earlier.subset_of(later)
    &&& forall|v: usize| #[trigger]
        later.contains(v) ==> earlier.contains(v) || reachable_from(h, set![root], v)
}

/// The first `i` successors of `cur` are visited.
pub open spec fn successors_done(
    lists: Seq<Seq<usize>>,
    visited: Set<usize>,
    cur: usize,
    i: int,
) -> bool {
    forall|j: int| 0 <= j < i ==> visited.contains(#[trigger] lists[cur as int][j])
}

/// A settled set stays settled when a vertex joins it whose edges all lead into the set, and
/// that is not in the set yet.
pub proof fn lemma_settled_insert(h: Graph<usize>, done: Set<usize>, v: usize)
    requires
        settled(h, done),
        !done.contains(v),
        forall|i: int|
            h.dom().contains(v) && 0 <= i < h[v].len() ==> done.contains(#[trigger] h[v][i]),
    ensures
        settled(h, done.insert(v)),
{
    let more = done.insert(v);
    assert forall|p: Seq<usize>| #[trigger] is_cycle(h, p) implies !more.contains(p[0]) by {
        if p[0] == v {
            // The second vertex of the cycle is a successor of `v`. From there on the cycle
            // cannot leave the set, so that it never gets back to `v`.
            assert(step(h, p, 0));
            let i = choose|i: int| 0 <= i < h[v].len() && h[v][i] == p[1];
            assert(done.contains(h[v][i]));
            lemma_walk_stays_inside(h, done, Set::empty(), p, 1, p.len() - 1);
        }
    }
}

/// A search finds a cycle only where there is one within reach of the root. Where it finds
/// none, the vertex it started at is visited afterwards and the visited vertices are settled.
/// Either way it visits only vertices within reach of the root.
pub proof fn lemma_search(
    lists: Seq<Seq<usize>>,
    root: usize,
    blocked: Set<usize>,
    path: Set<usize>,
    visited: Set<usize>,
    cur: usize,
)
    requires
        in_range(lists),
        cur < lists.len(),
        searching(search_graph(lists, blocked), blocked, path, visited),
        reachable_from(search_graph(lists, blocked), set![root], cur),
        all_return_to(search_graph(lists, blocked), path, cur),
    ensures
        grown_within_reach(
            search_graph(lists, blocked),
            root,
            visited,
            search(lists, path, visited, cur).1,
        ),
        search(lists, path, visited, cur).0 ==> !acyclic_from(
            search_graph(lists, blocked),
            set![root],
        ),
        !search(lists, path, visited, cur).0 ==> search(lists, path, visited, cur).1.contains(cur)
            && searching(
            search_graph(lists, blocked),
            blocked,
            path,
            search(lists, path, visited, cur).1,
        ),
    decreases below(lists.len()).difference(path).len(), 0nat, 0nat,
{
    let h = search_graph(lists, blocked);
    if path.contains(cur) {
        let q = choose|q: Seq<usize>| #[trigger]
            is_walk(h, q) && q.len() >= 2 && q[0] == cur && q[q.len() - 1] == cur;
        assert(is_cycle(h, q));
    } else if visited.contains(cur) {
    } else {
        let inner = path.insert(cur);
        lemma_below_finite(lists.len());
        assert(below(lists.len()).difference(inner) =~= below(lists.len()).difference(
            path,
        ).remove(cur));
        assert(h[cur] == lists[cur as int]);
        assert forall|x: usize| #[trigger] inner.contains(x) implies connects(h, x, cur) by {
            if x == cur {
                lemma_connects_self(h, cur);
            }
        }
        lemma_search_successors(lists, root, blocked, inner, visited, cur, 0);
        let below_cur = search_successors(lists, inner, visited, cur, 0);
        if !below_cur.0 {
            assert forall|i: int|
                h.dom().contains(cur) && 0 <= i < h[cur].len() implies below_cur.1.contains(
                #[trigger] h[cur][i],
            ) by {
                assert(below_cur.1.contains(lists[cur as int][i]));
            }
            lemma_settled_insert(h, below_cur.1, cur);
        }
    }
}

/// The same of a search through the successors of a vertex under way, from the `i`-th on.
/// Where it finds no cycle, every successor is visited afterwards.
pub proof fn lemma_search_successors(
    lists: Seq<Seq<usize>>,
    root: usize,
    blocked: Set<usize>,
    path: Set<usize>,
    visited: Set<usize>,
    cur: usize,
    i: int,
)
    requires
        in_range(lists),
        cur < lists.len(),
        path.contains(cur),
        !blocked.contains(cur),
        0 <= i <= lists[cur as int].len(),
        searching(search_graph(lists, blocked), blocked, path, visited),
        reachable_from(search_graph(lists, blocked), set![root], cur),
        forall|x: usize| #[trigger]
            path.contains(x) ==> connects(search_graph(lists, blocked), x, cur),
        successors_done(lists, visited, cur, i),
    ensures
        grown_within_reach(
            search_graph(lists, blocked),
            root,
            visited,
            search_successors(lists, path, visited, cur, i).1,
        ),
        search_successors(lists, path, visited, cur, i).0 ==> !acyclic_from(
            search_graph(lists, blocked),
            set![root],
        ),
        !search_successors(lists, path, visited, cur, i).0 ==> successors_done(
            lists,
            search_successors(lists, path, visited, cur, i).1,
            cur,
            lists[cur as int].len() as int,
        ) && searching(
            search_graph(lists, blocked),
            blocked,
            path,
            search_successors(lists, path, visited, cur, i).1,
        ),
    decreases below(lists.len()).difference(path).len(), 1nat, lists[cur as int].len() - i,
{
    let h = search_graph(lists, blocked);
    if i < lists[cur as int].len() {
        let w = lists[cur as int][i];
        assert(h[cur][i] == w);
        assert(has_edge(h, cur, w));
        lemma_reachable_step(h, set![root], cur, w);
        assert forall|x: usize| #[trigger] path.contains(x) implies exists|q: Seq<usize>|
            #[trigger] is_walk(h, q) && q.len() >= 2 && q[0] == x && q[q.len() - 1] == w by {
            let q = choose|q: Seq<usize>| #[trigger]
                is_walk(h, q) && q[0] == x && q[q.len() - 1] == cur;
            lemma_walk_push(h, q, w);
            assert(is_walk(h, q.push(w)));
        }
        lemma_search(lists, root, blocked, path, visited, w);
        let first = search(lists, path, visited, w);
        if !first.0 {
            assert forall|j: int| 0 <= j < i + 1 implies first.1.contains(
                #[trigger] lists[cur as int][j],
            ) by {
                if j < i {
                    assert(visited.contains(lists[cur as int][j]));
                }
            }
            lemma_search_successors(lists, root, blocked, path, first.1, cur, i + 1);
        }
    }
}

fn contains_cycle_recursive(
    graph: &[Vec<usize>],
    cur_node_idx: usize,
    in_flight: &mut HashSet<usize>,
    visited: &mut HashSet<usize>,
) -> (found: bool)
    requires
        in_range(successor_lists(graph@)),
        cur_node_idx < graph@.len(),
    ensures
        (found, final(visited)@) == search(
            successor_lists(graph@),
            old(in_flight)@,
            old(visited)@,
            cur_node_idx,
        ),
        final(in_flight)@ == old(in_flight)@,
    decreases below(graph@.len() as nat).difference(old(in_flight)@).len(),
{
    broadcast use vstd::std_specs::hash::group_hash_axioms;

    let ghost lists = successor_lists(graph@);
    let ghost path = old(in_flight)@;
    let ghost inner = path.insert(cur_node_idx);
    if in_flight.contains(&cur_node_idx) {
        // Cycle found.
        return true;
    }
    if visited.contains(&cur_node_idx) {
        return false;
    }
    in_flight.insert(cur_node_idx);
    proof {
        lemma_below_finite(graph@.len() as nat);
        assert(below(graph@.len() as nat).difference(inner) =~= below(
            graph@.len() as nat,
        ).difference(path).remove(cur_node_idx));
    }
    let ghost target = search_successors(lists, inner, old(visited)@, cur_node_idx, 0);
    let neighbors = &graph[cur_node_idx];
    let mut res = false;
    let mut i: usize = 0;
    while i < neighbors.len() && !res
        invariant
            in_range(lists),
            lists == successor_lists(graph@),
            cur_node_idx < graph@.len(),
            neighbors@ == lists[cur_node_idx as int],
            0 <= i <= neighbors@.len(),
            path == old(in_flight)@,
            inner == path.insert(cur_node_idx),
            in_flight@ == inner,
            below(graph@.len() as nat).difference(inner).len() < below(
                graph@.len() as nat,
            ).difference(path).len(),
            res ==> (true, visited@) == target,
            !res ==> search_successors(lists, inner, visited@, cur_node_idx, i as int) == target,
        decreases neighbors@.len() - i,
    {
        let neighbor = neighbors[i];
        assert(lists[cur_node_idx as int][i as int] < lists.len());
        res = contains_cycle_recursive(graph, neighbor, in_flight, visited);
        i += 1;
    }
    in_flight.remove(&cur_node_idx);
    visited.insert(cur_node_idx);
    proof {
        assert(inner.remove(cur_node_idx) =~= path);
    }
    res
}

/// Checks for cycles in the induced graph with the given root (that is, the graph, only with the
/// nodes reachable from the given root node).
///
/// The vertices in `visited` are taken for dead ends: the search does not go past them. It
/// adds the vertices that it has gone through. The search stops at the first cycle: where
/// it finds none, it has gone through all that is within reach of the root.
pub fn contains_cycle(
    graph: &[Vec<usize>],
    root_idx: usize,
    visited: &mut HashSet<usize>,
) -> (found: bool)
    requires
        in_range(successor_lists(graph@)),
        root_idx < graph@.len(),
    ensures
        (found, final(visited)@) == search(
            successor_lists(graph@),
            Set::empty(),
            old(visited)@,
            root_idx,
        ),
        found == !acyclic_from(
            search_graph(successor_lists(graph@), old(visited)@),
            set![root_idx],
        ),
        old(visited)@.subset_of(final(visited)@),
        final(visited)@.subset_of(
            old(visited)@.union(
                within_reach(search_graph(successor_lists(graph@), old(visited)@), set![root_idx]),
            ),
        ),
        !found ==> final(visited)@ == old(visited)@.union(
            within_reach(search_graph(successor_lists(graph@), old(visited)@), set![root_idx]),
        ),
{
    let ghost lists = successor_lists(graph@);
    let ghost blocked = visited@;
    let mut in_flight = HashSet::new();
    let found = contains_cycle_recursive(graph, root_idx, &mut in_flight, visited);
    proof {
        lemma_search_from_root(lists, blocked, root_idx);
    }
    found
}

/// A search from a root with nothing under way finds a cycle exactly if there is one within
/// reach of the root, where the vertices visited before are taken for dead ends. It visits
/// only vertices within reach of the root, and all of them where it finds no cycle.
pub proof fn lemma_search_from_root(lists: Seq<Seq<usize>>, blocked: Set<usize>, root: usize)
    requires
        in_range(lists),
        root < lists.len(),
    ensures
        search(lists, Set::empty(), blocked, root).0 == !acyclic_from(
            search_graph(lists, blocked),
            set![root],
        ),
        blocked.subset_of(search(lists, Set::empty(), blocked, root).1),
        search(lists, Set::empty(), blocked, root).1.subset_of(
            blocked.union(within_reach(search_graph(lists, blocked), set![root])),
        ),
        !search(lists, Set::empty(), blocked, root).0 ==> search(
            lists,
            Set::empty(),
            blocked,
            root,
        ).1 == blocked.union(within_reach(search_graph(lists, blocked), set![root])),
{
    let h = search_graph(lists, blocked);
    let reach = within_reach(h, set![root]);
    assert(h.dom().contains(root));
    lemma_root_reachable(h, set![root], root);
    assert forall|p: Seq<usize>| #[trigger] is_cycle(h, p) implies !blocked.contains(p[0]) by {
        assert(step(h, p, 0));
    }
    lemma_search(lists, root, blocked, Set::empty(), blocked, root);
    let end = search(lists, Set::empty(), blocked, root);
    if !end.0 {
        assert forall|v: usize| reachable_from(h, set![root], v) implies end.1.contains(v) by {
            let p = choose|p: Seq<usize>| #[trigger]
                is_walk(h, p) && set![root].contains(p[0]) && p[p.len() - 1] == v;
            lemma_walk_stays_inside(h, end.1, Set::empty(), p, 0, p.len() - 1);
        }
        assert(end.1 =~= blocked.union(reach));
    }
}

/// Taking vertices out leaves every successor in range.
pub proof fn lemma_without_vertices_in_range(lists: Seq<Seq<usize>>, removed: Set<usize>)
    requires
        in_range(lists),
    ensures
        in_range(without_vertices(lists, removed)),
{
    let rest = without_vertices(lists, removed);
    let keep = |w: usize| !removed.contains(w);
    assert forall|v: int, i: int|
        0 <= v < rest.len() && 0 <= i < rest[v].len() implies #[trigger] rest[v][i]
        < rest.len() by {
        assert(lists[v].filter(keep).contains(rest[v][i]));
        lists[v].lemma_filter_contains_rev(keep, rest[v][i]);
        let j = choose|j: int| 0 <= j < lists[v].len() && lists[v][j] == rest[v][i];
        assert(lists[v][j] < lists.len());
    }
}

/// What is left of a graph once the vertices of `removed` are taken out has no cycle exactly
/// if every cycle of the graph goes through a vertex of `removed`.
pub proof fn lemma_acyclic_without_feedback_set(lists: Seq<Seq<usize>>, removed: Set<usize>)
    ensures
        acyclic(graph_of_lists(without_vertices(lists, removed))) <==> cuts_all_cycles(
            graph_of_lists(lists),
            removed,
        ),
{
    let g = graph_of_lists(lists);
    let rest = graph_of_lists(without_vertices(lists, removed));
    let keep = |w: usize| !removed.contains(w);
    if acyclic(rest) {
        assert forall|p: Seq<usize>| #[trigger] is_cycle(g, p) implies hits(p, removed) by {
            if !hits(p, removed) {
                assert forall|k: int| 0 <= k < p.len() - 1 implies #[trigger] step(rest, p, k) by {
                    assert(step(g, p, k));
                    assert(!removed.contains(p[k]));
                    assert(!removed.contains(p[k + 1]));
                    let v = p[k] as int;
                    let i = choose|i: int| 0 <= i < lists[v].len() && lists[v][i] == p[k + 1];
                    lists[v].lemma_filter_contains(keep, i);
                }
                assert(!removed.contains(p[0]));
                assert(is_cycle(rest, p));
            }
        }
    }
    if cuts_all_cycles(g, removed) {
        assert forall|p: Seq<usize>| !#[trigger] is_cycle(rest, p) by {
            if is_cycle(rest, p) {
                assert forall|k: int| 0 <= k < p.len() - 1 implies #[trigger] step(g, p, k)
                    && !removed.contains(p[k]) && !removed.contains(p[k + 1]) by {
                    assert(step(rest, p, k));
                    let v = p[k] as int;
                    assert(lists[v].filter(keep).contains(p[k + 1]));
                    lists[v].lemma_filter_contains_rev(keep, p[k + 1]);
                    let j = choose|j: int|
                        0 <= j < lists[v].filter(keep).len() && lists[v].filter(keep)[j] == p[k
                            + 1];
                    lists[v].lemma_filter_pred(keep, j);
                }
                assert(is_cycle(g, p));
                let k = choose|k: int| 0 <= k < p.len() && #[trigger] removed.contains(p[k]);
                if k < p.len() - 1 {
                    assert(step(g, p, k));
                } else {
                    assert(step(g, p, k - 1));
                }
                assert(false);
            }
        }
    }
}

/// Verifies the feedback set indeed covers all the cycles of the graph. This is done by removing
/// the feedback set from the original graph and verifying the new graph has no cycles.
pub fn verify_feedback_set(graph: &[Vec<usize>], fset: HashSet<usize>) -> (covered: bool)
    requires
        in_range(successor_lists(graph@)),
    ensures
        covered == cuts_all_cycles(graph_of_lists(successor_lists(graph@)), fset@),
        covered == acyclic(
            graph_of_lists(without_vertices(successor_lists(graph@), fset@)),
        ),
{
    let ghost lists = successor_lists(graph@);
    let ghost removed = fset@;
    let new_graph = build_graph_removing_nodes(graph, fset);
    let ghost rest = graph_of_lists(successor_lists(new_graph@));
    proof {
        lemma_without_vertices_in_range(lists, removed);
        lemma_acyclic_without_feedback_set(lists, removed);
        assert(new_graph@.len() == graph@.len());
    }
    let mut visited = HashSet::new();
    let mut idx: usize = 0;
    while idx < graph.len()
        invariant
            in_range(successor_lists(new_graph@)),
            rest == graph_of_lists(successor_lists(new_graph@)),
            lists == successor_lists(graph@),
            removed == fset@,
            successor_lists(new_graph@) == without_vertices(lists, removed),
            acyclic(rest) <==> cuts_all_cycles(graph_of_lists(lists), removed),
            new_graph@.len() == graph@.len(),
            0 <= idx <= graph@.len(),
            settled(rest, visited@),
            forall|v: usize| v < idx ==> visited@.contains(v),
        decreases graph@.len() - idx,
    {
        let ghost before = visited@;
        let ghost h = search_graph(successor_lists(new_graph@), before);
        let found = contains_cycle(&new_graph, idx, &mut visited);
        if found {
            proof {
                let p = choose|p: Seq<usize>| #[trigger]
                    is_cycle(h, p) && reachable_from(h, set![idx], p[0]);
                lemma_walk_without_edges(rest, before, p);
                assert(is_cycle(rest, p));
            }
            return false;
        }
        proof {
            assert forall|v: usize, i: int|
                visited@.contains(v) && rest.dom().contains(v) && 0 <= i < rest[v].len()
                implies visited@.contains(#[trigger] rest[v][i]) by {
                if before.contains(v) {
                    assert(before.contains(rest[v][i]));
                } else {
                    assert(reachable_from(h, set![idx], v));
                    assert(h[v][i] == rest[v][i]);
                    assert(has_edge(h, v, rest[v][i]));
                    lemma_reachable_step(h, set![idx], v, rest[v][i]);
                }
            }
            assert forall|p: Seq<usize>| #[trigger] is_cycle(rest, p) implies !visited@.contains(
                p[0],
            ) by {
                if visited@.contains(p[0]) {
                    assert(!before.contains(p[0]));
                    assert(reachable_from(h, set![idx], p[0]));
                    if hits(p, before) {
                        let k = choose|k: int| 0 <= k < p.len() && #[trigger] before.contains(p[k]);
                        lemma_walk_stays_inside(rest, before, Set::empty(), p, k, p.len() - 1);
                        assert(false);
                    } else {
                        lemma_walk_avoiding(rest, before, p);
                        assert(is_cycle(h, p));
                        assert(false);
                    }
                }
            }
            lemma_root_reachable(h, set![idx], idx);
        }
        idx += 1;
    }
    proof {
        assert forall|p: Seq<usize>| !#[trigger] is_cycle(rest, p) by {
            if is_cycle(rest, p) {
                assert(rest.dom().contains(p[0]));
                assert(visited@.contains(p[0]));
            }
        }
    }
    true
}

} // verus!
