//! The mathematical model of a directed graph: vertices, walks, cycles and reachability.

use vstd::prelude::*;

verus! {

/// A directed graph over vertex identities: each vertex of the domain maps to the ordered list
/// of the targets of its outgoing edges. The same target may occur more than once.
pub type Graph<Id> = Map<Id, Seq<Id>>;

/// There is an edge from `a` to `b`.
pub open spec fn has_edge<Id>(g: Graph<Id>, a: Id, b: Id) -> bool {
    g.dom().contains(a) && g[a].contains(b)
}

/// Every edge of the graph leads to a vertex of the graph.
pub open spec fn closed<Id>(g: Graph<Id>) -> bool {
    forall|v: Id, i: int|
        g.dom().contains(v) && 0 <= i < g[v].len() ==> g.dom().contains(#[trigger] g[v][i])
}

/// The graph has finitely many vertices and no edge leaves it.
pub open spec fn well_formed<Id>(g: Graph<Id>) -> bool {
    g.dom().finite() && closed(g)
}

/// The graph has an edge from the `k`-th vertex of `p` to the next one.
pub open spec fn step<Id>(g: Graph<Id>, p: Seq<Id>, k: int) -> bool {
    has_edge(g, p[k], p[k + 1])
}

/// `p` is a walk of the graph: one vertex or more, each joined to the next by an edge.
/// A vertex may occur in it more than once.
pub open spec fn is_walk<Id>(g: Graph<Id>, p: Seq<Id>) -> bool {
    &&& p.len() >= 1
    &&& g.dom().contains(p[0])
    &&& forall|k: int| 0 <= k < p.len() - 1 ==> #[trigger] step(g, p, k)
}

/// `p` is a cycle of the graph: a walk of at least one edge that ends where it starts.
/// A self-loop `v -> v` is the cycle `[v, v]`.
pub open spec fn is_cycle<Id>(g: Graph<Id>, p: Seq<Id>) -> bool {
    &&& is_walk(g, p)
    &&& p.len() >= 2
    &&& p[0] == p[p.len() - 1]
}

/// Some vertex of `p` belongs to `s`.
pub open spec fn hits<Id>(p: Seq<Id>, s: Set<Id>) -> bool {
    exists|k: int| 0 <= k < p.len() && #[trigger] s.contains(p[k])
}

/// `v` can be reached from one of `roots` by a walk of zero or more edges.
pub open spec fn reachable_from<Id>(g: Graph<Id>, roots: Set<Id>, v: Id) -> bool {
    exists|p: Seq<Id>| #[trigger] is_walk(g, p) && roots.contains(p[0]) && p[p.len() - 1] == v
}

/// The graph has no cycle at all.
pub open spec fn acyclic<Id>(g: Graph<Id>) -> bool {
    forall|p: Seq<Id>| !#[trigger] is_cycle(g, p)
}

/// No cycle of the graph starts at a vertex that can be reached from `roots`.
pub open spec fn acyclic_from<Id>(g: Graph<Id>, roots: Set<Id>) -> bool {
    forall|p: Seq<Id>| #[trigger] is_cycle(g, p) ==> !reachable_from(g, roots, p[0])
}

/// `cut` holds a vertex of every cycle that can be reached from `roots`: taking the vertices
/// of `cut` away leaves that part of the graph without a cycle.
pub open spec fn cuts_all_cycles_from<Id>(g: Graph<Id>, roots: Set<Id>, cut: Set<Id>) -> bool {
    forall|p: Seq<Id>| #[trigger]
        is_cycle(g, p) && reachable_from(g, roots, p[0]) ==> hits(p, cut)
}

/// `cut` holds a vertex of every cycle of the graph: it is a feedback vertex set.
pub open spec fn cuts_all_cycles<Id>(g: Graph<Id>, cut: Set<Id>) -> bool {
    forall|p: Seq<Id>| #[trigger] is_cycle(g, p) ==> hits(p, cut)
}

/// The vertices that can be reached from one of `roots`.
pub open spec fn within_reach<Id>(g: Graph<Id>, roots: Set<Id>) -> Set<Id> {
    Set::new(|v: Id| reachable_from(g, roots, v))
}

/// The graph `g` after every outgoing edge of the vertices in `cut` has been taken away.
/// The vertices themselves all stay.
pub open spec fn without_edges_out_of<Id>(g: Graph<Id>, cut: Set<Id>) -> Graph<Id> {
    Map::new(
        |v: Id| g.dom().contains(v),
        |v: Id|
            if cut.contains(v) {
                Seq::empty()
            } else {
                g[v]
            },
    )
}

/// Every vertex of `vs` is a vertex of the graph.
pub open spec fn all_in<Id>(g: Graph<Id>, vs: Seq<Id>) -> bool {
    forall|i: int| 0 <= i < vs.len() ==> g.dom().contains(#[trigger] vs[i])
}

/// There is a walk from `a` to `b`, of zero or more edges.
pub open spec fn connects<Id>(g: Graph<Id>, a: Id, b: Id) -> bool {
    exists|p: Seq<Id>| #[trigger] is_walk(g, p) && p[0] == a && p[p.len() - 1] == b
}

/// Some cycle of the graph starts, and so ends, at `v`.
pub open spec fn on_cycle<Id>(g: Graph<Id>, v: Id) -> bool {
    exists|p: Seq<Id>| #[trigger] is_cycle(g, p) && p[0] == v
}

/// Every edge that starts in `inside` ends in `inside` or in `cut`.
pub open spec fn edges_stay<Id>(g: Graph<Id>, inside: Set<Id>, cut: Set<Id>) -> bool {
    forall|v: Id, i: int|
        inside.contains(v) && g.dom().contains(v) && 0 <= i < g[v].len() ==> inside.contains(
            #[trigger] g[v][i],
        ) || cut.contains(g[v][i])
}

/// A walk can be prolonged by an edge that starts at its last vertex.
pub proof fn lemma_walk_push<Id>(g: Graph<Id>, p: Seq<Id>, b: Id)
    requires
        is_walk(g, p),
        has_edge(g, p[p.len() - 1], b),
    ensures
        is_walk(g, p.push(b)),
        p.push(b)[0] == p[0],
        p.push(b)[p.push(b).len() - 1] == b,
{
    let q = p.push(b);
    assert forall|k: int| 0 <= k < q.len() - 1 implies #[trigger] step(g, q, k) by {
        if k < p.len() - 1 {
            assert(step(g, p, k));
        }
    }
}

/// A vertex of the graph is connected to itself.
pub proof fn lemma_connects_self<Id>(g: Graph<Id>, a: Id)
    requires
        g.dom().contains(a),
    ensures
        connects(g, a, a),
{
    let p = seq![a];
    assert(is_walk(g, p));
}

/// A connection can be prolonged by an edge.
pub proof fn lemma_connects_step<Id>(g: Graph<Id>, a: Id, b: Id, c: Id)
    requires
        connects(g, a, b),
        has_edge(g, b, c),
    ensures
        connects(g, a, c),
{
    let p = choose|p: Seq<Id>| #[trigger] is_walk(g, p) && p[0] == a && p[p.len() - 1] == b;
    lemma_walk_push(g, p, c);
    assert(is_walk(g, p.push(c)));
}

/// A root that is a vertex of the graph can be reached.
pub proof fn lemma_root_reachable<Id>(g: Graph<Id>, roots: Set<Id>, r: Id)
    requires
        g.dom().contains(r),
        roots.contains(r),
    ensures
        reachable_from(g, roots, r),
{
    let p = seq![r];
    assert(is_walk(g, p));
}

/// The target of an edge that starts at a vertex within reach is within reach.
pub proof fn lemma_reachable_step<Id>(g: Graph<Id>, roots: Set<Id>, b: Id, c: Id)
    requires
        reachable_from(g, roots, b),
        has_edge(g, b, c),
    ensures
        reachable_from(g, roots, c),
{
    let p = choose|p: Seq<Id>| #[trigger]
        is_walk(g, p) && roots.contains(p[0]) && p[p.len() - 1] == b;
    lemma_walk_push(g, p, c);
    assert(is_walk(g, p.push(c)));
}

/// A walk that is in `inside` at position `a` and meets no vertex of `cut` up to position `b`
/// is still in `inside` there, provided that edges out of `inside` end in `inside` or `cut`.
pub proof fn lemma_walk_stays_inside<Id>(
    g: Graph<Id>,
    inside: Set<Id>,
    cut: Set<Id>,
    p: Seq<Id>,
    a: int,
    b: int,
)
    requires
        is_walk(g, p),
        edges_stay(g, inside, cut),
        0 <= a <= b < p.len(),
        inside.contains(p[a]),
        forall|k: int| a < k <= b ==> !cut.contains(#[trigger] p[k]),
    ensures
        inside.contains(p[b]),
    decreases b - a,
{
    if a < b {
        lemma_walk_stays_inside(g, inside, cut, p, a, b - 1);
        assert(step(g, p, b - 1));
        let v = p[b - 1];
        let i = choose|i: int| 0 <= i < g[v].len() && g[v][i] == p[b];
        assert(inside.contains(g[v][i]) || cut.contains(g[v][i]));
    }
}

/// Taking edges away adds no walk.
pub proof fn lemma_walk_without_edges<Id>(g: Graph<Id>, cut: Set<Id>, p: Seq<Id>)
    requires
        is_walk(without_edges_out_of(g, cut), p),
    ensures
        is_walk(g, p),
        forall|k: int| 0 <= k < p.len() - 1 ==> !cut.contains(#[trigger] p[k]),
{
    let h = without_edges_out_of(g, cut);
    assert forall|k: int| 0 <= k < p.len() - 1 implies #[trigger] step(g, p, k) by {
        assert(step(h, p, k));
        let i = choose|i: int| 0 <= i < h[p[k]].len() && h[p[k]][i] == p[k + 1];
        assert(g[p[k]][i] == p[k + 1]);
    }
    assert forall|k: int| 0 <= k < p.len() - 1 implies !cut.contains(#[trigger] p[k]) by {
        assert(step(h, p, k));
    }
}

/// A walk that leaves no vertex of `cut` is still a walk once the edges out of `cut` are taken
/// away.
pub proof fn lemma_walk_avoiding<Id>(g: Graph<Id>, cut: Set<Id>, p: Seq<Id>)
    requires
        is_walk(g, p),
        forall|k: int| 0 <= k < p.len() - 1 ==> !cut.contains(#[trigger] p[k]),
    ensures
        is_walk(without_edges_out_of(g, cut), p),
{
    let h = without_edges_out_of(g, cut);
    assert forall|k: int| 0 <= k < p.len() - 1 implies #[trigger] step(h, p, k) by {
        assert(step(g, p, k));
        assert(!cut.contains(p[k]));
        let i = choose|i: int| 0 <= i < g[p[k]].len() && g[p[k]][i] == p[k + 1];
        assert(h[p[k]][i] == p[k + 1]);
    }
}

} // verus!
