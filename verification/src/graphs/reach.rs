//! The mathematical model of a successor graph: edges, paths, reachability, and what it
//! means for a list of node lists to be the strongly connected components of a graph, or
//! of the part of it that a node reaches.

use vstd::prelude::*;

verus! {

/// `g[u]` holds the successors of node `u`, for every node `u < g.len()`. A successor that
/// is not itself a node of the graph (`>= g.len()`) carries no edge.
pub open spec fn has_edge(g: Seq<Set<usize>>, u: usize, v: usize) -> bool {
    &&& u < g.len()
    &&& v < g.len()
    &&& g[u as int].contains(v)
}

/// The step from position `i` to position `i + 1` of `p` is an edge of `g`.
pub open spec fn path_step(g: Seq<Set<usize>>, p: Seq<usize>, i: int) -> bool {
    has_edge(g, p[i], p[i + 1])
}

/// `p` is a non-empty walk through `g` that starts at a node of `g`.
pub open spec fn is_path(g: Seq<Set<usize>>, p: Seq<usize>) -> bool {
    &&& p.len() > 0
    &&& p[0] < g.len()
    &&& forall|i: int| 0 <= i < p.len() - 1 ==> #[trigger] path_step(g, p, i)
}

/// There is a path (possibly of no edges) from `u` to `v`.
pub open spec fn reaches(g: Seq<Set<usize>>, u: usize, v: usize) -> bool {
    exists|p: Seq<usize>| #[trigger] is_path(g, p) && p[0] == u && p.last() == v
}

/// Every node reaches itself.
pub proof fn lemma_reaches_refl(g: Seq<Set<usize>>, u: usize)
    requires
        u < g.len(),
    ensures
        reaches(g, u, u),
{
    let p = seq![u];
    assert(is_path(g, p));
}

/// An edge is a path.
pub proof fn lemma_reaches_edge(g: Seq<Set<usize>>, u: usize, v: usize)
    requires
        has_edge(g, u, v),
    ensures
        reaches(g, u, v),
{
    let p = seq![u, v];
    assert(path_step(g, p, 0));
    assert(is_path(g, p));
}

/// Both ends of a path are nodes of the graph.
pub proof fn lemma_reaches_nodes(g: Seq<Set<usize>>, u: usize, v: usize)
    requires
        reaches(g, u, v),
    ensures
        u < g.len(),
        v < g.len(),
{
    let p = choose|p: Seq<usize>| #[trigger] is_path(g, p) && p[0] == u && p.last() == v;
    if p.len() > 1 {
        assert(path_step(g, p, p.len() - 2));
    }
}

/// Reachability is transitive.
pub proof fn lemma_reaches_trans(g: Seq<Set<usize>>, u: usize, v: usize, w: usize)
    requires
        reaches(g, u, v),
        reaches(g, v, w),
    ensures
        reaches(g, u, w),
{
    let p = choose|p: Seq<usize>| #[trigger] is_path(g, p) && p[0] == u && p.last() == v;
    let q = choose|q: Seq<usize>| #[trigger] is_path(g, q) && q[0] == v && q.last() == w;
    let r = p + q.skip(1);
    assert forall|i: int| 0 <= i < r.len() - 1 implies #[trigger] path_step(g, r, i) by {
        if i < p.len() - 1 {
            assert(path_step(g, p, i));
        } else if i == p.len() - 1 {
            assert(path_step(g, q, 0));
        } else {
            assert(path_step(g, q, i - p.len() + 1));
        }
    }
    assert(is_path(g, r));
    if q.len() == 1 {
        assert(r.last() == p.last());
    } else {
        assert(r.last() == q.last());
    }
}

/// An edge followed by a path.
pub proof fn lemma_edge_then_reaches(g: Seq<Set<usize>>, u: usize, v: usize, w: usize)
    requires
        has_edge(g, u, v),
        reaches(g, v, w),
    ensures
        reaches(g, u, w),
{
    lemma_reaches_edge(g, u, v);
    lemma_reaches_trans(g, u, v, w);
}

/// The nodes that lie in some list of `comps`.
pub open spec fn comps_union(comps: Seq<Seq<usize>>) -> Set<usize> {
    Set::new(|v: usize| exists|i: int| 0 <= i < comps.len() && #[trigger] comps[i].contains(v))
}

/// Each list is non-empty and repeats no node, and no node lies in two lists.
pub open spec fn comps_disjoint(comps: Seq<Seq<usize>>) -> bool {
    &&& forall|i: int| 0 <= i < comps.len() ==> #[trigger] comps[i].len() > 0
    &&& forall|i: int| 0 <= i < comps.len() ==> #[trigger] comps[i].no_duplicates()
    &&& forall|i: int, j: int, v: usize|
        0 <= i < comps.len() && 0 <= j < comps.len() && #[trigger] comps[i].contains(v)
            && #[trigger] comps[j].contains(v) ==> i == j
}

/// Every node of a list reaches every node of the same list.
pub open spec fn comps_strongly_connected(g: Seq<Set<usize>>, comps: Seq<Seq<usize>>) -> bool {
    forall|i: int, u: usize, v: usize|
        0 <= i < comps.len() && #[trigger] comps[i].contains(u) && #[trigger] comps[i].contains(v)
            ==> reaches(g, u, v)
}

/// Every edge that leaves a node of list `i` ends in `done` or in a list at or before `i`.
pub open spec fn comps_edges_backward(
    g: Seq<Set<usize>>,
    done: Set<usize>,
    comps: Seq<Seq<usize>>,
) -> bool {
    forall|i: int, u: usize, w: usize|
        0 <= i < comps.len() && #[trigger] comps[i].contains(u) && #[trigger] has_edge(g, u, w)
            ==> done.contains(w) || exists|j: int| 0 <= j <= i && #[trigger] comps[j].contains(w)
}

/// `comps` lists the strongly connected components of the nodes that `start` reaches, each
/// once, in an order where every edge leads to the same or an earlier component (a reverse
/// topological order of the condensation).
pub open spec fn is_scc_decomposition(
    g: Seq<Set<usize>>,
    start: usize,
    comps: Seq<Seq<usize>>,
) -> bool {
    &&& comps_disjoint(comps)
    &&& comps_strongly_connected(g, comps)
    &&& comps_edges_backward(g, Set::empty(), comps)
    &&& forall|v: usize| reaches(g, start, v) <==> #[trigger] comps_union(comps).contains(v)
}

/// `comps` lists the strongly connected components of the whole graph: every node of `g`
/// lies in exactly one list, and every edge leads to the same or an earlier list.
pub open spec fn is_full_scc_decomposition(g: Seq<Set<usize>>, comps: Seq<Seq<usize>>) -> bool {
    &&& comps_disjoint(comps)
    &&& comps_strongly_connected(g, comps)
    &&& comps_edges_backward(g, Set::empty(), comps)
    &&& forall|v: usize| v < g.len() <==> #[trigger] comps_union(comps).contains(v)
}

/// Appending `e2` to `e1` keeps the lists disjoint, strongly connected and ordered, when
/// the lists of `e2` only lead back into `done`, into `e1`, or into themselves.
pub proof fn lemma_comps_append(
    g: Seq<Set<usize>>,
    done: Set<usize>,
    e1: Seq<Seq<usize>>,
    e2: Seq<Seq<usize>>,
)
    requires
        comps_disjoint(e1),
        comps_disjoint(e2),
        forall|v: usize| !(comps_union(e1).contains(v) && comps_union(e2).contains(v)),
        comps_strongly_connected(g, e1),
        comps_strongly_connected(g, e2),
        comps_edges_backward(g, done, e1),
        comps_edges_backward(g, done.union(comps_union(e1)), e2),
    ensures
        comps_disjoint(e1 + e2),
        comps_strongly_connected(g, e1 + e2),
        comps_edges_backward(g, done, e1 + e2),
        comps_union(e1 + e2) == comps_union(e1).union(comps_union(e2)),
{
    let e = e1 + e2;
    let n1 = e1.len() as int;
    assert forall|i: int| 0 <= i < e.len() implies #[trigger] e[i].len() > 0 && e[i].no_duplicates() by {
        if i < n1 {
            assert(e[i] == e1[i]);
        } else {
            assert(e[i] == e2[i - n1]);
        }
    }
    assert forall|i: int, j: int, v: usize|
        0 <= i < e.len() && 0 <= j < e.len() && #[trigger] e[i].contains(v) && #[trigger] e[j].contains(
            v,
        ) implies i == j by {
        if i < n1 && j < n1 {
            assert(e1[i].contains(v) && e1[j].contains(v));
        } else if i >= n1 && j >= n1 {
            assert(e2[i - n1].contains(v) && e2[j - n1].contains(v));
        } else if i < n1 {
            assert(e1[i].contains(v));
            assert(e2[j - n1].contains(v));
            assert(comps_union(e1).contains(v));
            assert(comps_union(e2).contains(v));
        } else {
            assert(e1[j].contains(v));
            assert(e2[i - n1].contains(v));
            assert(comps_union(e1).contains(v));
            assert(comps_union(e2).contains(v));
        }
    }
    assert forall|i: int, u: usize, v: usize|
        0 <= i < e.len() && #[trigger] e[i].contains(u) && #[trigger] e[i].contains(v) implies reaches(
        g,
        u,
        v,
    ) by {
        if i < n1 {
            assert(e1[i].contains(u) && e1[i].contains(v));
        } else {
            assert(e2[i - n1].contains(u) && e2[i - n1].contains(v));
        }
    }
    assert forall|i: int, u: usize, w: usize|
        0 <= i < e.len() && #[trigger] e[i].contains(u) && #[trigger] has_edge(g, u, w) implies done.contains(w)
        || exists|j: int| 0 <= j <= i && #[trigger] e[j].contains(w) by {
        if i < n1 {
            assert(e1[i].contains(u));
            if !done.contains(w) {
                let j = choose|j: int| 0 <= j <= i && #[trigger] e1[j].contains(w);
                assert(e[j] == e1[j]);
            }
        } else {
            assert(e2[i - n1].contains(u));
            if !done.contains(w) {
                if comps_union(e1).contains(w) {
                    let j = choose|j: int| 0 <= j < e1.len() && #[trigger] e1[j].contains(w);
                    assert(e[j] == e1[j]);
                } else {
                    let j = choose|j: int| 0 <= j <= i - n1 && #[trigger] e2[j].contains(w);
                    assert(e[j + n1] == e2[j]);
                }
            }
        }
    }
    assert forall|v: usize| #[trigger] comps_union(e).contains(v) <==> comps_union(e1).union(
        comps_union(e2),
    ).contains(v) by {
        if comps_union(e).contains(v) {
            let i = choose|i: int| 0 <= i < e.len() && #[trigger] e[i].contains(v);
            if i < n1 {
                assert(e1[i].contains(v));
            } else {
                assert(e2[i - n1].contains(v));
            }
        }
        if comps_union(e1).contains(v) {
            let i = choose|i: int| 0 <= i < e1.len() && #[trigger] e1[i].contains(v);
            assert(e[i] == e1[i]);
        }
        if comps_union(e2).contains(v) {
            let i = choose|i: int| 0 <= i < e2.len() && #[trigger] e2[i].contains(v);
            assert(e[i + n1] == e2[i]);
        }
    }
    assert(comps_union(e) =~= comps_union(e1).union(comps_union(e2)));
}

/// Every node on a path that starts in a set closed under edges lies in the set.
proof fn lemma_closed_path(
    g: Seq<Set<usize>>,
    s: Set<usize>,
    p: Seq<usize>,
    k: int,
)
    requires
        is_path(g, p),
        s.contains(p[0]),
        forall|x: usize, w: usize| s.contains(x) && #[trigger] has_edge(g, x, w) ==> s.contains(w),
        0 <= k < p.len(),
    ensures
        s.contains(p[k]),
    decreases k,
{
    if k > 0 {
        lemma_closed_path(g, s, p, k - 1);
        assert(path_step(g, p, k - 1));
    }
}

/// A set closed under edges holds everything its members reach.
pub proof fn lemma_closed_reach(g: Seq<Set<usize>>, s: Set<usize>, u: usize, v: usize)
    requires
        s.contains(u),
        forall|x: usize, w: usize| s.contains(x) && #[trigger] has_edge(g, x, w) ==> s.contains(w),
        reaches(g, u, v),
    ensures
        s.contains(v),
{
    let p = choose|p: Seq<usize>| #[trigger] is_path(g, p) && p[0] == u && p.last() == v;
    lemma_closed_path(g, s, p, p.len() - 1);
}

/// Along a path from a node of component `i`, every node lies in component `i` or an
/// earlier one.
proof fn lemma_path_stays_back(
    g: Seq<Set<usize>>,
    comps: Seq<Seq<usize>>,
    i: int,
    p: Seq<usize>,
    k: int,
)
    requires
        comps_edges_backward(g, Set::empty(), comps),
        0 <= i < comps.len(),
        is_path(g, p),
        comps[i].contains(p[0]),
        0 <= k < p.len(),
    ensures
        exists|j: int| 0 <= j <= i && #[trigger] comps[j].contains(p[k]),
    decreases k,
{
    if k > 0 {
        lemma_path_stays_back(g, comps, i, p, k - 1);
        let j = choose|j: int| 0 <= j <= i && #[trigger] comps[j].contains(p[k - 1]);
        assert(path_step(g, p, k - 1));
        assert(has_edge(g, p[k - 1], p[k]));
        assert(!Set::<usize>::empty().contains(p[k]));
        let j2 = choose|j2: int| 0 <= j2 <= j && #[trigger] comps[j2].contains(p[k]);
    } else {
        assert(comps[i].contains(p[0]));
    }
}

/// Components are maximal: a node that reaches and is reached from a member of a
/// component belongs to that component.
pub proof fn lemma_scc_maximal(
    g: Seq<Set<usize>>,
    comps: Seq<Seq<usize>>,
    i: int,
    u: usize,
    v: usize,
)
    requires
        comps_disjoint(comps),
        comps_edges_backward(g, Set::empty(), comps),
        0 <= i < comps.len(),
        comps[i].contains(u),
        reaches(g, u, v),
        reaches(g, v, u),
    ensures
        comps[i].contains(v),
{
    let p = choose|p: Seq<usize>| #[trigger] is_path(g, p) && p[0] == u && p.last() == v;
    lemma_path_stays_back(g, comps, i, p, p.len() - 1);
    let j = choose|j: int| 0 <= j <= i && #[trigger] comps[j].contains(v);
    let q = choose|q: Seq<usize>| #[trigger] is_path(g, q) && q[0] == v && q.last() == u;
    lemma_path_stays_back(g, comps, j, q, q.len() - 1);
    let k = choose|k: int| 0 <= k <= j && #[trigger] comps[k].contains(u);
    assert(k == i);
}

} // verus!
