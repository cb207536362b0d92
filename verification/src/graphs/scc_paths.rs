//! Shared SCC-tree and SCC-path utilities.
//!
//! These helpers are graph-only building blocks: they do not encode analysis-specific
//! state semantics.

use crate::graphs::fx::{fx_info_map_insert_if_absent, fx_info_map_into_entries, fx_set_collect, fx_set_items};
use crate::graphs::reach::{
    comps_disjoint, comps_edges_backward, comps_strongly_connected, comps_union, has_edge, is_full_scc_decomposition,
    lemma_comps_append,
};
use crate::graphs::search::{
    emitted_since, entered_by_edge, in_pop_order, lemma_fresh_visit, lemma_unnumbered_all_zero, newly_numbered, numbered, search_wf, unnumbered,
};
use crate::graphs::scc::{Scc, SccClient, SccInfo, SccTree};
use rustc_hash::{FxHashMap, FxHashSet};
use vstd::prelude::*;
use vstd::slice::slice_to_vec;

verus! {

/// The graph of a successor list: node `i` has the entries of `successors[i]` as
/// successors (those that are not nodes carry no edge).
pub open spec fn successor_graph(successors: Seq<Vec<usize>>) -> Seq<Set<usize>> {
    Seq::new(successors.len(), |i: int| successors[i]@.to_set())
}

/// The node lists of a list of components.
pub open spec fn component_views(components: Seq<Vec<usize>>) -> Seq<Seq<usize>> {
    components.map_values(|c: Vec<usize>| c@)
}

/// A copy of a slice of successor lists.
fn copy_successors(successors: &[Vec<usize>]) -> (copied: Vec<Vec<usize>>)
    ensures
        copied@.len() == successors@.len(),
        forall|i: int| 0 <= i < successors@.len() ==> #[trigger] copied@[i]@ == successors@[i]@,
{
    let mut copied: Vec<Vec<usize>> = Vec::new();
    let mut i: usize = 0;
    while i < successors.len()
        invariant
            i <= successors@.len(),
            copied@.len() == i,
            forall|j: int| 0 <= j < i ==> #[trigger] copied@[j]@ == successors@[j]@,
        decreases successors@.len() - i,
    {
        let list = successors[i].clone();
        assert(list@ =~= successors@[i as int]@);
        copied.push(list);
        i += 1;
    }
    copied
}

/// Collects every component that the SCC search reports, over a plain successor list.
struct SccComponentCollector {
    successors: Vec<Vec<usize>>,
    components: Vec<Vec<usize>>,
}

impl SccComponentCollector {
    /// The successor lists the collector answers from.
    pub closed spec fn successor_lists(&self) -> Seq<Vec<usize>> {
        self.successors@
    }

    /// The components collected so far.
    pub closed spec fn collected(&self) -> Seq<Vec<usize>> {
        self.components@
    }

    fn new(successors: Vec<Vec<usize>>) -> (collector: Self)
        ensures
            collector.successors == successors,
            collector.components@ == Seq::<Vec<usize>>::empty(),
    {
        Self { successors, components: Vec::new() }
    }
}

impl SccClient for SccComponentCollector {
    closed spec fn graph(&self) -> Seq<Set<usize>> {
        successor_graph(self.successors@)
    }

    closed spec fn found(&self) -> Seq<Seq<usize>> {
        component_views(self.components@)
    }

    fn on_scc_found(&mut self, _root: usize, scc_components: &[usize])
        ensures
            final(self).successor_lists() == old(self).successor_lists(),
            final(self).collected().len() == old(self).collected().len() + 1,
            forall|i: int|
                0 <= i < old(self).collected().len() ==> #[trigger] final(self).collected()[i]
                    == old(self).collected()[i],
            final(self).collected().last()@ == scc_components@,
    {
        let ghost before = self.components@;
        self.components.push(slice_to_vec(scc_components));
        assert(component_views(self.components@) =~= component_views(before).push(scc_components@));
    }

    fn get_next(&mut self, root: usize) -> (next: FxHashSet<usize>)
        ensures
            final(self).successor_lists() == old(self).successor_lists(),
            final(self).collected() == old(self).collected(),
            root < old(self).successor_lists().len() ==> next@ == old(self).successor_lists()[root as int]@.to_set(),
            root >= old(self).successor_lists().len() ==> next@ == Set::<usize>::empty(),
    {
        let successors = if root < self.successors.len() {
            Some(&self.successors[root])
        } else {
            None
        };
        fx_set_collect(successors)
    }

    fn get_size(&mut self) -> (size: usize) {
        self.successors.len()
    }
}

impl Scc for SccComponentCollector {

}

/// Node `y` was numbered before node `x`.
pub open spec fn numbered_before(d: Seq<usize>, y: usize, x: usize) -> bool {
    numbered(d, y) && d[y as int] < d[x as int]
}

/// Every node below `x` was numbered before `x`: `x` is where a search started.
pub open spec fn started_in_order(d: Seq<usize>, x: usize) -> bool {
    forall|y: usize| y < x ==> #[trigger] numbered_before(d, y, x)
}

/// Node `x` was reached in order: along an edge from a node numbered before it, or as the
/// start of a search, after every smaller node.
pub open spec fn reached_in_order(g: Seq<Set<usize>>, d: Seq<usize>, x: usize) -> bool {
    entered_by_edge(g, d, x) || started_in_order(d, x)
}

/// `d` numbers the nodes of `g` in an order in which searches reach them, and each list of
/// `comps` starts with its earliest node (its root) followed by the others, latest first.
pub open spec fn discovery_ordered(g: Seq<Set<usize>>, comps: Seq<Seq<usize>>, d: Seq<usize>) -> bool {
    &&& d.len() == g.len()
    &&& forall|k: int| 0 <= k < comps.len() ==> in_pop_order(d, #[trigger] comps[k])
    &&& forall|x: usize| x < g.len() ==> #[trigger] reached_in_order(g, d, x)
}

/// Later numbering that keeps the numbers of `c`'s nodes keeps `c` in pop order.
proof fn lemma_pop_order_stable(d0: Seq<usize>, d: Seq<usize>, c: Seq<usize>)
    requires
        d.len() == d0.len(),
        forall|y: usize| #[trigger] numbered(d0, y) ==> d[y as int] == d0[y as int],
        forall|i: int| 0 <= i < c.len() ==> numbered(d0, #[trigger] c[i]),
        in_pop_order(d0, c),
    ensures
        in_pop_order(d, c),
{
    assert forall|i: int| 0 <= i < c.len() implies d[#[trigger] c[i] as int] == d0[c[i] as int] by {
        assert(numbered(d0, c[i]));
    }
    assert forall|i: int| 0 < i < c.len() implies d[c[0] as int] < d[#[trigger] c[i] as int] by {
        assert(d[c[0] as int] == d0[c[0] as int]);
    }
    assert forall|i: int, j: int|
        #![trigger c[i], c[j]]
        0 < i < j < c.len() implies d[c[j] as int] < d[c[i] as int] by {
        assert(d[c[i] as int] == d0[c[i] as int]);
        assert(d[c[j] as int] == d0[c[j] as int]);
    }
}

/// Later numbering that keeps old numbers keeps an old node reached in order.
proof fn lemma_reached_stable(g: Seq<Set<usize>>, d0: Seq<usize>, d: Seq<usize>, x: usize)
    requires
        d.len() == d0.len(),
        forall|y: usize| #[trigger] numbered(d0, y) ==> d[y as int] == d0[y as int],
        numbered(d0, x),
        reached_in_order(g, d0, x),
    ensures
        reached_in_order(g, d, x),
{
    assert(d[x as int] == d0[x as int]);
    if entered_by_edge(g, d0, x) {
        let p = choose|p: usize| #[trigger] has_edge(g, p, x) && numbered(d0, p) && d0[p as int] < d0[x as int];
        assert(has_edge(g, p, x) && numbered(d, p) && d[p as int] < d[x as int]);
    } else {
        assert forall|y: usize| y < x implies #[trigger] numbered_before(d, y, x) by {
            assert(numbered_before(d0, y, x));
            assert(numbered(d0, y));
        }
    }
}

/// Collect all SCC components from a successor graph.
///
/// Each node is represented by its `usize` index and each edge by an entry in the
/// corresponding successor list. A search starts from every node that no earlier search
/// reached, in increasing order: the result lists every strongly connected component of
/// the graph once (none for an empty graph), so that every edge leads to the same or an
/// earlier component. Each component lists its root, the node of it the searches reached
/// first, followed by the other nodes as they were popped from the search stack (latest
/// reached first).
pub fn collect_scc_components(successors: &[Vec<usize>]) -> (components: Vec<Vec<usize>>)
    requires
        successors@.len() < usize::MAX,
    ensures
        is_full_scc_decomposition(successor_graph(successors@), component_views(components@)),
        exists|d: Seq<usize>| discovery_ordered(successor_graph(successors@), component_views(components@), d),
{
    let copied = copy_successors(successors);
    assert(successor_graph(copied@) =~= successor_graph(successors@));
    let mut collector = SccComponentCollector::new(copied);
    let ghost g = collector.graph();
    let size = collector.get_size();
    let mut stack: Vec<usize> = Vec::new();
    let mut instack = FxHashSet::<usize>::default();
    let mut dfn = vec![0; size];
    let mut low = vec![0; size];
    let mut time: usize = 1;
    proof {
        lemma_unnumbered_all_zero(dfn@);
        assert(collector.found() =~= Seq::<Seq<usize>>::empty());
        assert forall|x: usize| #[trigger] comps_union(collector.found()).contains(x) <==> numbered(dfn@, x) by {
            if numbered(dfn@, x) {
                assert(dfn@[x as int] == 0);
            }
        }
        assert(search_wf(g.len(), stack@, instack@, dfn@, time));
    }
    let mut start: usize = 0;
    while start < size
        invariant
            size == g.len(),
            g.len() < usize::MAX,
            g == successor_graph(successors@),
            collector.graph() == g,
            collector.found() == component_views(collector.components@),
            stack@.len() == 0,
            instack@ == Set::<usize>::empty(),
            search_wf(g.len(), stack@, instack@, dfn@, time),
            time + unnumbered(dfn@) == g.len() + 1,
            low@.len() == g.len(),
            start <= size,
            comps_disjoint(collector.found()),
            comps_strongly_connected(g, collector.found()),
            comps_edges_backward(g, Set::empty(), collector.found()),
            forall|x: usize| #[trigger] comps_union(collector.found()).contains(x) <==> numbered(dfn@, x),
            forall|x: usize| x < start ==> #[trigger] numbered(dfn@, x),
            forall|k: int| 0 <= k < collector.found().len() ==> in_pop_order(dfn@, #[trigger] collector.found()[k]),
            forall|x: usize| #[trigger] numbered(dfn@, x) ==> reached_in_order(g, dfn@, x),
        decreases size - start,
    {
        if dfn[start] == 0 {
            let ghost d0 = dfn@;
            let ghost l0 = low@;
            let ghost t0 = time;
            let ghost f0 = collector.found();
            assert(stack@ =~= Seq::<usize>::empty());
            collector.tarjan(start, &mut stack, &mut instack, &mut dfn, &mut low, &mut time);
            proof {
                let f = collector.found();
                lemma_fresh_visit(g, start, d0, l0, t0, f0, stack@, instack@, dfn@, low@, time, f);
                let e = emitted_since(f0, f);
                assert(Set::<usize>::empty().union(comps_union(f0)) =~= Set::new(|x: usize| numbered(d0, x)));
                lemma_comps_append(g, Set::empty(), f0, e);
                assert(f0 + e =~= f);
                assert forall|x: usize| #[trigger] comps_union(f).contains(x) <==> numbered(dfn@, x) by {
                    if numbered(dfn@, x) && !numbered(d0, x) {
                        assert(newly_numbered(d0, dfn@, x));
                    }
                }
                assert forall|x: usize| x < start implies #[trigger] numbered(dfn@, x) by {
                    assert(numbered(d0, x));
                }
                assert forall|k: int| 0 <= k < f.len() implies in_pop_order(dfn@, #[trigger] f[k]) by {
                    if k < f0.len() {
                        assert(f[k] == f0[k]);
                        assert forall|i: int| 0 <= i < f0[k].len() implies numbered(d0, #[trigger] f0[k][i]) by {
                            assert(f0[k].contains(f0[k][i]));
                            assert(comps_union(f0).contains(f0[k][i]));
                        }
                        lemma_pop_order_stable(d0, dfn@, f0[k]);
                    } else {
                        assert(f[k] == e[k - f0.len()]);
                    }
                }
                assert forall|x: usize| #[trigger] numbered(dfn@, x) implies reached_in_order(g, dfn@, x) by {
                    if numbered(d0, x) {
                        lemma_reached_stable(g, d0, dfn@, x);
                    } else if x == start {
                        assert forall|y: usize| y < x implies #[trigger] numbered_before(dfn@, y, x) by {
                            assert(numbered(d0, y));
                            assert(d0[y as int] < t0);
                        }
                        assert(started_in_order(dfn@, x));
                    } else {
                        assert(newly_numbered(d0, dfn@, x));
                        assert(entered_by_edge(g, dfn@, x));
                    }
                }
            }
        }
        assert(numbered(dfn@, start));
        start += 1;
    }
    proof {
        let f = collector.found();
        assert forall|v: usize| v < g.len() <==> #[trigger] comps_union(f).contains(v) by {
            if v < g.len() {
                assert(numbered(dfn@, v));
            }
        }
        assert forall|x: usize| x < g.len() implies #[trigger] reached_in_order(g, dfn@, x) by {
            assert(numbered(dfn@, x));
        }
        assert(discovery_ordered(g, f, dfn@));
    }
    collector.components
}

/// `a` and `b` hold the same entry, member nodes, exits, backnodes and child entries.
pub open spec fn same_info(a: SccInfo, b: SccInfo) -> bool {
    &&& a.enter == b.enter
    &&& a.nodes@ == b.nodes@
    &&& a.exits@ == b.exits@
    &&& a.backnodes@ == b.backnodes@
    &&& a.child_sccs@ == b.child_sccs@
}

/// `c` is an SCC that `node_to_scc` gives for a member node of `parent`, with an entry
/// other than `parent`'s and member nodes of its own: a child of `parent`.
pub open spec fn is_child_scc<F: FnMut(usize) -> Option<SccInfo>>(
    node_to_scc: F,
    parent: SccInfo,
    c: SccInfo,
) -> bool {
    exists|n: usize|
        #[trigger] parent.nodes@.contains(n) && call_ensures(node_to_scc, (n,), Some(c)) && c.enter
            != parent.enter && !c.nodes@.is_empty()
}

/// Step `i` of `chain` goes from an SCC to one of its child SCCs.
pub open spec fn chain_step<F: FnMut(usize) -> Option<SccInfo>>(
    node_to_scc: F,
    chain: Seq<SccInfo>,
    i: int,
) -> bool {
    is_child_scc(node_to_scc, chain[i], chain[i + 1])
}

/// `chain` is a non-empty sequence of SCCs, each a child SCC of the one before.
pub open spec fn is_nesting_chain<F: FnMut(usize) -> Option<SccInfo>>(
    node_to_scc: F,
    chain: Seq<SccInfo>,
) -> bool {
    &&& chain.len() > 0
    &&& forall|i: int| 0 <= i < chain.len() - 1 ==> #[trigger] chain_step(node_to_scc, chain, i)
}

/// `p` is `root` or lies below it: a chain of child SCCs leads from `root` to `p`.
pub open spec fn nested_below<F: FnMut(usize) -> Option<SccInfo>>(
    node_to_scc: F,
    root: SccInfo,
    p: SccInfo,
) -> bool {
    exists|chain: Seq<SccInfo>|
        #[trigger] is_nesting_chain(node_to_scc, chain) && chain[0] == root && chain.last() == p
}

/// `node_to_scc` can be asked about node `n`, and asked twice about it gives the same answer
/// (the same SCC up to the contents of its sets).
pub open spec fn answers_at<F: FnMut(usize) -> Option<SccInfo>>(node_to_scc: F, n: usize) -> bool {
    &&& call_requires(node_to_scc, (n,))
    &&& forall|r1: Option<SccInfo>, r2: Option<SccInfo>|
        #[trigger] call_ensures(node_to_scc, (n,), r1) && #[trigger] call_ensures(node_to_scc, (n,), r2)
            ==> (r1 is Some <==> r2 is Some) && (r1 is Some ==> same_info(r1->0, r2->0))
}

/// `node_to_scc` answers, consistently, for every member node of every SCC at or below
/// `root`: the nodes that building the tree of `root` asks about.
pub open spec fn answers_below<F: FnMut(usize) -> Option<SccInfo>>(node_to_scc: F, root: SccInfo) -> bool {
    forall|p: SccInfo, n: usize|
        #![trigger nested_below(node_to_scc, root, p), p.nodes@.contains(n)]
        nested_below(node_to_scc, root, p) && p.nodes@.contains(n) ==> answers_at(node_to_scc, n)
}

/// `rank` strictly decreases from every SCC at or below `root` to each of its children.
pub open spec fn ranks_nesting<F: FnMut(usize) -> Option<SccInfo>>(
    node_to_scc: F,
    root: SccInfo,
    rank: spec_fn(SccInfo) -> nat,
) -> bool {
    forall|p: SccInfo, c: SccInfo|
        #![trigger nested_below(node_to_scc, root, p), is_child_scc(node_to_scc, p, c)]
        nested_below(node_to_scc, root, p) && is_child_scc(node_to_scc, p, c) ==> rank(c) < rank(p)
}

/// The nesting of the SCCs that `node_to_scc` gives below `root` has no infinite descent:
/// some rank decreases from each SCC at or below `root` to its children.
pub open spec fn nesting_well_founded<F: FnMut(usize) -> Option<SccInfo>>(
    node_to_scc: F,
    root: SccInfo,
) -> bool {
    exists|rank: spec_fn(SccInfo) -> nat| ranks_nesting(node_to_scc, root, rank)
}

/// A rank that decreases along the nesting below `root`, when there is one.
pub open spec fn nesting_rank<F: FnMut(usize) -> Option<SccInfo>>(
    node_to_scc: F,
    root: SccInfo,
) -> spec_fn(SccInfo) -> nat {
    choose|rank: spec_fn(SccInfo) -> nat| ranks_nesting(node_to_scc, root, rank)
}

/// `root` lies at or below itself.
proof fn lemma_nested_self<F: FnMut(usize) -> Option<SccInfo>>(node_to_scc: F, root: SccInfo)
    ensures
        nested_below(node_to_scc, root, root),
{
    let chain = seq![root];
    assert(is_nesting_chain(node_to_scc, chain));
}

/// A child SCC of an SCC at or below `root` lies below `root`.
proof fn lemma_nested_child<F: FnMut(usize) -> Option<SccInfo>>(
    node_to_scc: F,
    root: SccInfo,
    p: SccInfo,
    c: SccInfo,
)
    requires
        nested_below(node_to_scc, root, p),
        is_child_scc(node_to_scc, p, c),
    ensures
        nested_below(node_to_scc, root, c),
{
    let chain = choose|chain: Seq<SccInfo>|
        #[trigger] is_nesting_chain(node_to_scc, chain) && chain[0] == root && chain.last() == p;
    let chain2 = chain.push(c);
    assert forall|i: int| 0 <= i < chain2.len() - 1 implies #[trigger] chain_step(node_to_scc, chain2, i) by {
        if i < chain.len() - 1 {
            assert(chain_step(node_to_scc, chain, i));
            assert(chain2[i] == chain[i] && chain2[i + 1] == chain[i + 1]);
        } else {
            assert(chain2[i] == p && chain2[i + 1] == c);
        }
    }
    assert(is_nesting_chain(node_to_scc, chain2));
    assert(chain2[0] == root);
    assert(chain2.last() == c);
}

/// Among the member nodes of `parent` taken in the order `order`, `c` is the answer for the
/// first node whose answer is a child SCC with `c`'s entry.
pub open spec fn first_child_answer<F: FnMut(usize) -> Option<SccInfo>>(
    node_to_scc: F,
    parent: SccInfo,
    order: Seq<usize>,
    c: SccInfo,
) -> bool {
    exists|j: int|
        0 <= j < order.len() && #[trigger] call_ensures(node_to_scc, (order[j],), Some(c)) && forall|
            j2: int,
            c2: SccInfo,
        |
            0 <= j2 < j && #[trigger] call_ensures(node_to_scc, (order[j2],), Some(c2)) && c2.enter
                != parent.enter && !c2.nodes@.is_empty() ==> c2.enter != c.enter
}

/// `node_to_scc` has answered for node `n`.
pub open spec fn was_asked<F: FnMut(usize) -> Option<SccInfo>>(node_to_scc: F, n: usize) -> bool {
    exists|r: Option<SccInfo>| #[trigger] call_ensures(node_to_scc, (n,), r)
}

/// The SCC at the root of `child` is the first child SCC of `parent` met for its entry when
/// the member nodes of `parent` are taken in the order `order`.
pub open spec fn is_first_child_tree<F: FnMut(usize) -> Option<SccInfo>>(
    node_to_scc: F,
    parent: SccInfo,
    order: Seq<usize>,
    child: SccTree,
) -> bool {
    exists|c: SccInfo| #[trigger] first_child_answer(node_to_scc, parent, order, c) && same_info(child.scc, c)
}

/// Each child of `t` holds the first child SCC met for its entry when the member nodes of
/// `t.scc` are taken in the order `order`.
pub open spec fn kept_first<F: FnMut(usize) -> Option<SccInfo>>(
    node_to_scc: F,
    t: SccTree,
    order: Seq<usize>,
) -> bool {
    forall|i: int|
        0 <= i < t.children@.len() ==> is_first_child_tree(node_to_scc, t.scc, order, #[trigger] t.children@[i])
}

/// `node_to_scc` was asked about every member node of `t.scc`, and there is an order of
/// those nodes in which each child of `t` holds the first child SCC met for its entry.
pub open spec fn asked_in_order<F: FnMut(usize) -> Option<SccInfo>>(node_to_scc: F, t: SccTree) -> bool {
    &&& forall|n: usize| #[trigger] t.scc.nodes@.contains(n) ==> was_asked(node_to_scc, n)
    &&& exists|order: Seq<usize>|
        order.no_duplicates() && order.to_set() == t.scc.nodes@ && #[trigger] kept_first(node_to_scc, t, order)
}

/// The SCC at the root of `child` is a child SCC of `parent`.
pub open spec fn is_child_tree<F: FnMut(usize) -> Option<SccInfo>>(
    node_to_scc: F,
    parent: SccInfo,
    child: SccTree,
) -> bool {
    exists|c: SccInfo| #[trigger] is_child_scc(node_to_scc, parent, c) && same_info(child.scc, c)
}

/// The children of `t` are the child SCCs of `t.scc`: each child is a child SCC, every
/// child SCC's entry has exactly one child tree, every member node was asked about, and
/// each child holds the first child SCC met for its entry.
pub open spec fn children_match<F: FnMut(usize) -> Option<SccInfo>>(node_to_scc: F, t: SccTree) -> bool {
    &&& forall|i: int|
        0 <= i < t.children@.len() ==> is_child_tree(node_to_scc, t.scc, #[trigger] t.children@[i])
    &&& forall|c: SccInfo| #[trigger]
        is_child_scc(node_to_scc, t.scc, c) ==> exists|i: int|
            0 <= i < t.children@.len() && #[trigger] t.children@[i].scc.enter == c.enter
    &&& forall|i: int, j: int|
        0 <= i < j < t.children@.len() ==> #[trigger] t.children@[i].scc.enter
            != #[trigger] t.children@[j].scc.enter
    &&& asked_in_order(node_to_scc, t)
}

/// `t` is the SCC tree that `node_to_scc` describes below `t.scc`: at every level the
/// children are the child SCCs of that level's SCC.
pub open spec fn builds_tree<F: FnMut(usize) -> Option<SccInfo>>(node_to_scc: F, t: SccTree) -> bool
    decreases t,
{
    &&& children_match(node_to_scc, t)
    &&& forall|i: int| 0 <= i < t.children@.len() ==> builds_tree(node_to_scc, #[trigger] t.children@[i])
}

/// In a built tree, every answer that `node_to_scc` gives for a member node of a level,
/// with an entry different from the level's (larger or smaller) and member nodes of its
/// own, has a child of that level with the same entry.
pub proof fn lemma_tree_has_child_per_answer<F: FnMut(usize) -> Option<SccInfo>>(
    node_to_scc: F,
    t: SccTree,
    n: usize,
    c: SccInfo,
)
    requires
        builds_tree(node_to_scc, t),
        t.scc.nodes@.contains(n),
        call_ensures(node_to_scc, (n,), Some(c)),
        c.enter != t.scc.enter,
        !c.nodes@.is_empty(),
    ensures
        exists|i: int| 0 <= i < t.children@.len() && #[trigger] t.children@[i].scc.enter == c.enter,
{
    assert(is_child_scc(node_to_scc, t.scc, c));
}

/// In a built tree, each child of a level holds an answer that `node_to_scc` gave for a
/// member node of the level, with an entry different from the level's and member nodes of
/// its own; no two children share an entry; and the child is itself a built tree.
pub proof fn lemma_tree_child_is_answer<F: FnMut(usize) -> Option<SccInfo>>(
    node_to_scc: F,
    t: SccTree,
    i: int,
)
    requires
        builds_tree(node_to_scc, t),
        0 <= i < t.children@.len(),
    ensures
        exists|n: usize, c: SccInfo|
            #![trigger call_ensures(node_to_scc, (n,), Some(c))]
            t.scc.nodes@.contains(n) && call_ensures(node_to_scc, (n,), Some(c)) && c.enter
                != t.scc.enter && !c.nodes@.is_empty() && same_info(t.children@[i].scc, c),
        forall|j: int| 0 <= j < t.children@.len() && j != i ==> #[trigger] t.children@[j].scc.enter
            != t.children@[i].scc.enter,
        builds_tree(node_to_scc, t.children@[i]),
{
    assert(is_child_tree(node_to_scc, t.scc, t.children@[i]));
    let c = choose|c: SccInfo| #[trigger] is_child_scc(node_to_scc, t.scc, c) && same_info(t.children@[i].scc, c);
    let n = choose|n: usize|
        #[trigger] t.scc.nodes@.contains(n) && call_ensures(node_to_scc, (n,), Some(c)) && c.enter
            != t.scc.enter && !c.nodes@.is_empty();
    assert forall|j: int| 0 <= j < t.children@.len() && j != i implies #[trigger] t.children@[j].scc.enter
        != t.children@[i].scc.enter by {
        if j < i {
            assert(t.children@[j].scc.enter != t.children@[i].scc.enter);
        } else {
            assert(t.children@[i].scc.enter != t.children@[j].scc.enter);
        }
    }
}

/// Build an SCC tree rooted at `scc` by repeatedly querying per-node SCC info.
///
/// `node_to_scc` should return the SCC that owns `node`. The children of a level are the
/// distinct SCCs (by entry) that it returns for the level's member nodes, other than the
/// level's own SCC and those without member nodes; the first one met for an entry is kept.
/// The build ends when the nesting below `scc` has no infinite descent.
pub fn build_scc_tree<F>(scc: &SccInfo, mut node_to_scc: F) -> (tree: SccTree) where
    F: FnMut(usize) -> Option<SccInfo>,

    requires
        answers_below(node_to_scc, *scc),
        nesting_well_founded(node_to_scc, *scc),
    ensures
        same_info(tree.scc, *scc),
        builds_tree(node_to_scc, tree),
{
    proof {
        lemma_nested_self(node_to_scc, *scc);
    }
    build_scc_tree_inner(scc, &mut node_to_scc, Ghost(*scc))
}

fn build_scc_tree_inner<F>(scc: &SccInfo, node_to_scc: &mut F, Ghost(root): Ghost<SccInfo>) -> (tree: SccTree) where
    F: FnMut(usize) -> Option<SccInfo>,

    requires
        answers_below(*old(node_to_scc), root),
        nesting_well_founded(*old(node_to_scc), root),
        nested_below(*old(node_to_scc), root, *scc),
    ensures
        *final(node_to_scc) == *old(node_to_scc),
        same_info(tree.scc, *scc),
        builds_tree(*old(node_to_scc), tree),
    decreases nesting_rank(*old(node_to_scc), root)(*scc),
{
    let ghost f = *node_to_scc;
    let ghost rank = nesting_rank(f, root);
    let mut child_sccs: FxHashMap<usize, SccInfo> = FxHashMap::default();
    let nodes = fx_set_items(&scc.nodes);
    let mut k: usize = 0;
    while k < nodes.len()
        invariant
            *node_to_scc == f,
            f == *old(node_to_scc),
            answers_below(f, root),
            nesting_well_founded(f, root),
            nested_below(f, root, *scc),
            rank == nesting_rank(f, root),
            k <= nodes@.len(),
            nodes@.to_set() == scc.nodes@,
            nodes@.no_duplicates(),
            forall|key: usize| #[trigger] child_sccs@.contains_key(key) ==> is_child_scc(f, *scc, child_sccs@[key])
                && child_sccs@[key].enter == key && first_child_answer(f, *scc, nodes@, child_sccs@[key]),
            forall|j: int, c: SccInfo|
                0 <= j < k && #[trigger] call_ensures(f, (nodes@[j],), Some(c)) && c.enter != scc.enter
                    && !c.nodes@.is_empty() ==> child_sccs@.contains_key(c.enter),
            forall|j: int| 0 <= j < k ==> #[trigger] was_asked(f, nodes@[j]),
        decreases nodes@.len() - k,
    {
        let node = nodes[k];
        assert(scc.nodes@.contains(node)) by {
            assert(nodes@.to_set().contains(node));
        }
        assert(answers_at(f, node));
        let answer = node_to_scc(node);
        let ghost before = child_sccs@;
        match answer {
            Some(node_scc) => {
                if node_scc.enter != scc.enter && !node_scc.nodes.is_empty() {
                    assert(is_child_scc(f, *scc, node_scc));
                    proof {
                        if !before.contains_key(node_scc.enter) {
                            assert forall|j2: int, c2: SccInfo|
                                0 <= j2 < k && #[trigger] call_ensures(f, (nodes@[j2],), Some(c2)) && c2.enter
                                    != scc.enter && !c2.nodes@.is_empty() implies c2.enter != node_scc.enter by {
                                assert(before.contains_key(c2.enter));
                            }
                            assert(call_ensures(f, (nodes@[k as int],), Some(node_scc)));
                            assert(first_child_answer(f, *scc, nodes@, node_scc));
                        }
                    }
                    fx_info_map_insert_if_absent(&mut child_sccs, node_scc.enter, node_scc);
                }
            },
            None => {},
        }
        assert forall|j: int, c: SccInfo|
            0 <= j < k + 1 && #[trigger] call_ensures(f, (nodes@[j],), Some(c)) && c.enter != scc.enter
                && !c.nodes@.is_empty() implies child_sccs@.contains_key(c.enter) by {
            if j == k {
                assert(call_ensures(f, (node,), answer));
            } else {
                assert(before.contains_key(c.enter));
            }
        }
        assert(was_asked(f, nodes@[k as int])) by {
            assert(call_ensures(f, (node,), answer));
        }
        assert forall|j: int| 0 <= j < k + 1 implies #[trigger] was_asked(f, nodes@[j]) by {}
        k += 1;
    }
    assert forall|c: SccInfo| #[trigger] is_child_scc(f, *scc, c) implies child_sccs@.contains_key(c.enter) by {
        let n = choose|n: usize|
            #[trigger] scc.nodes@.contains(n) && call_ensures(f, (n,), Some(c)) && c.enter != scc.enter
                && !c.nodes@.is_empty();
        assert(nodes@.to_set().contains(n));
        let j = choose|j: int| 0 <= j < nodes@.len() && nodes@[j] == n;
        assert(call_ensures(f, (nodes@[j],), Some(c)));
    }
    let ghost map = child_sccs@;
    let entries = fx_info_map_into_entries(child_sccs);
    let mut children: Vec<SccTree> = Vec::new();
    let mut i: usize = 0;
    while i < entries.len()
        invariant
            *node_to_scc == f,
            f == *old(node_to_scc),
            answers_below(f, root),
            nesting_well_founded(f, root),
            nested_below(f, root, *scc),
            rank == nesting_rank(f, root),
            i <= entries@.len(),
            children@.len() == i,
            forall|a: int|
                0 <= a < entries@.len() ==> map.contains_key(#[trigger] entries@[a].0) && map[entries@[a].0]
                    == entries@[a].1,
            forall|key: usize| #[trigger] map.contains_key(key) ==> is_child_scc(f, *scc, map[key])
                && map[key].enter == key,
            forall|a: int|
                #![trigger children@[a]]
                0 <= a < i ==> same_info(children@[a].scc, entries@[a].1) && builds_tree(f, children@[a]),
        decreases entries@.len() - i,
    {
        let child_scc = &entries[i].1;
        assert(map.contains_key(entries@[i as int].0));
        assert(is_child_scc(f, *scc, *child_scc));
        assert(ranks_nesting(f, root, rank));
        assert(rank(*child_scc) < rank(*scc));
        proof {
            lemma_nested_child(f, root, *scc, *child_scc);
        }
        let child = build_scc_tree_inner(child_scc, node_to_scc, Ghost(root));
        children.push(child);
        i += 1;
    }
    let tree = SccTree { scc: scc.clone(), children };
    assert forall|a: int| 0 <= a < tree.children@.len() implies is_child_tree(f, tree.scc, #[trigger] tree.children@[a]) by {
        assert(map.contains_key(entries@[a].0));
        assert(is_child_scc(f, *scc, entries@[a].1));
        let n = choose|n: usize|
            #[trigger] scc.nodes@.contains(n) && call_ensures(f, (n,), Some(entries@[a].1))
                && entries@[a].1.enter != scc.enter && !entries@[a].1.nodes@.is_empty();
        assert(tree.scc.nodes@.contains(n));
        assert(is_child_scc(f, tree.scc, entries@[a].1));
    }
    assert forall|c: SccInfo| #[trigger] is_child_scc(f, tree.scc, c) implies exists|a: int|
        0 <= a < tree.children@.len() && #[trigger] tree.children@[a].scc.enter == c.enter by {
        let n = choose|n: usize|
            #[trigger] tree.scc.nodes@.contains(n) && call_ensures(f, (n,), Some(c)) && c.enter
                != tree.scc.enter && !c.nodes@.is_empty();
        assert(scc.nodes@.contains(n));
        assert(is_child_scc(f, *scc, c));
        assert(map.contains_key(c.enter));
        let a = choose|a: int| 0 <= a < entries@.len() && #[trigger] entries@[a].0 == c.enter;
        assert(tree.children@[a].scc.enter == entries@[a].1.enter);
    }
    assert forall|a: int, b: int|
        0 <= a < b < tree.children@.len() implies #[trigger] tree.children@[a].scc.enter
        != #[trigger] tree.children@[b].scc.enter by {
        assert(map.contains_key(entries@[a].0));
        assert(map.contains_key(entries@[b].0));
        assert(entries@[a].0 != entries@[b].0);
    }
    assert forall|a: int| 0 <= a < tree.children@.len() implies builds_tree(f, #[trigger] tree.children@[a]) by {
        assert(children@[a] == tree.children@[a]);
    }
    assert(same_info(tree.scc, *scc));
    assert forall|n: usize| #[trigger] tree.scc.nodes@.contains(n) implies was_asked(f, n) by {
        assert(nodes@.to_set().contains(n));
        let j = choose|j: int| 0 <= j < nodes@.len() && nodes@[j] == n;
        assert(was_asked(f, nodes@[j]));
    }
    assert forall|a: int| 0 <= a < tree.children@.len() implies is_first_child_tree(
        f,
        tree.scc,
        nodes@,
        #[trigger] tree.children@[a],
    ) by {
        assert(map.contains_key(entries@[a].0));
        assert(children@[a] == tree.children@[a]);
        let c = entries@[a].1;
        assert(first_child_answer(f, *scc, nodes@, c));
        assert(first_child_answer(f, tree.scc, nodes@, c));
        assert(same_info(tree.children@[a].scc, c));
    }
    assert(nodes@.no_duplicates());
    assert(nodes@.to_set() == tree.scc.nodes@);
    assert(kept_first(f, tree, nodes@));
    assert(asked_in_order(f, tree));
    assert(children_match(f, tree));
    assert(builds_tree(f, tree));
    tree
}

} // verus!
