//! Shared strongly-connected-component utilities.
//!
//! This module provides the small Tarjan SCC abstraction used by analyses and by the
//! verification path extractor. The search is graph agnostic: clients provide successor
//! queries ([`SccClient`]) and receive each discovered SCC through `on_scc_found`.

use crate::graphs::fx::{fx_exit_set_clone, fx_map_insert, fx_set_clone, fx_set_contains, fx_set_insert, fx_set_into_vec, fx_set_remove};
use crate::graphs::reach::{comps_disjoint, comps_union, is_full_scc_decomposition, is_scc_decomposition};
use crate::graphs::scc_paths::{collect_scc_components, component_views, successor_graph};
use crate::graphs::search::{
    clock_room, lemma_child_step, lemma_frame_child, lemma_keeps_start, lemma_frame_emit, lemma_frame_low, lemma_frame_start,
    lemma_passive_step, lemma_root_visit, lemma_stack_unique, lemma_stacked_edge_step,
    lemma_unnumbered_all_zero, lemma_visit_emit, lemma_visit_keep, lemma_visit_start, lemma_wf_consistent,
    in_pop_order, search_wf, stack_consistent, unnumbered, visit_bounds, visit_frame, visit_frame_inv, visit_inv, visit_keeps, zero_clock,
    visit_post, visit_pre,
};
use rustc_hash::{FxHashMap, FxHashSet};
use vstd::prelude::*;

verus! {

/// An outgoing edge from an SCC body to a block outside the SCC.
#[derive(Debug, Clone, Eq, Hash, PartialEq)]
pub struct SccExit {
    pub exit: usize,
    pub to: usize,
}

impl SccExit {
    /// Create an SCC exit edge from `exit` to `to`.
    pub fn new(exit: usize, to: usize) -> (edge: Self)
        ensures
            edge.exit == exit,
            edge.to == to,
    {
        SccExit { exit, to }
    }
}

/// Per-header SCC metadata used by loop-aware analyses.
#[derive(Debug)]
pub struct SccInfo {
    /// Representative entry block of the SCC.
    pub enter: usize,
    /// Other blocks in the SCC, excluding `enter`.
    pub nodes: FxHashSet<usize>,
    /// Edges leaving the SCC.
    pub exits: FxHashSet<SccExit>,
    /// Blocks with back edges to the SCC representative.
    pub backnodes: FxHashSet<usize>,
    /// Representative `enter` nodes of nested child SCCs.
    pub child_sccs: Vec<usize>,
}

impl Clone for SccInfo {
    fn clone(&self) -> (copy: Self)
        ensures
            copy.enter == self.enter,
            copy.nodes@ == self.nodes@,
            copy.exits@ == self.exits@,
            copy.backnodes@ == self.backnodes@,
            copy.child_sccs@ == self.child_sccs@,
    {
        SccInfo {
            enter: self.enter,
            nodes: fx_set_clone(&self.nodes),
            exits: fx_exit_set_clone(&self.exits),
            backnodes: fx_set_clone(&self.backnodes),
            child_sccs: self.child_sccs.clone(),
        }
    }
}

impl SccInfo {
    /// Create empty SCC metadata for `enter`.
    pub fn new(enter: usize) -> (info: Self)
        ensures
            info.enter == enter,
            info.nodes@ == Set::<usize>::empty(),
            info.exits@ == Set::<SccExit>::empty(),
            info.backnodes@ == Set::<usize>::empty(),
            info.child_sccs@ == Seq::<usize>::empty(),
    {
        SccInfo {
            enter,
            nodes: FxHashSet::default(),
            exits: FxHashSet::default(),
            backnodes: FxHashSet::default(),
            child_sccs: Vec::new(),
        }
    }

    /// Returns `true` when this SCC contains only its entry block (no member nodes).
    ///
    /// A trivial SCC has no loops and requires no special path enumeration.
    pub fn is_trivial(&self) -> (trivial: bool)
        ensures
            trivial == self.nodes@.is_empty(),
    {
        self.nodes.is_empty()
    }
}

/// A tree of nested SCCs: an SCC with the trees of the SCCs nested directly inside it.
#[derive(Debug)]
pub struct SccTree {
    /// The SCC at this level.
    pub scc: SccInfo,
    /// The trees of the child SCCs.
    pub children: Vec<SccTree>,
}

/// SCC region metadata summarized from a plain successor graph.
#[derive(Debug, Clone)]
pub struct SccRegionSummary {
    /// Stable SCC representative (smallest node id in this SCC).
    pub representative: usize,
    /// All nodes inside the SCC, including `representative`.
    pub blocks: Vec<usize>,
    /// Edges leaving this SCC.
    pub exits: Vec<SccExit>,
    /// Internal edges considered as loop backedges.
    pub backedges: Vec<(usize, usize)>,
}

/// Reusable SCC analysis result for modules that only have successor lists.
#[derive(Debug, Clone, Default)]
pub struct SccAnalysis {
    /// Non-trivial SCC regions (multi-node SCCs or self-loop SCCs).
    pub regions: Vec<SccRegionSummary>,
    /// Map each SCC member node to its SCC representative.
    pub node_to_representative: FxHashMap<usize, usize>,
}

/// The entries of `s` strictly increase.
pub open spec fn strictly_sorted(s: Seq<usize>) -> bool {
    forall|i: int, j: int| 0 <= i < j < s.len() ==> s[i] < s[j]
}

/// The exits of one block: the edges `block -> succ`, in successor order, whose target is
/// not a member of the region.
pub open spec fn exits_from(block: usize, succ: Seq<usize>, members: Set<usize>) -> Seq<SccExit>
    decreases succ.len(),
{
    if succ.len() == 0 {
        Seq::empty()
    } else {
        let rest = exits_from(block, succ.drop_last(), members);
        if members.contains(succ.last()) {
            rest
        } else {
            rest.push(SccExit { exit: block, to: succ.last() })
        }
    }
}

/// The backedges of one block: the edges `block -> succ`, in successor order, whose target
/// is a member of the region and is either not after `block` or the representative.
pub open spec fn backedges_from(
    block: usize,
    succ: Seq<usize>,
    members: Set<usize>,
    representative: usize,
) -> Seq<(usize, usize)>
    decreases succ.len(),
{
    if succ.len() == 0 {
        Seq::empty()
    } else {
        let rest = backedges_from(block, succ.drop_last(), members, representative);
        let x = succ.last();
        if members.contains(x) && (x <= block || x == representative) {
            rest.push((block, x))
        } else {
            rest
        }
    }
}

/// The exits of a region, block by block in the order of `blocks`.
pub open spec fn region_exits(
    successors: Seq<Vec<usize>>,
    blocks: Seq<usize>,
    members: Set<usize>,
) -> Seq<SccExit>
    decreases blocks.len(),
{
    if blocks.len() == 0 {
        Seq::empty()
    } else {
        region_exits(successors, blocks.drop_last(), members) + exits_from(
            blocks.last(),
            successors[blocks.last() as int]@,
            members,
        )
    }
}

/// The backedges of a region, block by block in the order of `blocks`.
pub open spec fn region_backedges(
    successors: Seq<Vec<usize>>,
    blocks: Seq<usize>,
    members: Set<usize>,
    representative: usize,
) -> Seq<(usize, usize)>
    decreases blocks.len(),
{
    if blocks.len() == 0 {
        Seq::empty()
    } else {
        region_backedges(successors, blocks.drop_last(), members, representative) + backedges_from(
            blocks.last(),
            successors[blocks.last() as int]@,
            members,
            representative,
        )
    }
}

/// A component is a region when it has several nodes, or one node with an edge to itself.
pub open spec fn is_region_component(successors: Seq<Vec<usize>>, comp: Seq<usize>) -> bool {
    comp.len() > 1 || (comp.len() == 1 && successors[comp[0] as int]@.contains(comp[0]))
}

/// `region` summarizes the component `comp`: its blocks are the component's nodes in
/// increasing order, its representative is the first (smallest) of them, and its exits and
/// backedges are listed block by block in that order.
pub open spec fn summarizes_region(
    region: SccRegionSummary,
    successors: Seq<Vec<usize>>,
    comp: Seq<usize>,
) -> bool {
    let blocks = region.blocks@;
    &&& strictly_sorted(blocks)
    &&& blocks.len() == comp.len()
    &&& blocks.to_set() == comp.to_set()
    &&& region.representative == blocks[0]
    &&& region.exits@ == region_exits(successors, blocks, blocks.to_set())
    &&& region.backedges@ == region_backedges(successors, blocks, blocks.to_set(), blocks[0])
}

/// `regions` holds, in order, one summary for each component of `comps` that is a region.
pub open spec fn summarizes_regions(
    regions: Seq<SccRegionSummary>,
    successors: Seq<Vec<usize>>,
    comps: Seq<Seq<usize>>,
) -> bool
    decreases comps.len(),
{
    if comps.len() == 0 {
        regions.len() == 0
    } else if is_region_component(successors, comps.last()) {
        &&& regions.len() > 0
        &&& summarizes_regions(regions.drop_last(), successors, comps.drop_last())
        &&& summarizes_region(regions.last(), successors, comps.last())
    } else {
        summarizes_regions(regions, successors, comps.drop_last())
    }
}

/// `m` maps exactly the nodes of the region components of `comps`, each to the smallest
/// node of its component.
pub open spec fn maps_to_representatives(
    m: Map<usize, usize>,
    successors: Seq<Vec<usize>>,
    comps: Seq<Seq<usize>>,
) -> bool {
    &&& forall|x: usize|
        #[trigger] m.dom().contains(x) <==> exists|i: int|
            0 <= i < comps.len() && is_region_component(successors, comps[i]) && #[trigger] comps[i].contains(x)
    &&& forall|i: int, x: usize|
        0 <= i < comps.len() && is_region_component(successors, comps[i]) && #[trigger] comps[i].contains(x)
            ==> comps[i].contains(m[x]) && forall|y: usize| #[trigger] comps[i].contains(y) ==> m[x] <= y
}

/// Sorts node ids into increasing order (`slice::sort_unstable`): the result is a
/// rearrangement of the input that never decreases.
#[verifier::external_body]
fn sort_nodes(nodes: &mut Vec<usize>)
    ensures
        final(nodes)@.to_multiset() == old(nodes)@.to_multiset(),
        forall|i: int, j: int| 0 <= i < j < final(nodes)@.len() ==> final(nodes)@[i] <= final(nodes)@[j],
{
    nodes.sort_unstable();
}

/// Whether `list` holds `x`.
fn list_contains(list: &Vec<usize>, x: usize) -> (found: bool)
    ensures
        found == list@.contains(x),
{
    let mut i: usize = 0;
    while i < list.len()
        invariant
            i <= list@.len(),
            forall|j: int| 0 <= j < i ==> list@[j] != x,
        decreases list@.len() - i,
    {
        if list[i] == x {
            assert(list@[i as int] == x);
            return true;
        }
        i += 1;
    }
    false
}

/// Sorting a list of distinct nodes gives the strictly increasing list of the same nodes.
proof fn lemma_sorted_arrangement(before: Seq<usize>, after: Seq<usize>)
    requires
        before.no_duplicates(),
        after.to_multiset() == before.to_multiset(),
        forall|i: int, j: int| 0 <= i < j < after.len() ==> after[i] <= after[j],
    ensures
        after.len() == before.len(),
        after.to_set() == before.to_set(),
        after.no_duplicates(),
        strictly_sorted(after),
{
    before.to_multiset_ensures();
    after.to_multiset_ensures();
    assert forall|x: usize| after.to_set().contains(x) <==> before.to_set().contains(x) by {
        assert(after.contains(x) <==> after.to_multiset().count(x) > 0);
        assert(before.contains(x) <==> before.to_multiset().count(x) > 0);
    }
    assert(after.to_set() =~= before.to_set());
    before.unique_seq_to_set();
    after.lemma_no_dup_set_cardinality();
}

/// Summarizes one component, or gives `None` when it is not a region (a single node
/// without an edge to itself).
fn region_of(successors: &[Vec<usize>], component: Vec<usize>) -> (region: Option<SccRegionSummary>)
    requires
        component@.len() > 0,
        component@.no_duplicates(),
        forall|i: int| 0 <= i < component@.len() ==> #[trigger] component@[i] < successors@.len(),
    ensures
        region is Some <==> is_region_component(successors@, component@),
        region matches Some(r) ==> summarizes_region(r, successors@, component@),
{
    let ghost unsorted = component@;
    let ghost s = successors@;
    let mut component = component;
    sort_nodes(&mut component);
    proof {
        lemma_sorted_arrangement(unsorted, component@);
    }
    let ghost blocks = component@;
    assert forall|i: int| 0 <= i < blocks.len() implies #[trigger] blocks[i] < successors@.len() by {
        assert(blocks.to_set().contains(blocks[i]));
        assert(unsorted.to_set().contains(blocks[i]));
        let j = choose|j: int| 0 <= j < unsorted.len() && unsorted[j] == blocks[i];
    }
    proof {
        if blocks.len() == 1 {
            assert(blocks.to_set().contains(blocks[0]));
            assert(unsorted.to_set().contains(blocks[0]));
            let j = choose|j: int| 0 <= j < unsorted.len() && unsorted[j] == blocks[0];
            assert(unsorted[0] == blocks[0]);
        }
    }
    let has_self_edge = component.len() == 1 && list_contains(&successors[component[0]], component[0]);
    if component.len() <= 1 && !has_self_edge {
        return None;
    }
    let representative = component[0];
    let ghost members = blocks.to_set();
    let mut block_set = FxHashSet::<usize>::default();
    let mut j: usize = 0;
    while j < component.len()
        invariant
            component@ == blocks,
            j <= blocks.len(),
            block_set@ == blocks.take(j as int).to_set(),
        decreases blocks.len() - j,
    {
        proof {
            blocks.take(j as int).lemma_push_to_set_commute(blocks[j as int]);
            assert(blocks.take(j + 1) =~= blocks.take(j as int).push(blocks[j as int]));
        }
        fx_set_insert(&mut block_set, component[j]);
        j += 1;
    }
    assert(blocks.take(blocks.len() as int) =~= blocks);
    let mut exits: Vec<SccExit> = Vec::new();
    let mut backedges: Vec<(usize, usize)> = Vec::new();
    let mut j: usize = 0;
    assert(blocks.take(0) =~= Seq::<usize>::empty());
    while j < component.len()
        invariant
            component@ == blocks,
            s == successors@,
            j <= blocks.len(),
            block_set@ == members,
            representative == blocks[0],
            forall|i: int| 0 <= i < blocks.len() ==> #[trigger] blocks[i] < s.len(),
            exits@ == region_exits(s, blocks.take(j as int), members),
            backedges@ == region_backedges(s, blocks.take(j as int), members, representative),
        decreases blocks.len() - j,
    {
        let block = component[j];
        let succs = &successors[block];
        let ghost exits_before = exits@;
        let ghost backedges_before = backedges@;
        let ghost sl = succs@;
        let mut k: usize = 0;
        assert(sl.take(0) =~= Seq::<usize>::empty());
        assert(exits@ =~= exits_before + exits_from(block, sl.take(0), members));
        assert(backedges@ =~= backedges_before + backedges_from(block, sl.take(0), members, representative));
        while k < succs.len()
            invariant
                succs@ == sl,
                k <= sl.len(),
                block_set@ == members,
                exits@ == exits_before + exits_from(block, sl.take(k as int), members),
                backedges@ == backedges_before + backedges_from(
                    block,
                    sl.take(k as int),
                    members,
                    representative,
                ),
            decreases sl.len() - k,
        {
            let succ = succs[k];
            assert(sl.take(k + 1).drop_last() =~= sl.take(k as int));
            assert(sl.take(k + 1).last() == succ);
            if fx_set_contains(&block_set, succ) {
                if succ <= block || succ == representative {
                    backedges.push((block, succ));
                }
            } else {
                exits.push(SccExit::new(block, succ));
            }
            assert(exits@ =~= exits_before + exits_from(block, sl.take(k + 1), members));
            assert(backedges@ =~= backedges_before + backedges_from(
                block,
                sl.take(k + 1),
                members,
                representative,
            ));
            k += 1;
        }
        assert(sl.take(sl.len() as int) =~= sl);
        assert(blocks.take(j + 1).drop_last() =~= blocks.take(j as int));
        assert(blocks.take(j + 1).last() == block);
        j += 1;
    }
    assert(blocks.take(blocks.len() as int) =~= blocks);
    Some(SccRegionSummary { representative, blocks: component, exits, backedges })
}

/// Summarizes, in order, the components of `components` that are regions, and maps each
/// of their nodes to the representative of its region.
#[verifier::rlimit(30)]
fn summarize_regions(successors: &[Vec<usize>], components: &Vec<Vec<usize>>) -> (analysis: SccAnalysis)
    requires
        comps_disjoint(component_views(components@)),
        forall|i: int, j: int|
            0 <= i < components@.len() && 0 <= j < components@[i]@.len() ==> #[trigger] components@[i]@[j]
                < successors@.len(),
    ensures
        summarizes_regions(analysis.regions@, successors@, component_views(components@)),
        maps_to_representatives(analysis.node_to_representative@, successors@, component_views(components@)),
{
    let ghost s = successors@;
    let ghost comps = component_views(components@);
    let mut regions: Vec<SccRegionSummary> = Vec::new();
    let mut node_to_representative = FxHashMap::<usize, usize>::default();
    let mut i: usize = 0;
    assert(comps.take(0) =~= Seq::<Seq<usize>>::empty());
    while i < components.len()
        invariant
            s == successors@,
            comps == component_views(components@),
            comps.len() == components@.len(),
            comps_disjoint(comps),
            forall|a: int, b: int|
                0 <= a < components@.len() && 0 <= b < components@[a]@.len() ==> #[trigger] components@[a]@[b]
                    < successors@.len(),
            i <= components@.len(),
            summarizes_regions(regions@, s, comps.take(i as int)),
            maps_to_representatives(node_to_representative@, s, comps.take(i as int)),
        decreases components@.len() - i,
    {
        let component = components[i].clone();
        let ghost comp = comps[i as int];
        assert(component@ =~= comp);
        assert(comps[i as int].len() > 0);
        assert(comps[i as int].no_duplicates());
        assert(comps.take(i + 1).drop_last() =~= comps.take(i as int));
        assert(comps.take(i + 1).last() == comp);
        let ghost before = node_to_representative@;
        let ghost regions_before = regions@;
        match region_of(successors, component) {
            Some(region) => {
                let ghost blocks = region.blocks@;
                let ghost rep = region.representative;
                assert forall|y: usize| #[trigger] comp.contains(y) implies rep <= y && blocks.contains(y) by {
                    assert(comp.to_set().contains(y));
                    assert(blocks.to_set().contains(y));
                }
                assert(comp.contains(rep)) by {
                    assert(blocks.to_set().contains(blocks[0]));
                    assert(comp.to_set().contains(rep));
                }
                let mut j: usize = 0;
                while j < region.blocks.len()
                    invariant
                        region.blocks@ == blocks,
                        region.representative == rep,
                        j <= blocks.len(),
                        node_to_representative@ == before.union_prefer_right(
                            Map::new(|x: usize| blocks.take(j as int).contains(x), |x: usize| rep),
                        ),
                    decreases blocks.len() - j,
                {
                    let block = region.blocks[j];
                    fx_map_insert(&mut node_to_representative, block, region.representative);
                    proof {
                        let t0 = blocks.take(j as int);
                        let t1 = blocks.take(j + 1);
                        assert forall|x: usize| t1.contains(x) <==> (t0.contains(x) || x == block) by {
                            if t1.contains(x) {
                                let k = choose|k: int| 0 <= k < t1.len() && t1[k] == x;
                                if k < j {
                                    assert(t0[k] == x);
                                }
                            }
                            if t0.contains(x) {
                                let k = choose|k: int| 0 <= k < t0.len() && t0[k] == x;
                                assert(t1[k] == x);
                            }
                            if x == block {
                                assert(t1[j as int] == x);
                            }
                        }
                        assert(node_to_representative@ =~= before.union_prefer_right(
                            Map::new(|x: usize| t1.contains(x), |x: usize| rep),
                        ));
                    }
                    j += 1;
                }
                assert(blocks.take(blocks.len() as int) =~= blocks);
                assert forall|x: usize| blocks.contains(x) <==> #[trigger] comp.contains(x) by {
                    if blocks.contains(x) {
                        assert(blocks.to_set().contains(x));
                        assert(comp.to_set().contains(x));
                    }
                }
                regions.push(region);
                proof {
                    assert(regions@.drop_last() =~= regions_before);
                    assert(summarizes_regions(regions@, s, comps.take(i + 1)));
                    lemma_map_after_region(s, comps, i as int, before, node_to_representative@, rep, blocks);
                }
            },
            None => {
                proof {
                    lemma_map_after_non_region(s, comps, i as int, before);
                    assert(summarizes_regions(regions@, s, comps.take(i + 1)));
                }
            },
        }
        i += 1;
    }
    assert(comps.take(components@.len() as int) =~= comps);
    SccAnalysis { regions, node_to_representative }
}

/// Adding the nodes of region component `i`, mapped to its smallest node, extends the
/// representative map from the first `i` components to the first `i + 1`.
proof fn lemma_map_after_region(
    s: Seq<Vec<usize>>,
    comps: Seq<Seq<usize>>,
    i: int,
    before: Map<usize, usize>,
    after: Map<usize, usize>,
    rep: usize,
    blocks: Seq<usize>,
)
    requires
        0 <= i < comps.len(),
        comps_disjoint(comps),
        is_region_component(s, comps[i]),
        maps_to_representatives(before, s, comps.take(i)),
        after == before.union_prefer_right(Map::new(|x: usize| blocks.contains(x), |x: usize| rep)),
        forall|x: usize| blocks.contains(x) <==> #[trigger] comps[i].contains(x),
        comps[i].contains(rep),
        forall|y: usize| #[trigger] comps[i].contains(y) ==> rep <= y,
    ensures
        maps_to_representatives(after, s, comps.take(i + 1)),
{
    let c0 = comps.take(i);
    let c1 = comps.take(i + 1);
    assert forall|x: usize| #[trigger] after.dom().contains(x) <==> exists|k: int|
        0 <= k < c1.len() && is_region_component(s, c1[k]) && #[trigger] c1[k].contains(x) by {
        if after.dom().contains(x) {
            if blocks.contains(x) {
                assert(c1[i] == comps[i]);
                assert(c1[i].contains(x));
            } else {
                let k = choose|k: int| 0 <= k < c0.len() && is_region_component(s, c0[k]) && #[trigger] c0[k].contains(x);
                assert(c1[k] == c0[k]);
            }
        }
        if exists|k: int| 0 <= k < c1.len() && is_region_component(s, c1[k]) && #[trigger] c1[k].contains(x) {
            let k = choose|k: int| 0 <= k < c1.len() && is_region_component(s, c1[k]) && #[trigger] c1[k].contains(x);
            if k < i {
                assert(c0[k] == c1[k]);
                assert(c0[k].contains(x));
                assert(before.dom().contains(x));
            } else {
                assert(blocks.contains(x));
            }
        }
    }
    assert forall|k: int, x: usize|
        0 <= k < c1.len() && is_region_component(s, c1[k]) && #[trigger] c1[k].contains(x) implies c1[k].contains(
        after[x],
    ) && forall|y: usize| #[trigger] c1[k].contains(y) ==> after[x] <= y by {
        if k == i {
            assert(blocks.contains(x));
            assert(after[x] == rep);
        } else {
            assert(c0[k] == c1[k]);
            assert(c0[k].contains(x));
            assert(comps[k] == c1[k]);
            if blocks.contains(x) {
                assert(comps[i].contains(x));
                assert(comps[k].contains(x));
            }
            assert(after[x] == before[x]);
        }
    }
}

/// A component that is not a region leaves the representative map as it is.
proof fn lemma_map_after_non_region(
    s: Seq<Vec<usize>>,
    comps: Seq<Seq<usize>>,
    i: int,
    m: Map<usize, usize>,
)
    requires
        0 <= i < comps.len(),
        !is_region_component(s, comps[i]),
        maps_to_representatives(m, s, comps.take(i)),
    ensures
        maps_to_representatives(m, s, comps.take(i + 1)),
{
    let c0 = comps.take(i);
    let c1 = comps.take(i + 1);
    assert forall|x: usize| #[trigger] m.dom().contains(x) <==> exists|k: int|
        0 <= k < c1.len() && is_region_component(s, c1[k]) && #[trigger] c1[k].contains(x) by {
        if m.dom().contains(x) {
            let k = choose|k: int| 0 <= k < c0.len() && is_region_component(s, c0[k]) && #[trigger] c0[k].contains(x);
            assert(c1[k] == c0[k]);
        }
        if exists|k: int| 0 <= k < c1.len() && is_region_component(s, c1[k]) && #[trigger] c1[k].contains(x) {
            let k = choose|k: int| 0 <= k < c1.len() && is_region_component(s, c1[k]) && #[trigger] c1[k].contains(x);
            assert(k != i);
            assert(c0[k] == c1[k]);
        }
    }
    assert forall|k: int, x: usize|
        0 <= k < c1.len() && is_region_component(s, c1[k]) && #[trigger] c1[k].contains(x) implies c1[k].contains(
        m[x],
    ) && forall|y: usize| #[trigger] c1[k].contains(y) ==> m[x] <= y by {
        assert(k != i);
        assert(c0[k] == c1[k]);
    }
}

/// Analyze non-trivial SCC regions from a plain successor graph.
///
/// This keeps SCC region metadata in the shared graph layer so downstream
/// analyses (for example verification path extraction) can reuse it directly.
///
/// The regions are those strongly connected components of the whole graph that have
/// several nodes or an edge to themselves, in the order the search reported the
/// components.
pub fn analyze_scc_regions(successors: &[Vec<usize>]) -> (analysis: SccAnalysis)
    requires
        successors@.len() < usize::MAX,
    ensures
        exists|comps: Seq<Seq<usize>>|
            {
                &&& is_full_scc_decomposition(successor_graph(successors@), comps)
                &&& summarizes_regions(analysis.regions@, successors@, comps)
                &&& maps_to_representatives(analysis.node_to_representative@, successors@, comps)
            },
{
    let components = collect_scc_components(successors);
    let ghost comps = component_views(components@);
    assert forall|i: int, j: int|
        0 <= i < components@.len() && 0 <= j < components@[i]@.len() implies #[trigger] components@[i]@[j]
        < successors@.len() by {
        assert(comps[i] == components@[i]@);
        assert(comps[i].contains(components@[i]@[j]));
        assert(comps_union(comps).contains(components@[i]@[j]));
    }
    summarize_regions(successors, &components)
}

/// `f` is `f0` followed by the strongly connected components of the nodes that `start`
/// reaches in `g`, listed so that every edge leads to the same or an earlier component.
pub open spec fn reports_components(
    g: Seq<Set<usize>>,
    start: usize,
    f0: Seq<Seq<usize>>,
    f: Seq<Seq<usize>>,
) -> bool {
    &&& f0.len() <= f.len()
    &&& f.subrange(0, f0.len() as int) == f0
    &&& is_scc_decomposition(g, start, f.subrange(f0.len() as int, f.len() as int))
}

/// What a search from `start` over `g` leaves in the list of found components: nothing new
/// when `start` is not a node, else the components of what `start` reaches.
pub open spec fn searched_from(
    g: Seq<Set<usize>>,
    start: usize,
    f0: Seq<Seq<usize>>,
    f: Seq<Seq<usize>>,
) -> bool {
    &&& start >= g.len() ==> f == f0
    &&& start < g.len() ==> reports_components(g, start, f0, f)
}

/// What a client of the SCC search provides: successor queries over a graph and a
/// callback that receives each discovered SCC.
///
/// `graph()` is the searched graph seen as successor sets, and `found()` the list of the
/// components handed to `on_scc_found` so far.
pub trait SccClient {
    /// The searched graph: node `u < graph().len()` has the successors `graph()[u]`.
    spec fn graph(&self) -> Seq<Set<usize>>;

    /// The components handed to `on_scc_found` so far, oldest first.
    spec fn found(&self) -> Seq<Seq<usize>>;

    /// Callback invoked for each discovered SCC; `root` is its first node.
    fn on_scc_found(&mut self, root: usize, scc_components: &[usize])
        requires
            scc_components@.len() > 0,
            scc_components@[0] == root,
        ensures
            final(self).graph() == old(self).graph(),
            final(self).found() == old(self).found().push(scc_components@),
    ;

    /// Return outgoing successors of `root`.
    fn get_next(&mut self, root: usize) -> (next: FxHashSet<usize>)
        ensures
            final(self).graph() == old(self).graph(),
            final(self).found() == old(self).found(),
            root < old(self).graph().len() ==> next@ == old(self).graph()[root as int],
    ;

    /// Return the number of graph nodes.
    fn get_size(&mut self) -> (size: usize)
        ensures
            final(self).graph() == old(self).graph(),
            final(self).found() == old(self).found(),
            size == old(self).graph().len(),
    ;
}

/// Tarjan SCC search over an [`SccClient`].
pub trait Scc: SccClient {
    /// Run SCC discovery from CFG entry block 0: the same search as `find_scc_from(0)`.
    fn find_scc(&mut self)
        requires
            old(self).graph().len() < usize::MAX,
        ensures
            final(self).graph() == old(self).graph(),
            searched_from(old(self).graph(), 0, old(self).found(), final(self).found()),
    {
        if self.get_size() == 0 {
            return ;
        }
        self.find_scc_from(0);
    }

    /// Run SCC discovery from a specific start node.
    fn find_scc_from(&mut self, start: usize)
        requires
            old(self).graph().len() < usize::MAX,
        ensures
            final(self).graph() == old(self).graph(),
            searched_from(old(self).graph(), start, old(self).found(), final(self).found()),
    {
        if start >= self.get_size() {
            return ;
        }
        let ghost g = self.graph();
        let ghost f0 = self.found();
        let mut stack: Vec<usize> = Vec::new();
        let mut instack = FxHashSet::<usize>::default();
        let mut dfn = vec![0; self.get_size()];
        let mut low = vec![0; self.get_size()];
        let mut time: usize = 1;
        let ghost d0 = dfn@;
        let ghost l0 = low@;
        proof {
            lemma_unnumbered_all_zero(d0);
            assert(search_wf(g.len(), stack@, instack@, d0, time));
        }
        self.tarjan(start, &mut stack, &mut instack, &mut dfn, &mut low, &mut time);
        proof {
            lemma_root_visit(g, start, d0, l0, 1, f0, stack@, instack@, dfn@, low@, time, self.found());
        }
    }

    /// Recursive Tarjan traversal.
    ///
    /// With `index` an unnumbered node, numbering and low values as long as the graph and
    /// room on the clock, it indexes only below the graph's size, keeps the lengths and the
    /// old stack as a prefix, and leaves a clock of at least 1. Started with a clock of at
    /// least 1, it numbers `index` with the clock, hands out fresh numbers, keeps old numbers,
    /// and keeps a consistent stack consistent (a clock at 0 numbers `index` 0, so a
    /// successor may visit it again and push it twice). Started in a well-formed search
    /// state, it also reports the components it completes.
    fn tarjan(
        &mut self,
        index: usize,
        stack: &mut Vec<usize>,
        instack: &mut FxHashSet<usize>,
        dfn: &mut Vec<usize>,
        low: &mut Vec<usize>,
        time: &mut usize,
    )
        requires
            visit_bounds(old(self).graph().len(), index, old(dfn)@, old(low)@, *old(time)),
        ensures
            final(self).graph() == old(self).graph(),
            visit_keeps(
                old(self).graph().len(),
                old(stack)@,
                old(dfn)@,
                *old(time),
                final(stack)@,
                final(dfn)@,
                final(low)@,
                *final(time),
            ),
            1 <= *old(time) ==> visit_frame(
                old(self).graph().len(),
                index,
                old(stack)@,
                old(instack)@,
                old(dfn)@,
                old(low)@,
                *old(time),
                final(stack)@,
                final(instack)@,
                final(dfn)@,
                final(low)@,
                *final(time),
            ),
            visit_pre(old(self).graph(), index, old(stack)@, old(instack)@, old(dfn)@, old(low)@, *old(time))
                ==> visit_post(
                old(self).graph(),
                index,
                old(stack)@,
                old(instack)@,
                old(dfn)@,
                old(low)@,
                *old(time),
                old(self).found(),
                final(stack)@,
                final(instack)@,
                final(dfn)@,
                final(low)@,
                *final(time),
                final(self).found(),
            ),
    {
        tarjan_visit(self, index, stack, instack, dfn, low, time)
    }
}

/// The recursive visit behind [`Scc::tarjan`]: number `index`, push it, visit its unvisited
/// successors, take the low value over tree and stack edges, and emit the component rooted
/// at `index` when its low value equals its number.
fn tarjan_visit<S: SccClient + ?Sized>(
    s: &mut S,
    index: usize,
    stack: &mut Vec<usize>,
    instack: &mut FxHashSet<usize>,
    dfn: &mut Vec<usize>,
    low: &mut Vec<usize>,
    time: &mut usize,
)
    requires
        visit_bounds(old(s).graph().len(), index, old(dfn)@, old(low)@, *old(time)),
    ensures
        final(s).graph() == old(s).graph(),
        visit_keeps(
            old(s).graph().len(),
            old(stack)@,
            old(dfn)@,
            *old(time),
            final(stack)@,
            final(dfn)@,
            final(low)@,
            *final(time),
        ),
        1 <= *old(time) ==> visit_frame(
            old(s).graph().len(),
            index,
            old(stack)@,
            old(instack)@,
            old(dfn)@,
            old(low)@,
            *old(time),
            final(stack)@,
            final(instack)@,
            final(dfn)@,
            final(low)@,
            *final(time),
        ),
        visit_pre(old(s).graph(), index, old(stack)@, old(instack)@, old(dfn)@, old(low)@, *old(time))
            ==> visit_post(
            old(s).graph(),
            index,
            old(stack)@,
            old(instack)@,
            old(dfn)@,
            old(low)@,
            *old(time),
            old(s).found(),
            final(stack)@,
            final(instack)@,
            final(dfn)@,
            final(low)@,
            *final(time),
            final(s).found(),
        ),
    decreases unnumbered(old(dfn)@), zero_clock(*old(time)),
{
    let ghost g = s.graph();
    let ghost n = g.len();
    let ghost st0 = stack@;
    let ghost ins0 = instack@;
    let ghost d0 = dfn@;
    let ghost l0 = low@;
    let ghost f0 = s.found();
    let ghost t0 = *time;
    let ghost fresh = 1 <= t0;
    let ghost strong = visit_pre(g, index, st0, ins0, d0, l0, t0);
    let ghost c0 = stack_consistent(st0, ins0, d0);
    proof {
        lemma_keeps_start(n, index, st0, d0, l0, t0);
        if fresh {
            lemma_frame_start(n, index, st0, ins0, d0, l0, t0);
        }
        if strong {
            lemma_visit_start(g, index, st0, ins0, d0, l0, t0, f0);
            lemma_wf_consistent(n, st0, ins0, d0, t0);
        }
    }
    dfn.set(index, *time);
    low.set(index, *time);
    *time += 1;
    stack.push(index);
    fx_set_insert(instack, index);

    let size = s.get_size();
    let nexts = fx_set_into_vec(s.get_next(index));
    let ghost mut seen: Set<usize> = Set::empty();
    assert(nexts@.take(0) =~= Seq::<usize>::empty());
    let mut k: usize = 0;
    while k < nexts.len()
        invariant
            k <= nexts.len(),
            d0 == old(dfn)@,
            t0 == *old(time),
            n == g.len(),
            size == g.len(),
            s.graph() == g,
            nexts@.to_set() == g[index as int],
            seen == nexts@.take(k as int).to_set(),
            visit_bounds(n, index, d0, l0, t0),
            fresh == (1 <= t0),
            strong == visit_pre(g, index, st0, ins0, d0, l0, t0),
            strong ==> c0,
            strong ==> fresh,
            c0 == stack_consistent(st0, ins0, d0),
            visit_keeps(n, st0, d0, t0, stack@, dfn@, low@, *time),
            st0.len() < stack@.len(),
            stack@[st0.len() as int] == index,
            fresh ==> visit_frame_inv(n, index, st0, ins0, d0, l0, t0, stack@, instack@, dfn@, low@, *time),
            strong ==> visit_inv(
                g,
                index,
                st0,
                ins0,
                d0,
                l0,
                t0,
                f0,
                stack@,
                instack@,
                dfn@,
                low@,
                *time,
                s.found(),
                seen,
            ),
        decreases nexts.len() - k,
    {
        let next = nexts[k];
        assert(nexts@.take(k + 1) =~= nexts@.take(k as int).push(next));
        if next >= size {
            proof {
                if strong {
                    lemma_passive_step(
                        g, index, st0, ins0, d0, l0, t0, f0, stack@, instack@, dfn@, low@, *time,
                        s.found(), seen, next,
                    );
                }
            }
        } else if dfn[next] == 0 {
            let ghost st1 = stack@;
            let ghost ins1 = instack@;
            let ghost d1 = dfn@;
            let ghost l1 = low@;
            let ghost t1 = *time;
            let ghost f1 = s.found();
            assert(nexts@.contains(next)) by {
                assert(nexts@[k as int] == next);
            }
            assert(g[index as int].contains(next));
            assert(clock_room(t1, d1) == t1 + unnumbered(d1));
            assert(fresh ==> unnumbered(dfn@) < unnumbered(d0));
            assert(unnumbered(dfn@) <= unnumbered(d0));
            assert(*time != 0);
            assert(decreases_to!(unnumbered(d0), zero_clock(t0) => unnumbered(dfn@), zero_clock(*time)));

            tarjan_visit(s, next, stack, instack, dfn, low, time);
            let ghost l2 = low@;
            proof {
                assert(stack@[st0.len() as int] == st1[st0.len() as int]);
                if fresh {
                    lemma_frame_child(
                        n, index, st0, ins0, d0, l0, t0, st1, ins1, d1, l1, t1, next, stack@, instack@,
                        dfn@, l2, *time,
                    );
                }
                if strong {
                    lemma_child_step(
                        g, index, st0, ins0, d0, l0, t0, f0, st1, ins1, d1, l1, t1, f1, seen, next,
                        stack@, instack@, dfn@, l2, *time, s.found(),
                    );
                }
                if fresh {
                    lemma_frame_low(
                        n, index, st0, ins0, d0, l0, t0, stack@, instack@, dfn@, l2, *time,
                        if l2[next as int] < l2[index as int] {
                            l2[next as int]
                        } else {
                            l2[index as int]
                        },
                    );
                }
            }
            if low[next] < low[index] {
                let lw = low[next];
                low.set(index, lw);
            }
            assert(low@ =~= l2.update(
                index as int,
                if l2[next as int] < l2[index as int] {
                    l2[next as int]
                } else {
                    l2[index as int]
                },
            ));
        } else if fx_set_contains(instack, next) {
            let ghost l1 = low@;
            assert(nexts@.contains(next)) by {
                assert(nexts@[k as int] == next);
            }
            assert(g[index as int].contains(next));
            proof {
                if strong {
                    lemma_stacked_edge_step(
                        g, index, st0, ins0, d0, l0, t0, f0, stack@, instack@, dfn@, l1, *time,
                        s.found(), seen, next,
                    );
                }
                if fresh {
                    lemma_frame_low(
                        n, index, st0, ins0, d0, l0, t0, stack@, instack@, dfn@, l1, *time,
                        if dfn@[next as int] < l1[index as int] {
                            dfn@[next as int]
                        } else {
                            l1[index as int]
                        },
                    );
                }
            }
            if dfn[next] < low[index] {
                let dn = dfn[next];
                low.set(index, dn);
            }
            assert(low@ =~= l1.update(
                index as int,
                if dfn@[next as int] < l1[index as int] {
                    dfn@[next as int]
                } else {
                    l1[index as int]
                },
            ));
        } else {
            proof {
                if strong {
                    lemma_passive_step(
                        g, index, st0, ins0, d0, l0, t0, f0, stack@, instack@, dfn@, low@, *time,
                        s.found(), seen, next,
                    );
                }
            }
        }
        proof {
            nexts@.take(k as int).lemma_push_to_set_commute(next);
            seen = seen.insert(next);
        }
        k += 1;
    }
    assert(nexts@.take(k as int) =~= nexts@);
    if dfn[index] == low[index] {
        let ghost full = stack@;
        let ghost ins_full = instack@;
        let ghost b = st0.len() as int;
        proof {
            if fresh {
                assert forall|i: int| b < i < full.len() implies full[i] != index by {
                    assert(dfn@[full[b] as int] < dfn@[full[i] as int]);
                }
            }
        }
        let mut component: Vec<usize> = vec![index];
        loop
            invariant_except_break
                b < stack.len() <= full.len(),
                stack@ == full.subrange(0, stack.len() as int),
                fresh && c0 ==> forall|x: usize| #[trigger] instack@.contains(x) <==> stack@.contains(x),
                component@.len() > 0,
                component@[0] == index,
                component@.len() == 1 + full.len() - stack.len(),
                forall|m: int| 1 <= m < component@.len() ==> #[trigger] component@[m] == full[full.len() - m],
                strong ==> component@.no_duplicates(),
                strong ==> forall|x: usize| #[trigger]
                    component@.contains(x) <==> (x == index || exists|i: int|
                        stack.len() <= i < full.len() && full[i] == x),
            invariant
                b == st0.len(),
                b < full.len(),
                full[b] == index,
                fresh ==> forall|i: int| b < i < full.len() ==> full[i] != index,
                strong ==> fresh,
                strong ==> c0,
                fresh && c0 ==> full.no_duplicates(),
                strong ==> search_wf(g.len(), full, ins_full, dfn@, *time),
            ensures
                component@.len() > 0,
                component@[0] == index,
                component@.len() == full.len() - stack.len(),
                forall|m: int| 1 <= m < component@.len() ==> #[trigger] component@[m] == full[full.len() - m],
                b <= stack.len() < full.len(),
                stack@ == full.subrange(0, stack.len() as int),
                fresh ==> stack.len() == b,
                fresh && c0 ==> forall|x: usize| #[trigger] instack@.contains(x) <==> stack@.contains(x),
                strong ==> component@.no_duplicates(),
                strong ==> forall|x: usize| #[trigger]
                    component@.contains(x) <==> exists|i: int| b <= i < full.len() && full[i] == x,
            decreases stack.len(),
        {
            let ghost len = stack.len() as int;
            let ghost old_stack = stack@;
            let ghost old_ins = instack@;
            let ghost old_component = component@;
            match stack.pop() {
                Some(top) => {
                    assert(top == full[len - 1]);
                    fx_set_remove(instack, top);
                    proof {
                        if fresh && c0 {
                            assert forall|i: int| 0 <= i < len - 1 implies full[i] != top by {
                                assert(full[i] != full[len - 1]);
                            }
                            assert forall|x: usize| #[trigger] instack@.contains(x) <==> stack@.contains(x) by {
                                if stack@.contains(x) {
                                    let i = choose|i: int| 0 <= i < stack@.len() && stack@[i] == x;
                                    assert(old_stack[i] == x);
                                    assert(old_stack.contains(x));
                                }
                                if old_stack.contains(x) && x != top {
                                    let i = choose|i: int| 0 <= i < old_stack.len() && old_stack[i] == x;
                                    assert(stack@[i] == x);
                                }
                            }
                        }
                    }
                    if top == index {
                        assert(fresh ==> len - 1 == b);
                        proof {
                            if strong {
                                assert forall|x: usize| #[trigger]
                                    component@.contains(x) <==> exists|i: int| b <= i < full.len() && full[i] == x by {
                                    if x == index {
                                        assert(full[b] == x);
                                    }
                                }
                            }
                        }
                        assert(stack@ =~= full.subrange(0, stack.len() as int));
                        break;
                    }
                    proof {
                        if strong {
                            assert(!old_component.contains(top)) by {
                                if old_component.contains(top) {
                                    let i = choose|i: int| len <= i < full.len() && full[i] == top;
                                    lemma_stack_unique(g.len(), full, ins_full, dfn@, *time, i, len - 1);
                                }
                            }
                        }
                    }
                    component.push(top);
                    assert forall|m: int| 1 <= m < component@.len() implies #[trigger] component@[m] == full[full.len()
                        - m] by {
                        if m < old_component.len() {
                            assert(component@[m] == old_component[m]);
                        }
                    }
                    proof {
                        if strong {
                            assert forall|x: usize| old_component.contains(x) implies #[trigger] component@.contains(x) by {
                                let j = choose|j: int| 0 <= j < old_component.len() && old_component[j] == x;
                                assert(component@[j] == x);
                            }
                            assert(component@[component@.len() - 1] == top);
                            assert forall|x: usize| #[trigger]
                                component@.contains(x) <==> (x == index || exists|i: int|
                                    stack.len() <= i < full.len() && full[i] == x) by {
                                if component@.contains(x) {
                                    let j = choose|j: int| 0 <= j < component@.len() && component@[j] == x;
                                    if j < old_component.len() {
                                        assert(old_component[j] == x);
                                        assert(old_component.contains(x));
                                        if x != index {
                                            let i = choose|i: int| len <= i < full.len() && full[i] == x;
                                            assert(stack.len() <= i);
                                        }
                                    } else {
                                        assert(x == top);
                                        assert(full[len - 1] == x);
                                    }
                                }
                                if x == index {
                                    assert(old_component.contains(x));
                                }
                                if exists|i: int| stack.len() <= i < full.len() && full[i] == x {
                                    let i = choose|i: int| stack.len() <= i < full.len() && full[i] == x;
                                    if i == len - 1 {
                                        assert(x == top);
                                    } else {
                                        assert(old_component.contains(x));
                                    }
                                }
                            }
                        }
                    }
                    assert(stack@ =~= full.subrange(0, stack.len() as int));
                },
                None => {
                    assert(old_stack.len() > 0);
                    break;
                },
            }
        }
        let ghost ins2 = instack@;
        let ghost comp = component@;
        let ghost f_before = s.found();
        s.on_scc_found(index, component.as_slice());
        proof {
            if fresh {
                assert(full.subrange(0, b) =~= st0);
            }
            if strong {
                let fl = full.len() as int;
                assert forall|i: int| 0 < i < comp.len() implies dfn@[comp[0] as int] < dfn@[#[trigger] comp[i] as int] by {
                    assert(comp[i] == full[fl - i]);
                    assert(full[b] == index);
                    assert(dfn@[full[b] as int] < dfn@[full[fl - i] as int]);
                }
                assert forall|i: int, j: int|
                    #![trigger comp[i], comp[j]]
                    0 < i < j < comp.len() implies dfn@[comp[j] as int] < dfn@[comp[i] as int] by {
                    assert(comp[i] == full[fl - i]);
                    assert(comp[j] == full[fl - j]);
                    assert(dfn@[full[fl - j] as int] < dfn@[full[fl - i] as int]);
                }
                assert(in_pop_order(dfn@, comp));
            }
            if fresh {
                lemma_frame_emit(n, index, st0, ins0, d0, l0, t0, full, ins_full, dfn@, low@, *time, ins2);
            }
            if strong {
                lemma_visit_emit(
                    g, index, st0, ins0, d0, l0, t0, f0, full, ins_full, dfn@, low@, *time, f_before, seen, ins2, comp,
                );
            }
        }
    } else {
        proof {
            if strong {
                lemma_visit_keep(
                    g, index, st0, ins0, d0, l0, t0, f0, stack@, instack@, dfn@, low@, *time,
                    s.found(), seen,
                );
            }
        }
    }
}

} // verus!
