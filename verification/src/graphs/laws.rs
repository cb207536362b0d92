//! What the SCC region summary guarantees, stated over the graph itself: regions are the
//! non-trivial strongly connected components of the graph, each node of a region
//! maps to the region's smallest block, and exits and backedges are edges of the graph
//! that leave or stay inside the region.

use crate::graphs::reach::{
    comps_union, has_edge, is_full_scc_decomposition, lemma_scc_maximal, reaches,
};
use crate::graphs::scc::{
    backedges_from, exits_from, is_region_component, maps_to_representatives, region_backedges,
    region_exits, strictly_sorted, summarizes_region, summarizes_regions, SccExit,
    SccRegionSummary,
};
use crate::graphs::scc_paths::successor_graph;
use vstd::prelude::*;

verus! {

/// Region `k` summarizes some region component of `comps`.
proof fn lemma_region_source(
    successors: Seq<Vec<usize>>,
    comps: Seq<Seq<usize>>,
    regions: Seq<SccRegionSummary>,
    k: int,
) -> (i: int)
    requires
        summarizes_regions(regions, successors, comps),
        0 <= k < regions.len(),
    ensures
        0 <= i < comps.len(),
        is_region_component(successors, comps[i]),
        summarizes_region(regions[k], successors, comps[i]),
    decreases comps.len(),
{
    let last = comps.len() - 1;
    if is_region_component(successors, comps.last()) {
        if k == regions.len() - 1 {
            last
        } else {
            let i = lemma_region_source(successors, comps.drop_last(), regions.drop_last(), k);
            assert(comps.drop_last()[i] == comps[i]);
            assert(regions.drop_last()[k] == regions[k]);
            i
        }
    } else {
        let i = lemma_region_source(successors, comps.drop_last(), regions, k);
        assert(comps.drop_last()[i] == comps[i]);
        i
    }
}

/// Every region component of `comps` is summarized by some region.
proof fn lemma_region_target(
    successors: Seq<Vec<usize>>,
    comps: Seq<Seq<usize>>,
    regions: Seq<SccRegionSummary>,
    i: int,
) -> (k: int)
    requires
        summarizes_regions(regions, successors, comps),
        0 <= i < comps.len(),
        is_region_component(successors, comps[i]),
    ensures
        0 <= k < regions.len(),
        summarizes_region(regions[k], successors, comps[i]),
    decreases comps.len(),
{
    if i == comps.len() - 1 {
        regions.len() - 1
    } else {
        assert(comps.drop_last()[i] == comps[i]);
        if is_region_component(successors, comps.last()) {
            let k = lemma_region_target(successors, comps.drop_last(), regions.drop_last(), i);
            assert(regions.drop_last()[k] == regions[k]);
            k
        } else {
            lemma_region_target(successors, comps.drop_last(), regions, i)
        }
    }
}

/// The blocks of a region summary hold exactly the nodes of its component.
proof fn lemma_blocks_are_component(
    region: SccRegionSummary,
    successors: Seq<Vec<usize>>,
    comp: Seq<usize>,
)
    requires
        summarizes_region(region, successors, comp),
    ensures
        forall|x: usize| #[trigger] region.blocks@.contains(x) <==> comp.contains(x),
        region.blocks@.len() > 0 ==> region.blocks@.contains(region.representative),
        forall|y: usize| #[trigger] region.blocks@.contains(y) ==> region.representative <= y,
{
    let blocks = region.blocks@;
    assert forall|x: usize| #[trigger] blocks.contains(x) <==> comp.contains(x) by {
        assert(blocks.contains(x) <==> blocks.to_set().contains(x));
        assert(comp.contains(x) <==> comp.to_set().contains(x));
    }
    if blocks.len() > 0 {
        assert(blocks[0] == region.representative);
    }
    assert forall|y: usize| #[trigger] blocks.contains(y) implies region.representative <= y by {
        let j = choose|j: int| 0 <= j < blocks.len() && blocks[j] == y;
        if j > 0 {
            assert(blocks[0] < blocks[j]);
        }
    }
}

/// Each region is a non-trivial strongly connected component of the graph: its blocks are
/// nodes of the graph and reach one another, any node
/// that reaches and is reached from a block is a block, it has several blocks or a block
/// with an edge to itself, and its representative is its smallest block.
pub proof fn lemma_regions_are_sccs(
    successors: Seq<Vec<usize>>,
    comps: Seq<Seq<usize>>,
    regions: Seq<SccRegionSummary>,
    k: int,
)
    requires
        is_full_scc_decomposition(successor_graph(successors), comps),
        summarizes_regions(regions, successors, comps),
        0 <= k < regions.len(),
    ensures
        strictly_sorted(regions[k].blocks@),
        regions[k].blocks@.contains(regions[k].representative),
        forall|y: usize| #[trigger] regions[k].blocks@.contains(y) ==> regions[k].representative <= y,
        forall|x: usize| #[trigger] regions[k].blocks@.contains(x) ==> x < successors.len(),
        forall|x: usize, y: usize|
            #[trigger] regions[k].blocks@.contains(x) && #[trigger] regions[k].blocks@.contains(y)
                ==> reaches(successor_graph(successors), x, y),
        forall|x: usize, y: usize|
            regions[k].blocks@.contains(x) && #[trigger] reaches(successor_graph(successors), x, y)
                && #[trigger] reaches(successor_graph(successors), y, x) ==> regions[k].blocks@.contains(y),
        regions[k].blocks@.len() > 1 || has_edge(
            successor_graph(successors),
            regions[k].blocks@[0],
            regions[k].blocks@[0],
        ),
{
    let g = successor_graph(successors);
    let i = lemma_region_source(successors, comps, regions, k);
    let r = regions[k];
    let blocks = r.blocks@;
    lemma_blocks_are_component(r, successors, comps[i]);
    assert forall|x: usize| #[trigger] blocks.contains(x) implies x < successors.len() by {
        assert(comps_union(comps).contains(x));
    }
    assert forall|x: usize, y: usize|
        blocks.contains(x) && #[trigger] reaches(g, x, y) && #[trigger] reaches(g, y, x) implies blocks.contains(y) by {
        lemma_scc_maximal(g, comps, i, x, y);
    }
    if blocks.len() == 1 {
        assert(blocks.contains(blocks[0]));
        let c0 = comps[i][0];
        assert(comps[i].contains(c0));
        assert(blocks.contains(c0));
        assert(blocks[0] == c0);
        assert(comps_union(comps).contains(c0));
        assert(successors[c0 as int]@.to_set().contains(c0));
    }
}

/// Every node of the graph that lies on a cycle (it has a successor that reaches it back)
/// is a block of some region.
pub proof fn lemma_cyclic_nodes_in_regions(
    successors: Seq<Vec<usize>>,
    comps: Seq<Seq<usize>>,
    regions: Seq<SccRegionSummary>,
    x: usize,
    y: usize,
)
    requires
        is_full_scc_decomposition(successor_graph(successors), comps),
        summarizes_regions(regions, successors, comps),
        has_edge(successor_graph(successors), x, y),
        reaches(successor_graph(successors), y, x),
    ensures
        exists|k: int| 0 <= k < regions.len() && #[trigger] regions[k].blocks@.contains(x),
{
    let g = successor_graph(successors);
    assert(x < g.len());
    assert(comps_union(comps).contains(x));
    let i = choose|i: int| 0 <= i < comps.len() && #[trigger] comps[i].contains(x);
    crate::graphs::reach::lemma_reaches_edge(g, x, y);
    lemma_scc_maximal(g, comps, i, x, y);
    let c = comps[i];
    if x != y {
        let a = choose|a: int| 0 <= a < c.len() && c[a] == x;
        let b = choose|b: int| 0 <= b < c.len() && c[b] == y;
        assert(a != b);
        assert(c.len() > 1);
    } else if c.len() == 1 {
        let a = choose|a: int| 0 <= a < c.len() && c[a] == x;
        assert(c[0] == x);
        assert(successors[x as int]@.to_set().contains(x));
    }
    assert(is_region_component(successors, c));
    let k = lemma_region_target(successors, comps, regions, i);
    lemma_blocks_are_component(regions[k], successors, c);
}

/// The representative map sends every block of a region to the region's representative,
/// and maps no node outside the regions.
pub proof fn lemma_representative_map(
    successors: Seq<Vec<usize>>,
    comps: Seq<Seq<usize>>,
    regions: Seq<SccRegionSummary>,
    m: Map<usize, usize>,
    x: usize,
)
    requires
        is_full_scc_decomposition(successor_graph(successors), comps),
        summarizes_regions(regions, successors, comps),
        maps_to_representatives(m, successors, comps),
    ensures
        m.dom().contains(x) <==> exists|k: int| 0 <= k < regions.len() && #[trigger] regions[k].blocks@.contains(x),
        forall|k: int|
            0 <= k < regions.len() && #[trigger] regions[k].blocks@.contains(x) ==> m[x]
                == regions[k].representative,
{
    assert forall|k: int| 0 <= k < regions.len() && #[trigger] regions[k].blocks@.contains(x) implies m.dom().contains(x)
        && m[x] == regions[k].representative by {
        let i = lemma_region_source(successors, comps, regions, k);
        lemma_blocks_are_component(regions[k], successors, comps[i]);
        assert(comps[i].contains(x));
        let rep = regions[k].representative;
        assert(regions[k].blocks@.len() == comps[i].len());
        assert(comps[i].len() > 0);
        assert(regions[k].blocks@.contains(rep));
        assert(comps[i].contains(rep));
        assert(comps[i].contains(m[x]));
        assert(m[x] <= rep);
        assert(regions[k].blocks@.contains(m[x]));
        assert(rep <= m[x]);
    }
    if m.dom().contains(x) {
        let i = choose|i: int|
            0 <= i < comps.len() && is_region_component(successors, comps[i]) && #[trigger] comps[i].contains(x);
        let k = lemma_region_target(successors, comps, regions, i);
        lemma_blocks_are_component(regions[k], successors, comps[i]);
        assert(regions[k].blocks@.contains(x));
    }
}

/// Exits of one block are edges of that block to non-members, in successor order, and
/// every such edge is listed.
proof fn lemma_exits_from(block: usize, succ: Seq<usize>, members: Set<usize>)
    ensures
        forall|e: SccExit| #[trigger]
            exits_from(block, succ, members).contains(e) <==> e.exit == block && succ.contains(e.to)
                && !members.contains(e.to),
    decreases succ.len(),
{
    if succ.len() > 0 {
        lemma_exits_from(block, succ.drop_last(), members);
        let rest = exits_from(block, succ.drop_last(), members);
        assert forall|e: SccExit| #[trigger]
            exits_from(block, succ, members).contains(e) <==> e.exit == block && succ.contains(e.to)
                && !members.contains(e.to) by {
            if succ.contains(e.to) {
                let j = choose|j: int| 0 <= j < succ.len() && succ[j] == e.to;
                if j < succ.len() - 1 {
                    assert(succ.drop_last()[j] == e.to);
                }
            }
            if succ.drop_last().contains(e.to) {
                let j = choose|j: int| 0 <= j < succ.drop_last().len() && succ.drop_last()[j] == e.to;
                assert(succ[j] == e.to);
            }
            if !members.contains(succ.last()) {
                let ex = SccExit { exit: block, to: succ.last() };
                assert(rest.push(ex)[rest.len() as int] == ex);
                if rest.push(ex).contains(e) {
                    let j = choose|j: int| 0 <= j < rest.push(ex).len() && rest.push(ex)[j] == e;
                    if j < rest.len() {
                        assert(rest[j] == e);
                    }
                }
                if rest.contains(e) {
                    let j = choose|j: int| 0 <= j < rest.len() && rest[j] == e;
                    assert(rest.push(ex)[j] == e);
                }
            }
        }
    }
}

/// Backedges of one block are edges of that block to members that are not after it or are
/// the representative.
proof fn lemma_backedges_from(block: usize, succ: Seq<usize>, members: Set<usize>, rep: usize)
    ensures
        forall|e: (usize, usize)| #[trigger]
            backedges_from(block, succ, members, rep).contains(e) ==> e.0 == block && succ.contains(e.1)
                && members.contains(e.1) && (e.1 <= block || e.1 == rep),
    decreases succ.len(),
{
    if succ.len() > 0 {
        lemma_backedges_from(block, succ.drop_last(), members, rep);
        let rest = backedges_from(block, succ.drop_last(), members, rep);
        assert forall|e: (usize, usize)| #[trigger]
            backedges_from(block, succ, members, rep).contains(e) implies e.0 == block && succ.contains(e.1)
            && members.contains(e.1) && (e.1 <= block || e.1 == rep) by {
            let x = succ.last();
            let all = backedges_from(block, succ, members, rep);
            let j = choose|j: int| 0 <= j < all.len() && all[j] == e;
            if j < rest.len() {
                assert(rest[j] == e);
                assert(rest.contains(e));
                let m = choose|m: int| 0 <= m < succ.drop_last().len() && succ.drop_last()[m] == e.1;
                assert(succ[m] == e.1);
            } else {
                assert(e == (block, x));
                assert(succ[succ.len() - 1] == x);
            }
        }
    }
}

/// The exits and backedges listed for the blocks of a region.
proof fn lemma_region_edge_lists(
    successors: Seq<Vec<usize>>,
    blocks: Seq<usize>,
    members: Set<usize>,
    rep: usize,
)
    ensures
        forall|e: SccExit| #[trigger]
            region_exits(successors, blocks, members).contains(e) <==> blocks.contains(e.exit)
                && successors[e.exit as int]@.contains(e.to) && !members.contains(e.to),
        forall|e: (usize, usize)| #[trigger]
            region_backedges(successors, blocks, members, rep).contains(e) ==> blocks.contains(e.0)
                && successors[e.0 as int]@.contains(e.1) && members.contains(e.1) && (e.1 <= e.0
                || e.1 == rep),
    decreases blocks.len(),
{
    if blocks.len() > 0 {
        let b = blocks.last();
        let init = blocks.drop_last();
        lemma_region_edge_lists(successors, init, members, rep);
        lemma_exits_from(b, successors[b as int]@, members);
        lemma_backedges_from(b, successors[b as int]@, members, rep);
        let xs0 = region_exits(successors, init, members);
        let xs1 = exits_from(b, successors[b as int]@, members);
        let bs0 = region_backedges(successors, init, members, rep);
        let bs1 = backedges_from(b, successors[b as int]@, members, rep);
        assert forall|x: usize| #[trigger] blocks.contains(x) <==> (init.contains(x) || x == b) by {
            if blocks.contains(x) {
                let j = choose|j: int| 0 <= j < blocks.len() && blocks[j] == x;
                if j < init.len() {
                    assert(init[j] == x);
                }
            }
            if init.contains(x) {
                let j = choose|j: int| 0 <= j < init.len() && init[j] == x;
                assert(blocks[j] == x);
            }
            if x == b {
                assert(blocks[blocks.len() - 1] == x);
            }
        }
        assert forall|e: SccExit| #[trigger] (xs0 + xs1).contains(e) <==> (xs0.contains(e) || xs1.contains(e)) by {
            if (xs0 + xs1).contains(e) {
                let j = choose|j: int| 0 <= j < (xs0 + xs1).len() && (xs0 + xs1)[j] == e;
                if j < xs0.len() {
                    assert(xs0[j] == e);
                } else {
                    assert(xs1[j - xs0.len()] == e);
                }
            }
            if xs0.contains(e) {
                let j = choose|j: int| 0 <= j < xs0.len() && xs0[j] == e;
                assert((xs0 + xs1)[j] == e);
            }
            if xs1.contains(e) {
                let j = choose|j: int| 0 <= j < xs1.len() && xs1[j] == e;
                assert((xs0 + xs1)[j + xs0.len()] == e);
            }
        }
        assert forall|e: (usize, usize)| #[trigger] (bs0 + bs1).contains(e) implies (bs0.contains(e)
            || bs1.contains(e)) by {
            let j = choose|j: int| 0 <= j < (bs0 + bs1).len() && (bs0 + bs1)[j] == e;
            if j < bs0.len() {
                assert(bs0[j] == e);
            } else {
                assert(bs1[j - bs0.len()] == e);
            }
        }
    }
}

/// A region's exits are exactly the edges from a block to a node outside the region, and
/// its backedges are edges between blocks that go to a block not after their source or to
/// the representative.
pub proof fn lemma_region_edges(region: SccRegionSummary, successors: Seq<Vec<usize>>, comp: Seq<usize>)
    requires
        summarizes_region(region, successors, comp),
    ensures
        forall|e: SccExit| #[trigger]
            region.exits@.contains(e) <==> region.blocks@.contains(e.exit)
                && successors[e.exit as int]@.contains(e.to) && !region.blocks@.contains(e.to),
        forall|e: (usize, usize)| #[trigger]
            region.backedges@.contains(e) ==> region.blocks@.contains(e.0)
                && successors[e.0 as int]@.contains(e.1) && region.blocks@.contains(e.1) && (e.1
                <= e.0 || e.1 == region.representative),
{
    let blocks = region.blocks@;
    lemma_region_edge_lists(successors, blocks, blocks.to_set(), blocks[0]);
    assert forall|x: usize| blocks.to_set().contains(x) <==> #[trigger] blocks.contains(x) by {}
}

} // verus!
