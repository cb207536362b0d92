use rapx::graphs::scc::{analyze_scc_regions, SccExit, SccInfo, SccRegionSummary};
use rapx::graphs::scc_paths::build_scc_tree;
use rustc_hash::FxHashMap;

fn region_with_representative(regions: &[SccRegionSummary], rep: usize) -> &SccRegionSummary {
    regions.iter().find(|r| r.representative == rep).unwrap()
}

#[test]
fn scc_exit_new_sets_fields() {
    let exit = SccExit::new(4, 9);
    assert_eq!(exit.exit, 4);
    assert_eq!(exit.to, 9);
}

#[test]
fn scc_info_new_is_empty_and_trivial() {
    let info = SccInfo::new(3);
    assert_eq!(info.enter, 3);
    assert!(info.nodes.is_empty());
    assert!(info.exits.is_empty());
    assert!(info.backnodes.is_empty());
    assert!(info.child_sccs.is_empty());
    assert!(info.is_trivial());
    let mut info = info;
    info.nodes.insert(5);
    assert!(!info.is_trivial());
}

#[test]
fn empty_graph_has_no_regions() {
    let successors: Vec<Vec<usize>> = vec![];
    let analysis = analyze_scc_regions(&successors);
    assert!(analysis.regions.is_empty());
    assert!(analysis.node_to_representative.is_empty());
}

#[test]
fn acyclic_graph_has_no_regions() {
    let analysis = analyze_scc_regions(&[vec![1, 2], vec![2], vec![]]);
    assert!(analysis.regions.is_empty());
    assert!(analysis.node_to_representative.is_empty());
}

#[test]
fn two_loops_give_two_regions() {
    // 0 -> 1 <-> 2 -> 3 -> 4 -> 3, 4 -> 5
    let successors = vec![vec![1], vec![2], vec![1, 3], vec![4], vec![3, 5], vec![]];
    let analysis = analyze_scc_regions(&successors);
    assert_eq!(analysis.regions.len(), 2);
    // the inner loop is reported before the outer one (edges lead backwards)
    assert_eq!(analysis.regions[0].representative, 3);
    assert_eq!(analysis.regions[1].representative, 1);

    let first = region_with_representative(&analysis.regions, 1);
    assert_eq!(first.blocks, vec![1, 2]);
    assert_eq!(first.exits, vec![SccExit::new(2, 3)]);
    assert_eq!(first.backedges, vec![(2, 1)]);

    let second = region_with_representative(&analysis.regions, 3);
    assert_eq!(second.blocks, vec![3, 4]);
    assert_eq!(second.exits, vec![SccExit::new(4, 5)]);
    assert_eq!(second.backedges, vec![(4, 3)]);

    let mut expected = FxHashMap::default();
    expected.insert(1, 1);
    expected.insert(2, 1);
    expected.insert(3, 3);
    expected.insert(4, 3);
    assert_eq!(analysis.node_to_representative, expected);
}

#[test]
fn blocks_are_sorted_and_backedges_follow_the_rule() {
    // 0 -> 3 -> 1 -> 2 -> 3, and 1 -> 3, 2 -> 1
    let successors = vec![vec![3], vec![2, 3], vec![3, 1], vec![1]];
    let analysis = analyze_scc_regions(&successors);
    assert_eq!(analysis.regions.len(), 1);
    let region = &analysis.regions[0];
    assert_eq!(region.representative, 1);
    assert_eq!(region.blocks, vec![1, 2, 3]);
    assert!(region.exits.is_empty());
    // (1,2) and (1,3) go forward and not to the representative; the others are backedges
    assert_eq!(region.backedges, vec![(2, 1), (3, 1)]);
    for node in [1, 2, 3] {
        assert_eq!(analysis.node_to_representative.get(&node), Some(&1));
    }
    assert_eq!(analysis.node_to_representative.get(&0), None);
}

#[test]
fn exits_keep_successor_order_and_out_of_range_targets() {
    let successors = vec![vec![1], vec![7, 0, 5]];
    let analysis = analyze_scc_regions(&successors);
    assert_eq!(analysis.regions.len(), 1);
    let region = &analysis.regions[0];
    assert_eq!(region.blocks, vec![0, 1]);
    assert_eq!(region.exits, vec![SccExit::new(1, 7), SccExit::new(1, 5)]);
    assert_eq!(region.backedges, vec![(1, 0)]);
}

#[test]
fn self_loop_region_without_other_members() {
    let successors = vec![vec![1], vec![1, 2], vec![]];
    let analysis = analyze_scc_regions(&successors);
    assert_eq!(analysis.regions.len(), 1);
    let region = &analysis.regions[0];
    assert_eq!(region.representative, 1);
    assert_eq!(region.blocks, vec![1]);
    assert_eq!(region.exits, vec![SccExit::new(1, 2)]);
    assert_eq!(region.backedges, vec![(1, 1)]);
    assert_eq!(analysis.node_to_representative.get(&0), None);
    assert_eq!(analysis.node_to_representative.get(&2), None);
}

#[test]
fn loops_not_reached_from_zero_are_regions() {
    let successors = vec![vec![], vec![2], vec![1]];
    let analysis = analyze_scc_regions(&successors);
    assert_eq!(analysis.regions.len(), 1);
    let region = &analysis.regions[0];
    assert_eq!(region.representative, 1);
    assert_eq!(region.blocks, vec![1, 2]);
    assert!(region.exits.is_empty());
    assert_eq!(analysis.node_to_representative.get(&2), Some(&1));
    assert_eq!(analysis.node_to_representative.get(&0), None);
}

#[test]
fn self_loop_not_reached_from_zero_is_a_region() {
    let successors = vec![vec![], vec![1]];
    let analysis = analyze_scc_regions(&successors);
    assert_eq!(analysis.regions.len(), 1);
    let region = &analysis.regions[0];
    assert_eq!(region.blocks, vec![1]);
    assert_eq!(region.backedges, vec![(1, 1)]);
    assert!(region.exits.is_empty());
    assert_eq!(analysis.node_to_representative.get(&1), Some(&1));
}

fn info(enter: usize, nodes: &[usize]) -> SccInfo {
    let mut scc = SccInfo::new(enter);
    for &n in nodes {
        scc.nodes.insert(n);
    }
    scc
}

#[test]
fn scc_tree_nests_child_sccs() {
    // outer loop entered at 0 with members 1..=4; inner loop entered at 2 with member 3;
    // node 4 belongs to a loop without members (no child)
    let outer = info(0, &[1, 2, 3, 4]);
    let lookup = |node: usize| -> Option<SccInfo> {
        match node {
            1 => Some(info(0, &[1, 2, 3, 4])),
            2 | 3 => Some(info(2, &[3])),
            4 => Some(info(4, &[])),
            _ => None,
        }
    };
    let tree = build_scc_tree(&outer, lookup);
    assert_eq!(tree.scc.enter, 0);
    assert_eq!(tree.scc.nodes, outer.nodes);
    assert_eq!(tree.children.len(), 1);
    let child = &tree.children[0];
    assert_eq!(child.scc.enter, 2);
    assert_eq!(child.scc.nodes.len(), 1);
    assert!(child.scc.nodes.contains(&3));
    // node 3 maps to the inner loop itself: no grandchildren
    assert!(child.children.is_empty());
}

#[test]
fn scc_tree_of_trivial_scc_is_a_leaf() {
    let scc = SccInfo::new(7);
    let tree = build_scc_tree(&scc, |_node: usize| -> Option<SccInfo> { None });
    assert_eq!(tree.scc.enter, 7);
    assert!(tree.children.is_empty());
}

#[test]
fn scc_tree_keeps_one_child_per_entry() {
    let outer = info(0, &[1, 2, 3]);
    let lookup = |node: usize| -> Option<SccInfo> {
        match node {
            1 | 2 => Some(info(1, &[2])),
            3 => Some(info(3, &[5])),
            _ => None,
        }
    };
    let tree = build_scc_tree(&outer, lookup);
    let mut enters: Vec<usize> = tree.children.iter().map(|c| c.scc.enter).collect();
    enters.sort();
    assert_eq!(enters, vec![1, 3]);
}

#[test]
fn scc_info_clone_copies_every_field() {
    let mut source = info(2, &[3, 4]);
    source.exits.insert(SccExit::new(4, 9));
    source.backnodes.insert(4);
    source.child_sccs.push(3);
    let copy = source.clone();
    assert_eq!(copy.enter, 2);
    assert_eq!(copy.nodes, source.nodes);
    assert_eq!(copy.exits, source.exits);
    assert_eq!(copy.backnodes, source.backnodes);
    assert_eq!(copy.child_sccs, vec![3]);
    assert!(copy.exits.contains(&SccExit::new(4, 9)));
}

#[test]
fn scc_tree_asks_every_member_and_finds_the_child() {
    let outer = info(0, &[1, 2, 3]);
    let inner = info(1, &[2]);
    let asked = std::cell::RefCell::new(Vec::new());
    let lookup = |node: usize| -> Option<SccInfo> {
        asked.borrow_mut().push(node);
        if node == 1 || node == 2 {
            Some(inner.clone())
        } else {
            None
        }
    };
    let tree = build_scc_tree(&outer, lookup);
    assert_eq!(tree.scc.enter, 0);
    assert_eq!(tree.scc.nodes, outer.nodes);
    assert_eq!(tree.children.len(), 1);
    assert_eq!(tree.children[0].scc.enter, 1);
    assert_eq!(tree.children[0].scc.nodes, inner.nodes);
    assert!(tree.children[0].children.is_empty());
    let mut first_level: Vec<usize> = asked.borrow()[..3].to_vec();
    first_level.sort();
    assert_eq!(first_level, vec![1, 2, 3]);
    assert_eq!(asked.borrow()[3..].to_vec(), vec![2]);
}

#[test]
fn scc_tree_keeps_the_first_scc_met_for_an_entry() {
    // nodes 1 and 2 both answer an SCC entered at 5, with different members; the child
    // keeps the members of whichever was met first
    let outer = info(0, &[1, 2]);
    let order = std::cell::RefCell::new(Vec::new());
    let lookup = |node: usize| -> Option<SccInfo> {
        order.borrow_mut().push(node);
        match node {
            1 => Some(info(5, &[7])),
            2 => Some(info(5, &[8])),
            _ => None,
        }
    };
    let tree = build_scc_tree(&outer, lookup);
    assert_eq!(tree.children.len(), 1);
    let first = order.borrow()[0];
    let expected = if first == 1 { 7 } else { 8 };
    assert_eq!(tree.children[0].scc.nodes.len(), 1);
    assert!(tree.children[0].scc.nodes.contains(&expected));
}

#[test]
fn scc_tree_of_an_scc_without_members_never_asks() {
    let scc = SccInfo::new(3);
    let tree = build_scc_tree(&scc, |_node: usize| -> Option<SccInfo> { panic!("asked") });
    assert_eq!(tree.scc.enter, 3);
    assert!(tree.scc.nodes.is_empty());
    assert!(tree.children.is_empty());
}
