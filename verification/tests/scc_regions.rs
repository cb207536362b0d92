use rapx::graphs::scc::{analyze_scc_regions, SccExit};

#[test]
fn analyze_scc_regions_collects_non_trivial_scc_metadata() {
    let successors = vec![vec![1], vec![2], vec![1, 3], vec![]];
    let analysis = analyze_scc_regions(&successors);

    assert_eq!(analysis.regions.len(), 1);
    let region = &analysis.regions[0];
    assert_eq!(region.representative, 1);
    assert_eq!(region.blocks, vec![1, 2]);
    assert_eq!(region.exits, vec![SccExit::new(2, 3)]);
    assert_eq!(region.backedges, vec![(2, 1)]);
    assert_eq!(analysis.node_to_representative.get(&1), Some(&1));
    assert_eq!(analysis.node_to_representative.get(&2), Some(&1));
}

#[test]
fn analyze_scc_regions_keeps_self_loop_scc() {
    let successors = vec![vec![0]];
    let analysis = analyze_scc_regions(&successors);

    assert_eq!(analysis.regions.len(), 1);
    let region = &analysis.regions[0];
    assert_eq!(region.representative, 0);
    assert_eq!(region.blocks, vec![0]);
    assert!(region.exits.is_empty());
    assert_eq!(region.backedges, vec![(0, 0)]);
    assert_eq!(analysis.node_to_representative.get(&0), Some(&0));
}
