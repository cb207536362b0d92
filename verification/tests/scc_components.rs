use rapx::graphs::scc::{Scc, SccClient};
use rapx::graphs::scc_paths::collect_scc_components;
use rustc_hash::FxHashSet;

fn sorted(mut v: Vec<usize>) -> Vec<usize> {
    v.sort();
    v
}

fn sorted_components(components: &[Vec<usize>]) -> Vec<Vec<usize>> {
    let mut all: Vec<Vec<usize>> = components.iter().map(|c| sorted(c.clone())).collect();
    all.sort();
    all
}

fn index_of(components: &[Vec<usize>], node: usize) -> usize {
    components.iter().position(|c| c.contains(&node)).unwrap()
}

#[test]
fn empty_graph_has_no_components() {
    let successors: Vec<Vec<usize>> = vec![];
    assert!(collect_scc_components(&successors).is_empty());
}

#[test]
fn single_node_is_its_own_component() {
    assert_eq!(collect_scc_components(&[vec![]]), vec![vec![0]]);
    assert_eq!(collect_scc_components(&[vec![0]]), vec![vec![0]]);
}

#[test]
fn chain_gives_singletons_in_reverse_topological_order() {
    let components = collect_scc_components(&[vec![1], vec![2], vec![]]);
    assert_eq!(components, vec![vec![2], vec![1], vec![0]]);
}

#[test]
fn cycle_is_one_component_rooted_at_entry() {
    let components = collect_scc_components(&[vec![1], vec![2], vec![0]]);
    assert_eq!(components.len(), 1);
    assert_eq!(components[0][0], 0);
    assert_eq!(sorted(components[0].clone()), vec![0, 1, 2]);
}

#[test]
fn nodes_not_reached_from_zero_are_covered() {
    let components = collect_scc_components(&[vec![1], vec![0], vec![3], vec![2]]);
    assert_eq!(sorted_components(&components), vec![vec![0, 1], vec![2, 3]]);
}

#[test]
fn components_list_their_root_first() {
    let components = collect_scc_components(&[vec![1], vec![2], vec![1, 3], vec![]]);
    assert_eq!(components, vec![vec![3], vec![1, 2], vec![0]]);
}

#[test]
fn every_node_gets_a_component() {
    assert_eq!(collect_scc_components(&[vec![], vec![1]]), vec![vec![0], vec![1]]);
}

#[test]
fn later_searches_see_earlier_components() {
    // node 2 is not reached from 0; its search reaches the finished component of 0
    let components = collect_scc_components(&[vec![], vec![0], vec![1, 2]]);
    assert_eq!(components, vec![vec![0], vec![1], vec![2]]);
}

#[test]
fn successors_out_of_range_are_ignored() {
    let components = collect_scc_components(&[vec![7, 1], vec![0, 99]]);
    assert_eq!(sorted_components(&components), vec![vec![0, 1]]);
}

#[test]
fn components_follow_edges_backwards() {
    // 0 -> {1,2} -> 3 <-> 4 -> 5, and 2 -> 1 -> 2 forms one component
    let successors = vec![vec![1, 2], vec![2, 3], vec![1], vec![4], vec![3, 5], vec![]];
    let components = collect_scc_components(&successors);
    assert_eq!(
        sorted_components(&components),
        vec![vec![0], vec![1, 2], vec![3, 4], vec![5]]
    );
    for (u, succs) in successors.iter().enumerate() {
        for &w in succs {
            assert!(index_of(&components, w) <= index_of(&components, u));
        }
    }
}

#[test]
fn components_are_maximal_on_example() {
    // two cycles joined both ways form one component
    let successors = vec![vec![1], vec![0, 2], vec![3], vec![2, 1]];
    let components = collect_scc_components(&successors);
    assert_eq!(sorted_components(&components), vec![vec![0, 1, 2, 3]]);
}

struct Recorder {
    successors: Vec<Vec<usize>>,
    found: Vec<(usize, Vec<usize>)>,
}

impl SccClient for Recorder {
    fn graph(&self) -> vstd::seq::Seq<vstd::set::Set<usize>> {
        unreachable!()
    }

    fn found(&self) -> vstd::seq::Seq<vstd::seq::Seq<usize>> {
        unreachable!()
    }

    fn on_scc_found(&mut self, root: usize, scc_components: &[usize]) {
        self.found.push((root, scc_components.to_vec()));
    }

    fn get_next(&mut self, root: usize) -> FxHashSet<usize> {
        self.successors[root].iter().copied().collect()
    }

    fn get_size(&mut self) -> usize {
        self.successors.len()
    }
}

impl Scc for Recorder {}

#[test]
fn search_from_a_start_node_reports_roots_first() {
    let mut recorder = Recorder { successors: vec![vec![1], vec![2], vec![1], vec![0]], found: vec![] };
    recorder.find_scc_from(3);
    let mut found = recorder.found.clone();
    for (root, comp) in &found {
        assert_eq!(comp[0], *root);
    }
    found.sort();
    let comps: Vec<Vec<usize>> = found.iter().map(|(_, c)| sorted(c.clone())).collect();
    let mut comps_sorted = comps.clone();
    comps_sorted.sort();
    assert_eq!(comps_sorted, vec![vec![0], vec![1, 2], vec![3]]);
}

#[test]
fn search_from_outside_the_graph_reports_nothing() {
    let mut recorder = Recorder { successors: vec![vec![0]], found: vec![] };
    recorder.find_scc_from(5);
    assert!(recorder.found.is_empty());
    recorder.find_scc();
    assert_eq!(recorder.found, vec![(0, vec![0])]);
}

#[test]
fn a_search_may_start_with_a_later_clock() {
    let mut recorder = Recorder { successors: vec![vec![1], vec![0], vec![]], found: vec![] };
    let mut stack = Vec::new();
    let mut instack = FxHashSet::default();
    let mut dfn = vec![0; 3];
    let mut low = vec![0; 3];
    let mut time = 10;
    recorder.tarjan(0, &mut stack, &mut instack, &mut dfn, &mut low, &mut time);
    assert!(stack.is_empty());
    assert!(instack.is_empty());
    assert_eq!(time, 12);
    assert_eq!(dfn[0], 10);
    assert_eq!(dfn[1], 11);
    assert_eq!(dfn[2], 0);
    assert_eq!(recorder.found, vec![(0, vec![0, 1])]);
}

#[test]
fn a_visit_keeps_what_came_before() {
    // node 0 is already numbered and stacked; the visit of 1 reaches it and stays stacked
    let mut recorder = Recorder { successors: vec![vec![1], vec![0, 2], vec![]], found: vec![] };
    let mut stack = vec![0];
    let mut instack = FxHashSet::default();
    instack.insert(0);
    let mut dfn = vec![1, 0, 0];
    let mut low = vec![1, 0, 0];
    let mut time = 2;
    recorder.tarjan(1, &mut stack, &mut instack, &mut dfn, &mut low, &mut time);
    assert_eq!(dfn, vec![1, 2, 3]);
    assert_eq!(low[0], 1);
    assert_eq!(low[1], 1);
    assert_eq!(low[2], 3);
    assert_eq!(time, 4);
    assert_eq!(stack, vec![0, 1]);
    assert!(instack.contains(&0) && instack.contains(&1) && !instack.contains(&2));
    assert_eq!(recorder.found, vec![(2, vec![2])]);
}

#[test]
fn a_zero_clock_numbers_the_start_node_zero_and_visits_it_again() {
    // the start node keeps the number 0 while its successor is visited, so the successor
    // visits it a second time; the stack then keeps the start node while `instack` does not
    let mut recorder = Recorder { successors: vec![vec![1], vec![0]], found: vec![] };
    let mut stack = Vec::new();
    let mut instack = FxHashSet::default();
    let mut dfn = vec![0; 2];
    let mut low = vec![0; 2];
    let mut time = 0;
    recorder.tarjan(0, &mut stack, &mut instack, &mut dfn, &mut low, &mut time);
    assert_eq!(dfn, vec![2, 1]);
    assert_eq!(time, 3);
    assert_eq!(stack, vec![0]);
    assert!(instack.is_empty());
    assert_eq!(recorder.found, vec![(1, vec![1, 0])]);
}

#[test]
fn stale_numbers_above_the_clock_keep_the_stack_consistent() {
    // node 2 carries a number above the clock and is off the stack: it is treated as done
    let mut recorder = Recorder { successors: vec![vec![1], vec![0, 2], vec![1]], found: vec![] };
    let mut stack = Vec::new();
    let mut instack = FxHashSet::default();
    let mut dfn = vec![0, 0, 50];
    let mut low = vec![0, 0, 50];
    let mut time = 1;
    recorder.tarjan(0, &mut stack, &mut instack, &mut dfn, &mut low, &mut time);
    assert_eq!(dfn, vec![1, 2, 50]);
    assert_eq!(time, 3);
    assert!(stack.is_empty());
    assert!(instack.is_empty());
    assert_eq!(recorder.found.len(), 1);
    assert_eq!(recorder.found[0].0, 0);
    assert_eq!(recorder.found[0].1, vec![0, 1]);
}

#[test]
fn find_scc_is_the_search_from_node_zero() {
    let successors = vec![vec![1, 3], vec![2], vec![1], vec![], vec![0]];
    let mut whole = Recorder { successors: successors.clone(), found: vec![] };
    whole.find_scc();
    let mut from_zero = Recorder { successors, found: vec![] };
    from_zero.find_scc_from(0);
    assert_eq!(whole.found, from_zero.found);
    assert_eq!(whole.found.len(), 3);
}
