use variant_forest::matrix::GenoMatrixSlice;
use variant_forest::tree::{calc_gini, calc_sdr, Node, NodeData, SCORE_ONE};

fn leaf(score: i64, node_n: usize, var: usize, neg: bool) -> Node {
    Node { score, is_empty: false, n: 10, neg, var, node_n, left: None, right: None }
}

#[test]
fn gini_of_mixed_branches() {
    assert_eq!(calc_gini(&vec![0, 1, 0, 1], &vec![0, 0, 1, 1], SCORE_ONE), 500_000);
}

#[test]
fn gini_of_pure_branches_at_root_is_zero() {
    assert_eq!(calc_gini(&vec![0, 0, 1, 1], &vec![0, 0, 1, 1], SCORE_ONE), 0);
}

#[test]
fn gini_of_empty_branch_is_useless() {
    assert_eq!(calc_gini(&vec![0, 1], &vec![0, 0], SCORE_ONE), SCORE_ONE);
    assert_eq!(calc_gini(&vec![], &vec![], SCORE_ONE), SCORE_ONE);
}

#[test]
fn gini_counts_third_genotype_in_weights_only() {
    assert_eq!(calc_gini(&vec![0, 1, 0, 1, 1], &vec![0, 0, 1, 1, 2], SCORE_ONE), 400_000);
}

#[test]
fn gini_under_lower_parent_score() {
    assert_eq!(calc_gini(&vec![0, 0, 1, 1], &vec![0, 0, 1, 1], 500_000), -500_000);
}

#[test]
fn sd_reduction_of_separating_split() {
    assert_eq!(calc_sdr(&vec![0, 0, 10, 10], &vec![0, 0, 1, 1]), 5);
}

#[test]
fn sd_reduction_of_useless_split_is_zero() {
    assert_eq!(calc_sdr(&vec![0, 10, 0, 10], &vec![0, 0, 1, 1]), 0);
}

#[test]
fn grow_without_subjects_is_empty() {
    let data = NodeData { phenos: vec![], phenos_shuffle: vec![], genos: vec![vec![]] };
    let ms = GenoMatrixSlice { subj_ids: vec![], genotype_ids: vec![0] };
    assert!(Node::grow(data, 3, ms, false).is_empty);
}

#[test]
fn grow_without_variants_is_empty() {
    let data = NodeData { phenos: vec![0, 1], phenos_shuffle: vec![1, 0], genos: vec![] };
    let ms = GenoMatrixSlice { subj_ids: vec![0, 1], genotype_ids: vec![] };
    assert!(Node::grow(data, 3, ms, false).is_empty);
    let data = NodeData { phenos: vec![0, 10], phenos_shuffle: vec![10, 0], genos: vec![] };
    let ms = GenoMatrixSlice { subj_ids: vec![0, 1], genotype_ids: vec![] };
    assert!(Node::grow(data, 3, ms, true).is_empty);
}

#[test]
fn grow_separating_variant() {
    let data = NodeData {
        phenos: vec![0, 0, 1, 1],
        phenos_shuffle: vec![0, 1, 0, 1],
        genos: vec![vec![0, 0, 1, 1]],
    };
    let ms = GenoMatrixSlice { subj_ids: vec![0, 1, 2, 3], genotype_ids: vec![7] };
    let t = Node::grow(data, 0, ms, false);
    assert!(!t.is_empty);
    assert_eq!(t.var, 7);
    assert_eq!(t.score, 0);
    assert!(!t.neg);
    assert_eq!(t.node_n, 4);
    assert_eq!(t.n, 4);
    assert!(t.left.as_ref().unwrap().is_empty);
    assert!(t.right.as_ref().unwrap().is_empty);
    assert_eq!(t.get_importance(), vec![(7, 0)]);
}

#[test]
fn grow_stops_below_max_depth() {
    let data = NodeData {
        phenos: vec![0, 0, 1, 1],
        phenos_shuffle: vec![0, 1, 0, 1],
        genos: vec![vec![0, 0, 1, 1]],
    };
    let ms = GenoMatrixSlice { subj_ids: vec![0, 1, 2, 3], genotype_ids: vec![7] };
    let t = Node::grow(data, -1, ms, false);
    assert!(!t.is_empty);
    assert!(t.left.is_none());
    assert!(t.right.is_none());
}

#[test]
fn grow_penalises_split_no_better_than_shuffle() {
    let data = NodeData {
        phenos: vec![0, 1, 0, 1],
        phenos_shuffle: vec![0, 0, 1, 1],
        genos: vec![vec![0, 0, 1, 1]],
    };
    let ms = GenoMatrixSlice { subj_ids: vec![0, 1, 2, 3], genotype_ids: vec![2] };
    let t = Node::grow(data, 0, ms, false);
    assert!(!t.is_empty);
    assert!(t.neg);
    assert_eq!(t.score, 0);
}

#[test]
fn grow_continuous_outcome() {
    let data = NodeData {
        phenos: vec![0, 0, 10, 10],
        phenos_shuffle: vec![0, 10, 0, 10],
        genos: vec![vec![0, 1, 0, 1], vec![0, 0, 1, 1]],
    };
    let ms = GenoMatrixSlice { subj_ids: vec![0, 1, 2, 3], genotype_ids: vec![4, 9] };
    let t = Node::grow(data, 0, ms, true);
    assert!(!t.is_empty);
    assert_eq!(t.var, 9);
    assert_eq!(t.score, 5);
    assert!(!t.neg);
}

#[test]
fn importance_of_hand_built_tree() {
    let root = Node {
        score: 600_000,
        is_empty: false,
        n: 10,
        neg: false,
        var: 3,
        node_n: 10,
        left: Some(Box::new(leaf(200_000, 6, 5, false))),
        right: Some(Box::new(leaf(100_000, 4, 3, true))),
    };
    assert_eq!(root.get_importance(), vec![(3, 440_000), (5, 120_000), (3, -40_000)]);
}

#[test]
fn importance_skips_empty_children() {
    let root = Node {
        score: 600_000,
        is_empty: false,
        n: 10,
        neg: true,
        var: 3,
        node_n: 10,
        left: Some(Box::new(Node::empty_node())),
        right: Some(Box::new(leaf(100_000, 3, 1, false))),
    };
    assert_eq!(root.get_importance(), vec![(3, -570_000), (1, 30_000)]);
}

#[test]
fn empty_tree_has_no_importance() {
    assert_eq!(Node::empty_node().get_importance(), vec![]);
}
