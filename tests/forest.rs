use rand::rngs::StdRng;
use rand::SeedableRng;
use variant_forest::forest::{make_tree, select_vars, Forest, HyperParameters};
use variant_forest::matrix::{GenoMatrix, FRACTION_ONE};
use variant_forest::tree::Node;

fn leaf(score: i64, node_n: usize, var: usize, neg: bool) -> Node {
    Node { score, is_empty: false, n: 10, neg, var, node_n, left: None, right: None }
}

fn tree_a() -> Node {
    Node {
        score: 600_000,
        is_empty: false,
        n: 10,
        neg: false,
        var: 3,
        node_n: 10,
        left: Some(Box::new(leaf(200_000, 6, 5, false))),
        right: Some(Box::new(leaf(100_000, 4, 3, true))),
    }
}

fn tree_b() -> Node {
    leaf(300_000, 5, 5, false)
}

fn params(n_tree: i32) -> HyperParameters {
    HyperParameters {
        n_tree,
        mtry: FRACTION_ONE,
        max_depth: 3,
        subj_fraction: FRACTION_ONE,
        continuous_outcome: false,
    }
}

fn small_matrix() -> GenoMatrix {
    let v0 = [0, 0, 0, 0, 0, 1, 1, 1, 1, 1];
    let v1 = [0, 1, 0, 1, 0, 1, 0, 1, 0, 1];
    let v2 = [0, 0, 1, 1, 0, 0, 1, 1, 0, 0];
    let v3 = [1, 0, 0, 1, 1, 0, 0, 1, 1, 0];
    let rows: Vec<Vec<u8>> = (0..10).map(|i| vec![v0[i], v1[i], v2[i], v3[i]]).collect();
    let ids: Vec<String> = (0..10).map(|i| format!("s{}", i)).collect();
    GenoMatrix::new(ids, vec![0, 0, 0, 1, 0, 1, 1, 1, 0, 1], &rows, 4, false)
}

#[test]
fn importance_is_mean_over_occurrences() {
    let mut f = Forest::new(params(2));
    f.set_trees(vec![tree_a(), Node::empty_node()]);
    assert_eq!(f.get_var_importances(), vec![(3, 200_000), (5, 120_000)]);
}

#[test]
fn importance_ignores_tree_order() {
    let mut f = Forest::new(params(3));
    f.set_trees(vec![tree_a(), tree_b(), Node::empty_node()]);
    let mut g = Forest::new(params(3));
    g.set_trees(vec![Node::empty_node(), tree_b(), tree_a()]);
    assert_eq!(f.get_var_importances(), g.get_var_importances());
    assert_eq!(f.get_var_importances(), vec![(3, 200_000), (5, 135_000)]);
}

#[test]
fn importance_ignores_empty_trees() {
    let mut f = Forest::new(params(1));
    f.set_trees(vec![tree_a()]);
    let mut g = Forest::new(params(4));
    g.set_trees(vec![Node::empty_node(), tree_a(), Node::empty_node(), Node::empty_node()]);
    assert_eq!(f.get_var_importances(), g.get_var_importances());
}

#[test]
fn keep_cutoff_at_one_half_keeps_all_non_negative() {
    let table = vec![(0, 10), (1, 10), (2, 10), (3, 1000)];
    assert_eq!(select_vars(&table, 500), vec![0, 1, 2, 3]);
}

#[test]
fn keep_vars_at_one_half_keeps_every_variant() {
    let mut f = Forest::new(params(4));
    let lf = |v: usize, s: i64| Node { score: s, is_empty: false, n: 1, neg: false, var: v, node_n: 1, left: None, right: None };
    f.trees = Some(vec![lf(0, 10), lf(1, 10), lf(2, 10), lf(3, 1000)]);
    assert_eq!(f.get_var_importances(), vec![(0, 10), (1, 10), (2, 10), (3, 1000)]);
    assert_eq!(f.keep_vars(500), vec![0, 1, 2, 3]);
}

#[test]
fn keep_cutoff_below_one_half_uses_the_table() {
    let table = vec![(0, 10), (1, 10), (2, 10), (3, 1000)];
    assert_eq!(select_vars(&table, 450), vec![3]);
}

#[test]
fn keep_cutoff_above_one_half_keeps_all_non_negative() {
    let table = vec![(0, 10), (1, 10), (2, 10), (3, 1000)];
    assert_eq!(select_vars(&table, 600), vec![0, 1, 2, 3]);
    let table = vec![(0, -10), (1, 0), (2, 10)];
    assert_eq!(select_vars(&table, 900), vec![1, 2]);
}

#[test]
fn keep_cutoff_from_normal_table() {
    let table = vec![(0, 10), (1, 10), (2, 10), (3, 1000)];
    assert_eq!(select_vars(&table, 50), vec![3]);
    assert_eq!(select_vars(&table, 7), vec![]);
}

#[test]
fn negative_tree_count_grows_nothing() {
    let m = small_matrix();
    let mut f = Forest::new(params(-3));
    f.grow(&m, 1);
    assert_eq!(f.trees.as_ref().unwrap().len(), 0);
    assert_eq!(f.get_var_importances(), vec![]);
    assert_eq!(f.keep_vars(600), vec![]);
}

#[test]
fn end_to_end_small_matrix() {
    let m = small_matrix();
    let mut f = Forest::new(params(5));
    f.grow(&m, 42);
    let trees = f.trees.as_ref().unwrap();
    assert_eq!(trees.len(), 5);
    assert!(trees.iter().all(|t| !t.is_empty));
    let imps = f.get_var_importances();
    let vars: Vec<usize> = imps.iter().map(|e| e.0).collect();
    assert_eq!(vars, vec![0, 1, 2, 3]);
    let mut g = Forest::new(params(5));
    g.grow(&m, 42);
    assert_eq!(g.get_var_importances(), imps);
}

#[test]
fn grow_matches_trees_made_one_by_one() {
    let m = small_matrix();
    let hp = params(3);
    let mut f = Forest::new(params(3));
    f.grow(&m, 7);
    let mut trees = Vec::new();
    for i in 0..3u64 {
        let mut rng = StdRng::seed_from_u64(7 + i);
        trees.push(make_tree(&m, &hp, &mut rng));
    }
    let mut g = Forest::new(params(3));
    g.set_trees(trees);
    assert_eq!(f.get_var_importances(), g.get_var_importances());
}

#[test]
fn masked_variants_never_return() {
    let mut m = small_matrix();
    let mut f = Forest::new(params(5));
    f.grow(&m, 11);
    let keep = f.keep_vars(500);
    m.mask(&keep);
    let mut rng = StdRng::seed_from_u64(12);
    for _ in 0..20 {
        let s = m.make_slice(FRACTION_ONE, FRACTION_ONE, &mut rng);
        assert!(s.genotype_ids.iter().all(|v| !keep.contains(v)));
    }
    f.grow(&m, 13);
    let used: Vec<usize> = f.get_var_importances().iter().map(|e| e.0).collect();
    assert!(used.iter().all(|v| !keep.contains(v)));
}

#[test]
fn update_replaces_settings() {
    let m = small_matrix();
    let mut f = Forest::new(params(2));
    f.grow(&m, 3);
    f.update_hyperparameters(params(4));
    f.grow(&m, 3);
    assert_eq!(f.trees.as_ref().unwrap().len(), 4);
}
