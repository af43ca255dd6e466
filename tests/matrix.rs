use rand::rngs::StdRng;
use rand::SeedableRng;
use variant_forest::matrix::{subject_drawn, GenoMatrix, GenoMatrixSlice, FRACTION_ONE};

fn binary_matrix() -> GenoMatrix {
    let rows = vec![vec![0, 1, 2], vec![1, 0, 0], vec![2, 2, 1], vec![0, 0, 0]];
    let ids = vec!["s1".to_string(), "s2".to_string(), "s3".to_string(), "s4".to_string()];
    GenoMatrix::new(ids, vec![0, 1, 0, 1], &rows, 3, false)
}

fn continuous_matrix(n: usize) -> GenoMatrix {
    let rows: Vec<Vec<u8>> = (0..n).map(|i| vec![(i % 2) as u8, (i % 3 == 0) as u8]).collect();
    let ids: Vec<String> = (0..n).map(|i| format!("s{}", i)).collect();
    let phenos: Vec<i64> = (0..n as i64).map(|i| i * 10).collect();
    GenoMatrix::new(ids, phenos, &rows, 2, true)
}

#[test]
fn slice_data_reads_stored_genotypes() {
    let m = binary_matrix();
    let slice = GenoMatrixSlice { subj_ids: vec![0, 2], genotype_ids: vec![1, 2] };
    let mut rng = StdRng::seed_from_u64(1);
    let (p, ps, g) = m.get_slice_data(&slice, &mut rng);
    assert_eq!(p, vec![0, 0]);
    let mut sorted = ps.clone();
    sorted.sort();
    assert_eq!(sorted, vec![0, 0]);
    assert_eq!(g, vec![vec![1, 2], vec![2, 1]]);
    let slice = GenoMatrixSlice { subj_ids: vec![1, 3], genotype_ids: vec![0] };
    let (p, _, g) = m.get_slice_data(&slice, &mut rng);
    assert_eq!(p, vec![1, 1]);
    assert_eq!(g, vec![vec![1, 0]]);
}

#[test]
fn full_fractions_draw_everything_for_continuous_outcome() {
    let m = continuous_matrix(6);
    let mut rng = StdRng::seed_from_u64(3);
    let s = m.make_slice(FRACTION_ONE, FRACTION_ONE, &mut rng);
    assert_eq!(s.subj_ids, vec![0, 1, 2, 3, 4, 5]);
    assert_eq!(s.genotype_ids, vec![0, 1]);
}

#[test]
fn zero_fractions_draw_nothing() {
    let m = binary_matrix();
    let mut rng = StdRng::seed_from_u64(3);
    let s = m.make_slice(0, 0, &mut rng);
    assert!(s.subj_ids.is_empty());
    assert!(s.genotype_ids.is_empty());
}

#[test]
fn binary_slice_draws_all_variants_and_ordered_subjects() {
    let m = binary_matrix();
    for seed in 0..20 {
        let mut rng = StdRng::seed_from_u64(seed);
        let s = m.make_slice(FRACTION_ONE, FRACTION_ONE, &mut rng);
        assert_eq!(s.genotype_ids, vec![0, 1, 2]);
        assert!(s.subj_ids.windows(2).all(|w| w[0] < w[1]));
        assert!(s.subj_ids.iter().all(|&i| i < 4));
    }
}

#[test]
fn mask_removes_variants_from_samples() {
    let mut m = binary_matrix();
    m.mask(&vec![1, 7]);
    let mut rng = StdRng::seed_from_u64(5);
    let s = m.make_slice(FRACTION_ONE, FRACTION_ONE, &mut rng);
    assert_eq!(s.genotype_ids, vec![0, 2]);
}

#[test]
fn mask_twice_is_mask_once() {
    let mut once = binary_matrix();
    once.mask(&vec![1]);
    let mut twice = binary_matrix();
    twice.mask(&vec![1]);
    twice.mask(&vec![1]);
    let mut r1 = StdRng::seed_from_u64(9);
    let mut r2 = StdRng::seed_from_u64(9);
    assert_eq!(
        once.make_slice(FRACTION_ONE, 500_000, &mut r1).genotype_ids,
        twice.make_slice(FRACTION_ONE, 500_000, &mut r2).genotype_ids
    );
}

#[test]
fn keeping_listed_variants_never_restores_masked_ones() {
    let mut m = binary_matrix();
    m.mask(&vec![0]);
    m.set_genotype_indices(vec![0, 2, 5]);
    let mut rng = StdRng::seed_from_u64(2);
    let s = m.make_slice(FRACTION_ONE, FRACTION_ONE, &mut rng);
    assert_eq!(s.genotype_ids, vec![2]);
}

#[test]
fn shuffled_phenotypes_are_a_reordering() {
    let m = continuous_matrix(12);
    let slice = GenoMatrixSlice { subj_ids: (0..12).collect(), genotype_ids: vec![0] };
    let mut moved = false;
    for seed in 0..10 {
        let mut rng = StdRng::seed_from_u64(seed);
        let (p, ps, _) = m.get_slice_data(&slice, &mut rng);
        let mut sorted = ps.clone();
        sorted.sort();
        assert_eq!(sorted, p);
        if ps != p {
            moved = true;
        }
    }
    assert!(moved);
}

#[test]
fn subject_draw_uses_own_class_size() {
    assert!(subject_drawn(299_999, 100_000, false, 3));
    assert!(!subject_drawn(300_000, 100_000, false, 3));
    assert!(subject_drawn(699_999, 100_000, false, 7));
    assert!(!subject_drawn(699_999, 2_000_000, false, 0));
    assert!(subject_drawn(6_999_999, 2_000_000, false, 7));
    assert!(!subject_drawn(7_000_000, 2_000_000, false, 7));
}

#[test]
fn subject_draw_for_continuous_outcome() {
    assert!(subject_drawn(249_999, 250_000, true, 0));
    assert!(!subject_drawn(250_000, 250_000, true, 0));
    assert!(subject_drawn(999_999, 5_000_000, true, 0));
    assert!(!subject_drawn(0, 0, true, 0));
}
