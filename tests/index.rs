use flatnav::{
    Distance, EuclideanDistance, GOrder, Index, IndexError, IndexEuclidean, Reordering, NONE,
};
use rand::{Rng, SeedableRng};

/// Fixed-point scale for vectors drawn from floats.
const SCALE: f32 = 1048576.0;

fn to_fixed(v: &[f32]) -> Vec<i32> {
    v.iter().map(|x| (x * SCALE).round() as i32).collect()
}

#[test]
fn test_index() {
    const MAX_NBRS: usize = 10;
    const DATA_DIM: usize = 64;
    const N_VECS: usize = 1000;

    // A fixed seed keeps the sample, and so the outcome, the same from run to run.
    let mut rng = rand::rngs::StdRng::seed_from_u64(3);
    let data_dist = rand::distr::Uniform::new(-1.0f32, 1.0).unwrap();
    let noise_dist = rand::distr::Uniform::new(-0.01f32, 0.01).unwrap();

    let dataset: Vec<(Vec<f32>, Vec<f32>)> = (0..N_VECS)
        .map(|_| {
            let vec: Vec<f32> = (0..DATA_DIM).map(|_| rng.sample(data_dist)).collect();
            let query = vec.iter().map(|x| x + rng.sample(noise_dist)).collect();
            (vec, query)
        })
        .collect();

    let mut index = Index::<i32, EuclideanDistance>::new(
        MAX_NBRS,
        DATA_DIM,
        N_VECS,
        EuclideanDistance,
    );

    for (idx, (data, _)) in dataset.iter().enumerate() {
        assert!(index.insert(idx as u64, &to_fixed(data), 16).is_ok());
    }

    for (idx, (_, query)) in dataset.iter().take(4).enumerate() {
        let results = index.query(&to_fixed(query), 16, 5).ok().unwrap();
        assert!(!results.is_empty(), "Query {} returned no results", idx);
        assert_eq!(results[0].0, idx as u64);
    }
}

fn small_index() -> IndexEuclidean {
    let mut index = IndexEuclidean::new(2, 2, 8, EuclideanDistance);
    let points = [[0, 0], [10, 0], [0, 10], [10, 10], [5, 5], [20, 20]];
    for (i, p) in points.iter().enumerate() {
        assert!(index.insert(100 + i as u64, p, 8).is_ok());
    }
    index
}

#[test]
fn euclidean_distance_is_squared() {
    assert_eq!(EuclideanDistance.call(&[1, 2, 3], &[4, 6, 3]), 25);
    assert_eq!(EuclideanDistance.call(&[], &[]), 0);
    assert_eq!(
        EuclideanDistance.call(&[i32::MIN, i32::MAX], &[i32::MAX, i32::MIN]),
        2 * (u32::MAX as u128) * (u32::MAX as u128)
    );
}

#[test]
fn empty_index_query_is_empty() {
    let index = IndexEuclidean::new(4, 3, 0, EuclideanDistance);
    assert_eq!(index.len(), 0);
    assert_eq!(index.query(&[1, 2, 3], 10, 5).ok().unwrap(), vec![]);
}

#[test]
fn first_insert_has_no_neighbors() {
    let mut index = IndexEuclidean::new(4, 3, 0, EuclideanDistance);
    assert!(index.insert(9, &[1, 2, 3], 10).is_ok());
    assert_eq!(index.len(), 1);
    assert_eq!(index.nbrs(0), &[NONE, NONE, NONE, NONE]);
    assert_eq!(index.label(0), 9);
}

#[test]
fn second_insert_is_linked_back() {
    let mut index = IndexEuclidean::new(3, 2, 0, EuclideanDistance);
    assert!(index.insert(1, &[0, 0], 4).is_ok());
    assert!(index.insert(2, &[3, 4], 4).is_ok());
    assert_eq!(index.nbrs(1), &[0, NONE, NONE]);
    assert!(index.nbrs(0).contains(&1));
}

#[test]
fn neighbor_lists_stay_bounded_and_distinct() {
    let mut index = IndexEuclidean::new(3, 2, 0, EuclideanDistance);
    for i in 0..60i32 {
        let p = [(i * 37) % 101, (i * 53) % 97];
        assert!(index.insert(i as u64, &p, 5).is_ok());
        for v in 0..index.len() {
            let nbrs = index.nbrs(v);
            assert_eq!(nbrs.len(), 3);
            let used: Vec<u32> = nbrs.iter().copied().filter(|x| *x != NONE).collect();
            for (a, x) in used.iter().enumerate() {
                assert!((*x as usize) < index.len());
                assert!(!used[a + 1..].contains(x));
            }
        }
    }
}

#[test]
fn query_finds_exact_match_first() {
    let index = small_index();
    let results = index.query(&[10, 10], 8, 3).ok().unwrap();
    assert_eq!(results[0], (103, 0));
    assert!(results.len() <= 3);
    for w in results.windows(2) {
        assert!(w[0].1 <= w[1].1);
    }
}

#[test]
fn query_is_deterministic() {
    let index = small_index();
    let a = index.query(&[4, 6], 4, 4).ok().unwrap();
    let b = index.query(&[4, 6], 4, 4).ok().unwrap();
    assert_eq!(a, b);
}

#[test]
fn dimension_mismatch_is_reported() {
    let mut index = small_index();
    assert!(matches!(
        index.insert(1, &[1, 2, 3], 4),
        Err(IndexError::DimensionMismatch(2, 3))
    ));
    assert_eq!(index.len(), 6);
    assert!(matches!(
        index.query(&[1], 4, 4),
        Err(IndexError::DimensionMismatch(2, 1))
    ));
}

#[test]
fn search_initialization_scans_all_small() {
    let index = small_index();
    assert_eq!(index.search_initialization(&[19, 19], 100), 5);
    assert_eq!(index.search_initialization(&[1, 1], 100), 0);
}

#[test]
fn beam_search_returns_sorted_closest() {
    let index = small_index();
    let mut r = index.beam_search(&[0, 9], 5, 2);
    assert!(r.len() >= 1 && r.len() <= 2);
    let first = r.pop().unwrap();
    assert_eq!(first.node, 2);
    assert_eq!(first.dist, 1);
}

struct Reverse;

impl Reordering for Reverse {
    fn reorder(&self, out_nodes: &Vec<Vec<usize>>) -> Vec<usize> {
        (0..out_nodes.len()).rev().collect()
    }
}

struct Broken;

impl Reordering for Broken {
    fn reorder(&self, out_nodes: &Vec<Vec<usize>>) -> Vec<usize> {
        vec![0; out_nodes.len()]
    }
}

#[test]
fn reorder_moves_nodes_and_renumbers_neighbors() {
    let mut index = small_index();
    let before: Vec<(u64, Vec<u32>, Vec<i32>)> = (0..index.len())
        .map(|v| (index.label(v), index.nbrs(v).to_vec(), index.data(v).to_vec()))
        .collect();
    assert!(index.reorder(&Reverse).is_ok());
    let n = index.len();
    for (v, (label, nbrs, data)) in before.iter().enumerate() {
        let p = n - 1 - v;
        assert_eq!(index.label(p), *label);
        assert_eq!(index.data(p), data.as_slice());
        let mapped: Vec<u32> = nbrs
            .iter()
            .map(|x| if *x == NONE { NONE } else { (n - 1 - *x as usize) as u32 })
            .collect();
        assert_eq!(index.nbrs(p), mapped.as_slice());
    }
    let results = index.query(&[10, 10], 8, 1).ok().unwrap();
    assert_eq!(results[0], (103, 0));
}

#[test]
fn reorder_with_gorder_keeps_results() {
    let mut index = small_index();
    let before = index.query(&[5, 6], 8, 6).ok().unwrap();
    assert!(index.reorder(&GOrder::new(2)).is_ok());
    let after = index.query(&[5, 6], 8, 6).ok().unwrap();
    assert_eq!(before[0], after[0]);
    assert_eq!(index.len(), 6);
}

#[test]
fn reorder_rejects_non_permutation() {
    let mut index = small_index();
    let before: Vec<Vec<u32>> = (0..index.len()).map(|v| index.nbrs(v).to_vec()).collect();
    assert!(matches!(index.reorder(&Broken), Err(IndexError::InvalidPermutation)));
    for (v, nbrs) in before.iter().enumerate() {
        assert_eq!(index.nbrs(v), nbrs.as_slice());
    }
}
