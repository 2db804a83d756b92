use rand::Rng;
use rand_pcg::Mcg128Xsl64;
use tsp_sa_meta::error::SearchError;
use tsp_sa_meta::route::{EdgeChange, Route};
use tsp_sa_meta::table::PairTable;

fn l2(a: &[f64], b: &[f64]) -> f64 {
    a.iter().zip(b.iter()).map(|(x, y)| (x - y) * (x - y)).sum::<f64>().sqrt()
}

fn table_of(points: &[Vec<f64>]) -> PairTable<f64> {
    PairTable::from_fn(points.len(), |i, j| l2(&points[i], &points[j]))
}

fn cost(table: &PairTable<f64>, route: &Route) -> f64 {
    let n = route.len();
    (0..n).map(|k| table.get(route.at(k), route.at((k + 1) % n))).sum()
}

fn price(table: &PairTable<f64>, change: &EdgeChange) -> f64 {
    let after: f64 = change.added.iter().map(|&(x, y)| table.get(x, y)).sum();
    let before: f64 = change.removed.iter().map(|&(x, y)| table.get(x, y)).sum();
    after - before
}

fn is_permutation(path: &[usize]) -> bool {
    let mut seen = vec![false; path.len()];
    for &v in path {
        if v >= path.len() || seen[v] {
            return false;
        }
        seen[v] = true;
    }
    true
}

fn line_points(n: usize) -> Vec<Vec<f64>> {
    (0..n).map(|k| vec![k as f64]).collect()
}

#[test]
fn test_2opt() {
    let town = table_of(&line_points(5));
    let mut tour = Route::from_permutation(5, vec![0, 1, 2, 3, 4]).unwrap();
    assert_eq!(cost(&town, &tour), 8.0);
    assert_eq!(price(&town, &tour.two_opt_edges(0, 1)), 0.0);
    assert_eq!(price(&town, &tour.two_opt_edges(0, 2)), 2.0);
    assert_eq!(price(&town, &tour.two_opt_edges(0, 3)), 4.0);
    assert_eq!(price(&town, &tour.two_opt_edges(2, 0)), 2.0);
    assert_eq!(price(&town, &tour.two_opt_edges(0, 4)), 0.0);
    assert_eq!(price(&town, &tour.two_opt_edges(1, 4)), 0.0);
    tour.apply_two_opt(0, 2);
    assert_eq!(tour.path(), &vec![0, 2, 1, 3, 4]);
    tour.apply_two_opt(4, 1);
    assert_eq!(tour.path(), &vec![2, 0, 1, 3, 4]);
}

#[test]
fn colinear_scenario_cost_after_reversal() {
    let town = table_of(&line_points(5));
    let mut tour = Route::from_permutation(5, vec![0, 1, 2, 3, 4]).unwrap();
    let before = cost(&town, &tour);
    let delta = price(&town, &tour.two_opt_edges(0, 2));
    assert_eq!(delta, 2.0);
    tour.apply_two_opt(0, 2);
    assert_eq!(tour.path(), &vec![0, 2, 1, 3, 4]);
    assert_eq!(before + delta, 10.0);
    assert_eq!(cost(&town, &tour), 10.0);
}

#[test]
fn two_opt_edges_of_the_scenario() {
    let tour = Route::from_permutation(5, vec![0, 1, 2, 3, 4]).unwrap();
    let c = tour.two_opt_edges(2, 0);
    assert_eq!(c.removed, vec![(0, 1), (2, 3)]);
    assert_eq!(c.added, vec![(0, 2), (1, 3)]);
    let w = tour.two_opt_edges(3, 4);
    assert_eq!(w.removed, vec![(3, 4), (4, 0)]);
    assert_eq!(w.added, vec![(3, 4), (4, 0)]);
}

#[test]
fn equal_cut_points_change_nothing() {
    let town = table_of(&line_points(6));
    let mut tour = Route::from_permutation(6, vec![3, 1, 5, 0, 2, 4]).unwrap();
    for i in 0..6 {
        let c = tour.two_opt_edges(i, i);
        assert!(c.removed.is_empty() && c.added.is_empty());
        assert_eq!(price(&town, &c), 0.0);
        tour.apply_two_opt(i, i);
        assert_eq!(tour.path(), &vec![3, 1, 5, 0, 2, 4]);
    }
}

#[test]
fn reversal_of_the_outer_arc() {
    // cut points 1 and 5 of 7: the outer arc 6, 0, 1 is the shorter one
    let mut tour = Route::identity(7);
    tour.apply_two_opt(1, 5);
    assert_eq!(tour.path(), &vec![0, 6, 2, 3, 4, 5, 1]);
}

#[test]
fn reversal_price_is_order_free() {
    let points: Vec<Vec<f64>> = vec![vec![0.0, 0.0], vec![3.0, 1.0], vec![1.0, 4.0], vec![5.0, 5.0], vec![2.0, 2.0], vec![6.0, 0.5]];
    let town = table_of(&points);
    let tour = Route::from_permutation(6, vec![4, 0, 5, 2, 1, 3]).unwrap();
    for i in 0..6 {
        for j in 0..6 {
            assert_eq!(price(&town, &tour.two_opt_edges(i, j)), price(&town, &tour.two_opt_edges(j, i)));
        }
    }
}

#[test]
fn reversal_price_matches_recomputed_cost() {
    let mut rng = Mcg128Xsl64::new(7);
    let points: Vec<Vec<f64>> = (0..12).map(|_| vec![rng.gen_range(0.0..10.0), rng.gen_range(0.0..10.0)]).collect();
    let town = table_of(&points);
    let tour = Route::shuffled(12, &mut rng).unwrap();
    for i in 0..12 {
        for j in 0..12 {
            let mut moved = Route::from_permutation(12, tour.path().clone()).unwrap();
            let delta = price(&town, &tour.two_opt_edges(i, j));
            moved.apply_two_opt(i, j);
            assert!((cost(&town, &moved) - cost(&town, &tour) - delta).abs() < 1e-9);
        }
    }
}

#[test]
fn swap_price_matches_recomputed_cost() {
    let mut rng = Mcg128Xsl64::new(11);
    let points: Vec<Vec<f64>> = (0..9).map(|_| vec![rng.gen_range(0.0..10.0), rng.gen_range(0.0..10.0)]).collect();
    let town = table_of(&points);
    let tour = Route::shuffled(9, &mut rng).unwrap();
    for i in 0..9 {
        for j in 0..9 {
            let mut moved = Route::from_permutation(9, tour.path().clone()).unwrap();
            let delta = price(&town, &tour.swap_edges(i, j));
            moved.apply_swap(i, j);
            assert!((cost(&town, &moved) - cost(&town, &tour) - delta).abs() < 1e-9);
        }
    }
}

#[test]
fn swap_of_neighbours_counts_the_shared_edge_once() {
    let tour = Route::identity(5);
    let c = tour.swap_edges(1, 2);
    assert_eq!(c.removed, vec![(0, 1), (1, 2), (2, 3)]);
    assert_eq!(c.added, vec![(0, 2), (2, 1), (1, 3)]);
    let far = tour.swap_edges(0, 3);
    assert_eq!(far.removed, vec![(4, 0), (0, 1), (2, 3), (3, 4)]);
    assert_eq!(far.added, vec![(4, 3), (3, 1), (2, 0), (0, 4)]);
    let mut t = Route::identity(5);
    t.apply_swap(0, 3);
    assert_eq!(t.path(), &vec![3, 1, 2, 0, 4]);
}

#[test]
fn moves_keep_a_permutation() {
    let mut rng = Mcg128Xsl64::new(3);
    for n in 1..20 {
        let mut tour = Route::shuffled(n, &mut rng).unwrap();
        for _ in 0..200 {
            let i = rng.gen_range(0..n);
            let j = rng.gen_range(0..n);
            if rng.gen_bool(0.5) {
                tour.apply_two_opt(i, j);
            } else {
                tour.apply_swap(i, j);
            }
            assert!(is_permutation(tour.path()));
        }
    }
}

#[test]
fn incremental_cost_drift_stays_small() {
    let mut rng = Mcg128Xsl64::new(5);
    let n = 40;
    let points: Vec<Vec<f64>> = (0..n).map(|_| vec![rng.gen_range(0.0..100.0), rng.gen_range(0.0..100.0)]).collect();
    let town = table_of(&points);
    let mut tour = Route::shuffled(n, &mut rng).unwrap();
    let mut total = cost(&town, &tour);
    let k = 10000;
    for _ in 0..k {
        let i = rng.gen_range(0..n);
        let j = rng.gen_range(0..n);
        let delta = price(&town, &tour.two_opt_edges(i, j));
        tour.apply_two_opt(i, j);
        total += delta;
    }
    let exact = cost(&town, &tour);
    let bound = (k as f64) * f64::EPSILON * 4.0 * 150.0 * n as f64;
    assert!((total - exact).abs() <= bound);
}

#[test]
fn from_permutation_rejects_bad_paths() {
    assert_eq!(Route::from_permutation(3, vec![0, 1]).err(), Some(SearchError::InvalidInput));
    assert_eq!(Route::from_permutation(3, vec![0, 1, 1]).err(), Some(SearchError::InvalidInput));
    assert_eq!(Route::from_permutation(3, vec![0, 1, 3]).err(), Some(SearchError::InvalidInput));
    assert!(Route::from_permutation(0, vec![]).is_ok());
    assert_eq!(Route::from_permutation(3, vec![2, 0, 1]).unwrap().path(), &vec![2, 0, 1]);
}

#[test]
fn shuffled_needs_a_location() {
    let mut rng = Mcg128Xsl64::new(1);
    assert_eq!(Route::shuffled(0, &mut rng).err(), Some(SearchError::InvalidInput));
    let one = Route::shuffled(1, &mut rng).unwrap();
    assert_eq!(one.path(), &vec![0]);
}

#[test]
fn shuffled_reorders_the_identity() {
    let mut rng = Mcg128Xsl64::new(42);
    let t = Route::shuffled(50, &mut rng).unwrap();
    assert!(is_permutation(t.path()));
    assert_ne!(t.path(), Route::identity(50).path());
}
