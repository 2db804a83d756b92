use tsp_sa_meta::pair::{order_ab, pair_index};
use tsp_sa_meta::table::PairTable;

fn l2(a: &[f64], b: &[f64]) -> f64 {
    a.iter().zip(b.iter()).map(|(x, y)| (x - y) * (x - y)).sum::<f64>().sqrt()
}

#[test]
fn town_distance_l2() {
    let towns = vec![vec![0.0, 0.0], vec![0.0, 3.0], vec![4.0, 0.0], vec![3.0, 4.0]];
    let cost = [
        [0.0, 3.0, 4.0, 5.0],
        [3.0, 0.0, 5.0, 10f64.sqrt()],
        [4.0, 5.0, 0.0, 17f64.sqrt()],
        [5.0, 10f64.sqrt(), 17f64.sqrt(), 0.0],
    ];
    let dist = PairTable::from_fn(towns.len(), |i, j| l2(&towns[i], &towns[j]));
    assert_eq!(dist.len(), towns.len());
    for i in 0..towns.len() {
        for j in 0..towns.len() {
            assert_eq!(dist.get(i, j), cost[i][j]);
        }
    }
}

#[test]
fn table_is_symmetric_with_zero_diagonal() {
    let towns: Vec<Vec<f64>> = (0..7).map(|k| vec![(k * k) as f64, (3 * k % 5) as f64]).collect();
    let dist = PairTable::from_fn(towns.len(), |i, j| l2(&towns[i], &towns[j]));
    for i in 0..7 {
        assert_eq!(dist.get(i, i), 0.0);
        for j in 0..7 {
            assert_eq!(dist.get(i, j), dist.get(j, i));
        }
    }
}

#[test]
fn table_calls_each_pair_once_with_higher_index_first() {
    let t = PairTable::from_fn(4, |i, j| (i, j));
    assert_eq!(t.get(1, 3), (3, 1));
    assert_eq!(t.get(3, 1), (3, 1));
    assert_eq!(t.get(2, 2), (2, 2));
    let empty: PairTable<u8> = PairTable::from_fn(0, |_, _| 0);
    assert_eq!(empty.len(), 0);
    let one = PairTable::from_fn(1, |_, _| 0.0f64);
    assert_eq!(one.get(0, 0), 0.0);
}

#[test]
fn packed_index_of_pairs() {
    assert_eq!(pair_index(0, 0, 4), 0);
    assert_eq!(pair_index(0, 1, 4), 1);
    assert_eq!(pair_index(1, 1, 4), 2);
    assert_eq!(pair_index(3, 2, 4), 8);
    assert_eq!(pair_index(2, 3, 4), 8);
    assert_eq!(pair_index(3, 3, 4), 9);
    assert_eq!(order_ab(5, 2), (2, 5));
    assert_eq!(order_ab(2, 5), (2, 5));
    assert_eq!(order_ab(4, 4), (4, 4));
}
