use itertools::Itertools;
use rand::rngs::StdRng;
use rand::{Rng, SeedableRng};
use tsp_rust::{path_dist, tsp_solve, Town};

/// Reference solver: tries every order.
fn tsp_ref(towns: &Vec<Town>) -> (Vec<usize>, u128) {
    let mut smallest_dist: u128 = u128::MAX;
    let mut best_order: Vec<usize> = vec![];
    for order in (0..towns.len()).permutations(towns.len()) {
        let dist = order
            .iter()
            .tuple_windows()
            .fold(0u128, |acc, (town1, town2)| {
                acc + towns[*town1].dist(&towns[*town2]) as u128
            });
        if dist < smallest_dist {
            smallest_dist = dist;
            best_order = order;
        }
    }
    (best_order, smallest_dist)
}

fn is_permutation(order: &[usize], n: usize) -> bool {
    let mut seen = vec![false; n];
    if order.len() != n {
        return false;
    }
    for &i in order {
        if i >= n || seen[i] {
            return false;
        }
        seen[i] = true;
    }
    true
}

fn random_towns(rng: &mut StdRng, n: usize, span: i32) -> Vec<Town> {
    (0..n)
        .map(|_| Town {
            x: rng.gen_range(0..span),
            y: rng.gen_range(0..span),
        })
        .collect()
}

#[test]
fn tsp_three_towns() {
    let towns = vec![
        Town { x: 0, y: 1 },
        Town { x: 0, y: 0 },
        Town { x: 1, y: 0 },
    ];
    let (order, dist) = tsp_ref(&towns);
    assert_eq!(dist, 2);
    assert!(order == [0, 1, 2] || order == [2, 1, 0]);
    let (order, dist) = tsp_solve(&towns);
    assert_eq!(dist, 2);
    assert!(order == [0, 1, 2] || order == [2, 1, 0]);
}

#[test]
fn tsp_five_towns() {
    let mut rng = StdRng::seed_from_u64(5);
    let towns = random_towns(&mut rng, 5, 1 << 30);
    let (_, ref_dist) = tsp_ref(&towns);
    let (order, dist) = tsp_solve(&towns);
    assert_eq!(ref_dist, dist);
    assert_eq!(path_dist(&towns, &order), dist);
}

#[test]
fn collinear_towns() {
    let towns = vec![
        Town { x: 0, y: 0 },
        Town { x: 2, y: 0 },
        Town { x: 1, y: 0 },
    ];
    let (order, dist) = tsp_solve(&towns);
    assert_eq!(dist, 2);
    assert!(order == [0, 2, 1] || order == [1, 2, 0]);
}

#[test]
fn no_towns() {
    let towns: Vec<Town> = vec![];
    let (order, dist) = tsp_solve(&towns);
    assert!(order.is_empty());
    assert_eq!(dist, 0);
}

#[test]
fn one_town() {
    let towns = vec![Town { x: 7, y: -3 }];
    let (order, dist) = tsp_solve(&towns);
    assert_eq!(order, vec![0]);
    assert_eq!(dist, 0);
}

#[test]
fn two_towns() {
    let towns = vec![Town { x: 0, y: 0 }, Town { x: 3, y: 4 }];
    let (order, dist) = tsp_solve(&towns);
    assert!(order == [0, 1] || order == [1, 0]);
    assert_eq!(dist, 5);
}

#[test]
fn towns_at_one_place() {
    let towns = vec![Town { x: 4, y: 4 }; 4];
    let (order, dist) = tsp_solve(&towns);
    assert!(is_permutation(&order, 4));
    assert_eq!(dist, 0);
}

#[test]
fn open_path_not_closed_tour() {
    // A square of side 10: the best open path walks three sides.
    let towns = vec![
        Town { x: 0, y: 0 },
        Town { x: 10, y: 10 },
        Town { x: 10, y: 0 },
        Town { x: 0, y: 10 },
    ];
    let (order, dist) = tsp_solve(&towns);
    assert_eq!(dist, 30);
    assert_eq!(path_dist(&towns, &order), 30);
}

#[test]
fn best_path_need_not_start_at_first_town() {
    let towns = vec![
        Town { x: 5, y: 0 },
        Town { x: 0, y: 0 },
        Town { x: 10, y: 0 },
    ];
    let (order, dist) = tsp_solve(&towns);
    assert_eq!(dist, 10);
    assert!(order == [1, 0, 2] || order == [2, 0, 1]);
}

#[test]
fn matches_brute_force_on_seeded_towns() {
    let mut rng = StdRng::seed_from_u64(2024);
    for n in 0..8 {
        for _ in 0..4 {
            let towns = random_towns(&mut rng, n, 1000);
            let (_, ref_dist) = tsp_ref(&towns);
            let (order, dist) = tsp_solve(&towns);
            assert!(is_permutation(&order, n));
            if n > 0 {
                assert_eq!(ref_dist, dist);
            }
            assert_eq!(path_dist(&towns, &order), dist);
        }
    }
}

#[test]
fn many_five_town_trials() {
    let mut rng = StdRng::seed_from_u64(99);
    for _ in 0..50 {
        let towns = random_towns(&mut rng, 5, 1 << 20);
        let (_, ref_dist) = tsp_ref(&towns);
        let (order, dist) = tsp_solve(&towns);
        assert!(is_permutation(&order, 5));
        assert_eq!(ref_dist, dist);
        assert_eq!(path_dist(&towns, &order), dist);
    }
}

#[test]
fn distance_rounds_up() {
    let a = Town { x: 0, y: 0 };
    assert_eq!(a.dist(&Town { x: 3, y: 4 }), 5);
    assert_eq!(a.dist(&Town { x: 1, y: 1 }), 2);
    assert_eq!(a.dist(&Town { x: 0, y: 0 }), 0);
    assert_eq!(a.dist(&Town { x: -6, y: 8 }), 10);
    assert_eq!(a.dist(&Town { x: 2, y: 1 }), 3);
}

#[test]
fn distance_at_coordinate_extremes() {
    let a = Town { x: i32::MIN, y: i32::MIN };
    let b = Town { x: i32::MAX, y: i32::MAX };
    assert_eq!(a.dist(&b), 6074000999);
    assert_eq!(b.dist(&a), 6074000999);
    let c = Town { x: i32::MIN, y: 0 };
    let d = Town { x: i32::MAX, y: 0 };
    assert_eq!(c.dist(&d), 4294967295);
}

#[test]
fn distance_symmetric_and_triangle() {
    let mut rng = StdRng::seed_from_u64(7);
    for _ in 0..200 {
        let t = random_towns(&mut rng, 3, i32::MAX);
        assert_eq!(t[0].dist(&t[1]), t[1].dist(&t[0]));
        assert!(t[0].dist(&t[2]) <= t[0].dist(&t[1]) + t[1].dist(&t[2]));
    }
}

#[test]
fn path_dist_sums_consecutive_legs() {
    let towns = vec![
        Town { x: 0, y: 0 },
        Town { x: 3, y: 4 },
        Town { x: 3, y: 0 },
    ];
    assert_eq!(path_dist(&towns, &vec![]), 0);
    assert_eq!(path_dist(&towns, &vec![1]), 0);
    assert_eq!(path_dist(&towns, &vec![0, 1, 2]), 9);
    assert_eq!(path_dist(&towns, &vec![2, 0, 1]), 8);
    assert_eq!(path_dist(&towns, &vec![0, 1, 0]), 10);
}

#[test]
fn solve_on_far_apart_towns() {
    let towns = vec![
        Town { x: i32::MIN, y: i32::MIN },
        Town { x: i32::MAX, y: i32::MAX },
        Town { x: i32::MIN, y: i32::MAX },
        Town { x: i32::MAX, y: i32::MIN },
    ];
    let (order, dist) = tsp_solve(&towns);
    let (_, ref_dist) = tsp_ref(&towns);
    assert_eq!(dist, ref_dist);
    assert_eq!(dist, 3 * 4294967295);
    assert!(is_permutation(&order, 4));
}
