use tsp_anneal::tour::{
    calc_2opt_nodes, change_2opt, fast_tour_needed, group_ord_fast, group_ord_greedy, GreedyTour,
    InitialTour, GREEDY_LIMIT, INF_KEY,
};

#[test]
fn inf_key_is_the_bit_pattern_of_the_bound() {
    assert_eq!(INF_KEY, 1e18f64.to_bits());
    // Bit patterns of non-negative floats order as the floats do.
    assert!(1.5f64.to_bits() < 2.0f64.to_bits());
    assert!(f64::INFINITY.to_bits() > INF_KEY);
    assert!(f64::NAN.to_bits() > INF_KEY);
}

fn order_key(v: f64) -> u64 {
    let bits = (v + 0.0).to_bits();
    if bits >> 63 == 1 {
        !bits
    } else {
        bits | (1 << 63)
    }
}

#[test]
fn order_keys_order_as_the_coordinates() {
    let vals = [-1e300, -2.5, -1.0, -0.0, 0.0, 1e-300, 1.0, 2.5, 1e300, f64::INFINITY];
    for &a in vals.iter() {
        for &b in vals.iter() {
            assert_eq!(a < b, order_key(a) < order_key(b), "{} {}", a, b);
            assert_eq!(a == b, order_key(a) == order_key(b), "{} {}", a, b);
        }
    }
    assert!(order_key(f64::NEG_INFINITY) < order_key(-1e300));
}

fn point_keys(points: &[(f64, f64)]) -> Vec<(u64, u64)> {
    points.iter().map(|p| (order_key(p.0), order_key(p.1))).collect()
}

#[test]
fn fast_tour_goes_by_increasing_x_then_y() {
    let pts = [(3.0, 0.0), (1.0, 5.0), (-2.0, 1.0), (1.0, -4.0), (3.0, -1.0)];
    assert_eq!(group_ord_fast(&point_keys(&pts)), vec![2, 3, 1, 4, 0]);
}

#[test]
fn fast_tour_keeps_equal_points_in_order() {
    let pts = [(1.0, 1.0), (0.0, 0.0), (1.0, 1.0), (-0.0, 0.0)];
    assert_eq!(group_ord_fast(&point_keys(&pts)), vec![1, 3, 0, 2]);
}

#[test]
fn fast_tour_of_no_or_one_point() {
    assert_eq!(group_ord_fast(&vec![]), Vec::<usize>::new());
    assert_eq!(group_ord_fast(&vec![(5, 5)]), vec![0]);
}

#[test]
fn fast_tour_matches_a_stable_sort() {
    let mut keys = Vec::new();
    let mut v: u64 = 12345;
    for _ in 0..500 {
        v = v.wrapping_mul(6364136223846793005).wrapping_add(1442695040888963407);
        keys.push(((v >> 60) as u64, (v >> 58) % 3));
    }
    let mut expected: Vec<usize> = (0..keys.len()).collect();
    expected.sort_by_key(|&i| keys[i]);
    assert_eq!(group_ord_fast(&keys), expected);
}

fn dist_keys(points: &[(f64, f64)]) -> Vec<Vec<u64>> {
    points
        .iter()
        .map(|p| {
            points
                .iter()
                .map(|q| ((p.0 - q.0).powi(2) + (p.1 - q.1).powi(2)).sqrt().to_bits())
                .collect()
        })
        .collect()
}

fn greedy(d: &Vec<Vec<u64>>) -> Vec<usize> {
    let n = d.len();
    match group_ord_greedy(n, &vec![]) {
        InitialTour::Greedy(mut b) => {
            while let Some(cur) = b.current() {
                b.step(&d[cur]);
            }
            b.into_tour()
        }
        InitialTour::Fast(_) => panic!("no greedy tour"),
    }
}

#[test]
fn greedy_tour_follows_nearest_neighbours() {
    let pts = [(0.0, 0.0), (10.0, 0.0), (1.0, 0.0), (5.0, 0.0), (2.0, 0.0)];
    assert_eq!(greedy(&dist_keys(&pts)), vec![0, 2, 4, 3, 1]);
}

#[test]
fn greedy_tour_breaks_ties_by_lowest_node() {
    let pts = [(0.0, 0.0), (1.0, 0.0), (-1.0, 0.0), (0.0, 1.0)];
    // Nodes 1, 2, 3 are equally near node 0: node 1 comes first.
    assert_eq!(greedy(&dist_keys(&pts))[1], 1);
}

#[test]
fn greedy_tour_without_candidates_returns_to_node_zero() {
    let d = vec![vec![0, INF_KEY, INF_KEY], vec![INF_KEY, 0, 5], vec![INF_KEY, 5, 0]];
    assert_eq!(greedy(&d), vec![0, 0, 0]);
}

#[test]
fn greedy_tour_of_no_or_one_node() {
    assert_eq!(greedy(&vec![]), Vec::<usize>::new());
    assert_eq!(greedy(&vec![vec![0]]), vec![0]);
}

#[test]
fn greedy_ignores_keys_of_visited_nodes() {
    let mut b = GreedyTour::new(3);
    assert_eq!(b.current(), Some(0));
    assert!(b.is_visited(0));
    assert!(!b.is_visited(1));
    // The key of node 0 itself is not read.
    b.step(&vec![0, 7, 4]);
    assert_eq!(b.current(), Some(2));
    b.step(&vec![u64::MAX, 1, u64::MAX]);
    assert_eq!(b.current(), None);
    assert_eq!(b.into_tour(), vec![0, 2, 1]);
}

#[test]
fn above_the_limit_the_fast_tour_is_used() {
    assert!(!fast_tour_needed(GREEDY_LIMIT));
    assert!(fast_tour_needed(GREEDY_LIMIT + 1));
    let n = GREEDY_LIMIT + 1;
    let keys: Vec<(u64, u64)> = (0..n).map(|i| ((n - i) as u64, 0)).collect();
    match group_ord_greedy(n, &keys) {
        InitialTour::Fast(t) => assert_eq!(t, (0..n).rev().collect::<Vec<usize>>()),
        InitialTour::Greedy(_) => panic!("no fast tour"),
    }
}

#[test]
fn two_opt_reverses_the_segment() {
    let mut ord = vec![10, 11, 12, 13, 14, 15];
    change_2opt(&mut ord, 1, 4);
    assert_eq!(ord, vec![10, 11, 14, 13, 12, 15]);
}

#[test]
fn two_opt_wraps_round_the_tour() {
    let mut ord = vec![10, 11, 12, 13, 14, 15];
    change_2opt(&mut ord, 4, 1);
    // Positions 5, 0, 1 held 15, 10, 11 and now hold 11, 10, 15.
    assert_eq!(ord, vec![10, 15, 12, 13, 14, 11]);
}

#[test]
fn two_opt_on_equal_positions_changes_nothing() {
    let mut ord = vec![3, 1, 2, 0];
    change_2opt(&mut ord, 2, 2);
    assert_eq!(ord, vec![3, 1, 2, 0]);
}

#[test]
fn two_opt_twice_restores_the_tour() {
    let start = vec![4, 0, 3, 1, 2, 6, 5];
    for a in 0..start.len() {
        for b in 0..start.len() {
            let mut ord = start.clone();
            change_2opt(&mut ord, a, b);
            let mut sorted = ord.clone();
            sorted.sort();
            assert_eq!(sorted, vec![0, 1, 2, 3, 4, 5, 6]);
            change_2opt(&mut ord, a, b);
            assert_eq!(ord, start);
        }
    }
}

#[test]
fn two_opt_exchanges_the_edges_that_calc_2opt_names() {
    let start = vec![4, 0, 3, 1, 2, 6, 5];
    let n = start.len();
    for a in 0..n {
        for b in 0..n {
            if a == b {
                continue;
            }
            let (na, nb, na1, nb1) = calc_2opt_nodes(&start, a, b);
            let mut ord = start.clone();
            change_2opt(&mut ord, a, b);
            assert_eq!(ord[a], na);
            assert_eq!(ord[(a + 1) % n], nb);
            assert_eq!(ord[b], na1);
            assert_eq!(ord[(b + 1) % n], nb1);
        }
    }
}

#[test]
fn calc_2opt_nodes_wraps() {
    assert_eq!(calc_2opt_nodes(&vec![7, 8, 9], 2, 0), (9, 7, 7, 8));
}

#[test]
fn two_opt_changes_the_length_by_the_exchanged_edges() {
    let w = |x: usize, y: usize| -> i64 {
        let (lo, hi) = if x < y { (x, y) } else { (y, x) };
        (lo * 7 + hi * hi * 3 + 1) as i64
    };
    let len = |t: &Vec<usize>| -> i64 { (0..t.len()).map(|p| w(t[p], t[(p + 1) % t.len()])).sum() };
    let start = vec![4, 0, 3, 1, 2, 6, 5];
    let n = start.len();
    for a in 0..n {
        for b in 0..n {
            if a == b {
                continue;
            }
            let (na, nb, na1, nb1) = calc_2opt_nodes(&start, a, b);
            let mut ord = start.clone();
            change_2opt(&mut ord, a, b);
            assert_eq!(len(&ord), len(&start) - w(na, na1) - w(nb, nb1) + w(na, nb) + w(na1, nb1));
        }
    }
}
