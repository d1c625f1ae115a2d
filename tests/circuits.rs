use advent_circuits::circuits::{
    connection_pairs, grid_of_all_distances, load_points, part1, part1_real, part2, Circuits,
};
use advent_circuits::error::PuzzleError;
use advent_circuits::geometry::Vec3;

const EXAMPLE: &str = "162,817,812
57,618,57
906,360,560
592,479,940
352,342,300
466,668,158
542,29,236
431,825,988
739,650,466
52,470,668
216,146,977
819,987,18
117,168,530
805,96,715
346,949,466
970,615,88
941,993,340
862,61,35
984,92,344
425,690,689
";

#[test]
fn day8_part1_test() {
    assert_eq!(
        part1_real(EXAMPLE, 10).expect("should ok"),
        "40".to_string()
    );
}

#[test]
fn day8_part2_test() {
    assert_eq!(part2(EXAMPLE).expect("should ok"), "25272".to_string());
}

#[test]
fn default_budget_covers_all_edges_of_small_input() {
    // 190 edges connect all 20 points into one cluster: fewer than three.
    assert_eq!(part1(EXAMPLE), Err(PuzzleError::TooFewClusters));
}

#[test]
fn zero_budget_forms_no_clusters() {
    assert_eq!(part1_real(EXAMPLE, 0), Err(PuzzleError::TooFewClusters));
}

#[test]
fn malformed_line_is_rejected() {
    assert_eq!(part1_real("1,2,3\n4,x,6\n", 1), Err(PuzzleError::Malformed));
    assert_eq!(part2("1,2\n"), Err(PuzzleError::Malformed));
}

#[test]
fn single_point_has_no_last_connection() {
    assert_eq!(part2("1,2,3\n"), Err(PuzzleError::TooFewItems));
}

#[test]
fn huge_coordinates_overflow() {
    let input = "-9000000000000000000,0,0\n9000000000000000000,0,0\n";
    assert_eq!(part2(input), Err(PuzzleError::Overflow));
}

#[test]
fn distance_matrix_is_symmetric_with_zero_diagonal() {
    let pts = load_points(EXAMPLE).unwrap();
    let n = pts.len();
    let grid = grid_of_all_distances(&pts).unwrap();
    assert_eq!(grid.width, n);
    for i in 0..n {
        assert_eq!(grid.storage[i + i * n], 0);
        for j in 0..n {
            assert_eq!(grid.storage[i + j * n], grid.storage[j + i * n]);
        }
    }
    // (162,817,812) to (57,618,57): 105^2 + 199^2 + 755^2
    assert_eq!(grid.storage[1], 105 * 105 + 199 * 199 + 755 * 755);
}

#[test]
fn edge_list_has_every_pair_once_in_order() {
    let pts = load_points(EXAMPLE).unwrap();
    let grid = grid_of_all_distances(&pts).unwrap();
    let edges = connection_pairs(&grid);
    assert_eq!(edges.len(), 20 * 19 / 2);
    for k in 0..edges.len() {
        assert!(edges[k].1 < edges[k].2);
        if k > 0 {
            assert!(edges[k - 1].0 <= edges[k].0);
            assert_ne!((edges[k - 1].1, edges[k - 1].2), (edges[k].1, edges[k].2));
        }
    }
}

#[test]
fn union_twice_reports_no_merge() {
    let (a, b) = (Vec3::new(0, 0, 0), Vec3::new(1, 1, 1));
    let mut c = Circuits::new();
    assert!(c.add_connection(a, b));
    let held: usize = c.stuff.iter().map(|s| s.len()).sum();
    assert!(!c.add_connection(a, b));
    assert!(!c.add_connection(b, a));
    let held_again: usize = c.stuff.iter().map(|s| s.len()).sum();
    assert_eq!(held, 2);
    assert_eq!(held_again, 2);
}

#[test]
fn set_sizes_add_up_to_points_seen() {
    let pts: Vec<Vec3> = (0..6).map(|i| Vec3::new(i, 0, 0)).collect();
    let mut c = Circuits::new();
    let mut clusters_with_singletons = 6usize;
    let mut last_held = 0usize;
    for (l, r) in [(0, 1), (2, 3), (1, 2), (4, 5), (0, 3), (3, 5)] {
        c.add_connection(pts[l], pts[r]);
        let held: usize = c.stuff.iter().map(|s| s.len()).sum();
        let count = c.stuff.len() + 6 - held;
        assert!(held >= last_held);
        assert!(count <= clusters_with_singletons);
        last_held = held;
        clusters_with_singletons = count;
    }
    assert_eq!(c.stuff.len(), 1);
    assert_eq!(c.stuff[0].len(), 6);
}

#[test]
fn triangle_with_budget_two_is_one_cluster_of_three() {
    let input = "0,0,0\n1,0,0\n0,1,0\n";
    let pts = load_points(input).unwrap();
    let grid = grid_of_all_distances(&pts).unwrap();
    let edges = connection_pairs(&grid);
    let mut c = Circuits::new();
    for &(_d, lo, hi) in edges.iter().take(2) {
        c.add_connection(pts[hi], pts[lo]);
    }
    assert_eq!(c.stuff.len(), 1);
    assert_eq!(c.stuff[0].len(), 3);
    assert_eq!(part1_real(input, 2), Err(PuzzleError::TooFewClusters));
}

#[test]
fn merge_joins_two_clusters_and_sort_orders_by_size() {
    let p: Vec<Vec3> = (0..7).map(|i| Vec3::new(i, i, i)).collect();
    let mut c = Circuits::new();
    c.add_connection(p[0], p[1]);
    c.add_connection(p[2], p[3]);
    c.add_connection(p[3], p[4]);
    c.add_connection(p[5], p[6]);
    assert_eq!(c.stuff.len(), 3);
    c.sort_descending();
    let sizes: Vec<usize> = c.stuff.iter().map(|s| s.len()).collect();
    assert_eq!(sizes, vec![3, 2, 2]);
    assert!(c.add_connection(p[0], p[6]));
    assert_eq!(c.stuff.len(), 2);
    assert_eq!(c.idx_containing_point(p[6]), c.idx_containing_point(p[1]));
    assert_eq!(c.idx_containing_point(Vec3::new(9, 9, 9)), None);
}

#[test]
fn three_clusters_give_product_of_sizes() {
    // Three far-apart pairs: one edge inside each pair is short.
    let input = "0,0,0\n1,0,0\n100,0,0\n101,0,0\n200,0,0\n202,0,0\n";
    assert_eq!(part1_real(input, 3).unwrap(), "8".to_string());
    // The last merge joins the pair at 100 with the one at 200's neighbour.
    assert_eq!(part2(input).unwrap(), "20200".to_string());
}

#[test]
fn checksum_can_be_negative() {
    // One edge joins point 1 (x = 5) to point 0 (x = -3).
    assert_eq!(part2("-3,0,0\n5,0,0\n").unwrap(), "-15".to_string());
}

#[test]
fn fourth_field_is_fatal() {
    assert_eq!(part2("0,0,0,0\n0,0,1"), Err(PuzzleError::Malformed));
    assert_eq!(part1_real("0,0,0\n1,1,1,1\n2,2,2\n9,9,9\n", 1), Err(PuzzleError::Malformed));
}

#[test]
fn sort_keeps_equal_sizes_in_order() {
    let p: Vec<Vec3> = (0..8).map(|i| Vec3::new(i, 0, 0)).collect();
    let mut c = Circuits::new();
    c.add_connection(p[0], p[1]);
    c.add_connection(p[2], p[3]);
    c.add_connection(p[4], p[5]);
    c.add_connection(p[5], p[6]);
    c.add_connection(p[6], p[7]);
    c.sort_descending();
    assert_eq!(c.stuff.len(), 3);
    assert_eq!(c.stuff[0].len(), 4);
    assert!(c.stuff[1].contains(&p[0]));
    assert!(c.stuff[2].contains(&p[2]));
}
