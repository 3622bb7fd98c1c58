//! End-to-end scenarios for the clustering pipeline.

use greedy_cluster::geo::Point;
use greedy_cluster::geo::within;
use greedy_cluster::greedy::ClusterError;
use greedy_cluster::greedy::ClusterMode;
use greedy_cluster::greedy::Greedy;

fn pt(lat_udeg: i64, lon_udeg: i64) -> Point {
    Point { lat: lat_udeg, lon: lon_udeg }
}

fn config(mode: ClusterMode, radius_m: u64, min_points: usize, max_clusters: usize) -> Greedy {
    let mut g = Greedy::default();
    g.set_cluster_mode(mode);
    g.set_radius(radius_m);
    g.set_min_points(min_points);
    g.set_max_clusters(max_clusters);
    g
}

/// Great-circle distance in meters, for cross-checking the integer metric.
fn haversine_m(a: Point, b: Point) -> f64 {
    let to_rad = |udeg: i64| (udeg as f64) / 1_000_000.0 * std::f64::consts::PI / 180.0;
    let (la1, lo1) = (to_rad(a.lat), to_rad(a.lon));
    let (la2, lo2) = (to_rad(b.lat), to_rad(b.lon));
    let dlat = la2 - la1;
    let dlon = lo2 - lo1;
    let h = (dlat / 2.0).sin().powi(2) + la1.cos() * la2.cos() * (dlon / 2.0).sin().powi(2);
    2.0 * 6_371_008.8 * h.sqrt().asin()
}

fn covers(center: Point, input: &[Point], r_um: u64) -> usize {
    input.iter().filter(|p| within(center, **p, r_um)).count()
}

#[test]
fn single_point_returns_itself() {
    let points = vec![pt(40_000_000, -75_000_000)];
    let g = config(ClusterMode::Fast, 70, 1, usize::MAX);
    let out = g.run(&points).unwrap();
    assert_eq!(out, points);
}

#[test]
fn two_distant_points_give_two_centers() {
    let p1 = pt(40_000_000, -75_000_000);
    let p2 = pt(40_000_000, -74_000_000);
    let g = config(ClusterMode::Fast, 70, 1, usize::MAX);
    let out = g.run(&vec![p1, p2]).unwrap();
    assert_eq!(out.len(), 2);
    for c in &out {
        let near_one = within(*c, p1, 70_000_000) || within(*c, p2, 70_000_000);
        assert!(near_one);
    }
}

#[test]
fn two_close_points_share_one_center() {
    let p1 = pt(40_000_000, -75_000_000);
    let p2 = pt(40_000_500, -75_000_500);
    let g = config(ClusterMode::Fast, 200, 2, usize::MAX);
    let out = g.run(&vec![p1, p2]).unwrap();
    assert_eq!(out.len(), 1);
    assert!(within(out[0], p1, 200_000_000));
    assert!(within(out[0], p2, 200_000_000));
    // The integer metric stays honest against the great-circle distance.
    assert!(haversine_m(out[0], p1) <= 200.0 + 1.0);
    assert!(haversine_m(out[0], p2) <= 200.0 + 1.0);
}

#[test]
fn five_points_in_small_disk_get_one_center() {
    let base_lat = 40_000_000;
    let base_lon = -75_000_000;
    let input = vec![
        pt(base_lat, base_lon),
        pt(base_lat + 300, base_lon),
        pt(base_lat - 300, base_lon),
        pt(base_lat, base_lon + 350),
        pt(base_lat, base_lon - 350),
    ];
    let g = config(ClusterMode::Fast, 70, 3, usize::MAX);
    let out = g.run(&input).unwrap();
    assert_eq!(out.len(), 1);
    for p in &input {
        assert!(within(out[0], *p, 70_000_000));
        assert!(haversine_m(out[0], *p) <= 70.0 + 1.0);
    }
}

#[test]
fn min_points_filter_leaves_isolated_points_uncovered() {
    let mut input = Vec::new();
    for d in 0..10i64 {
        input.push(pt(40_000_000 + d * 1_000_000, -75_000_000));
    }
    let g = config(ClusterMode::Fast, 70, 2, usize::MAX);
    let out = g.run(&input).unwrap();
    assert!(out.is_empty());
}

#[test]
fn max_clusters_caps_the_output() {
    let mut input = Vec::new();
    for d in 0..1000i64 {
        let lat = 40_000_000 + d * 10_000;
        let lon = -75_000_000;
        input.push(pt(lat, lon));
        input.push(pt(lat + 300, lon));
        input.push(pt(lat - 300, lon));
        input.push(pt(lat + 600, lon));
        input.push(pt(lat - 600, lon));
    }
    let g = config(ClusterMode::Fast, 70, 3, 10);
    let out = g.run(&input).unwrap();
    assert_eq!(out.len(), 10);
    for c in &out {
        assert!(covers(*c, &input, 70_000_000) >= 3);
    }
}

#[test]
fn doubling_radius_does_not_add_centers_here() {
    let p1 = pt(40_000_000, -75_000_000);
    let p2 = pt(40_000_000, -74_000_000);
    let input = vec![p1, p2];
    let narrow = config(ClusterMode::Fast, 21_500, 1, usize::MAX);
    let wide = config(ClusterMode::Fast, 43_000, 1, usize::MAX);
    let out_narrow = narrow.run(&input).unwrap();
    let out_wide = wide.run(&input).unwrap();
    assert_eq!(out_narrow.len(), 2);
    assert_eq!(out_wide.len(), 1);
    assert!(out_wide.len() <= out_narrow.len());
}

#[test]
fn rerun_on_chosen_centers_returns_them() {
    let p1 = pt(40_000_000, -75_000_000);
    let p2 = pt(40_000_000, -74_000_000);
    let g = config(ClusterMode::Fast, 70, 1, usize::MAX);
    let out = g.run(&vec![p1, p2]).unwrap();
    let again = g.run(&out).unwrap();
    let mut a = out.clone();
    let mut b = again.clone();
    a.sort_by_key(|p| (p.lat, p.lon));
    b.sort_by_key(|p| (p.lat, p.lon));
    assert_eq!(a, b);
}

#[test]
fn same_input_gives_same_output() {
    let base_lat = 40_000_000;
    let base_lon = -75_000_000;
    let input = vec![
        pt(base_lat, base_lon),
        pt(base_lat + 300, base_lon),
        pt(base_lat - 300, base_lon),
        pt(base_lat, base_lon + 350),
        pt(base_lat, base_lon - 350),
    ];
    let g = config(ClusterMode::Balanced, 70, 1, usize::MAX);
    let first = g.run(&input).unwrap();
    let second = g.run(&input).unwrap();
    assert_eq!(first, second);
}

#[test]
fn separated_points_come_back_exactly() {
    let input = vec![
        pt(10_000_000, 10_000_000),
        pt(20_000_000, 20_000_000),
        pt(-30_000_000, 40_000_000),
    ];
    let g = config(ClusterMode::Fast, 70, 1, usize::MAX);
    let mut out = g.run(&input).unwrap();
    let mut expected = input.clone();
    out.sort_by_key(|p| (p.lat, p.lon));
    expected.sort_by_key(|p| (p.lat, p.lon));
    assert_eq!(out, expected);
}

#[test]
fn uncovering_candidates_give_empty_output() {
    let p1 = pt(40_000_000, -75_000_000);
    let far_candidate = vec![pt(10_000_000, 10_000_000)];
    let g = config(ClusterMode::Best, 70, 1, usize::MAX);
    let out = g.run_with_candidates(&vec![p1], &far_candidate).unwrap();
    assert!(out.is_empty());
}

#[test]
fn minimums_at_the_threshold_start_yield_nothing() {
    // The selection threshold starts at its sentinel of 100, so minimums at
    // or above it end the loop before any pick.
    let mut input = Vec::new();
    for d in 0..150i64 {
        input.push(pt(40_000_000 + d, -75_000_000));
    }
    let g = config(ClusterMode::Fast, 70, 120, usize::MAX);
    let out = g.run(&input).unwrap();
    assert!(out.is_empty());
}

#[test]
fn sharded_run_caps_the_merged_output() {
    let p1 = pt(40_000_000, -75_000_000);
    let p2 = pt(41_000_000, -74_000_000);
    let points = vec![p1, p2];
    let keys = vec![1u64, 2u64];
    let g = config(ClusterMode::Fast, 70, 1, 1);
    let out = g.run_sharded(&points, &keys).unwrap();
    assert_eq!(out.len(), 1);
}

#[test]
fn split_levels_outside_range_coerce_to_one() {
    let mut g = Greedy::default();
    g.set_cluster_split_level(5);
    assert_eq!(g.effective_split_level(), 5);
    g.set_cluster_split_level(0);
    assert_eq!(g.effective_split_level(), 1);
    g.set_cluster_split_level(40);
    assert_eq!(g.effective_split_level(), 1);
}

#[test]
fn zero_radius_is_rejected() {
    let g = config(ClusterMode::Fast, 0, 1, usize::MAX);
    let r = g.run(&vec![pt(0, 0)]);
    assert_eq!(r, Err(ClusterError::InvalidRadius));
}

#[test]
fn oversized_radius_is_rejected() {
    let g = config(ClusterMode::Fast, 2_000_000_000, 1, usize::MAX);
    let r = g.run(&vec![pt(0, 0)]);
    assert_eq!(r, Err(ClusterError::InvalidRadius));
}

#[test]
fn empty_input_gives_empty_output() {
    let g = config(ClusterMode::Fast, 70, 1, usize::MAX);
    let out = g.run(&Vec::new()).unwrap();
    assert!(out.is_empty());
}

#[test]
fn duplicate_points_collapse() {
    let p = pt(40_000_000, -75_000_000);
    let g = config(ClusterMode::Fast, 70, 1, usize::MAX);
    let out = g.run(&vec![p, p, p]).unwrap();
    assert_eq!(out, vec![p]);
}

#[test]
fn sharded_run_merges_per_cell_results() {
    let p1 = pt(40_000_000, -75_000_000);
    let p2 = pt(40_000_100, -75_000_100);
    let p3 = pt(41_000_000, -74_000_000);
    let p4 = pt(41_000_100, -74_000_100);
    let points = vec![p1, p2, p3, p4];
    let keys = vec![7u64, 7u64, 9u64, 9u64];
    let g = config(ClusterMode::Fast, 200, 1, usize::MAX);
    let out = g.run_sharded(&points, &keys).unwrap();
    for p in &points {
        assert!(out.iter().any(|c| within(*c, *p, 200_000_000)));
    }
}

#[test]
fn external_candidates_drive_the_tiled_modes() {
    let p1 = pt(40_000_000, -75_000_000);
    let p2 = pt(40_000_500, -75_000_500);
    let cell_centers = vec![pt(40_000_250, -75_000_250)];
    let g = config(ClusterMode::Best, 200, 2, usize::MAX);
    let out = g.run_with_candidates(&vec![p1, p2], &cell_centers).unwrap();
    assert_eq!(out, cell_centers);
    assert!(within(out[0], p1, 200_000_000));
    assert!(within(out[0], p2, 200_000_000));
}

#[test]
fn balanced_mode_covers_close_points() {
    let p1 = pt(40_000_000, -75_000_000);
    let p2 = pt(40_000_500, -75_000_500);
    let g = config(ClusterMode::Balanced, 200, 2, usize::MAX);
    let out = g.run(&vec![p1, p2]).unwrap();
    assert_eq!(out.len(), 1);
    assert!(within(out[0], p1, 200_000_000));
    assert!(within(out[0], p2, 200_000_000));
}
