use qkd_relay::planner::{build_hypercube, find_n_shortest_paths, hamming_distance};

#[test]
fn hamming_distance_counts_differing_positions() {
    assert_eq!(hamming_distance("00", "01"), 1);
    assert_eq!(hamming_distance("00", "00"), 0);
    assert_eq!(hamming_distance("0110", "1010"), 2);
    assert_eq!(hamming_distance("abc", "abd"), 1);
}

#[test]
fn hamming_distance_over_common_prefix_only() {
    assert_eq!(hamming_distance("01", "0011"), 1);
    assert_eq!(hamming_distance("01", "0111"), 0);
    assert_eq!(hamming_distance("", "111"), 0);
}

#[test]
fn hypercube_of_dimension_two() {
    let g = build_hypercube(2);
    assert_eq!(g.len(), 4);
    assert_eq!(g[0], vec![1, 2]);
    assert_eq!(g[1], vec![0, 3]);
    assert_eq!(g[2], vec![3, 0]);
    assert_eq!(g[3], vec![2, 1]);
}

#[test]
fn hypercube_of_dimension_zero_has_one_isolated_node() {
    let g = build_hypercube(0);
    assert_eq!(g.len(), 1);
    assert!(g[0].is_empty());
}

#[test]
fn one_path_on_a_single_edge() {
    let g = build_hypercube(1);
    let paths = find_n_shortest_paths(&g, 0, 1, 2);
    assert_eq!(paths, vec![vec![0usize, 1]]);
}

#[test]
fn two_disjoint_paths_across_the_square() {
    let g = build_hypercube(2);
    let paths = find_n_shortest_paths(&g, 0, 3, 2);
    assert_eq!(paths.len(), 2);
    for p in &paths {
        assert_eq!(*p.first().unwrap(), 0);
        assert_eq!(*p.last().unwrap(), 3);
        assert_eq!(p.len(), 3);
    }
    assert!(paths.contains(&vec![0usize, 1, 3]));
    assert!(paths.contains(&vec![0usize, 2, 3]));
}

#[test]
fn fanout_bound_limits_the_result() {
    let g = build_hypercube(2);
    let paths = find_n_shortest_paths(&g, 0, 3, 1);
    assert_eq!(paths.len(), 1);
}

#[test]
fn results_come_in_nondecreasing_length() {
    let g = build_hypercube(3);
    let paths = find_n_shortest_paths(&g, 0, 7, 6);
    assert_eq!(paths.len(), 6);
    for w in paths.windows(2) {
        assert!(w[0].len() <= w[1].len());
    }
    // the cube has six shortest routes of three hops each
    for p in &paths {
        assert_eq!(p.len(), 4);
    }
}

#[test]
fn asking_for_more_paths_than_exist_returns_them_all() {
    let g = build_hypercube(2);
    let paths = find_n_shortest_paths(&g, 0, 3, 10);
    // the square has exactly two simple routes between opposite corners
    assert_eq!(paths.len(), 2);
    assert!(paths.contains(&vec![0usize, 1, 3]));
    assert!(paths.contains(&vec![0usize, 2, 3]));
}

#[test]
fn no_path_to_the_same_node_but_the_trivial_one() {
    let g = build_hypercube(2);
    let paths = find_n_shortest_paths(&g, 1, 1, 3);
    assert_eq!(paths, vec![vec![1usize]]);
}
