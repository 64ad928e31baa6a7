use taskgraph::graph::{Arrow, Arrows, Direction};

fn arrows(pairs: &[(i32, i32)]) -> Arrows {
    Arrows { arrows: pairs.iter().map(|&(source, target)| Arrow { source, target }).collect() }
}

#[test]
fn no_arrows_no_cycle() {
    assert!(!arrows(&[]).has_cycle());
}

#[test]
fn self_arrow_is_a_cycle() {
    assert!(arrows(&[(7, 7)]).has_cycle());
}

#[test]
fn triangle_is_a_cycle() {
    assert!(arrows(&[(1, 2), (2, 3), (3, 1)]).has_cycle());
}

#[test]
fn diamond_is_no_cycle() {
    assert!(!arrows(&[(1, 2), (1, 3), (2, 4), (3, 4)]).has_cycle());
}

#[test]
fn closing_arrow_flips_has_cycle() {
    let mut pairs = vec![(1, 2), (2, 3), (3, 4), (10, 11)];
    assert!(!arrows(&pairs).has_cycle());
    pairs.push((4, 1));
    assert!(arrows(&pairs).has_cycle());
}

#[test]
fn reachable_toward_targets() {
    let g = arrows(&[(1, 2), (2, 3), (5, 1), (3, 4), (9, 8)]);
    let mut found = g.reachable(2, Direction::TowardTargets);
    assert_eq!(found[0], 2);
    found.sort();
    assert_eq!(found, vec![2, 3, 4]);
}

#[test]
fn reachable_toward_sources() {
    let g = arrows(&[(1, 2), (2, 3), (5, 1), (3, 4), (9, 8)]);
    let mut found = g.reachable(2, Direction::TowardSources);
    assert_eq!(found[0], 2);
    found.sort();
    assert_eq!(found, vec![1, 2, 5]);
}

#[test]
fn reachable_of_a_stranger_is_the_seed() {
    let g = arrows(&[(1, 2)]);
    assert_eq!(g.reachable(42, Direction::TowardTargets), vec![42]);
}

#[test]
fn reachable_lists_each_node_once() {
    let g = arrows(&[(1, 2), (1, 3), (2, 4), (3, 4), (1, 2)]);
    let mut found = g.reachable(1, Direction::TowardTargets);
    found.sort();
    assert_eq!(found, vec![1, 2, 3, 4]);
}

#[test]
fn reachable_ends_on_a_cycle() {
    let g = arrows(&[(1, 2), (2, 1)]);
    let mut found = g.reachable(1, Direction::TowardTargets);
    found.sort();
    assert_eq!(found, vec![1, 2]);
}

#[test]
fn reachability_is_transitive_on_a_chain() {
    let g = arrows(&[(1, 2), (2, 3), (3, 4)]);
    assert!(g.reachable(1, Direction::TowardTargets).contains(&2));
    assert!(g.reachable(2, Direction::TowardTargets).contains(&4));
    assert!(g.reachable(1, Direction::TowardTargets).contains(&4));
    assert!(!g.reachable(4, Direction::TowardTargets).contains(&1));
    assert!(g.reachable(4, Direction::TowardSources).contains(&1));
}

#[test]
fn paths_of_a_diamond() {
    let g = arrows(&[(1, 2), (1, 3), (2, 4), (3, 4)]);
    let mut found = g.paths();
    found.sort();
    assert_eq!(found, vec![vec![1, 2, 4], vec![1, 3, 4]]);
}

#[test]
fn paths_of_two_chains() {
    let g = arrows(&[(2, 1), (1, 0), (5, 4)]);
    let mut found = g.paths();
    found.sort();
    assert_eq!(found, vec![vec![2, 1, 0], vec![5, 4]]);
}

#[test]
fn paths_of_nothing() {
    assert!(arrows(&[]).paths().is_empty());
}

#[test]
fn leaf_and_root() {
    let g = arrows(&[(2, 1), (1, 0)]);
    assert!(g.is_leaf(0));
    assert!(!g.is_leaf(1));
    assert!(g.is_root(2));
    assert!(!g.is_root(1));
    assert!(g.is_leaf(9) && g.is_root(9));
}

#[test]
fn closure_of_several_seeds() {
    let g = arrows(&[(1, 2), (2, 3), (4, 3), (5, 6), (7, 5)]);
    let mut found = g.closure(&vec![1, 5, 1], Direction::TowardTargets);
    assert_eq!(found[0], 1);
    found.sort();
    assert_eq!(found, vec![1, 2, 3, 5, 6]);
    let mut found = g.closure(&vec![3, 6], Direction::TowardSources);
    found.sort();
    assert_eq!(found, vec![1, 2, 3, 4, 5, 6, 7]);
    assert!(g.closure(&Vec::new(), Direction::TowardTargets).is_empty());
}

#[test]
fn a_long_chain_is_searched_without_depth() {
    let n: i32 = 200_000;
    let mut pairs: Vec<(i32, i32)> = (0..n).map(|k| (k, k + 1)).collect();
    assert!(!arrows(&pairs).has_cycle());
    pairs.push((n, 0));
    assert!(arrows(&pairs).has_cycle());
}

#[test]
fn a_cycle_off_the_first_root_is_found() {
    assert!(arrows(&[(1, 2), (2, 3), (4, 5), (5, 6), (6, 5)]).has_cycle());
    assert!(arrows(&[(1, 2), (1, 3), (3, 4), (4, 1)]).has_cycle());
    assert!(!arrows(&[(1, 2), (1, 3), (3, 4), (1, 4), (2, 4)]).has_cycle());
}
