use veridict::graph::{split_components, strongly_connected_components, PairRecord};

fn pair(a: usize, b: usize, a_wins: u64, b_wins: u64, draws: u64) -> PairRecord {
    PairRecord { a, b, a_wins, b_wins, draws }
}

#[test]
fn undirected_connected_but_not_strongly_connected_is_detected() {
    let pairs = [
        pair(0, 1, 1, 1, 0),
        pair(2, 3, 1, 1, 0),
        pair(0, 2, 1, 0, 0),
        pair(0, 3, 1, 0, 0),
        pair(1, 2, 1, 0, 0),
        pair(1, 3, 1, 0, 0),
    ];
    let connectivity = strongly_connected_components(4, &pairs);
    assert_eq!(connectivity.num_components, 2);
    assert_eq!(connectivity.component_of[0], connectivity.component_of[1]);
    assert_eq!(connectivity.component_of[2], connectivity.component_of[3]);
    assert_ne!(connectivity.component_of[0], connectivity.component_of[2]);
}

#[test]
fn two_node_shutout_is_two_singleton_components() {
    let pairs = [pair(0, 1, 5, 0, 0)];
    let connectivity = strongly_connected_components(2, &pairs);
    assert_eq!(connectivity.num_components, 2);
}

#[test]
fn winners_are_numbered_before_the_players_they_beat() {
    let pairs = [pair(0, 1, 5, 0, 0)];
    let connectivity = strongly_connected_components(2, &pairs);
    assert!(connectivity.component_of[0] < connectivity.component_of[1]);
}

#[test]
fn a_draw_connects_both_ways() {
    let pairs = [pair(0, 1, 0, 0, 1), pair(1, 2, 0, 3, 0)];
    let connectivity = strongly_connected_components(3, &pairs);
    assert_eq!(connectivity.num_components, 2);
    assert_eq!(connectivity.component_of[0], connectivity.component_of[1]);
    assert_ne!(connectivity.component_of[1], connectivity.component_of[2]);
    assert!(connectivity.component_of[2] < connectivity.component_of[1]);
}

#[test]
fn a_cycle_is_one_component_and_an_isolated_player_its_own() {
    let pairs = [pair(0, 1, 4, 1, 0), pair(1, 2, 3, 2, 0), pair(2, 0, 1, 4, 0)];
    let connectivity = strongly_connected_components(4, &pairs);
    assert_eq!(connectivity.num_components, 2);
    assert_eq!(connectivity.component_of[0], connectivity.component_of[1]);
    assert_eq!(connectivity.component_of[1], connectivity.component_of[2]);
    assert_ne!(connectivity.component_of[3], connectivity.component_of[0]);
    assert_eq!(connectivity.component_of.len(), 4);
}

#[test]
fn no_players_means_no_components() {
    let connectivity = strongly_connected_components(0, &[]);
    assert_eq!(connectivity.num_components, 0);
    assert!(connectivity.component_of.is_empty());
}

#[test]
fn split_components_keeps_each_components_own_pairs_in_local_positions() {
    let pairs = [
        pair(0, 1, 1, 1, 0),
        pair(2, 3, 1, 1, 0),
        pair(0, 2, 1, 0, 0),
        pair(1, 3, 2, 0, 0),
    ];
    let connectivity = strongly_connected_components(4, &pairs);
    let split = split_components(4, &pairs, &connectivity);
    let top = connectivity.component_of[0];
    let bottom = connectivity.component_of[2];
    assert_eq!(split.members[top], vec![0, 1]);
    assert_eq!(split.members[bottom], vec![2, 3]);
    assert_eq!(split.local_index, vec![0, 1, 0, 1]);
    assert_eq!(split.component_pairs[top].len(), 1);
    assert_eq!(split.component_pairs[top][0].a, 0);
    assert_eq!(split.component_pairs[top][0].b, 1);
    assert_eq!(split.component_pairs[bottom].len(), 1);
    assert_eq!(split.component_pairs[bottom][0].a, 0);
    assert_eq!(split.component_pairs[bottom][0].b, 1);
    assert_eq!(split.component_pairs[bottom][0].a_wins, 1);
}
