use veridict::graph::strongly_connected_components;
use veridict::matrix::{
    add_wins, canonical_pair, canonicalize_outcome, node_totals, tally_points, CellStatus,
    EdgeTable, MatrixGraph, MatrixTally,
};
use veridict::{MatchOutcome, VeridictError};

fn finished(t: MatrixTally) -> MatrixGraph {
    match t.finish() {
        Ok(g) => g,
        Err(e) => panic!("unexpected {e:?}"),
    }
}

#[test]
fn empty_competitor_name_is_rejected() {
    let mut t = MatrixTally::new(false);
    match t.record(1, "", "beta", "a_win", None) {
        Err(VeridictError::SchemaMismatch { line, context, detail }) => {
            assert_eq!(line, 1);
            assert_eq!(context, "matrix graph");
            assert_eq!(detail, "a and b must both be non-empty competitor names");
        }
        other => panic!("unexpected {other:?}"),
    }
}

#[test]
fn a_competitor_cannot_play_itself() {
    let mut t = MatrixTally::new(false);
    match t.record(4, "alpha", "alpha", "draw", None) {
        Err(VeridictError::SchemaMismatch { detail, .. }) => {
            assert_eq!(detail, "a and b are both 'alpha'; a competitor can't play itself")
        }
        other => panic!("unexpected {other:?}"),
    }
}

#[test]
fn a_match_result_must_name_an_outcome() {
    let mut t = MatrixTally::new(false);
    match t.record(2, "alpha", "beta", "candidate_win", None) {
        Err(VeridictError::UnrecognizedOutcome { value, expected, .. }) => {
            assert_eq!(value, "candidate_win");
            assert_eq!(expected, "a_win|b_win|draw");
        }
        other => panic!("unexpected {other:?}"),
    }
}

#[test]
fn paired_by_id_nets_opposite_order_records_to_a_draw() {
    let mut t = MatrixTally::new(true);
    t.record(1, "alpha", "beta", "a_win", Some("op1")).unwrap();
    t.record(2, "beta", "alpha", "a_win", Some("op1")).unwrap();
    let g = finished(t);
    assert_eq!(g.edges.get("alpha", "beta"), Some((0, 0, 1)));
}

#[test]
fn paired_by_id_does_not_net_across_different_pairs_sharing_an_id() {
    let mut t = MatrixTally::new(true);
    t.record(1, "alpha", "beta", "a_win", Some("op1")).unwrap();
    t.record(2, "alpha", "gamma", "b_win", Some("op1")).unwrap();
    let g = finished(t);
    assert_eq!(g.edges.get("alpha", "beta"), Some((1, 0, 0)));
    assert_eq!(g.edges.get("alpha", "gamma"), Some((0, 1, 0)));
}

#[test]
fn paired_match_id_seen_three_times_for_one_pair_is_an_error() {
    let mut t = MatrixTally::new(true);
    t.record(5, "alpha", "beta", "a_win", Some("x")).unwrap();
    t.record(6, "beta", "alpha", "draw", Some("x")).unwrap();
    t.record(7, "alpha", "beta", "b_win", Some("x")).unwrap();
    match t.finish() {
        Err(VeridictError::SchemaMismatch { line, context, detail }) => {
            assert_eq!(line, 5);
            assert_eq!(context, "paired-by-id");
            assert_eq!(
                detail,
                "id 'x' appears 3 times for pair (alpha, beta); paired mode expects at most 2 records per id per pair"
            );
        }
        Err(other) => panic!("unexpected {other:?}"),
        Ok(_) => panic!("expected an error"),
    }
}

#[test]
fn competitors_are_ordered_by_first_appearance_after_the_files() {
    let mut t = MatrixTally::new(false);
    t.add_legacy("zeta", 3, 5, 10);
    t.record(1, "beta", "baseline", "a_win", None).unwrap();
    t.record(2, "alpha", "zeta", "draw", None).unwrap();
    t.record(3, "beta", "alpha", "b_win", None).unwrap();
    let g = finished(t);
    assert_eq!(g.order, vec!["zeta".to_string(), "beta".to_string(), "alpha".to_string()]);
    // The file's summary: 3 baseline wins, 5 candidate wins, 2 draws.
    assert_eq!(g.edges.get("baseline", "zeta"), Some((3, 5, 2)));
    assert_eq!(g.edges.get("baseline", "beta"), Some((0, 1, 0)));
    assert_eq!(g.edges.get("alpha", "beta"), Some((1, 0, 0)));
    assert!(g.has_baseline());
    assert!(!g.star_shaped());
}

#[test]
fn baseline_vs_candidate_is_direct() {
    let mut t = MatrixTally::new(false);
    t.add_legacy("cand_a", 1, 2, 3);
    t.add_legacy("cand_b", 2, 1, 3);
    let g = finished(t);
    assert!(g.star_shaped());
    assert_eq!(g.cell_status("baseline", "cand_a", true), CellStatus::Direct);
    assert_eq!(g.cell_status("cand_a", "cand_b", true), CellStatus::Inferred);
    assert_eq!(g.baseline_record("cand_a"), Some((1, 2, 0)));
    assert_eq!(g.baseline_record("nobody"), None);
}

#[test]
fn genuinely_disconnected_candidates_report_no_comparison() {
    let mut t = MatrixTally::new(false);
    t.record(1, "a", "b", "a_win", None).unwrap();
    t.record(2, "b", "a", "a_win", None).unwrap();
    t.record(3, "c", "d", "draw", None).unwrap();
    let g = finished(t);
    let has_baseline = g.has_baseline();
    assert!(!has_baseline);
    let nodes = g.nodes(has_baseline);
    assert_eq!(nodes.len(), 4);
    let pairs = g.pair_records(&nodes);
    let conn = strongly_connected_components(nodes.len(), &pairs);
    assert_eq!(conn.num_components, 2);
    let same = conn.component_of[0] == conn.component_of[2];
    assert!(!same);
    assert_eq!(g.cell_status("a", "c", same), CellStatus::Disconnected);
    assert_eq!(g.cell_status("a", "b", true), CellStatus::Direct);
}

#[test]
fn general_layout_puts_the_baseline_first_and_sorts_pairs_by_position() {
    let mut t = MatrixTally::new(false);
    t.add_legacy("zed", 1, 1, 2);
    t.record(1, "zed", "amy", "a_win", None).unwrap();
    let g = finished(t);
    let nodes = g.nodes(true);
    assert_eq!(nodes, vec!["baseline".to_string(), "zed".to_string(), "amy".to_string()]);
    let pairs = g.pair_records(&nodes);
    let keys: Vec<(usize, usize)> = pairs.iter().map(|p| (p.a, p.b)).collect();
    // (baseline, zed) and (amy, zed): "amy" sorts before "zed" by name.
    assert_eq!(keys, vec![(0, 1), (2, 1)]);
    assert_eq!((pairs[1].a_wins, pairs[1].b_wins, pairs[1].draws), (0, 1, 0));
}

#[test]
fn add_wins_lands_on_one_entry_whichever_way_round() {
    let mut e = EdgeTable::new();
    add_wins(&mut e, "b", 3, "a", 1, 2);
    add_wins(&mut e, "a", 4, "b", 0, 0);
    assert_eq!(e.get("a", "b"), Some((5, 3, 2)));
    assert_eq!(e.get("b", "a"), None);
    assert_eq!(e.total(), 10);
}

#[test]
fn one_game_is_scored_the_same_from_either_side() {
    let (lo, hi, p) = canonicalize_outcome("b", "a", MatchOutcome::AWin);
    assert_eq!((lo.as_str(), hi.as_str(), p), ("a", "b", 2));
    let (lo, hi, p) = canonicalize_outcome("a", "b", MatchOutcome::BWin);
    assert_eq!((lo.as_str(), hi.as_str(), p), ("a", "b", 2));
    assert_eq!(canonical_pair("b", "a"), ("a".to_string(), "b".to_string()));
}

#[test]
fn node_totals_sum_every_pair_a_competitor_plays() {
    let mut e = EdgeTable::new();
    tally_points(&mut e, "a", "b", 2);
    tally_points(&mut e, "a", "b", 1);
    tally_points(&mut e, "a", "c", 0);
    tally_points(&mut e, "b", "c", 2);
    assert_eq!(node_totals("a", &e), (1, 1, 3));
    assert_eq!(node_totals("b", &e), (1, 1, 3));
    assert_eq!(node_totals("c", &e), (1, 0, 2));
    assert_eq!(node_totals("nobody", &e), (0, 0, 0));
}
