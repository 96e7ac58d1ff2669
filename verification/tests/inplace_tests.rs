//! Scenario tests for the in-place engine variant, which solves by
//! mutating the builder and computes group slack on demand.

use align_engine::{AlignPointId, AlignPointsEngine, Extent};

fn named(s: &str) -> AlignPointId {
    AlignPointId::Named(String::from(s))
}

#[test]
fn positions_are_zero_before_solving() {
    let mut engine = AlignPointsEngine::new(1, false);
    engine.add_point(named("p"), 0..1, 10, 10);
    assert_eq!(engine.get_position(&named("p")), 0);
    assert_eq!(engine.get_zone_position(1), 0);
}

#[test]
fn solving_in_place_matches_the_consuming_engine() {
    let mut engine = AlignPointsEngine::new(1, false);
    assert!(engine.is_empty());
    engine.set_zone_size(0, 100);
    engine.add_point(named("p"), 0..1, 10, 10);
    assert!(!engine.is_empty());
    engine.compute_positions();
    assert_eq!(engine.get_zone_position(0), 0);
    assert_eq!(engine.get_zone_position(1), 100);
    assert_eq!(engine.get_zone_size(0), 100);
    assert_eq!(engine.get_position(&named("p")), 10);
    assert_eq!(engine.get_extra_space(&named("p")), Extent::Fin(80));
}

#[test]
fn in_place_relation_offsets_child() {
    let mut engine = AlignPointsEngine::new(1, false);
    engine.add_point(named("a"), 0..1, 0, 0);
    engine.add_point(named("b"), 0..1, 0, 0);
    engine.add_relation(named("a"), named("b"), 5);
    engine.compute_positions();
    assert_eq!(engine.get_position(&named("b")) - engine.get_position(&named("a")), 5);
}

#[test]
fn in_place_cycle_leaves_positions_untouched() {
    let mut engine = AlignPointsEngine::new(1, false);
    engine.add_point(named("a"), 0..1, 0, 0);
    engine.add_point(named("b"), 0..1, 0, 0);
    engine.add_relation(named("a"), named("b"), 5);
    engine.add_relation(named("b"), named("a"), 5);
    engine.compute_positions();
    assert_eq!(engine.get_position(&named("a")), 0);
    assert_eq!(engine.get_position(&named("b")), 0);
    assert_eq!(engine.get_zone_position(1), 0);
}

#[test]
fn in_place_slack_counts_outgoing_minima() {
    // slack is measured against the stored minima: an unpadded point at
    // the origin has no room before its trailing separator, also at the
    // origin
    let mut engine = AlignPointsEngine::new(1, false);
    engine.add_point(named("p"), 0..1, 0, 0);
    engine.compute_positions();
    assert_eq!(engine.get_extra_space(&named("p")), Extent::Fin(0));
}

#[test]
fn in_place_rtl_swaps_paddings_only() {
    // the in-place variant applies no mirroring; the flag only swaps the
    // paddings handed to add_point
    let mut engine = AlignPointsEngine::new(1, true);
    engine.set_zone_size(0, 100);
    engine.add_point(named("p"), 0..1, 10, 20);
    engine.compute_positions();
    assert_eq!(engine.get_position(&named("p")), 20);
    assert_eq!(engine.get_zone_position(1), 100);
}

#[test]
fn in_place_zone_size_is_magnitude() {
    let mut engine = AlignPointsEngine::new(2, false);
    engine.set_zone_size(0, 40);
    engine.set_zone_size(1, 60);
    engine.add_point(named("p"), 0..1, 0, 0);
    engine.compute_positions();
    assert_eq!(engine.get_zone_size(0), 40);
    assert_eq!(engine.get_zone_size(1), 60);
}

#[test]
fn in_place_dumps_list_relations_and_positions() {
    let mut engine = AlignPointsEngine::new(1, false);
    engine.set_zone_size(0, 100);
    engine.add_point(named("p"), 0..1, 10, 10);
    engine.compute_positions();
    assert_eq!(
        engine.relations(),
        vec![
            (0, 1, 100, Extent::Fin(100)),
            (0, 2, 10, Extent::Inf),
            (2, 1, 10, Extent::Inf),
        ]
    );
    assert_eq!(engine.positions(), vec![(0, 0), (10, 2), (100, 1)]);
}
