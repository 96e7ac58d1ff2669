//! Scenario tests for the consuming engine: concrete constraint sets with
//! their expected resolved positions, sizes, and slack.

use align_engine::{AlignPointId, AlignmentEngine, Extent};

fn named(s: &str) -> AlignPointId {
    AlignPointId::Named(String::from(s))
}

#[test]
fn empty_engine_reports_empty() {
    let mut engine = AlignmentEngine::new(2, false);
    assert!(engine.is_empty());
    engine.add_point(named("p"), 0..1, 0, 0);
    assert!(!engine.is_empty());
}

#[test]
fn single_point_settles_at_minimum() {
    // one zone 100 wide, a point padded by 10 on each side: the push-only
    // relaxation settles it at the smallest satisfying position
    let mut engine = AlignmentEngine::new(1, false);
    engine.set_zone_size(0, 100);
    engine.add_point(named("p"), 0..1, 10, 10);
    let infos = engine.compute();
    assert_eq!(infos.get_zone_position(0), 0);
    assert_eq!(infos.get_zone_position(1), 100);
    assert_eq!(infos.get_zone_size(0), 100);
    assert_eq!(infos.get_position(&named("p")), 10);
}

#[test]
fn single_point_slack_is_room_to_trailing_edge() {
    let mut engine = AlignmentEngine::new(1, false);
    engine.set_zone_size(0, 100);
    engine.add_point(named("p"), 0..1, 10, 10);
    let infos = engine.compute();
    // the point sits at 10 and its only outgoing relation demands 10
    // before the separator at 100: 100 - 10 - 10 of room remain
    assert_eq!(infos.get_extra_space(&named("p")), Extent::Fin(80));
}

#[test]
fn relation_offsets_child_from_parent() {
    let mut engine = AlignmentEngine::new(1, false);
    engine.add_point(named("a"), 0..1, 0, 0);
    engine.add_point(named("b"), 0..1, 0, 0);
    engine.add_relation(named("a"), named("b"), 5);
    assert!(engine.is_same_group(&named("a"), &named("b")));
    let infos = engine.compute();
    assert_eq!(infos.get_position(&named("b")) - infos.get_position(&named("a")), 5);
}

#[test]
fn negative_relation_puts_child_before_parent() {
    let mut engine = AlignmentEngine::new(1, false);
    engine.add_point(named("a"), 0..1, 0, 0);
    engine.add_point(named("b"), 0..1, 0, 0);
    engine.add_relation(named("a"), named("b"), -5);
    let infos = engine.compute();
    assert_eq!(infos.get_position(&named("b")) - infos.get_position(&named("a")), -5);
}

#[test]
fn grouping_follows_relation_chains() {
    let mut engine = AlignmentEngine::new(1, false);
    for name in ["a", "b", "c", "d"] {
        engine.add_point(named(name), 0..1, 0, 0);
    }
    engine.add_relation(named("a"), named("b"), 1);
    engine.add_relation(named("c"), named("b"), 2);
    assert!(engine.is_same_group(&named("a"), &named("a")));
    assert!(engine.is_same_group(&named("a"), &named("c")));
    assert!(engine.is_same_group(&named("c"), &named("a")));
    assert!(!engine.is_same_group(&named("a"), &named("d")));
}

#[test]
fn opposing_relations_degrade_to_origin() {
    // mutually incompatible fixed relations make a cycle: no panic, and a
    // deterministic all-zero assignment
    let mut engine = AlignmentEngine::new(1, false);
    engine.add_point(named("a"), 0..1, 0, 0);
    engine.add_point(named("b"), 0..1, 0, 0);
    engine.add_relation(named("a"), named("b"), 5);
    engine.add_relation(named("b"), named("a"), 5);
    let infos = engine.compute();
    assert_eq!(infos.get_position(&named("a")), 0);
    assert_eq!(infos.get_position(&named("b")), 0);
    assert_eq!(infos.get_zone_position(0), 0);
    assert_eq!(infos.get_zone_position(1), 0);
}

#[test]
fn rebuilding_identically_gives_identical_positions() {
    let build = || {
        let mut engine = AlignmentEngine::new(2, false);
        engine.set_zone_size(0, 60);
        engine.set_min_zone_size(1, 40);
        engine.add_point(named("x"), 0..1, 7, 3);
        engine.add_point(named("y"), 1..2, 5, 5);
        engine.add_relation(named("x"), named("y"), 64);
        engine.compute()
    };
    let first = build();
    let second = build();
    for name in ["x", "y"] {
        assert_eq!(first.get_position(&named(name)), second.get_position(&named(name)));
    }
    for z in 0..=2 {
        assert_eq!(first.get_zone_position(z), second.get_zone_position(z));
    }
    for z in 0..2 {
        assert_eq!(first.get_zone_size(z), second.get_zone_size(z));
    }
}

#[test]
fn rtl_mirrors_zone_sizes() {
    // the same constraints under both directions give the same magnitudes
    let build = |rtl: bool| {
        let mut engine = AlignmentEngine::new(2, rtl);
        engine.set_zone_size(0, 50);
        engine.set_zone_size(1, 70);
        engine.add_point(named("p"), 0..1, 10, 10);
        engine.compute()
    };
    let ltr = build(false);
    let rtl = build(true);
    for z in 0..2 {
        assert_eq!(ltr.get_zone_size(z), rtl.get_zone_size(z));
    }
}

#[test]
fn rtl_point_is_anchored_from_trailing_edge() {
    let mut engine = AlignmentEngine::new(1, true);
    engine.set_zone_size(0, 100);
    // under right-to-left layout the paddings swap: 20 demanded before the
    // point in logical order, 10 after it
    engine.add_point(named("p"), 0..1, 10, 20);
    let infos = engine.compute();
    // logical solve: point at 20, slack 100 - 20 - 10 = 70; the point
    // absorbs its group's slack and the axis flips about 100
    assert_eq!(infos.get_extra_space(&named("p")), Extent::Fin(70));
    assert_eq!(infos.get_position(&named("p")), 10);
    assert_eq!(infos.get_zone_position(0), 100);
    assert_eq!(infos.get_zone_position(1), 0);
    assert_eq!(infos.get_zone_size(0), 100);
}

#[test]
fn min_zone_size_pushes_next_separator() {
    let mut engine = AlignmentEngine::new(1, false);
    engine.set_min_zone_size(0, 30);
    engine.add_point(named("p"), 0..1, 0, 0);
    let infos = engine.compute();
    assert_eq!(infos.get_zone_position(1), 30);
    assert_eq!(infos.get_zone_size(0), 30);
}

#[test]
fn min_span_size_spans_several_zones() {
    let mut engine = AlignmentEngine::new(2, false);
    engine.set_zone_size(0, 30);
    engine.set_min_span_size(0..2, 100);
    engine.add_point(named("p"), 0..1, 0, 0);
    let infos = engine.compute();
    assert_eq!(infos.get_zone_position(1), 30);
    assert_eq!(infos.get_zone_position(2), 100);
    assert_eq!(infos.get_zone_size(1), 70);
}

#[test]
fn repeated_point_registration_tightens_padding() {
    let mut engine = AlignmentEngine::new(1, false);
    engine.add_point(named("p"), 0..1, 10, 0);
    engine.add_point(named("p"), 0..1, 20, 0);
    let infos = engine.compute();
    assert_eq!(infos.get_position(&named("p")), 20);
}

#[test]
fn conflicting_zone_sizes_keep_the_larger_minimum() {
    // tightening drives the interval inverted; only the minimum steers the
    // relaxation, so the larger demand wins
    let mut engine = AlignmentEngine::new(1, false);
    engine.set_zone_size(0, 100);
    engine.set_zone_size(0, 50);
    engine.add_point(named("p"), 0..1, 0, 0);
    let infos = engine.compute();
    assert_eq!(infos.get_zone_size(0), 100);
}

#[test]
fn points_without_constraints_share_origin() {
    let mut engine = AlignmentEngine::new(3, false);
    engine.add_point(named("p"), 1..2, 0, 0);
    engine.add_point(named("q"), 2..3, 0, 0);
    let infos = engine.compute();
    assert_eq!(infos.get_position(&named("p")), 0);
    assert_eq!(infos.get_position(&named("q")), 0);
    for z in 0..3 {
        assert_eq!(infos.get_zone_size(z), 0);
    }
}

#[test]
fn unique_ids_do_not_collide_with_names() {
    let mut engine = AlignmentEngine::new(1, false);
    let mut source = align_engine::UniqueIdSource::new();
    let u1 = source.fresh();
    let u2 = source.fresh();
    engine.add_point(u1.clone(), 0..1, 3, 0);
    engine.add_point(u2.clone(), 0..1, 8, 0);
    engine.add_point(named("p"), 0..1, 5, 0);
    let infos = engine.compute();
    assert_eq!(infos.get_position(&u1), 3);
    assert_eq!(infos.get_position(&u2), 8);
    assert_eq!(infos.get_position(&named("p")), 5);
}

#[test]
fn relations_dump_shows_tightened_chain() {
    let mut engine = AlignmentEngine::new(1, false);
    let rels = engine.relations();
    assert_eq!(rels, vec![(0, 1, 0, Extent::Inf)]);
    engine.set_zone_size(0, 100);
    let rels = engine.relations();
    assert_eq!(rels, vec![(0, 1, 100, Extent::Fin(100))]);
}

#[test]
fn positions_dump_is_sorted_by_position() {
    let mut engine = AlignmentEngine::new(1, false);
    engine.set_zone_size(0, 100);
    engine.add_point(named("p"), 0..1, 10, 10);
    let infos = engine.compute();
    // separators at 0 and 100, the point at 10: ascending by position
    assert_eq!(infos.positions(), vec![(0, 0), (10, 2), (100, 1)]);
}

#[test]
fn rtl_relation_offset_survives_mirroring() {
    // the declared distance is negated while building, and the reflection
    // restores it: the physical positions still differ by the delta
    let mut engine = AlignmentEngine::new(1, true);
    engine.add_point(named("a"), 0..1, 0, 0);
    engine.add_point(named("b"), 0..1, 0, 0);
    engine.add_relation(named("a"), named("b"), 5);
    let infos = engine.compute();
    assert_eq!(infos.get_position(&named("b")) - infos.get_position(&named("a")), 5);
}

#[test]
fn huge_demands_degrade_instead_of_overflowing() {
    // two zones each demanding the full representable range can never be
    // satisfied together: arithmetic saturates instead of wrapping, the
    // pass budget runs out, and the result degrades to the origin
    let mut engine = AlignmentEngine::new(2, false);
    engine.set_min_zone_size(0, i64::MAX);
    engine.set_min_zone_size(1, i64::MAX);
    engine.add_point(named("p"), 0..1, 0, 0);
    let infos = engine.compute();
    assert_eq!(infos.get_zone_position(1), 0);
    assert_eq!(infos.get_zone_position(2), 0);
    assert_eq!(infos.get_zone_size(1), 0);
    assert_eq!(infos.get_position(&named("p")), 0);
}

#[test]
fn single_huge_demand_saturates() {
    // one saturated demand alone is satisfiable: the separator is pushed
    // to the top of the representable range and stays there
    let mut engine = AlignmentEngine::new(1, false);
    engine.set_min_zone_size(0, i64::MAX);
    engine.add_point(named("p"), 0..1, 0, 0);
    let infos = engine.compute();
    assert_eq!(infos.get_zone_position(1), i64::MAX);
    assert_eq!(infos.get_zone_size(0), i64::MAX);
}

#[test]
fn compute_without_points_keeps_separators_ordered() {
    let mut engine = AlignmentEngine::new(2, false);
    engine.set_zone_size(1, 25);
    let infos = engine.compute();
    assert_eq!(infos.get_zone_position(0), 0);
    assert_eq!(infos.get_zone_position(1), 0);
    assert_eq!(infos.get_zone_position(2), 25);
}
