use std::collections::HashMap;

use utility_ai::ai_meta::AIMeta;
use utility_ai::considerations::Consideration;
use utility_ai::decisions::{Decision, Filter, TAG_LEN};
use utility_ai::define_ai::{DefineUtilityAI, RegisterError};
use utility_ai::definitions::{AIDefinitions, FilterDefinition};
use utility_ai::fixed::{format_fixed, SCALE};
use utility_ai::inputs::{calculate_simple_input, calculate_targeted_input, input_events};
use utility_ai::make_decisions::{decide, evaluate_decisions, make_decisions};
use utility_ai::response_curves::Linear;
use utility_ai::events::{consideration_events, decision_events};
use utility_ai::systems::{ensure_entity_has_ai_meta, handle_ai_marker_removed, update_actions_sys};
use utility_ai::world::World;

const AI: u64 = 1;
const OTHER_AI: u64 = 2;
const ACTION_A: u64 = 10;
const ACTION_B: u64 = 11;
const X: u64 = 20;
const TAG_A: u64 = 21;
const TAG_B: u64 = 22;
const INPUT_A: u64 = 30;
const INPUT_B: u64 = 31;
const DISTANCE: u64 = 32;

fn fx(v: f64) -> i64 {
    (v * SCALE as f64).round() as i64
}

fn two_simple_decisions(marker: u64) -> DefineUtilityAI {
    DefineUtilityAI::new(marker, "Two")
        .add_decision(
            Decision::simple(ACTION_A, "A")
                .add_consideration(Consideration::simple(INPUT_A, "input_a")),
        )
        .add_decision(
            Decision::simple(ACTION_B, "B")
                .add_consideration(Consideration::simple(INPUT_B, "input_b")),
        )
}

fn set_inputs(states: &mut Vec<(u64, AIMeta)>, defs: &AIDefinitions, a: i64, b: i64) {
    calculate_simple_input(states, defs, INPUT_A, &|_e: u64| Some(a));
    calculate_simple_input(states, defs, INPUT_B, &|_e: u64| Some(b));
}

fn one_entity_world(components: Vec<u64>) -> World {
    let mut world = World::new();
    world.spawn(1, &components);
    world
}

#[test]
fn higher_input_wins_and_score_is_recorded() {
    let mut defs = AIDefinitions::new();
    two_simple_decisions(AI).register(&mut defs).unwrap();
    let world = one_entity_world(vec![]);
    let mut states = vec![(1, AIMeta::new(AI))];
    set_inputs(&mut states, &defs, fx(0.25), fx(0.75));
    let out = make_decisions(&mut states, &defs, &world);
    assert_eq!(states[0].1.current_action, Some(ACTION_B));
    assert_eq!(states[0].1.current_action_score, fx(0.75));
    assert_eq!(states[0].1.current_action_name, "B");
    let change = out[0].as_ref().unwrap();
    assert_eq!(change.update.old_action, None);
    assert_eq!(change.update.new_action, ACTION_B);
    assert_eq!(change.changed.prev_score, -SCALE);
    assert_eq!(change.changed.new_score, fx(0.75));
    assert_eq!(change.changed.prev_action, "");
    assert_eq!(change.changed.new_action, "B");
}

#[test]
fn nearer_target_wins() {
    let mut defs = AIDefinitions::new();
    DefineUtilityAI::new(AI, "Hunter")
        .add_decision(
            Decision::targeted(ACTION_A, "Chase").add_consideration(
                Consideration::targeted(DISTANCE, "distance")
                    .with_response_curve(Linear::new(-SCALE).shifted(0, SCALE).into()),
            ),
        )
        .register(&mut defs)
        .unwrap();
    let mut world = World::new();
    world.spawn(1, &vec![]);
    world.spawn(2, &vec![]);
    world.spawn(3, &vec![]);
    let mut states = vec![(1, AIMeta::new(AI))];
    // target 2 is at distance sqrt(2), target 3 at distance 0
    let distances: HashMap<u64, f64> = HashMap::from([(2, 2f64.sqrt()), (3, 0.0)]);
    calculate_targeted_input(&mut states, &defs, DISTANCE, &vec![2, 3], &world, &|_s: u64, t: u64| {
        Some(fx(distances[&t]))
    });
    make_decisions(&mut states, &defs, &world);
    assert_eq!(states[0].1.current_action, Some(ACTION_A));
    assert_eq!(states[0].1.current_target, Some(3));
    assert_eq!(states[0].1.current_action_score, SCALE);
}

#[test]
fn subject_filter_excludes_decision() {
    let mut defs = AIDefinitions::new();
    DefineUtilityAI::new(AI, "Filtered")
        .add_decision(Decision::simple(ACTION_A, "A").subject_filter_include(X))
        .register(&mut defs)
        .unwrap();
    let world = one_entity_world(vec![TAG_A]);
    let meta = AIMeta::new(AI);
    let def = defs.get(AI).unwrap();
    assert!(evaluate_decisions(def, &meta, &world, 1).is_empty());
    let mut states = vec![(1, meta)];
    let out = make_decisions(&mut states, &defs, &world);
    assert!(out[0].is_none());
    assert_eq!(states[0].1.current_action, None);
    assert_eq!(states[0].1.current_action_score, -SCALE);

    // the exclusive filter is the converse
    let mut defs = AIDefinitions::new();
    DefineUtilityAI::new(AI, "Excluded")
        .add_decision(Decision::simple(ACTION_A, "A").subject_filter_exclude(TAG_A))
        .add_decision(Decision::simple(ACTION_B, "B").set_base_score(fx(0.5)))
        .register(&mut defs)
        .unwrap();
    let mut states = vec![(1, AIMeta::new(AI))];
    make_decisions(&mut states, &defs, &world);
    assert_eq!(states[0].1.current_action, Some(ACTION_B));
    assert_eq!(states[0].1.current_action_score, fx(0.5));
}

#[test]
fn target_filters_compose() {
    let mut defs = AIDefinitions::new();
    DefineUtilityAI::new(AI, "Composed")
        .add_decision(
            Decision::targeted(ACTION_A, "Both")
                .add_consideration(Consideration::targeted(DISTANCE, "distance"))
                .target_filter_include(TAG_A)
                .target_filter_include(TAG_B),
        )
        .add_decision(
            Decision::targeted(ACTION_B, "One")
                .add_consideration(Consideration::targeted(DISTANCE, "distance"))
                .target_filter_include(TAG_A),
        )
        .register(&mut defs)
        .unwrap();
    let def = defs.get(AI).unwrap();
    match &def.get_targeted_input_requirements(&DISTANCE).target_filter {
        FilterDefinition::Filtered(sets) => {
            assert_eq!(
                sets,
                &vec![
                    vec![Filter::Inclusive(TAG_A), Filter::Inclusive(TAG_B)],
                    vec![Filter::Inclusive(TAG_A)]
                ]
            );
        }
        FilterDefinition::Any => panic!("expected filtered requirement"),
    }

    let mut world = World::new();
    world.spawn(1, &vec![]);
    world.spawn(2, &vec![TAG_A]);
    let mut states = vec![(1, AIMeta::new(AI))];
    calculate_targeted_input(&mut states, &defs, DISTANCE, &vec![1, 2], &world, &|_s: u64, _t: u64| {
        Some(fx(0.5))
    });
    let cands = evaluate_decisions(def, &states[0].1, &world, 1);
    assert_eq!(cands.len(), 1);
    assert_eq!(cands[0].decision, 1);
    assert_eq!(cands[0].target, Some(2));
    assert_eq!(cands[0].score, fx(0.5));
}

#[test]
fn any_absorbs_filtered_requirements() {
    let mut defs = AIDefinitions::new();
    DefineUtilityAI::new(AI, "Absorbing")
        .add_decision(
            Decision::targeted(ACTION_A, "Filtered")
                .add_consideration(Consideration::targeted(DISTANCE, "distance"))
                .target_filter_include(TAG_A),
        )
        .add_decision(
            Decision::targeted(ACTION_B, "Unfiltered")
                .add_consideration(Consideration::targeted(DISTANCE, "distance")),
        )
        .register(&mut defs)
        .unwrap();
    let def = defs.get(AI).unwrap();
    assert!(def.requires_targeted_input(&DISTANCE));
    assert!(!def.requires_simple_input(&DISTANCE));
    assert!(matches!(
        def.get_targeted_input_requirements(&DISTANCE).target_filter,
        FilterDefinition::Any
    ));

    let mut a = FilterDefinition::Filtered(vec![vec![Filter::Exclusive(X)]]);
    assert!(matches!(a.merge(&FilterDefinition::Any), FilterDefinition::Any));
    let mut any = FilterDefinition::Any;
    assert!(matches!(any.merge(&a), FilterDefinition::Any));
    match a.merge(&FilterDefinition::Filtered(vec![vec![Filter::Inclusive(TAG_B)]])) {
        FilterDefinition::Filtered(sets) => assert_eq!(
            sets,
            vec![vec![Filter::Exclusive(X)], vec![Filter::Inclusive(TAG_B)]]
        ),
        FilterDefinition::Any => panic!("expected filtered requirement"),
    }
    assert_eq!(Filter::Exclusive(X).component_type_id(), X);
    assert_eq!(Filter::Inclusive(TAG_A).component_type_id(), TAG_A);
}

#[test]
fn inertia_holds_then_yields() {
    let mut defs = AIDefinitions::new();
    DefineUtilityAI::new(AI, "Sticky")
        .add_decision(
            Decision::simple(ACTION_A, "A")
                .add_consideration(Consideration::simple(INPUT_A, "input_a"))
                .set_intertia(fx(0.2)),
        )
        .add_decision(
            Decision::simple(ACTION_B, "B")
                .add_consideration(Consideration::simple(INPUT_B, "input_b")),
        )
        .register(&mut defs)
        .unwrap();
    let world = one_entity_world(vec![]);
    let mut states = vec![(1, AIMeta::new(AI))];

    set_inputs(&mut states, &defs, fx(0.5), fx(0.4));
    make_decisions(&mut states, &defs, &world);
    assert_eq!(states[0].1.current_action, Some(ACTION_A));
    assert_eq!(states[0].1.current_action_score, fx(0.5));

    // B is higher by 0.1, less than the inertia: A stays, with its bonus
    set_inputs(&mut states, &defs, fx(0.5), fx(0.6));
    let out = make_decisions(&mut states, &defs, &world);
    assert!(out[0].is_none());
    assert_eq!(states[0].1.current_action, Some(ACTION_A));
    assert_eq!(states[0].1.current_action_score, fx(0.7));

    // B is higher by 0.3, more than the inertia: switch
    set_inputs(&mut states, &defs, fx(0.5), fx(0.8));
    let out = make_decisions(&mut states, &defs, &world);
    let change = out[0].as_ref().unwrap();
    assert_eq!(change.update.old_action, Some(ACTION_A));
    assert_eq!(change.update.new_action, ACTION_B);
    assert_eq!(change.changed.prev_score, fx(0.7));
    assert_eq!(states[0].1.current_action, Some(ACTION_B));
    assert_eq!(states[0].1.current_action_score, fx(0.8));
}

#[test]
fn default_inertia_applies_without_own() {
    let mut defs = AIDefinitions::new();
    two_simple_decisions(AI).set_default_intertia(fx(0.3)).register(&mut defs).unwrap();
    let world = one_entity_world(vec![]);
    let mut states = vec![(1, AIMeta::new(AI))];
    set_inputs(&mut states, &defs, fx(0.5), fx(0.4));
    make_decisions(&mut states, &defs, &world);
    set_inputs(&mut states, &defs, fx(0.5), fx(0.75));
    make_decisions(&mut states, &defs, &world);
    assert_eq!(states[0].1.current_action, Some(ACTION_A));
    assert_eq!(states[0].1.current_action_score, fx(0.8));
}

#[test]
fn despawned_target_is_dropped_from_cache() {
    let mut defs = AIDefinitions::new();
    DefineUtilityAI::new(AI, "Hunter")
        .add_decision(
            Decision::targeted(ACTION_A, "Chase")
                .add_consideration(Consideration::targeted(DISTANCE, "distance")),
        )
        .register(&mut defs)
        .unwrap();
    let mut world = World::new();
    world.spawn(1, &vec![]);
    world.spawn(2, &vec![]);
    world.spawn(3, &vec![]);
    let mut states = vec![(1, AIMeta::new(AI))];
    calculate_targeted_input(&mut states, &defs, DISTANCE, &vec![2, 3], &world, &|_s: u64, t: u64| {
        Some(if t == 2 { fx(0.9) } else { fx(0.4) })
    });
    make_decisions(&mut states, &defs, &world);
    assert_eq!(states[0].1.current_target, Some(2));

    world.despawn(2);
    let out = make_decisions(&mut states, &defs, &world);
    let scores = states[0].1.targeted_input_scores.get(&DISTANCE).unwrap();
    assert!(!scores.contains_key(&2));
    assert!(scores.contains_key(&3));
    assert_eq!(scores.len(), 1);
    assert_eq!(states[0].1.current_target, Some(3));
    assert_eq!(out[0].as_ref().unwrap().changed.prev_target, Some(2));
}

#[test]
fn duplicate_registration_is_refused() {
    let mut defs = AIDefinitions::new();
    assert_eq!(two_simple_decisions(AI).register(&mut defs), Ok(()));
    let again = DefineUtilityAI::new(AI, "Other")
        .add_decision(Decision::simple(ACTION_A, "A"));
    assert_eq!(again.register(&mut defs), Err(RegisterError::AlreadyDefined(AI)));
    let kept = defs.get(AI).unwrap();
    assert_eq!(kept.name, "Two");
    assert_eq!(kept.decisions.len(), 2);
    assert!(defs.contains(AI));
    assert!(!defs.contains(OTHER_AI));
}

#[test]
fn inputs_are_isolated_per_definition() {
    let mut defs = AIDefinitions::new();
    two_simple_decisions(AI).register(&mut defs).unwrap();
    DefineUtilityAI::new(OTHER_AI, "Idle")
        .add_decision(Decision::simple(ACTION_A, "Idle"))
        .register(&mut defs)
        .unwrap();
    let mut states = vec![(1, AIMeta::new(OTHER_AI)), (2, AIMeta::new(AI))];
    let mut calls: Vec<u64> = Vec::new();
    let called = std::cell::RefCell::new(&mut calls);
    calculate_simple_input(&mut states, &defs, INPUT_A, &|e: u64| {
        called.borrow_mut().push(e);
        Some(fx(0.1))
    });
    assert_eq!(calls, vec![2]);
    assert!(states[0].1.input_scores.is_empty());
    assert_eq!(states[1].1.input_scores.get(&INPUT_A), Some(&fx(0.1)));
}

#[test]
fn missing_input_is_skipped() {
    let mut defs = AIDefinitions::new();
    two_simple_decisions(AI).register(&mut defs).unwrap();
    let world = one_entity_world(vec![]);
    let mut states = vec![(1, AIMeta::new(AI))];
    // only B's input is known: A scores its base score
    calculate_simple_input(&mut states, &defs, INPUT_B, &|_e: u64| Some(fx(0.4)));
    calculate_simple_input(&mut states, &defs, INPUT_A, &|_e: u64| None);
    make_decisions(&mut states, &defs, &world);
    assert_eq!(states[0].1.current_action, Some(ACTION_A));
    assert_eq!(states[0].1.current_action_score, SCALE);
}

#[test]
fn ties_go_to_the_first_decision_and_target() {
    let mut defs = AIDefinitions::new();
    two_simple_decisions(AI).register(&mut defs).unwrap();
    let world = one_entity_world(vec![]);
    let mut states = vec![(1, AIMeta::new(AI))];
    set_inputs(&mut states, &defs, fx(0.5), fx(0.5));
    make_decisions(&mut states, &defs, &world);
    assert_eq!(states[0].1.current_action, Some(ACTION_A));

    let mut defs = AIDefinitions::new();
    DefineUtilityAI::new(AI, "Targets")
        .add_decision(
            Decision::targeted(ACTION_A, "Chase")
                .add_consideration(Consideration::targeted(DISTANCE, "distance")),
        )
        .register(&mut defs)
        .unwrap();
    let mut world = World::new();
    for e in [1u64, 5, 4] {
        world.spawn(e, &vec![]);
    }
    let mut states = vec![(1, AIMeta::new(AI))];
    calculate_targeted_input(&mut states, &defs, DISTANCE, &vec![5, 4], &world, &|_s: u64, _t: u64| {
        Some(fx(0.5))
    });
    make_decisions(&mut states, &defs, &world);
    assert_eq!(states[0].1.current_target, Some(5));
}

#[test]
fn scores_multiply_with_bounds_and_base() {
    let mut defs = AIDefinitions::new();
    DefineUtilityAI::new(AI, "Product")
        .add_decision(
            Decision::simple(ACTION_A, "A")
                .set_base_score(fx(2.0))
                .add_consideration(Consideration::simple(INPUT_A, "input_a"))
                .add_consideration(
                    Consideration::simple(INPUT_B, "input_b").with_bounds(fx(0.2), fx(0.5)),
                ),
        )
        .register(&mut defs)
        .unwrap();
    let world = one_entity_world(vec![]);
    let mut states = vec![(1, AIMeta::new(AI))];
    set_inputs(&mut states, &defs, fx(0.5), fx(0.9));
    make_decisions(&mut states, &defs, &world);
    // 2 * 0.5 * min(0.9, 0.5)
    assert_eq!(states[0].1.current_action_score, fx(0.5));
    set_inputs(&mut states, &defs, fx(1.7), fx(0.1));
    make_decisions(&mut states, &defs, &world);
    // 2 * clamp(1.7, 0, 1) * max(0.1, 0.2)
    assert_eq!(states[0].1.current_action_score, fx(0.4));
}

#[test]
fn same_action_and_target_only_updates_score() {
    let mut defs = AIDefinitions::new();
    two_simple_decisions(AI).register(&mut defs).unwrap();
    let world = one_entity_world(vec![]);
    let def = defs.get(AI).unwrap();
    let mut meta = AIMeta::new(AI);
    meta.set_input_score(INPUT_A, fx(0.3));
    meta.set_input_score(INPUT_B, fx(0.1));
    assert!(decide(&mut meta, 1, def, &world).is_some());
    meta.set_input_score(INPUT_A, fx(0.6));
    assert!(decide(&mut meta, 1, def, &world).is_none());
    assert_eq!(meta.current_action_score, fx(0.6));
    assert_eq!(meta.current_action_name, "A");
}

#[test]
fn lifecycle_creates_and_removes_state() {
    let mut states: Vec<(u64, AIMeta)> = Vec::new();
    ensure_entity_has_ai_meta(&mut states, AI, &vec![1, 2, 1]);
    assert_eq!(states.len(), 2);
    assert_eq!(states[0].0, 1);
    assert_eq!(states[1].0, 2);
    assert_eq!(states[1].1.ai_definition, AI);
    assert_eq!(states[1].1.current_action_score, -SCALE);
    states[0].1.set_input_score(INPUT_A, 7);
    ensure_entity_has_ai_meta(&mut states, AI, &vec![1, 3]);
    assert_eq!(states.len(), 3);
    assert_eq!(states[0].1.input_scores.get(&INPUT_A), Some(&7));
    handle_ai_marker_removed(&mut states, &vec![2, 9]);
    let ids: Vec<u64> = states.iter().map(|s| s.0).collect();
    assert_eq!(ids, vec![1, 3]);
}

#[test]
fn decision_names_carry_a_lowercase_tag() {
    for _ in 0..20 {
        let d = Decision::simple(ACTION_A, "Hunt");
        assert_eq!(d.name.len(), "Hunt".len() + 1 + TAG_LEN);
        assert!(d.name.starts_with("Hunt_"));
        assert!(d.name["Hunt_".len()..]
            .chars()
            .all(|c| c.is_ascii_lowercase() || c.is_ascii_digit()));
    }
    let a = Decision::simple(ACTION_A, "Hunt");
    let b = Decision::simple(ACTION_A, "Hunt");
    assert_ne!(a.id, b.id);
    let c = Decision::targeted(ACTION_A, "Hunt").with_name("custom");
    assert_eq!(c.name, "custom");
    assert!(c.is_targeted);
}

#[test]
fn consideration_defaults_and_names() {
    let c = Consideration::simple(INPUT_A, "thirst");
    assert_eq!(c.name, "thirst - Linear(x)");
    assert_eq!(c.lower_bound, 0);
    assert_eq!(c.upper_bound, SCALE);
    assert_eq!(c.calculate_score(fx(0.3)), fx(0.3));
    assert_eq!(c.calculate_score(fx(-0.3)), 0);
    assert_eq!(c.calculate_score(fx(3.0)), SCALE);
    let c = c.with_response_curve(Linear::new(-SCALE).shifted(0, SCALE).into());
    assert_eq!(c.name, "thirst - Linear(-x + 1)");
    assert_eq!(c.calculate_score(fx(0.25)), fx(0.75));
    let c = c.with_name("renamed");
    assert_eq!(c.name, "renamed");
}

#[test]
fn fixed_point_formatting() {
    assert_eq!(format_fixed(0), "0");
    assert_eq!(format_fixed(SCALE), "1");
    assert_eq!(format_fixed(-250_000), "-0.25");
    assert_eq!(format_fixed(1), "0.000001");
    assert_eq!(format_fixed(12_340_000), "12.34");
    assert_eq!(format_fixed(i64::MIN), "-9223372036854.775808");
}

#[test]
fn world_filters_and_action_tags() {
    let mut world = World::new();
    world.spawn(1, &vec![TAG_A, X]);
    assert!(world.contains_entity(1));
    assert!(world.matches_filters(1, &vec![Filter::Inclusive(TAG_A), Filter::Exclusive(TAG_B)]));
    assert!(!world.matches_filters(1, &vec![Filter::Exclusive(X)]));
    assert!(world.matches_filters(1, &vec![]));

    let mut defs = AIDefinitions::new();
    two_simple_decisions(AI).register(&mut defs).unwrap();
    let mut states = vec![(1, AIMeta::new(AI))];
    set_inputs(&mut states, &defs, fx(0.9), fx(0.1));
    let out = make_decisions(&mut states, &defs, &world);
    let updates: Vec<_> = out.iter().flatten().map(|c| c.update).collect();
    update_actions_sys(&mut world, &updates);
    assert!(world.matches_filters(1, &vec![Filter::Inclusive(ACTION_A)]));

    set_inputs(&mut states, &defs, fx(0.1), fx(0.9));
    let out = make_decisions(&mut states, &defs, &world);
    let updates: Vec<_> = out.iter().flatten().map(|c| c.update).collect();
    update_actions_sys(&mut world, &updates);
    assert!(world.matches_filters(1, &vec![Filter::Exclusive(ACTION_A), Filter::Inclusive(ACTION_B)]));

    world.despawn(1);
    assert!(!world.contains_entity(1));
}

#[test]
fn decision_events_name_the_decisions() {
    let mut defs = AIDefinitions::new();
    two_simple_decisions(AI).register(&mut defs).unwrap();
    let world = one_entity_world(vec![]);
    let mut meta = AIMeta::new(AI);
    meta.set_input_score(INPUT_A, fx(0.2));
    meta.set_input_score(INPUT_B, fx(0.3));
    let def = defs.get(AI).unwrap();
    let cands = evaluate_decisions(def, &meta, &world, 1);
    let events = decision_events(def, 1, &cands);
    assert_eq!(events.len(), 2);
    assert_eq!(events[0].decision, def.decisions[0].id);
    assert_eq!(events[1].decision, def.decisions[1].id);
    assert_eq!(events[0].score, fx(0.2));
    assert_eq!(events[1].score, fx(0.3));
    assert_eq!(events[1].target, None);
}

#[test]
fn input_events_list_cached_values() {
    let mut defs = AIDefinitions::new();
    DefineUtilityAI::new(AI, "Mixed")
        .add_decision(
            Decision::targeted(ACTION_A, "Chase")
                .add_consideration(Consideration::simple(INPUT_A, "input_a"))
                .add_consideration(Consideration::targeted(DISTANCE, "distance")),
        )
        .register(&mut defs)
        .unwrap();
    let mut world = World::new();
    for e in [1u64, 2, 3] {
        world.spawn(e, &vec![]);
    }
    let mut states = vec![(1, AIMeta::new(AI))];
    calculate_simple_input(&mut states, &defs, INPUT_A, &|_e: u64| Some(fx(0.3)));
    calculate_targeted_input(&mut states, &defs, DISTANCE, &vec![3, 2], &world, &|_s: u64, t: u64| {
        Some(t as i64)
    });
    let simple = input_events(&states, INPUT_A, "input_a");
    assert_eq!(simple.len(), 1);
    assert_eq!(simple[0].input, "input_a");
    assert_eq!(simple[0].target, None);
    assert_eq!(simple[0].score, fx(0.3));
    let targeted = input_events(&states, DISTANCE, "distance");
    assert_eq!(targeted.len(), 2);
    assert_eq!(targeted[0].target, Some(3));
    assert_eq!(targeted[0].score, 3);
    assert_eq!(targeted[1].target, Some(2));
    assert_eq!(targeted[1].entity, 1);
}

#[test]
fn consideration_events_follow_scoring() {
    let mut defs = AIDefinitions::new();
    DefineUtilityAI::new(AI, "Mixed")
        .add_decision(
            Decision::targeted(ACTION_A, "Chase")
                .add_consideration(Consideration::simple(INPUT_A, "input_a"))
                .add_consideration(
                    Consideration::targeted(DISTANCE, "distance")
                        .with_response_curve(Linear::new(-SCALE).shifted(0, SCALE).into()),
                )
                .target_filter_include(TAG_A),
        )
        .add_decision(Decision::simple(ACTION_B, "Idle").subject_filter_include(X))
        .register(&mut defs)
        .unwrap();
    let mut world = World::new();
    world.spawn(1, &vec![]);
    world.spawn(2, &vec![TAG_A]);
    world.spawn(3, &vec![]);
    let mut states = vec![(1, AIMeta::new(AI))];
    calculate_simple_input(&mut states, &defs, INPUT_A, &|_e: u64| Some(fx(0.3)));
    states[0].1.set_targeted_input_score(DISTANCE, 2, fx(0.25));
    states[0].1.set_targeted_input_score(DISTANCE, 3, fx(0.5));
    states[0].1.set_targeted_input_score(DISTANCE, 4, fx(0.5));
    let def = defs.get(AI).unwrap();
    let events = consideration_events(def, &states[0].1, &world, 1);
    assert_eq!(events.len(), 2);
    assert_eq!(events[0].decision, def.decisions[0].id);
    assert_eq!(events[0].consideration, def.decisions[0].considerations[0].id);
    assert_eq!(events[0].target, None);
    assert_eq!(events[0].score, fx(0.3));
    assert_eq!(events[1].consideration, def.decisions[0].considerations[1].id);
    assert_eq!(events[1].target, Some(2));
    assert_eq!(events[1].score, fx(0.75));
}
