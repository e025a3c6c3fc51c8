use std::collections::HashMap;

use utility_ai::ai_meta::AIMeta;
use utility_ai::considerations::Consideration;
use utility_ai::decisions::Decision;
use utility_ai::define_ai::DefineUtilityAI;
use utility_ai::definitions::AIDefinitions;
use utility_ai::fixed::SCALE;
use utility_ai::inputs::{calculate_simple_input, calculate_targeted_input};
use utility_ai::make_decisions::make_decisions;
use utility_ai::response_curves::Linear;
use utility_ai::world::World;

// Behaviour markers.
const AI: u64 = 1;
const AI1: u64 = 2;
const AI2: u64 = 3;
// Actions.
const ACTION_ONE: u64 = 10;
const ACTION_TWO: u64 = 11;
// Components.
const SOME_DATA: u64 = 20;
const SOME_OTHER_DATA: u64 = 21;
const POSITION: u64 = 22;
const AA: u64 = 30;
const BB: u64 = 31;
const CC: u64 = 32;
// Inputs.
const UTILITY_INPUT_LOW: u64 = 40;
const UTILITY_INPUT_HIGH: u64 = 41;
const UTILITY_INPUT_1: u64 = 42;
const UTILITY_INPUT_2: u64 = 43;
const TARGETED_UTILITY_INPUT: u64 = 50;
const TARGETED_UTILITY_INPUT_1: u64 = 51;
const TARGETED_UTILITY_INPUT_2: u64 = 52;

fn fx(v: f32) -> i64 {
    (v as f64 * SCALE as f64).round() as i64
}

fn distance(a: (f32, f32), b: (f32, f32)) -> f32 {
    ((a.0 - b.0).powi(2) + (a.1 - b.1).powi(2)).sqrt()
}

/// The entities that carry `component`, in id order.
fn with_component(components: &HashMap<u64, Vec<u64>>, component: u64) -> Vec<u64> {
    let mut v: Vec<u64> = components
        .iter()
        .filter(|(_, cs)| cs.contains(&component))
        .map(|(e, _)| *e)
        .collect();
    v.sort();
    v
}

fn world_of(components: &HashMap<u64, Vec<u64>>) -> World {
    let mut world = World::new();
    for (e, cs) in components {
        world.spawn(*e, cs);
    }
    world
}

/// Test that ticking the engine with nothing defined does no harm.
#[test]
fn test_empty_plugin() {
    let definitions = AIDefinitions::new();
    let world = World::new();
    let mut states: Vec<(u64, AIMeta)> = Vec::new();
    let out = make_decisions(&mut states, &definitions, &world);
    assert!(out.is_empty());
}

/// The engine picks the highest scoring decision in the trivial case of two
/// decisions with one consideration each.
#[test]
fn simple_considerations_trivial() {
    let mut definitions = AIDefinitions::new();
    DefineUtilityAI::new(AI, "AI")
        .add_decision(Decision::simple(ACTION_ONE, "ActionOne").add_consideration(
            Consideration::simple(UTILITY_INPUT_LOW, "utility_input_low")
                .with_name("utility_input_low"),
        ))
        .add_decision(Decision::simple(ACTION_TWO, "ActionTwo").add_consideration(
            Consideration::simple(UTILITY_INPUT_HIGH, "utility_input_high")
                .with_name("utility_input_high"),
        ))
        .register(&mut definitions)
        .unwrap();

    let entity_id = 1;
    let some_data: HashMap<u64, f32> = HashMap::from([(entity_id, 0.25)]);
    let some_other_data: HashMap<u64, f32> = HashMap::from([(entity_id, 0.75)]);
    let components = HashMap::from([(entity_id, vec![SOME_DATA, SOME_OTHER_DATA, AI])]);
    let world = world_of(&components);
    let mut states = vec![(entity_id, AIMeta::new(AI))];

    calculate_simple_input(&mut states, &definitions, UTILITY_INPUT_LOW, &|e: u64| {
        some_data.get(&e).map(|v| fx(*v))
    });
    calculate_simple_input(&mut states, &definitions, UTILITY_INPUT_HIGH, &|e: u64| {
        some_other_data.get(&e).map(|v| fx(*v))
    });
    make_decisions(&mut states, &definitions, &world);

    let ai_meta = &states[0].1;
    assert_eq!(ai_meta.current_action_score, fx(0.75));
    assert_eq!(ai_meta.current_action, Some(ACTION_TWO));
}

/// Inputs are not computed for entities that do not need them.
#[test]
fn calculate_inputs_calculates_only_for_required_entities() {
    let mut definitions = AIDefinitions::new();
    DefineUtilityAI::new(AI1, "AI1")
        .add_decision(Decision::simple(ACTION_ONE, "ActionOne").add_consideration(
            Consideration::simple(UTILITY_INPUT_1, "utility_input_1").with_name("utility_input_1"),
        ))
        .register(&mut definitions)
        .unwrap();
    DefineUtilityAI::new(AI2, "AI2")
        .add_decision(Decision::simple(ACTION_TWO, "ActionTwo").add_consideration(
            Consideration::simple(UTILITY_INPUT_2, "utility_input_2").with_name("utility_input_2"),
        ))
        .register(&mut definitions)
        .unwrap();

    let entity_1 = 1;
    let entity_2 = 2;
    let some_data: HashMap<u64, f32> = HashMap::from([(entity_1, 1.0), (entity_2, 2.0)]);
    let mut states = vec![(entity_1, AIMeta::new(AI1)), (entity_2, AIMeta::new(AI2))];

    let input = |e: u64| some_data.get(&e).map(|v| fx(*v));
    calculate_simple_input(&mut states, &definitions, UTILITY_INPUT_1, &input);
    calculate_simple_input(&mut states, &definitions, UTILITY_INPUT_2, &input);

    let ai_meta_1 = &states[0].1;
    let ai_meta_2 = &states[1].1;

    assert!(ai_meta_1.input_scores.contains_key(&UTILITY_INPUT_1));
    assert!(!ai_meta_1.input_scores.contains_key(&UTILITY_INPUT_2));

    assert!(!ai_meta_2.input_scores.contains_key(&UTILITY_INPUT_1));
    assert!(ai_meta_2.input_scores.contains_key(&UTILITY_INPUT_2));
}

/// The engine picks the nearest target in the trivial targeted case.
#[test]
fn targeted_trivial() {
    let mut definitions = AIDefinitions::new();
    DefineUtilityAI::new(AI, "AI")
        .add_decision(Decision::targeted(ACTION_ONE, "ActionOne").add_consideration(
            Consideration::targeted(TARGETED_UTILITY_INPUT, "targeted_utility_input")
                .with_response_curve(Linear::new(fx(-1.0)).shifted(0, fx(1.0)).into())
                .with_name("targeted_utility_input"),
        ))
        .register(&mut definitions)
        .unwrap();

    let entity_id = 1;
    let target_entities = [2u64, 3u64];
    let positions: HashMap<u64, (f32, f32)> = HashMap::from([
        (entity_id, (0.9, 0.9)),
        (target_entities[0], (0., 0.)),
        (target_entities[1], (1., 1.)),
    ]);
    let components = HashMap::from([
        (entity_id, vec![AI, POSITION]),
        (target_entities[0], vec![POSITION]),
        (target_entities[1], vec![POSITION]),
    ]);
    let world = world_of(&components);
    let mut states = vec![(entity_id, AIMeta::new(AI))];

    let targets = with_component(&components, POSITION);
    calculate_targeted_input(
        &mut states,
        &definitions,
        TARGETED_UTILITY_INPUT,
        &targets,
        &world,
        &|s: u64, t: u64| Some(fx(distance(positions[&s], positions[&t]))),
    );
    make_decisions(&mut states, &definitions, &world);

    let ai_meta = &states[0].1;
    // we are targeting the closest target
    assert_eq!(ai_meta.current_action, Some(ACTION_ONE));
    assert_eq!(ai_meta.current_target, Some(target_entities[1]));
}

#[test]
fn simple_considerations_respects_subject_filter() {
    let mut definitions = AIDefinitions::new();
    DefineUtilityAI::new(AI, "AI")
        .add_decision(
            Decision::simple(ACTION_ONE, "ActionOne")
                .add_consideration(
                    Consideration::simple(UTILITY_INPUT_LOW, "utility_input_low")
                        .with_name("utility_input_low"),
                )
                .subject_filter_include(AA),
        )
        .register(&mut definitions)
        .unwrap();

    let entity_id = 1;
    let some_data: HashMap<u64, f32> = HashMap::from([(entity_id, 0.25)]);
    let components = HashMap::from([(entity_id, vec![SOME_DATA, AI, AA])]);
    let world = world_of(&components);
    let mut states = vec![(entity_id, AIMeta::new(AI))];

    calculate_simple_input(&mut states, &definitions, UTILITY_INPUT_LOW, &|e: u64| {
        some_data.get(&e).map(|v| fx(*v))
    });
    make_decisions(&mut states, &definitions, &world);

    let ai_meta = &states[0].1;
    assert_eq!(ai_meta.current_action_score, fx(0.25));
    assert_eq!(ai_meta.current_action, Some(ACTION_ONE));
}

#[test]
fn simple_considerations_respects_subject_filter_two() {
    let mut definitions = AIDefinitions::new();
    DefineUtilityAI::new(AI, "AI")
        .add_decision(
            Decision::simple(ACTION_ONE, "ActionOne")
                .add_consideration(
                    Consideration::simple(UTILITY_INPUT_LOW, "utility_input_low")
                        .with_name("utility_input_low"),
                )
                .subject_filter_include(AA),
        )
        .register(&mut definitions)
        .unwrap();

    let entity_id = 1;
    let some_data: HashMap<u64, f32> = HashMap::from([(entity_id, 0.25)]);
    let components = HashMap::from([(entity_id, vec![SOME_DATA, AI])]);
    let world = world_of(&components);
    let mut states = vec![(entity_id, AIMeta::new(AI))];

    calculate_simple_input(&mut states, &definitions, UTILITY_INPUT_LOW, &|e: u64| {
        some_data.get(&e).map(|v| fx(*v))
    });
    make_decisions(&mut states, &definitions, &world);

    let ai_meta = &states[0].1;
    assert_eq!(ai_meta.current_action_score, fx(-1.0));
    assert_eq!(ai_meta.current_action, None);
}

/// Targeted inputs are not computed for entities that do not need them.
#[test]
fn calculate_targeted_inputs_calculates_only_for_required_entities() {
    let mut definitions = AIDefinitions::new();
    DefineUtilityAI::new(AI1, "AI1")
        .add_decision(Decision::targeted(ACTION_ONE, "ActionOne").add_consideration(
            Consideration::targeted(TARGETED_UTILITY_INPUT_1, "targeted_utility_input_1")
                .with_name("targeted_utility_input_1"),
        ))
        .register(&mut definitions)
        .unwrap();
    DefineUtilityAI::new(AI2, "AI2")
        .add_decision(Decision::targeted(ACTION_ONE, "ActionOne").add_consideration(
            Consideration::targeted(TARGETED_UTILITY_INPUT_2, "targeted_utility_input_2")
                .with_name("targeted_utility_input_2"),
        ))
        .register(&mut definitions)
        .unwrap();

    let entity_1 = 1;
    let entity_2 = 2;
    let positions: HashMap<u64, (f32, f32)> =
        HashMap::from([(entity_1, (1.0, 1.0)), (entity_2, (0.0, 0.0))]);
    let components =
        HashMap::from([(entity_1, vec![POSITION, AI1]), (entity_2, vec![POSITION, AI2])]);
    let world = world_of(&components);
    let mut states = vec![(entity_1, AIMeta::new(AI1)), (entity_2, AIMeta::new(AI2))];

    let targets = with_component(&components, POSITION);
    let input = |s: u64, t: u64| Some(fx(distance(positions[&s], positions[&t])));
    calculate_targeted_input(&mut states, &definitions, TARGETED_UTILITY_INPUT_1, &targets, &world, &input);
    calculate_targeted_input(&mut states, &definitions, TARGETED_UTILITY_INPUT_2, &targets, &world, &input);

    let ai_meta_1 = &states[0].1;
    let ai_meta_2 = &states[1].1;

    assert!(ai_meta_1.targeted_input_scores.contains_key(&TARGETED_UTILITY_INPUT_1));
    assert!(!ai_meta_1.targeted_input_scores.contains_key(&TARGETED_UTILITY_INPUT_2));

    assert!(!ai_meta_2.targeted_input_scores.contains_key(&TARGETED_UTILITY_INPUT_1));
    assert!(ai_meta_2.targeted_input_scores.contains_key(&TARGETED_UTILITY_INPUT_2));
}

/// Target filters in the trivial case.
#[test]
fn calculate_targeted_inputs_respects_filters_trivial() {
    let mut definitions = AIDefinitions::new();
    DefineUtilityAI::new(AI1, "AI1")
        .add_decision(
            Decision::targeted(ACTION_ONE, "ActionOne")
                .add_consideration(
                    Consideration::targeted(TARGETED_UTILITY_INPUT_1, "targeted_utility_input_1")
                        .with_name("targeted_utility_input_1"),
                )
                .target_filter_include(AA),
        )
        .register(&mut definitions)
        .unwrap();

    let entity_subject = 1;
    let entity_target = 2;
    let entity_ignore = 3;
    let positions: HashMap<u64, (f32, f32)> = HashMap::from([
        (entity_subject, (1.0, 1.0)),
        (entity_target, (0.0, 0.0)),
        (entity_ignore, (-1.0, -1.0)),
    ]);
    let components = HashMap::from([
        (entity_subject, vec![POSITION, AI1]),
        (entity_target, vec![POSITION, AA]),
        (entity_ignore, vec![POSITION]),
    ]);
    let world = world_of(&components);
    let mut states = vec![(entity_subject, AIMeta::new(AI1))];

    let targets = with_component(&components, POSITION);
    calculate_targeted_input(
        &mut states,
        &definitions,
        TARGETED_UTILITY_INPUT_1,
        &targets,
        &world,
        &|s: u64, t: u64| Some(fx(distance(positions[&s], positions[&t]))),
    );

    // the only score calculated is for entity_target
    let scores = states[0].1.targeted_input_scores.get(&TARGETED_UTILITY_INPUT_1).unwrap();
    assert!(scores.contains_key(&entity_target));
    assert_eq!(scores.len(), 1);
}

/// Target filters in the complex case: the merged requirement of two
/// decisions.
#[test]
fn calculate_targeted_inputs_respects_filters_complex() {
    let mut definitions = AIDefinitions::new();
    DefineUtilityAI::new(AI1, "AI1")
        .add_decision(
            Decision::targeted(ACTION_ONE, "ActionOne")
                .add_consideration(
                    Consideration::targeted(TARGETED_UTILITY_INPUT_1, "targeted_utility_input_1")
                        .with_name("targeted_utility_input_1"),
                )
                .target_filter_include(AA)
                .target_filter_include(BB),
        )
        .add_decision(
            Decision::targeted(ACTION_TWO, "ActionTwo")
                .add_consideration(
                    Consideration::targeted(TARGETED_UTILITY_INPUT_1, "targeted_utility_input_1")
                        .with_name("targeted_utility_input_1"),
                )
                .target_filter_include(AA),
        )
        .register(&mut definitions)
        .unwrap();

    let entity_subject = 1;
    let entity_target = 2;
    let entity_target_2 = 3;
    let entity_ignore = 4;
    let positions: HashMap<u64, (f32, f32)> = HashMap::from([
        (entity_subject, (1.0, 1.0)),
        (entity_target, (0.0, 0.0)),
        (entity_target_2, (-1.0, -1.0)),
        (entity_ignore, (-1.0, -1.0)),
    ]);
    let components = HashMap::from([
        (entity_subject, vec![POSITION, AI1]),
        (entity_target, vec![POSITION, AA, BB]),
        (entity_target_2, vec![POSITION, AA]),
        (entity_ignore, vec![POSITION, CC]),
    ]);
    let world = world_of(&components);
    let mut states = vec![(entity_subject, AIMeta::new(AI1))];

    let targets = with_component(&components, POSITION);
    calculate_targeted_input(
        &mut states,
        &definitions,
        TARGETED_UTILITY_INPUT_1,
        &targets,
        &world,
        &|s: u64, t: u64| Some(fx(distance(positions[&s], positions[&t]))),
    );

    let scores = states[0].1.targeted_input_scores.get(&TARGETED_UTILITY_INPUT_1).unwrap();
    assert_eq!(scores.len(), 2);
    assert!(scores.contains_key(&entity_target));
    assert!(scores.contains_key(&entity_target_2));
}

/// Target filters when two decisions share an input.
#[test]
fn calculate_targeted_inputs_respects_filters_overlap() {
    let mut definitions = AIDefinitions::new();
    DefineUtilityAI::new(AI1, "AI1")
        .add_decision(
            Decision::targeted(ACTION_ONE, "ActionOne")
                .add_consideration(
                    // will always be scored at 0.0
                    Consideration::targeted(TARGETED_UTILITY_INPUT_1, "targeted_utility_input_1")
                        .with_response_curve(Linear::new(fx(0.0)).shifted(0, 0).into())
                        .with_name("targeted_utility_input_1"),
                )
                .target_filter_include(AA),
        )
        .add_decision(
            Decision::targeted(ACTION_TWO, "ActionTwo")
                .add_consideration(
                    Consideration::targeted(TARGETED_UTILITY_INPUT_1, "targeted_utility_input_1")
                        .with_response_curve(Linear::new(fx(0.1)).into())
                        .with_name("targeted_utility_input_1"),
                )
                .target_filter_include(BB),
        )
        .register(&mut definitions)
        .unwrap();

    let entity_subject = 1;
    let wrong_target = 2;
    let correct_target = 3;
    let positions: HashMap<u64, (f32, f32)> = HashMap::from([
        (entity_subject, (1.0, 1.0)),
        (wrong_target, (-1.0, -1.0)),
        (correct_target, (0.5, 0.5)),
    ]);
    let components = HashMap::from([
        (entity_subject, vec![POSITION, AI1]),
        (wrong_target, vec![POSITION, AA]),
        (correct_target, vec![POSITION, BB]),
    ]);
    let world = world_of(&components);
    let mut states = vec![(entity_subject, AIMeta::new(AI1))];

    let targets = with_component(&components, POSITION);
    calculate_targeted_input(
        &mut states,
        &definitions,
        TARGETED_UTILITY_INPUT_1,
        &targets,
        &world,
        &|s: u64, t: u64| Some(fx(distance(positions[&s], positions[&t]))),
    );
    make_decisions(&mut states, &definitions, &world);

    let ai_meta = &states[0].1;
    assert_eq!(ai_meta.current_action, Some(ACTION_TWO));
    assert_eq!(ai_meta.current_target, Some(correct_target));
}

/// Inputs may read extra context besides the subject's and target's data.
#[test]
fn test_systems_with_extra_args() {
    let elapsed: f32 = 0.5;
    let positions: HashMap<u64, (f32, f32)> = HashMap::from([(1, (1.0, 2.0)), (2, (3.0, 4.0))]);
    let components = HashMap::from([(1, vec![POSITION, AI1]), (2, vec![POSITION])]);
    let world = world_of(&components);

    let decision = Decision::targeted(ACTION_ONE, "ActionOne")
        .add_consideration(
            Consideration::targeted(TARGETED_UTILITY_INPUT_1, "targeted_utility_input_1")
                .with_name("targeted_utility_input_1"),
        )
        .add_consideration(
            Consideration::targeted(TARGETED_UTILITY_INPUT_2, "targeted_utility_input_2")
                .with_name("targeted_utility_input_2"),
        )
        .add_consideration(
            Consideration::simple(UTILITY_INPUT_1, "utility_input_1").with_name("utility_input_1"),
        );
    let _ = DefineUtilityAI::new(AI1, "AI1").add_decision(decision);

    let definitions = AIDefinitions::new();
    let mut states: Vec<(u64, AIMeta)> = Vec::new();
    let targets = with_component(&components, POSITION);
    calculate_targeted_input(&mut states, &definitions, TARGETED_UTILITY_INPUT_1, &targets, &world, &|s: u64, t: u64| {
        Some(fx(distance(positions[&s], positions[&t]) * elapsed))
    });
    calculate_targeted_input(&mut states, &definitions, TARGETED_UTILITY_INPUT_2, &targets, &world, &|_s: u64, t: u64| {
        Some(fx(positions[&t].1 * elapsed))
    });
    calculate_simple_input(&mut states, &definitions, UTILITY_INPUT_1, &|e: u64| {
        positions.get(&e).map(|p| fx(p.0 * elapsed))
    });
    make_decisions(&mut states, &definitions, &world);
}

/// Inputs may read the entity ids themselves.
#[test]
fn test_systems_with_entity_args() {
    let positions: HashMap<u64, (f32, f32)> = HashMap::from([(1, (1.0, 2.0)), (2, (3.0, 4.0))]);
    let components = HashMap::from([(1, vec![POSITION, AI1]), (2, vec![POSITION])]);
    let world = world_of(&components);

    let decision = Decision::targeted(ACTION_ONE, "ActionOne")
        .add_consideration(
            Consideration::targeted(TARGETED_UTILITY_INPUT_1, "targeted_utility_input_1")
                .with_name("targeted_utility_input_1"),
        )
        .add_consideration(
            Consideration::simple(UTILITY_INPUT_1, "utility_input_1").with_name("utility_input_1"),
        );
    let _ = DefineUtilityAI::new(AI1, "AI1").add_decision(decision);

    let definitions = AIDefinitions::new();
    let mut states: Vec<(u64, AIMeta)> = Vec::new();
    let targets = with_component(&components, POSITION);
    calculate_targeted_input(&mut states, &definitions, TARGETED_UTILITY_INPUT_1, &targets, &world, &|s: u64, t: u64| {
        Some(fx(s as f32 - t as f32))
    });
    calculate_simple_input(&mut states, &definitions, UTILITY_INPUT_1, &|e: u64| {
        positions.get(&e).map(|p| fx(p.0 - e as f32))
    });
    make_decisions(&mut states, &definitions, &world);
}
