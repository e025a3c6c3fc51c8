use crate::ai_meta::{find_key, AIMeta, ScoreMap};
use crate::decisions::{admits_all, Filter};
use crate::definitions::{
    admitted_by_set, filter_sets_view, requirement_admits, AIDefinitions, FilterDefinition,
};
use crate::events::InputCalculatedEvent;
use crate::identity::{EntityId, InputId};
use vstd::string::StringExecFns;
use crate::world::World;
use vstd::prelude::*;

verus! {

broadcast use vstd::std_specs::hash::group_hash_axioms;

/// Whether the definition of `meta` reads `input` as a simple input.
pub open spec fn needs_simple_input(defs: AIDefinitions, meta: AIMeta, input: InputId) -> bool {
    defs.map@[meta.ai_definition].simple_inputs@.contains(input)
}

/// Computes a simple input for every entity whose definition reads it, and
/// caches it in that entity's state. `f` gives the input's value for an
/// entity, or `None` when the entity lacks the data the input needs; then
/// nothing is cached. Entities whose definition does not read `input` are
/// left untouched, and `f` is never called for them.
pub fn calculate_simple_input<F: Fn(EntityId) -> Option<i64>>(
    states: &mut Vec<(EntityId, AIMeta)>,
    definitions: &AIDefinitions,
    input: InputId,
    f: &F,
)
    requires
        forall|i: int|
            0 <= i < old(states)@.len() ==> definitions.map@.contains_key(
                (#[trigger] old(states)@[i]).1.ai_definition,
            ),
        forall|i: int|
            0 <= i < old(states)@.len() && needs_simple_input(
                *definitions,
                (#[trigger] old(states)@[i]).1,
                input,
            ) ==> f.requires((old(states)@[i].0,)),
    ensures
        final(states)@.len() == old(states)@.len(),
        forall|i: int|
            0 <= i < old(states)@.len() ==> {
                let (e, before) = #[trigger] old(states)@[i];
                let (e2, after) = final(states)@[i];
                &&& e2 == e
                &&& after.ai_definition == before.ai_definition
                &&& after.targeted_input_scores@ == before.targeted_input_scores@
                &&& after.current_action == before.current_action
                &&& after.current_action_name == before.current_action_name
                &&& after.current_target == before.current_target
                &&& after.current_action_score == before.current_action_score
                &&& if needs_simple_input(*definitions, before, input) {
                    exists|res: Option<i64>|
                        f.ensures((e,), res) && after.input_scores@ == match res {
                            Some(v) => before.input_scores@.insert(input, v),
                            None => before.input_scores@,
                        }
                } else {
                    after.input_scores@ == before.input_scores@
                }
            },
{
    let mut i: usize = 0;
    while i < states.len()
        invariant
            i <= states@.len(),
            states@.len() == old(states)@.len(),
            forall|j: int| i <= j < states@.len() ==> #[trigger] states@[j] == old(states)@[j],
            forall|j: int|
                0 <= j < old(states)@.len() ==> definitions.map@.contains_key(
                    (#[trigger] old(states)@[j]).1.ai_definition,
                ),
            forall|j: int|
                0 <= j < old(states)@.len() && needs_simple_input(
                    *definitions,
                    (#[trigger] old(states)@[j]).1,
                    input,
                ) ==> f.requires((old(states)@[j].0,)),
            forall|j: int|
                0 <= j < i ==> {
                    let (e, before) = #[trigger] old(states)@[j];
                    let (e2, after) = states@[j];
                    &&& e2 == e
                    &&& after.ai_definition == before.ai_definition
                    &&& after.targeted_input_scores@ == before.targeted_input_scores@
                    &&& after.current_action == before.current_action
                    &&& after.current_action_name == before.current_action_name
                    &&& after.current_target == before.current_target
                    &&& after.current_action_score == before.current_action_score
                    &&& if needs_simple_input(*definitions, before, input) {
                        exists|res: Option<i64>|
                            f.ensures((e,), res) && after.input_scores@ == match res {
                                Some(v) => before.input_scores@.insert(input, v),
                                None => before.input_scores@,
                            }
                    } else {
                        after.input_scores@ == before.input_scores@
                    }
                },
        decreases states@.len() - i,
    {
        let entity = states[i].0;
        let marker = states[i].1.ai_definition;
        let definition = definitions.map.get(&marker).unwrap();
        if definition.requires_simple_input(&input) {
            let res = f(entity);
            match res {
                Some(v) => {
                    states[i].1.set_input_score(input, v);
                },
                None => {},
            }
        }
        i = i + 1;
    }
}

/// Whether `world`'s entity `t` meets the requirement of `fd`.
pub fn matches_requirement(world: &World, t: EntityId, fd: &FilterDefinition) -> (r: bool)
    requires
        world.has(t),
    ensures
        r == requirement_admits(fd@, world.components(t)),
{
    match fd {
        FilterDefinition::Any => {
            assert(admitted_by_set(fd@, 0, world.components(t)));
            true
        },
        FilterDefinition::Filtered(sets) => {
            let ghost v = filter_sets_view(sets@);
            assert(fd@ == Some(v));
            let mut i: usize = 0;
            while i < sets.len()
                invariant
                    fd@ == Some(v),
                    world.has(t),
                    i <= sets@.len(),
                    v == filter_sets_view(sets@),
                    forall|j: int| 0 <= j < i ==> !#[trigger] admitted_by_set(Some(v), j, world.components(t)),
                decreases sets@.len() - i,
            {
                assert(v[i as int] == sets@[i as int]@);
                if world.matches_filters(t, &sets[i]) {
                    assert(admits_all(v[i as int], world.components(t)));
                    assert(v.len() == sets@.len());
                    assert(admitted_by_set(Some(v), i as int, world.components(t)));
                    return true;
                }
                i = i + 1;
            }
            false
        },
    }
}

/// The requirement on the targets of `input` in the definition of `meta`.
pub open spec fn target_requirement(defs: AIDefinitions, meta: AIMeta, input: InputId) -> Option<
    Seq<Seq<Filter>>,
> {
    defs.map@[meta.ai_definition].targeted_inputs@[input].target_filter@
}

/// Whether the definition of `meta` reads `input` as a targeted input.
pub open spec fn needs_targeted_input(defs: AIDefinitions, meta: AIMeta, input: InputId) -> bool {
    defs.map@[meta.ai_definition].targeted_inputs@.contains_key(input)
}

/// Whether the input is computed for `subject` and target `t`: a target is
/// another entity that exists and meets the requirement.
pub open spec fn target_qualifies(
    world: World,
    subject: EntityId,
    t: EntityId,
    req: Option<Seq<Seq<Filter>>>,
) -> bool {
    t != subject && world.has(t) && requirement_admits(req, world.components(t))
}

/// Writes `v` for `t`: in place if present, else at the end.
pub open spec fn score_insert(s: Seq<(EntityId, i64)>, t: EntityId, v: i64) -> Seq<(EntityId, i64)> {
    let p = find_key(s, t);
    if p >= 0 {
        s.update(p, (t, v))
    } else {
        s.push((t, v))
    }
}

/// The cache after writing the results for the first `n` targets.
pub open spec fn write_targets(
    s: Seq<(EntityId, i64)>,
    targets: Seq<EntityId>,
    results: Seq<Option<i64>>,
    n: int,
    world: World,
    subject: EntityId,
    req: Option<Seq<Seq<Filter>>>,
) -> Seq<(EntityId, i64)>
    decreases n,
{
    if n <= 0 {
        s
    } else {
        let prev = write_targets(s, targets, results, n - 1, world, subject, req);
        let t = targets[n - 1];
        if target_qualifies(world, subject, t, req) {
            match results[n - 1] {
                Some(v) => score_insert(prev, t, v),
                None => prev,
            }
        } else {
            prev
        }
    }
}

/// `results` are the values that `f` returned for `subject` on the first `n`
/// targets that qualify.
pub open spec fn results_from<F: Fn(EntityId, EntityId) -> Option<i64>>(
    f: F,
    results: Seq<Option<i64>>,
    targets: Seq<EntityId>,
    n: int,
    world: World,
    subject: EntityId,
    req: Option<Seq<Seq<Filter>>>,
) -> bool {
    &&& results.len() == n
    &&& forall|k: int|
        0 <= k < n && target_qualifies(world, subject, targets[k], req) ==> f.ensures(
            (subject, targets[k]),
            #[trigger] results[k],
        )
}

/// The cached values of the targeted input `input`, empty when there are none.
pub open spec fn cached_targets(meta: AIMeta, input: InputId) -> Seq<(EntityId, i64)> {
    if meta.targeted_input_scores@.contains_key(input) {
        meta.targeted_input_scores@[input]@
    } else {
        Seq::<(EntityId, i64)>::empty()
    }
}

/// The targeted cache of `after` for `input` is that of `before` with the
/// values of `f` written for every qualifying target, in the order of
/// `targets`; the caches of other inputs are unchanged.
pub open spec fn targeted_written<F: Fn(EntityId, EntityId) -> Option<i64>>(
    f: F,
    before: AIMeta,
    after: AIMeta,
    subject: EntityId,
    input: InputId,
    targets: Seq<EntityId>,
    world: World,
    req: Option<Seq<Seq<Filter>>>,
) -> bool {
    let start = cached_targets(before, input);
    &&& after.targeted_input_scores@.contains_key(input)
    &&& after.targeted_input_scores@.remove(input) == before.targeted_input_scores@.remove(input)
    &&& exists|results: Seq<Option<i64>>|
        #[trigger] results_from(f, results, targets, targets.len() as int, world, subject, req)
            && after.targeted_input_scores@[input]@ == write_targets(
            start,
            targets,
            results,
            targets.len() as int,
            world,
            subject,
            req,
        )
}

proof fn lemma_write_targets_prefix(
    s: Seq<(EntityId, i64)>,
    targets: Seq<EntityId>,
    r1: Seq<Option<i64>>,
    r2: Seq<Option<i64>>,
    n: int,
    world: World,
    subject: EntityId,
    req: Option<Seq<Seq<Filter>>>,
)
    requires
        forall|k: int| 0 <= k < n ==> r1[k] == r2[k],
    ensures
        write_targets(s, targets, r1, n, world, subject, req) == write_targets(
            s,
            targets,
            r2,
            n,
            world,
            subject,
            req,
        ),
    decreases n,
{
    if n > 0 {
        lemma_write_targets_prefix(s, targets, r1, r2, n - 1, world, subject, req);
    }
}

/// Computes a targeted input for `subject` on every target of `targets` that
/// qualifies, and caches the values.
fn write_targeted_input<F: Fn(EntityId, EntityId) -> Option<i64>>(
    meta: &mut AIMeta,
    subject: EntityId,
    input: InputId,
    targets: &Vec<EntityId>,
    world: &World,
    fd: &FilterDefinition,
    f: &F,
)
    requires
        forall|k: int|
            0 <= k < targets@.len() && target_qualifies(*world, subject, #[trigger] targets@[k], fd@)
                ==> f.requires((subject, targets@[k])),
    ensures
        targeted_written(*f, *old(meta), *final(meta), subject, input, targets@, *world, fd@),
        final(meta).input_scores@ == old(meta).input_scores@,
        final(meta).ai_definition == old(meta).ai_definition,
        final(meta).current_action == old(meta).current_action,
        final(meta).current_action_name == old(meta).current_action_name,
        final(meta).current_target == old(meta).current_target,
        final(meta).current_action_score == old(meta).current_action_score,
{
    let mut sm = match meta.targeted_input_scores.remove(&input) {
        Some(m) => m,
        None => ScoreMap::new(),
    };
    let ghost start = sm@;
    let ghost mut results: Seq<Option<i64>> = Seq::empty();
    let mut k: usize = 0;
    while k < targets.len()
        invariant
            k <= targets@.len(),
            forall|j: int|
                0 <= j < targets@.len() && target_qualifies(
                    *world,
                    subject,
                    #[trigger] targets@[j],
                    fd@,
                ) ==> f.requires((subject, targets@[j])),
            results_from(*f, results, targets@, k as int, *world, subject, fd@),
            sm@ == write_targets(start, targets@, results, k as int, *world, subject, fd@),
            start == cached_targets(*old(meta), input),
            meta.targeted_input_scores@ == old(meta).targeted_input_scores@.remove(input),
            meta.input_scores@ == old(meta).input_scores@,
            meta.ai_definition == old(meta).ai_definition,
            meta.current_action == old(meta).current_action,
            meta.current_action_name == old(meta).current_action_name,
            meta.current_target == old(meta).current_target,
            meta.current_action_score == old(meta).current_action_score,
        decreases targets@.len() - k,
    {
        let t = targets[k];
        let qualifies = t != subject && world.contains_entity(t) && matches_requirement(world, t, fd);
        let r: Option<i64> = if qualifies {
            f(subject, t)
        } else {
            None
        };
        let ghost old_results = results;
        proof {
            results = results.push(r);
            lemma_write_targets_prefix(start, targets@, old_results, results, k as int, *world, subject, fd@);
        }
        match r {
            Some(v) => {
                sm.insert(t, v);
            },
            None => {},
        }
        k = k + 1;
    }
    meta.targeted_input_scores.insert(input, sm);
    proof {
        assert(results_from(*f, results, targets@, targets@.len() as int, *world, subject, fd@));
        assert(meta.targeted_input_scores@.remove(input) =~= old(meta).targeted_input_scores@.remove(
            input,
        ));
    }
}

/// Computes a targeted input for every entity whose definition reads it, on
/// every target of `targets` that qualifies (another existing entity that
/// meets the definition's merged requirement for `input`), and caches the
/// values. `f` gives the value for a subject and a target, or `None` when one
/// of them lacks the data the input needs. Entities whose definition does not
/// read `input` are left untouched, and `f` is never called for them.
pub fn calculate_targeted_input<F: Fn(EntityId, EntityId) -> Option<i64>>(
    states: &mut Vec<(EntityId, AIMeta)>,
    definitions: &AIDefinitions,
    input: InputId,
    targets: &Vec<EntityId>,
    world: &World,
    f: &F,
)
    requires
        forall|i: int|
            0 <= i < old(states)@.len() ==> definitions.map@.contains_key(
                (#[trigger] old(states)@[i]).1.ai_definition,
            ),
        forall|i: int, k: int|
            0 <= i < old(states)@.len() && 0 <= k < targets@.len() && needs_targeted_input(
                *definitions,
                (#[trigger] old(states)@[i]).1,
                input,
            ) && target_qualifies(
                *world,
                old(states)@[i].0,
                #[trigger] targets@[k],
                target_requirement(*definitions, old(states)@[i].1, input),
            ) ==> f.requires((old(states)@[i].0, targets@[k])),
    ensures
        final(states)@.len() == old(states)@.len(),
        forall|i: int|
            0 <= i < old(states)@.len() ==> {
                let (e, before) = #[trigger] old(states)@[i];
                let (e2, after) = final(states)@[i];
                &&& e2 == e
                &&& after.input_scores@ == before.input_scores@
                &&& after.ai_definition == before.ai_definition
                &&& after.current_action == before.current_action
                &&& after.current_action_name == before.current_action_name
                &&& after.current_target == before.current_target
                &&& after.current_action_score == before.current_action_score
                &&& if needs_targeted_input(*definitions, before, input) {
                    targeted_written(
                        *f,
                        before,
                        after,
                        e,
                        input,
                        targets@,
                        *world,
                        target_requirement(*definitions, before, input),
                    )
                } else {
                    after.targeted_input_scores@ == before.targeted_input_scores@
                }
            },
{
    let mut i: usize = 0;
    while i < states.len()
        invariant
            i <= states@.len(),
            states@.len() == old(states)@.len(),
            forall|j: int| i <= j < states@.len() ==> #[trigger] states@[j] == old(states)@[j],
            forall|j: int|
                0 <= j < old(states)@.len() ==> definitions.map@.contains_key(
                    (#[trigger] old(states)@[j]).1.ai_definition,
                ),
            forall|j: int, k: int|
                0 <= j < old(states)@.len() && 0 <= k < targets@.len() && needs_targeted_input(
                    *definitions,
                    (#[trigger] old(states)@[j]).1,
                    input,
                ) && target_qualifies(
                    *world,
                    old(states)@[j].0,
                    #[trigger] targets@[k],
                    target_requirement(*definitions, old(states)@[j].1, input),
                ) ==> f.requires((old(states)@[j].0, targets@[k])),
            forall|j: int|
                0 <= j < i ==> {
                    let (e, before) = #[trigger] old(states)@[j];
                    let (e2, after) = states@[j];
                    &&& e2 == e
                    &&& after.input_scores@ == before.input_scores@
                    &&& after.ai_definition == before.ai_definition
                    &&& after.current_action == before.current_action
                    &&& after.current_action_name == before.current_action_name
                    &&& after.current_target == before.current_target
                    &&& after.current_action_score == before.current_action_score
                    &&& if needs_targeted_input(*definitions, before, input) {
                        targeted_written(
                            *f,
                            before,
                            after,
                            e,
                            input,
                            targets@,
                            *world,
                            target_requirement(*definitions, before, input),
                        )
                    } else {
                        after.targeted_input_scores@ == before.targeted_input_scores@
                    }
                },
        decreases states@.len() - i,
    {
        let entity = states[i].0;
        let marker = states[i].1.ai_definition;
        let definition = definitions.map.get(&marker).unwrap();
        if definition.requires_targeted_input(&input) {
            let requirement = definition.get_targeted_input_requirements(&input);
            write_targeted_input(
                &mut states[i].1,
                entity,
                input,
                targets,
                world,
                &requirement.target_filter,
                f,
            );
        }
        i = i + 1;
    }
}

/// The input events of one entity for `input`: its simple value, if cached,
/// then its cached targeted values in order, as (entity, target, value).
pub open spec fn state_input_events(e: EntityId, meta: AIMeta, input: InputId) -> Seq<
    (EntityId, Option<EntityId>, i64),
> {
    let simple = if meta.input_scores@.contains_key(input) {
        seq![(e, None::<EntityId>, meta.input_scores@[input])]
    } else {
        Seq::empty()
    };
    simple + cached_targets(meta, input).map_values(
        |p: (EntityId, i64)| (e, Some(p.0), p.1),
    )
}

/// The input events of the first `n` states, in order.
pub open spec fn input_events_upto(
    states: Seq<(EntityId, AIMeta)>,
    input: InputId,
    n: int,
) -> Seq<(EntityId, Option<EntityId>, i64)>
    decreases n,
{
    if n <= 0 {
        Seq::empty()
    } else {
        input_events_upto(states, input, n - 1) + state_input_events(
            states[n - 1].0,
            states[n - 1].1,
            input,
        )
    }
}

/// One event per value of `input` cached in `states`, named `input_name`:
/// for each entity in turn, its simple value, then its targeted values in
/// the order of the cache.
pub fn input_events(states: &Vec<(EntityId, AIMeta)>, input: InputId, input_name: &str) -> (r: Vec<
    InputCalculatedEvent,
>)
    ensures
        ({
            let spec = input_events_upto(states@, input, states@.len() as int);
            &&& r@.len() == spec.len()
            &&& forall|k: int|
                0 <= k < r@.len() ==> {
                    let ev = #[trigger] r@[k];
                    &&& ev.input@ == input_name@
                    &&& (ev.entity, ev.target, ev.score) == spec[k]
                }
        }),
{
    let mut r: Vec<InputCalculatedEvent> = Vec::new();
    let mut i: usize = 0;
    while i < states.len()
        invariant
            i <= states@.len(),
            r@.len() == input_events_upto(states@, input, i as int).len(),
            forall|k: int|
                0 <= k < r@.len() ==> {
                    let ev = #[trigger] r@[k];
                    &&& ev.input@ == input_name@
                    &&& (ev.entity, ev.target, ev.score) == input_events_upto(
                        states@,
                        input,
                        i as int,
                    )[k]
                },
        decreases states@.len() - i,
    {
        let e = states[i].0;
        let meta = &states[i].1;
        let ghost before = input_events_upto(states@, input, i as int);
        let ghost mine = state_input_events(e, *meta, input);
        let ghost r0 = r@;
        match meta.input_scores.get(&input) {
            Some(v) => {
                r.push(
                    InputCalculatedEvent {
                        entity: e,
                        input: String::from_str(input_name),
                        target: None,
                        score: *v,
                    },
                );
            },
            None => {},
        }
        let ghost simple_len = (r@.len() - r0.len()) as int;
        match meta.targeted_input_scores.get(&input) {
            Some(sm) => {
                let mut j: usize = 0;
                while j < sm.len()
                    invariant
                        j <= sm@.len(),
                        sm@ == cached_targets(*meta, input),
                        mine == state_input_events(e, *meta, input),
                        r@.len() == r0.len() + simple_len + j,
                        0 <= simple_len <= 1,
                        simple_len + sm@.len() == mine.len(),
                        forall|k: int| 0 <= k < r0.len() ==> #[trigger] r@[k] == r0[k],
                        forall|k: int|
                            r0.len() <= k < r@.len() ==> {
                                let ev = #[trigger] r@[k];
                                &&& ev.input@ == input_name@
                                &&& (ev.entity, ev.target, ev.score) == mine[k - r0.len()]
                            },
                    decreases sm@.len() - j,
                {
                    let (t, v) = sm.entry(j);
                    r.push(
                        InputCalculatedEvent {
                            entity: e,
                            input: String::from_str(input_name),
                            target: Some(t),
                            score: v,
                        },
                    );
                    j = j + 1;
                }
            },
            None => {},
        }
        assert(input_events_upto(states@, input, i + 1) == before + mine);
        i = i + 1;
    }
    r
}

} // verus!
