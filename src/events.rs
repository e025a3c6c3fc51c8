use crate::ai_meta::{AIMeta, ScoreMap};
use crate::considerations::{Consideration, ConsiderationType};
use crate::decisions::{admits_all, Decision};
use crate::definitions::AIDefinition;
use crate::make_decisions::consideration_score;
use crate::world::World;
use crate::identity::{EntityId, InputId};
use crate::make_decisions::Candidate;
use vstd::prelude::*;

verus! {

/// An input computed for an entity (and a target, for a targeted input).
#[derive(Debug, Clone)]
pub struct InputCalculatedEvent {
    /// The entity this calculation is for.
    pub entity: EntityId,
    /// The name of the input.
    pub input: String,
    /// The target, for a targeted input.
    pub target: Option<EntityId>,
    /// The raw value.
    pub score: i64,
}

/// A consideration scored for an entity (and a target).
#[derive(Debug, Clone, Copy)]
pub struct ConsiderationCalculatedEvent {
    pub entity: EntityId,
    pub consideration: uuid::Uuid,
    /// The decision the consideration belongs to.
    pub decision: uuid::Uuid,
    pub target: Option<EntityId>,
    pub score: i64,
}

/// A decision scored for an entity (and a target).
#[derive(Debug, Clone, Copy)]
pub struct DecisionCalculatedEvent {
    pub entity: EntityId,
    pub decision: uuid::Uuid,
    pub target: Option<EntityId>,
    pub score: i64,
}

/// One event per candidate of `entity`, naming the candidate's decision by
/// its identity.
pub fn decision_events(
    definition: &AIDefinition,
    entity: EntityId,
    candidates: &Vec<Candidate>,
) -> (r: Vec<DecisionCalculatedEvent>)
    requires
        forall|k: int|
            0 <= k < candidates@.len() ==> (#[trigger] candidates@[k]).decision
                < definition.decisions@.len(),
    ensures
        r@.len() == candidates@.len(),
        forall|k: int|
            0 <= k < r@.len() ==> {
                let e = #[trigger] r@[k];
                let c = candidates@[k];
                &&& e.entity == entity
                &&& e.decision == definition.decisions@[c.decision as int].id
                &&& e.target == c.target
                &&& e.score == c.score
            },
{
    let mut r: Vec<DecisionCalculatedEvent> = Vec::new();
    let mut k: usize = 0;
    while k < candidates.len()
        invariant
            k <= candidates@.len(),
            r@.len() == k,
            forall|j: int|
                0 <= j < candidates@.len() ==> (#[trigger] candidates@[j]).decision
                    < definition.decisions@.len(),
            forall|j: int|
                0 <= j < k ==> {
                    let e = #[trigger] r@[j];
                    let c = candidates@[j];
                    &&& e.entity == entity
                    &&& e.decision == definition.decisions@[c.decision as int].id
                    &&& e.target == c.target
                    &&& e.score == c.score
                },
        decreases candidates@.len() - k,
    {
        let c = candidates[k];
        let id = definition.decisions[c.decision].id;
        r.push(DecisionCalculatedEvent { entity, decision: id, target: c.target, score: c.score });
        k = k + 1;
    }
    r
}

/// The event for consideration `c` of decision `d`.
pub open spec fn consideration_event(
    entity: EntityId,
    d: Decision,
    c: Consideration,
    target: Option<EntityId>,
    raw: i64,
) -> ConsiderationCalculatedEvent {
    ConsiderationCalculatedEvent {
        entity,
        consideration: c.id,
        decision: d.id,
        target,
        score: consideration_score(c, raw),
    }
}

/// Events of the simple considerations among `cs` whose input is cached.
pub open spec fn simple_consideration_events(
    entity: EntityId,
    d: Decision,
    cs: Seq<Consideration>,
    inputs: Map<InputId, i64>,
) -> Seq<ConsiderationCalculatedEvent>
    decreases cs.len(),
{
    if cs.len() == 0 {
        Seq::empty()
    } else {
        let c = cs.last();
        simple_consideration_events(entity, d, cs.drop_last(), inputs) + if c.consideration_type
            == ConsiderationType::Simple && inputs.contains_key(c.input) {
            seq![consideration_event(entity, d, c, None, inputs[c.input])]
        } else {
            Seq::empty()
        }
    }
}

/// Events of consideration `c` on the cached targets `entries` that exist and
/// pass the decision's target filters.
pub open spec fn entry_events(
    entity: EntityId,
    d: Decision,
    c: Consideration,
    entries: Seq<(EntityId, i64)>,
    world: World,
) -> Seq<ConsiderationCalculatedEvent>
    decreases entries.len(),
{
    if entries.len() == 0 {
        Seq::empty()
    } else {
        let (t, raw) = entries.last();
        entry_events(entity, d, c, entries.drop_last(), world) + if world.has(t) && admits_all(
            d.target_filters@,
            world.components(t),
        ) {
            seq![consideration_event(entity, d, c, Some(t), raw)]
        } else {
            Seq::empty()
        }
    }
}

/// Events of the targeted considerations among `cs`.
pub open spec fn targeted_consideration_events(
    entity: EntityId,
    d: Decision,
    cs: Seq<Consideration>,
    targeted: Map<InputId, ScoreMap>,
    world: World,
) -> Seq<ConsiderationCalculatedEvent>
    decreases cs.len(),
{
    if cs.len() == 0 {
        Seq::empty()
    } else {
        let c = cs.last();
        targeted_consideration_events(entity, d, cs.drop_last(), targeted, world) + if c.consideration_type
            == ConsiderationType::Targeted && targeted.contains_key(c.input) {
            entry_events(entity, d, c, targeted[c.input]@, world)
        } else {
            Seq::empty()
        }
    }
}

/// The consideration events of decision `d`, in the order in which the
/// decision is scored: none when the entity fails a subject filter; the
/// simple considerations first, then, for a targeted decision, the targeted
/// ones target by target.
pub open spec fn decision_consideration_events(
    d: Decision,
    world: World,
    meta: AIMeta,
    entity: EntityId,
) -> Seq<ConsiderationCalculatedEvent> {
    if !admits_all(d.subject_filters@, world.components(entity)) {
        Seq::empty()
    } else {
        simple_consideration_events(entity, d, d.considerations@, meta.input_scores@) + if d.is_targeted {
            targeted_consideration_events(
                entity,
                d,
                d.considerations@,
                meta.targeted_input_scores@,
                world,
            )
        } else {
            Seq::empty()
        }
    }
}

/// The consideration events of the first `n` decisions of `ds`.
pub open spec fn consideration_events_upto(
    ds: Seq<Decision>,
    n: int,
    world: World,
    meta: AIMeta,
    entity: EntityId,
) -> Seq<ConsiderationCalculatedEvent>
    decreases n,
{
    if n <= 0 {
        Seq::empty()
    } else {
        consideration_events_upto(ds, n - 1, world, meta, entity) + decision_consideration_events(
            ds[n - 1],
            world,
            meta,
            entity,
        )
    }
}

fn push_simple_events(
    entity: EntityId,
    d: &Decision,
    meta: &AIMeta,
    out: &mut Vec<ConsiderationCalculatedEvent>,
)
    requires
        d.wf(),
    ensures
        final(out)@ == old(out)@ + simple_consideration_events(
            entity,
            *d,
            d.considerations@,
            meta.input_scores@,
        ),
{
    let ghost cs = d.considerations@;
    let mut j: usize = 0;
    while j < d.considerations.len()
        invariant
            d.wf(),
            cs == d.considerations@,
            j <= cs.len(),
            out@ == old(out)@ + simple_consideration_events(
                entity,
                *d,
                cs.subrange(0, j as int),
                meta.input_scores@,
            ),
        decreases cs.len() - j,
    {
        let c = &d.considerations[j];
        assert(c.wf());
        assert(cs.subrange(0, j + 1).drop_last() =~= cs.subrange(0, j as int));
        let ghost before = out@;
        if c.consideration_type == ConsiderationType::Simple {
            match meta.input_scores.get(&c.input) {
                Some(raw) => {
                    let v = c.calculate_score(*raw);
                    out.push(
                        ConsiderationCalculatedEvent {
                            entity,
                            consideration: c.id,
                            decision: d.id,
                            target: None,
                            score: v,
                        },
                    );
                },
                None => {},
            }
        }
        assert(out@ =~= old(out)@ + simple_consideration_events(
            entity,
            *d,
            cs.subrange(0, j + 1),
            meta.input_scores@,
        ));
        j = j + 1;
    }
    assert(cs.subrange(0, cs.len() as int) =~= cs);
}

fn push_targeted_events(
    entity: EntityId,
    d: &Decision,
    meta: &AIMeta,
    world: &World,
    out: &mut Vec<ConsiderationCalculatedEvent>,
)
    requires
        d.wf(),
    ensures
        final(out)@ == old(out)@ + targeted_consideration_events(
            entity,
            *d,
            d.considerations@,
            meta.targeted_input_scores@,
            *world,
        ),
{
    let ghost cs = d.considerations@;
    let mut j: usize = 0;
    while j < d.considerations.len()
        invariant
            d.wf(),
            cs == d.considerations@,
            j <= cs.len(),
            out@ == old(out)@ + targeted_consideration_events(
                entity,
                *d,
                cs.subrange(0, j as int),
                meta.targeted_input_scores@,
                *world,
            ),
        decreases cs.len() - j,
    {
        let c = &d.considerations[j];
        assert(c.wf());
        assert(cs.subrange(0, j + 1).drop_last() =~= cs.subrange(0, j as int));
        let ghost mid = out@;
        if c.consideration_type == ConsiderationType::Targeted {
            match meta.targeted_input_scores.get(&c.input) {
                Some(sm) => {
                    let mut k: usize = 0;
                    while k < sm.len()
                        invariant
                            c.wf(),
                            k <= sm@.len(),
                            out@ == mid + entry_events(
                                entity,
                                *d,
                                *c,
                                sm@.subrange(0, k as int),
                                *world,
                            ),
                        decreases sm@.len() - k,
                    {
                        let (t, raw) = sm.entry(k);
                        assert(sm@.subrange(0, k + 1).drop_last() =~= sm@.subrange(0, k as int));
                        if world.contains_entity(t) && world.matches_filters(t, &d.target_filters) {
                            let v = c.calculate_score(raw);
                            out.push(
                                ConsiderationCalculatedEvent {
                                    entity,
                                    consideration: c.id,
                                    decision: d.id,
                                    target: Some(t),
                                    score: v,
                                },
                            );
                        }
                        assert(out@ =~= mid + entry_events(
                            entity,
                            *d,
                            *c,
                            sm@.subrange(0, k + 1),
                            *world,
                        ));
                        k = k + 1;
                    }
                    assert(sm@.subrange(0, sm@.len() as int) =~= sm@);
                },
                None => {},
            }
        }
        assert(out@ =~= old(out)@ + targeted_consideration_events(
            entity,
            *d,
            cs.subrange(0, j + 1),
            meta.targeted_input_scores@,
            *world,
        ));
        j = j + 1;
    }
    assert(cs.subrange(0, cs.len() as int) =~= cs);
}

/// The consideration events of one scoring pass for `entity`: for each
/// decision in order whose subject filters the entity passes, the score of
/// each simple consideration whose input is cached, then, for a targeted
/// decision, the score of each targeted consideration on each cached target
/// that exists and passes the decision's target filters.
pub fn consideration_events(
    definition: &AIDefinition,
    meta: &AIMeta,
    world: &World,
    entity: EntityId,
) -> (r: Vec<ConsiderationCalculatedEvent>)
    requires
        definition.wf(),
        world.has(entity),
    ensures
        r@ == consideration_events_upto(
            definition.decisions@,
            definition.decisions@.len() as int,
            *world,
            *meta,
            entity,
        ),
{
    let mut out: Vec<ConsiderationCalculatedEvent> = Vec::new();
    let mut i: usize = 0;
    while i < definition.decisions.len()
        invariant
            definition.wf(),
            world.has(entity),
            i <= definition.decisions@.len(),
            out@ == consideration_events_upto(definition.decisions@, i as int, *world, *meta, entity),
        decreases definition.decisions@.len() - i,
    {
        let d = &definition.decisions[i];
        assert(d.wf());
        let ghost before = out@;
        if world.matches_filters(entity, &d.subject_filters) {
            push_simple_events(entity, d, meta, &mut out);
            if d.is_targeted {
                push_targeted_events(entity, d, meta, world, &mut out);
            }
        }
        assert(out@ =~= consideration_events_upto(definition.decisions@, i + 1, *world, *meta, entity));
        i = i + 1;
    }
    out
}

} // verus!
