use crate::ai_meta::{AIMeta, ScoreMap, NO_ACTION_SCORE};
use crate::identity::{ComponentId, EntityId, InputId, MarkerId};
use crate::make_decisions::UpdateEntityActionInternalEvent;
use crate::world::{swapped, World};
use vstd::prelude::*;

verus! {

broadcast use vstd::std_specs::hash::group_hash_axioms;

/// Whether `states` holds a state for `e`.
pub open spec fn has_state(states: Seq<(EntityId, AIMeta)>, e: EntityId) -> bool {
    exists|i: int| 0 <= i < states.len() && #[trigger] states[i].0 == e
}

/// A state as a new entity of `marker` gets it.
pub open spec fn is_fresh(meta: AIMeta, marker: MarkerId) -> bool {
    &&& meta.ai_definition == marker
    &&& meta.input_scores@ == Map::<InputId, i64>::empty()
    &&& meta.targeted_input_scores@ == Map::<InputId, ScoreMap>::empty()
    &&& meta.current_action is None
    &&& meta.current_action_name@ == Seq::<char>::empty()
    &&& meta.current_target is None
    &&& meta.current_action_score == NO_ACTION_SCORE
}

fn find_state(states: &Vec<(EntityId, AIMeta)>, e: EntityId) -> (r: bool)
    ensures
        r == has_state(states@, e),
{
    let mut i: usize = 0;
    while i < states.len()
        invariant
            i <= states@.len(),
            forall|j: int| 0 <= j < i ==> #[trigger] states@[j].0 != e,
        decreases states@.len() - i,
    {
        if states[i].0 == e {
            return true;
        }
        i = i + 1;
    }
    false
}

/// Gives each entity of `added`, which has just received `marker`, a fresh
/// state unless it has one already. Existing states are kept as they are.
pub fn ensure_entity_has_ai_meta(
    states: &mut Vec<(EntityId, AIMeta)>,
    marker: MarkerId,
    added: &Vec<EntityId>,
)
    ensures
        final(states)@.len() >= old(states)@.len(),
        forall|i: int| 0 <= i < old(states)@.len() ==> #[trigger] final(states)@[i] == old(states)@[i],
        forall|k: int| 0 <= k < added@.len() ==> has_state(final(states)@, #[trigger] added@[k]),
        forall|i: int|
            old(states)@.len() <= i < final(states)@.len() ==> {
                &&& is_fresh((#[trigger] final(states)@[i]).1, marker)
                &&& added@.contains(final(states)@[i].0)
                &&& !has_state(old(states)@, final(states)@[i].0)
            },
{
    let ghost start = states@;
    let mut k: usize = 0;
    while k < added.len()
        invariant
            k <= added@.len(),
            states@.len() >= start.len(),
            start == old(states)@,
            forall|i: int| 0 <= i < start.len() ==> #[trigger] states@[i] == start[i],
            forall|j: int| 0 <= j < k ==> has_state(states@, #[trigger] added@[j]),
            forall|i: int|
                start.len() <= i < states@.len() ==> {
                    &&& is_fresh((#[trigger] states@[i]).1, marker)
                    &&& added@.contains(states@[i].0)
                    &&& !has_state(start, states@[i].0)
                },
        decreases added@.len() - k,
    {
        let e = added[k];
        let ghost before = states@;
        if !find_state(states, e) {
            proof {
                if has_state(start, e) {
                    let i = choose|i: int| 0 <= i < start.len() && #[trigger] start[i].0 == e;
                    assert(before[i].0 == e);
                }
            }
            states.push((e, AIMeta::new(marker)));
            proof {
                assert(states@[before.len() as int].0 == e);
                assert forall|j: int| 0 <= j <= k implies has_state(states@, #[trigger] added@[j]) by {
                    if j < k {
                        let i = choose|i: int| 0 <= i < before.len() && #[trigger] before[i].0
                            == added@[j];
                        assert(states@[i].0 == added@[j]);
                    }
                }
            }
        }
        k = k + 1;
    }
}

/// Whether the state entry `s` belongs to none of the entities of `removed`.
pub open spec fn kept_after_removal(removed: Seq<EntityId>) -> spec_fn((EntityId, AIMeta)) -> bool {
    |s: (EntityId, AIMeta)| !removed.contains(s.0)
}

/// Drops the states of the entities of `removed`, which have lost their
/// behaviour marker; the other states keep their order.
pub fn handle_ai_marker_removed(states: &mut Vec<(EntityId, AIMeta)>, removed: &Vec<EntityId>)
    ensures
        final(states)@ == old(states)@.filter(kept_after_removal(removed@)),
{
    let ghost start = states@;
    let ghost pred = kept_after_removal(removed@);
    let mut kept: Vec<(EntityId, AIMeta)> = Vec::new();
    while states.len() > 0
        invariant
            start == old(states)@,
            pred == kept_after_removal(removed@),
            states@.len() <= start.len(),
            states@ == start.subrange(start.len() - states@.len(), start.len() as int),
            kept@ == start.subrange(0, start.len() - states@.len()).filter(pred),
        decreases states@.len(),
    {
        let ghost done = start.len() - states@.len();
        let item = states.remove(0);
        assert(item == start[done]);
        assert(start.subrange(0, done + 1).drop_last() =~= start.subrange(0, done));
        assert(states@ =~= start.subrange(done + 1, start.len() as int));
        let mut found = false;
        let mut j: usize = 0;
        while j < removed.len()
            invariant
                j <= removed@.len(),
                found == exists|jj: int| 0 <= jj < j && #[trigger] removed@[jj] == item.0,
            decreases removed@.len() - j,
        {
            if removed[j] == item.0 {
                found = true;
            }
            j = j + 1;
        }
        proof {
            reveal(Seq::filter);
            if found {
                let jj = choose|jj: int| 0 <= jj < removed@.len() && #[trigger] removed@[jj] == item.0;
                assert(removed@.contains(item.0));
            } else {
                assert(!removed@.contains(item.0));
            }
        }
        if !found {
            kept.push(item);
        }
    }
    assert(start.subrange(0, start.len() as int) =~= start);
    *states = kept;
}

/// The components of every entity after the first `n` transitions of
/// `events`: each replaces the entity's old action tag by the new one.
pub open spec fn actions_applied(
    m: Map<EntityId, Set<ComponentId>>,
    events: Seq<UpdateEntityActionInternalEvent>,
    n: int,
) -> Map<EntityId, Set<ComponentId>>
    decreases n,
{
    if n <= 0 {
        m
    } else {
        let e = events[n - 1];
        swapped(actions_applied(m, events, n - 1), e.entity_id, e.old_action, e.new_action)
    }
}

/// Applies the transitions, in order, to the entities' action tags.
pub fn update_actions_sys(world: &mut World, events: &Vec<UpdateEntityActionInternalEvent>)
    ensures
        final(world).component_map() == actions_applied(
            old(world).component_map(),
            events@,
            events@.len() as int,
        ),
{
    let mut i: usize = 0;
    while i < events.len()
        invariant
            i <= events@.len(),
            world.component_map() == actions_applied(old(world).component_map(), events@, i as int),
        decreases events@.len() - i,
    {
        let e = events[i];
        world.swap_component(e.entity_id, e.old_action, e.new_action);
        i = i + 1;
    }
}

/// The phases of a tick, in the order in which they run.
#[derive(Debug, Clone, Copy, PartialEq, Eq, Hash, Structural)]
pub enum UtilityAISet {
    /// States are created for entities that received a behaviour marker.
    Prepare,
    /// Input functions fill the entities' caches.
    CalculateInputs,
    /// The engine scores and chooses.
    MakeDecisions,
    /// Transitions are applied to the entities' action tags.
    UpdateActions,
    /// States of entities that lost their marker are dropped.
    Tidyup,
}

} // verus!
