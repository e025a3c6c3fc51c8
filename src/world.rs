use crate::decisions::{admits_all, Filter};
use crate::identity::{ComponentId, EntityId};
use std::collections::{HashMap, HashSet};
use vstd::prelude::*;

verus! {

broadcast use vstd::std_specs::hash::group_hash_axioms;

/// The entities that exist, each with the set of components it carries.
pub struct World {
    pub entities: HashMap<EntityId, HashSet<ComponentId>>,
}

impl World {
    pub open spec fn has(&self, e: EntityId) -> bool {
        self.entities@.contains_key(e)
    }

    /// The components of `e`, for an entity that exists.
    pub open spec fn components(&self, e: EntityId) -> Set<ComponentId> {
        self.entities@[e]@
    }

    pub fn new() -> (r: World)
        ensures
            forall|e: EntityId| !r.has(e),
    {
        World { entities: HashMap::new() }
    }

    /// Adds `entity` with `components`, or replaces its components.
    pub fn spawn(&mut self, entity: EntityId, components: &Vec<ComponentId>)
        ensures
            final(self).has(entity),
            final(self).components(entity) == components@.to_set(),
            forall|e: EntityId| e != entity ==> (final(self).has(e) <==> old(self).has(e)),
            forall|e: EntityId|
                e != entity && old(self).has(e) ==> final(self).components(e) == old(
                    self,
                ).components(e),
    {
        let mut set: HashSet<ComponentId> = HashSet::new();
        let mut i: usize = 0;
        while i < components.len()
            invariant
                i <= components@.len(),
                set@ == components@.subrange(0, i as int).to_set(),
            decreases components.len() - i,
        {
            let ghost before = components@.subrange(0, i as int);
            set.insert(components[i]);
            assert(components@.subrange(0, i + 1) =~= before.push(components@[i as int]));
            proof {
                before.lemma_push_to_set_commute(components@[i as int]);
            }
            i = i + 1;
        }
        assert(components@.subrange(0, components@.len() as int) =~= components@);
        self.entities.insert(entity, set);
    }

    /// Removes `entity`, if it exists.
    pub fn despawn(&mut self, entity: EntityId)
        ensures
            !final(self).has(entity),
            forall|e: EntityId| e != entity ==> (final(self).has(e) <==> old(self).has(e)),
            forall|e: EntityId|
                e != entity && old(self).has(e) ==> final(self).components(e) == old(
                    self,
                ).components(e),
    {
        self.entities.remove(&entity);
    }

    /// The components of every entity, as a map.
    pub open spec fn component_map(&self) -> Map<EntityId, Set<ComponentId>> {
        Map::new(|e: EntityId| self.has(e), |e: EntityId| self.components(e))
    }

    /// Replaces the tag `previous` of `entity`, if any, by `next`; nothing happens
    /// to an entity that does not exist.
    pub fn swap_component(&mut self, entity: EntityId, previous: Option<ComponentId>, next: ComponentId)
        ensures
            final(self).component_map() == swapped(old(self).component_map(), entity, previous, next),
    {
        match self.entities.remove(&entity) {
            Some(mut set) => {
                match previous {
                    Some(c) => {
                        set.remove(&c);
                    },
                    None => {},
                }
                set.insert(next);
                self.entities.insert(entity, set);
            },
            None => {},
        }
        proof {
            assert(final(self).component_map() =~= swapped(
                old(self).component_map(),
                entity,
                previous,
                next,
            ));
        }
    }

    pub fn contains_entity(&self, entity: EntityId) -> (r: bool)
        ensures
            r == self.has(entity),
    {
        self.entities.contains_key(&entity)
    }

    /// Whether `entity` passes every filter of `filters`.
    pub fn matches_filters(&self, entity: EntityId, filters: &Vec<Filter>) -> (r: bool)
        requires
            self.has(entity),
        ensures
            r == admits_all(filters@, self.components(entity)),
    {
        let components = self.entities.get(&entity).unwrap();
        let mut i: usize = 0;
        while i < filters.len()
            invariant
                i <= filters@.len(),
                components@ == self.components(entity),
                forall|j: int| 0 <= j < i ==> #[trigger] filters@[j].admits(components@),
            decreases filters.len() - i,
        {
            if !entity_matches_component_filter(&filters[i], components) {
                return false;
            }
            i = i + 1;
        }
        true
    }
}

/// `m` with the tag `previous` of `entity`, if any, replaced by `next`, when
/// the entity exists.
pub open spec fn swapped(
    m: Map<EntityId, Set<ComponentId>>,
    entity: EntityId,
    previous: Option<ComponentId>,
    next: ComponentId,
) -> Map<EntityId, Set<ComponentId>> {
    if m.contains_key(entity) {
        let without = match previous {
            Some(c) => m[entity].remove(c),
            None => m[entity],
        };
        m.insert(entity, without.insert(next))
    } else {
        m
    }
}

/// Whether a component set passes one filter.
pub fn entity_matches_component_filter(filter: &Filter, components: &HashSet<ComponentId>) -> (r:
    bool)
    ensures
        r == filter.admits(components@),
{
    match filter {
        Filter::Inclusive(c) => components.contains(c),
        Filter::Exclusive(c) => !components.contains(c),
    }
}

} // verus!
