use crate::fixed::SCALE;
use crate::identity::{ActionId, EntityId, InputId, MarkerId};
use crate::world::World;
use std::collections::HashMap;
use vstd::prelude::*;

verus! {

broadcast use vstd::std_specs::hash::group_hash_axioms;

/// The first position of key `k` in `s`, or -1.
pub open spec fn find_key(s: Seq<(u64, i64)>, k: u64) -> int
    decreases s.len(),
{
    if s.len() == 0 {
        -1
    } else {
        let p = find_key(s.drop_last(), k);
        if p >= 0 {
            p
        } else if s.last().0 == k {
            s.len() - 1
        } else {
            -1
        }
    }
}

/// `find_key` is the first position holding `k`, or -1 when none does.
pub proof fn lemma_find_key(s: Seq<(u64, i64)>, k: u64)
    ensures
        -1 <= find_key(s, k) < s.len(),
        find_key(s, k) >= 0 ==> s[find_key(s, k)].0 == k,
        forall|i: int| 0 <= i < s.len() && i < find_key(s, k) ==> #[trigger] s[i].0 != k,
        find_key(s, k) == -1 ==> forall|i: int| 0 <= i < s.len() ==> #[trigger] s[i].0 != k,
    decreases s.len(),
{
    if s.len() > 0 {
        lemma_find_key(s.drop_last(), k);
        assert forall|i: int| 0 <= i < s.len() - 1 implies #[trigger] s[i] == s.drop_last()[i] by {}
    }
}

/// Every key appears at most once.
pub open spec fn keys_unique(s: Seq<(u64, i64)>) -> bool {
    forall|i: int, j: int| 0 <= i < j < s.len() ==> #[trigger] s[i].0 != #[trigger] s[j].0
}

/// Whether key `k` occurs among the first `n` entries of `s`.
pub open spec fn key_before(s: Seq<(u64, i64)>, n: int, k: u64) -> bool {
    exists|j: int| 0 <= j < n && #[trigger] s[j].0 == k
}

/// Whether the target of a cache entry still exists in `world`.
pub open spec fn alive_entry(world: World) -> spec_fn((EntityId, i64)) -> bool {
    |e: (EntityId, i64)| world.has(e.0)
}

/// Scores keyed by target entity, in the order in which the targets were
/// first written.
#[derive(Debug)]
pub struct ScoreMap {
    entries: Vec<(EntityId, i64)>,
}

impl View for ScoreMap {
    type V = Seq<(EntityId, i64)>;

    closed spec fn view(&self) -> Seq<(EntityId, i64)> {
        self.entries@
    }
}

impl ScoreMap {
    pub fn new() -> (r: ScoreMap)
        ensures
            r@ == Seq::<(EntityId, i64)>::empty(),
            keys_unique(r@),
    {
        ScoreMap { entries: Vec::new() }
    }

    pub fn len(&self) -> (r: usize)
        ensures
            r == self@.len(),
    {
        self.entries.len()
    }

    /// The entry at position `i`.
    pub fn entry(&self, i: usize) -> (r: (EntityId, i64))
        requires
            i < self@.len(),
        ensures
            r == self@[i as int],
    {
        self.entries[i]
    }

    fn position(&self, target: EntityId) -> (r: Option<usize>)
        ensures
            -1 <= find_key(self@, target) < self@.len(),
            match r {
                Some(p) => p == find_key(self@, target),
                None => find_key(self@, target) == -1,
            },
    {
        proof {
            lemma_find_key(self.entries@, target);
            assert(self@ == self.entries@);
        }
        let mut i: usize = 0;
        while i < self.entries.len()
            invariant
                i <= self.entries@.len(),
                forall|j: int| 0 <= j < i ==> #[trigger] self.entries@[j].0 != target,
            decreases self.entries.len() - i,
        {
            if self.entries[i].0 == target {
                proof {
                    lemma_find_key(self.entries@, target);
                    assert(self@ == self.entries@);
                }
                return Some(i);
            }
            i = i + 1;
        }
        proof {
            lemma_find_key(self.entries@, target);
            assert(self@ == self.entries@);
        }
        None
    }

    pub fn contains_key(&self, target: &EntityId) -> (r: bool)
        ensures
            r == (find_key(self@, *target) >= 0),
    {
        self.position(*target).is_some()
    }

    pub fn get(&self, target: &EntityId) -> (r: Option<i64>)
        ensures
            match r {
                Some(v) => find_key(self@, *target) >= 0 && v == self@[find_key(
                    self@,
                    *target,
                )].1,
                None => find_key(self@, *target) == -1,
            },
    {
        match self.position(*target) {
            Some(p) => Some(self.entries[p].1),
            None => None,
        }
    }

    /// Sets the score of `target`: in place if it is present, else at the end.
    pub fn insert(&mut self, target: EntityId, score: i64)
        ensures
            find_key(old(self)@, target) >= 0 ==> final(self)@ == old(self)@.update(
                find_key(old(self)@, target),
                (target, score),
            ),
            find_key(old(self)@, target) == -1 ==> final(self)@ == old(self)@.push(
                (target, score),
            ),
            keys_unique(old(self)@) ==> keys_unique(final(self)@),
    {
        proof {
            lemma_find_key(self.entries@, target);
            assert(self@ == self.entries@);
        }
        match self.position(target) {
            Some(p) => {
                self.entries.set(p, (target, score));
            },
            None => {
                self.entries.push((target, score));
            },
        }
    }

    /// Drops the entries whose target no longer exists in `world`, keeping
    /// the order of the others.
    pub fn retain_alive(&mut self, world: &World)
        ensures
            final(self)@ == old(self)@.filter(alive_entry(*world)),
            keys_unique(old(self)@) ==> keys_unique(final(self)@),
    {
        let ghost pred = alive_entry(*world);
        let mut kept: Vec<(EntityId, i64)> = Vec::new();
        let mut i: usize = 0;
        while i < self.entries.len()
            invariant
                i <= self.entries@.len(),
                kept@ == self.entries@.subrange(0, i as int).filter(pred),
                pred == alive_entry(*world),
                keys_unique(self.entries@) ==> keys_unique(kept@),
                forall|a: int|
                    0 <= a < kept@.len() ==> key_before(self.entries@, i as int, #[trigger] kept@[a].0),
            decreases self.entries.len() - i,
        {
            let e = self.entries[i];
            let ghost prefix = self.entries@.subrange(0, i as int);
            assert(self.entries@.subrange(0, i + 1).drop_last() =~= prefix);
            if world.contains_entity(e.0) {
                assert(pred(e));
                let ghost before = kept@;
                kept.push(e);
                proof {
                    assert forall|a: int|
                        0 <= a < kept@.len() implies key_before(
                        self.entries@,
                        i + 1,
                        #[trigger] kept@[a].0,
                    ) by {
                        if a < before.len() {
                            assert(kept@[a] == before[a]);
                            assert(key_before(self.entries@, i as int, before[a].0));
                        } else {
                            assert(self.entries@[i as int].0 == kept@[a].0);
                        }
                    }
                    if keys_unique(self.entries@) {
                        assert forall|a: int, b: int|
                            0 <= a < b < kept@.len() implies #[trigger] kept@[a].0
                            != #[trigger] kept@[b].0 by {
                            if b == before.len() {
                                assert(kept@[a] == before[a]);
                                assert(key_before(self.entries@, i as int, before[a].0));
                            } else {
                                assert(kept@[a] == before[a]);
                                assert(kept@[b] == before[b]);
                            }
                        }
                    }
                }
            } else {
                assert(!pred(e));
            }
            proof {
                reveal(Seq::filter);
            }
            i = i + 1;
        }
        assert(self.entries@.subrange(0, self.entries@.len() as int) =~= self.entries@);
        self.entries = kept;
    }
}

/// The score of an entity that has not chosen an action yet.
pub const NO_ACTION_SCORE: i64 = -SCALE;

/// The per-entity state of the AI: which definition applies, the inputs
/// computed for the entity, and the action currently chosen.
pub struct AIMeta {
    /// The behaviour marker whose definition applies.
    pub ai_definition: MarkerId,
    /// Raw simple inputs by input.
    pub input_scores: HashMap<InputId, i64>,
    /// Raw targeted inputs by input, then by target.
    pub targeted_input_scores: HashMap<InputId, ScoreMap>,
    pub current_action: Option<ActionId>,
    pub current_action_name: String,
    pub current_target: Option<EntityId>,
    pub current_action_score: i64,
}

impl AIMeta {
    /// Fresh state for an entity that carries `marker`: no inputs, no action,
    /// and the score `NO_ACTION_SCORE`.
    pub fn new(marker: MarkerId) -> (r: AIMeta)
        ensures
            r.ai_definition == marker,
            r.input_scores@ == Map::<InputId, i64>::empty(),
            r.targeted_input_scores@ == Map::<InputId, ScoreMap>::empty(),
            r.current_action is None,
            r.current_action_name@ == Seq::<char>::empty(),
            r.current_target is None,
            r.current_action_score == NO_ACTION_SCORE,
    {
        AIMeta {
            ai_definition: marker,
            input_scores: HashMap::new(),
            targeted_input_scores: HashMap::new(),
            current_action: None,
            current_action_name: String::new(),
            current_target: None,
            current_action_score: NO_ACTION_SCORE,
        }
    }

    /// Caches the raw value of a simple input.
    pub fn set_input_score(&mut self, input: InputId, score: i64)
        ensures
            final(self).input_scores@ == old(self).input_scores@.insert(input, score),
            final(self).targeted_input_scores@ == old(self).targeted_input_scores@,
            final(self).ai_definition == old(self).ai_definition,
            final(self).current_action == old(self).current_action,
            final(self).current_action_name == old(self).current_action_name,
            final(self).current_target == old(self).current_target,
            final(self).current_action_score == old(self).current_action_score,
    {
        self.input_scores.insert(input, score);
    }

    /// Caches the raw value of a targeted input for `target`.
    pub fn set_targeted_input_score(&mut self, input: InputId, target: EntityId, score: i64)
        ensures
            final(self).targeted_input_scores@.contains_key(input),
            final(self).targeted_input_scores@.remove(input) == old(
                self,
            ).targeted_input_scores@.remove(input),
            ({
                let before = if old(self).targeted_input_scores@.contains_key(input) {
                    old(self).targeted_input_scores@[input]@
                } else {
                    Seq::<(EntityId, i64)>::empty()
                };
                let after = final(self).targeted_input_scores@[input]@;
                &&& find_key(before, target) >= 0 ==> after == before.update(
                    find_key(before, target),
                    (target, score),
                )
                &&& find_key(before, target) == -1 ==> after == before.push((target, score))
            }),
            final(self).input_scores@ == old(self).input_scores@,
            final(self).ai_definition == old(self).ai_definition,
            final(self).current_action == old(self).current_action,
            final(self).current_action_name == old(self).current_action_name,
            final(self).current_target == old(self).current_target,
            final(self).current_action_score == old(self).current_action_score,
    {
        let mut scores = match self.targeted_input_scores.remove(&input) {
            Some(m) => m,
            None => ScoreMap::new(),
        };
        scores.insert(target, score);
        self.targeted_input_scores.insert(input, scores);
    }
}

} // verus!
