use crate::ai_meta::{alive_entry, find_key, keys_unique, lemma_find_key, AIMeta, ScoreMap};
use crate::considerations::{Consideration, ConsiderationType};
use crate::decisions::{admits_all, Decision, Filter};
use crate::definitions::{reads_input, AIDefinition, AIDefinitions};
use crate::fixed::{clamp_i64, fixed_mul, mul_spec, saturate};
use crate::identity::{ActionId, EntityId, InputId};
use crate::world::World;
use vstd::prelude::*;

verus! {

broadcast use vstd::std_specs::hash::group_hash_axioms;

/// The fixed-point product of two scores.
pub open spec fn fmul(a: i64, b: i64) -> i64 {
    mul_spec(a as int, b as int) as i64
}

/// The score of consideration `c` for the raw input `raw`.
pub open spec fn consideration_score(c: Consideration, raw: i64) -> i64 {
    c.score_spec(raw as int) as i64
}

/// The running score of a decision after its simple considerations `cs`,
/// from `base`: each one whose input is cached multiplies the score; one
/// whose input is missing is skipped.
pub open spec fn simple_score(cs: Seq<Consideration>, inputs: Map<InputId, i64>, base: i64) -> i64
    decreases cs.len(),
{
    if cs.len() == 0 {
        base
    } else {
        let prev = simple_score(cs.drop_last(), inputs, base);
        let c = cs.last();
        if c.consideration_type == ConsiderationType::Simple && inputs.contains_key(c.input) {
            fmul(prev, consideration_score(c, inputs[c.input]))
        } else {
            prev
        }
    }
}

/// Multiplies the accumulated score of target `t` by `v`; a target seen for
/// the first time starts from `seed`.
pub open spec fn acc_update(acc: Seq<(EntityId, i64)>, t: EntityId, v: i64, seed: i64) -> Seq<
    (EntityId, i64),
> {
    let p = find_key(acc, t);
    if p >= 0 {
        acc.update(p, (t, fmul(acc[p].1, v)))
    } else {
        acc.push((t, fmul(seed, v)))
    }
}

/// Folds the cached entries of one targeted consideration into `acc`.
/// Targets that no longer exist, or that fail the target filters, are skipped.
pub open spec fn accumulate_entries(
    acc: Seq<(EntityId, i64)>,
    entries: Seq<(EntityId, i64)>,
    c: Consideration,
    filters: Seq<Filter>,
    world: World,
    seed: i64,
) -> Seq<(EntityId, i64)>
    decreases entries.len(),
{
    if entries.len() == 0 {
        acc
    } else {
        let prev = accumulate_entries(acc, entries.drop_last(), c, filters, world, seed);
        let (t, raw) = entries.last();
        if world.has(t) && admits_all(filters, world.components(t)) {
            acc_update(prev, t, consideration_score(c, raw), seed)
        } else {
            prev
        }
    }
}

/// The per-target scores after the targeted considerations among `cs`, in
/// the order in which targets were first met.
pub open spec fn accumulate_targeted(
    cs: Seq<Consideration>,
    targeted: Map<InputId, ScoreMap>,
    filters: Seq<Filter>,
    world: World,
    seed: i64,
) -> Seq<(EntityId, i64)>
    decreases cs.len(),
{
    if cs.len() == 0 {
        Seq::empty()
    } else {
        let prev = accumulate_targeted(cs.drop_last(), targeted, filters, world, seed);
        let c = cs.last();
        if c.consideration_type == ConsiderationType::Targeted && targeted.contains_key(c.input) {
            accumulate_entries(prev, targeted[c.input]@, c, filters, world, seed)
        } else {
            prev
        }
    }
}

/// One scored option: a decision (by position) with its target, if any.
#[derive(Debug, Clone, Copy, PartialEq, Eq)]
pub struct Candidate {
    pub decision: usize,
    pub target: Option<EntityId>,
    pub score: i64,
}

/// The candidates that decision `d`, at position `idx`, yields for `entity`:
/// none when the entity fails a subject filter; one for a simple decision;
/// one per surviving target for a targeted decision.
pub open spec fn decision_candidates(
    d: Decision,
    idx: int,
    world: World,
    meta: AIMeta,
    entity: EntityId,
) -> Seq<Candidate> {
    if !admits_all(d.subject_filters@, world.components(entity)) {
        Seq::empty()
    } else {
        let s0 = simple_score(d.considerations@, meta.input_scores@, d.base_score);
        if !d.is_targeted {
            seq![Candidate { decision: idx as usize, target: None, score: s0 }]
        } else {
            accumulate_targeted(
                d.considerations@,
                meta.targeted_input_scores@,
                d.target_filters@,
                world,
                s0,
            ).map_values(
                |e: (EntityId, i64)| Candidate { decision: idx as usize, target: Some(e.0), score: e.1 },
            )
        }
    }
}

/// The candidates of the first `n` decisions of `ds`, in decision order.
pub open spec fn candidates_upto(
    ds: Seq<Decision>,
    n: int,
    world: World,
    meta: AIMeta,
    entity: EntityId,
) -> Seq<Candidate>
    decreases n,
{
    if n <= 0 {
        Seq::empty()
    } else {
        candidates_upto(ds, n - 1, world, meta, entity) + decision_candidates(
            ds[n - 1],
            n - 1,
            world,
            meta,
            entity,
        )
    }
}

/// All candidates of `entity` under `def`, before inertia.
pub open spec fn candidates(def: AIDefinition, world: World, meta: AIMeta, entity: EntityId) -> Seq<
    Candidate,
> {
    candidates_upto(def.decisions@, def.decisions@.len() as int, world, meta, entity)
}

/// The running score after the simple considerations of `d`.
fn score_simple(d: &Decision, meta: &AIMeta) -> (r: i64)
    requires
        d.wf(),
    ensures
        r == simple_score(d.considerations@, meta.input_scores@, d.base_score),
{
    let ghost cs = d.considerations@;
    let mut score = d.base_score;
    let mut j: usize = 0;
    while j < d.considerations.len()
        invariant
            d.wf(),
            cs == d.considerations@,
            j <= cs.len(),
            score == simple_score(cs.subrange(0, j as int), meta.input_scores@, d.base_score),
        decreases cs.len() - j,
    {
        let c = &d.considerations[j];
        assert(c.wf());
        if c.consideration_type == ConsiderationType::Simple {
            match meta.input_scores.get(&c.input) {
                Some(raw) => {
                    let v = c.calculate_score(*raw);
                    score = fixed_mul(score, v);
                },
                None => {},
            }
        }
        assert(cs.subrange(0, j + 1).drop_last() =~= cs.subrange(0, j as int));
        j = j + 1;
    }
    assert(cs.subrange(0, cs.len() as int) =~= cs);
    score
}

/// Multiplies the accumulated score of `t` by `v`, starting a new target at
/// `seed`.
fn acc_add(acc: &mut Vec<(EntityId, i64)>, t: EntityId, v: i64, seed: i64)
    ensures
        final(acc)@ == acc_update(old(acc)@, t, v, seed),
{
    let mut i: usize = 0;
    while i < acc.len()
        invariant
            i <= acc@.len(),
            acc@ == old(acc)@,
            forall|j: int| 0 <= j < i ==> #[trigger] acc@[j].0 != t,
        decreases acc.len() - i,
    {
        if acc[i].0 == t {
            proof {
                lemma_find_key(acc@, t);
            }
            let cur = acc[i].1;
            let nv = fixed_mul(cur, v);
            acc.set(i, (t, nv));
            return;
        }
        i = i + 1;
    }
    proof {
        lemma_find_key(acc@, t);
    }
    let nv = fixed_mul(seed, v);
    acc.push((t, nv));
}

/// The per-target scores of a targeted decision, from the running score
/// `seed` of its simple considerations.
fn score_targets(d: &Decision, meta: &AIMeta, world: &World, seed: i64) -> (r: Vec<(EntityId, i64)>)
    requires
        d.wf(),
    ensures
        r@ == accumulate_targeted(
            d.considerations@,
            meta.targeted_input_scores@,
            d.target_filters@,
            *world,
            seed,
        ),
{
    let ghost cs = d.considerations@;
    let ghost filters = d.target_filters@;
    let mut acc: Vec<(EntityId, i64)> = Vec::new();
    let mut j: usize = 0;
    while j < d.considerations.len()
        invariant
            d.wf(),
            cs == d.considerations@,
            filters == d.target_filters@,
            j <= cs.len(),
            acc@ == accumulate_targeted(
                cs.subrange(0, j as int),
                meta.targeted_input_scores@,
                filters,
                *world,
                seed,
            ),
        decreases cs.len() - j,
    {
        let c = &d.considerations[j];
        assert(c.wf());
        if c.consideration_type == ConsiderationType::Targeted {
            match meta.targeted_input_scores.get(&c.input) {
                Some(sm) => {
                    let ghost acc0 = acc@;
                    let mut k: usize = 0;
                    while k < sm.len()
                        invariant
                            c.wf(),
                            filters == d.target_filters@,
                            k <= sm@.len(),
                            acc@ == accumulate_entries(
                                acc0,
                                sm@.subrange(0, k as int),
                                *c,
                                filters,
                                *world,
                                seed,
                            ),
                        decreases sm@.len() - k,
                    {
                        let (t, raw) = sm.entry(k);
                        if world.contains_entity(t) && world.matches_filters(t, &d.target_filters) {
                            let v = c.calculate_score(raw);
                            acc_add(&mut acc, t, v, seed);
                        }
                        assert(sm@.subrange(0, k + 1).drop_last() =~= sm@.subrange(0, k as int));
                        k = k + 1;
                    }
                    assert(sm@.subrange(0, sm@.len() as int) =~= sm@);
                },
                None => {},
            }
        }
        assert(cs.subrange(0, j + 1).drop_last() =~= cs.subrange(0, j as int));
        j = j + 1;
    }
    assert(cs.subrange(0, cs.len() as int) =~= cs);
    acc
}

/// Appends the candidates of decision `d`, at position `idx`, to `out`.
fn push_decision_candidates(
    d: &Decision,
    idx: usize,
    world: &World,
    meta: &AIMeta,
    entity: EntityId,
    out: &mut Vec<Candidate>,
)
    requires
        d.wf(),
        world.has(entity),
    ensures
        final(out)@ == old(out)@ + decision_candidates(*d, idx as int, *world, *meta, entity),
{
    if !world.matches_filters(entity, &d.subject_filters) {
        assert(old(out)@ + Seq::<Candidate>::empty() =~= old(out)@);
        return;
    }
    let s0 = score_simple(d, meta);
    if !d.is_targeted {
        out.push(Candidate { decision: idx, target: None, score: s0 });
        assert(final(out)@ =~= old(out)@ + seq![Candidate { decision: idx, target: None, score: s0 }]);
        return;
    }
    let acc = score_targets(d, meta, world, s0);
    let ghost start = out@;
    let ghost mapped = acc@.map_values(
        |e: (EntityId, i64)| Candidate { decision: idx, target: Some(e.0), score: e.1 },
    );
    let mut i: usize = 0;
    while i < acc.len()
        invariant
            i <= acc@.len(),
            mapped == acc@.map_values(
                |e: (EntityId, i64)| Candidate { decision: idx, target: Some(e.0), score: e.1 },
            ),
            out@ == start + mapped.subrange(0, i as int),
        decreases acc.len() - i,
    {
        let (t, v) = acc[i];
        out.push(Candidate { decision: idx, target: Some(t), score: v });
        assert(mapped.subrange(0, i + 1) =~= mapped.subrange(0, i as int).push(mapped[i as int]));
        i = i + 1;
    }
    assert(mapped.subrange(0, acc@.len() as int) =~= mapped);
}

/// Scores every decision of `definition` for `entity`, in declaration order;
/// a targeted decision yields its targets in the order first met.
pub fn evaluate_decisions(definition: &AIDefinition, meta: &AIMeta, world: &World, entity: EntityId) -> (r: Vec<Candidate>)
    requires
        definition.wf(),
        world.has(entity),
    ensures
        r@ == candidates(*definition, *world, *meta, entity),
{
    let mut out: Vec<Candidate> = Vec::new();
    let mut idx: usize = 0;
    while idx < definition.decisions.len()
        invariant
            definition.wf(),
            world.has(entity),
            idx <= definition.decisions@.len(),
            out@ == candidates_upto(definition.decisions@, idx as int, *world, *meta, entity),
        decreases definition.decisions@.len() - idx,
    {
        assert(definition.decisions@[idx as int].wf());
        push_decision_candidates(&definition.decisions[idx], idx, world, meta, entity, &mut out);
        idx = idx + 1;
    }
    out
}

/// The first position `i` of `s` with `f(s[i])`, or -1.
pub open spec fn first_match<A>(s: Seq<A>, f: spec_fn(A) -> bool) -> int
    decreases s.len(),
{
    if s.len() == 0 {
        -1
    } else {
        let p = first_match(s.drop_last(), f);
        if p >= 0 {
            p
        } else if f(s.last()) {
            s.len() - 1
        } else {
            -1
        }
    }
}

pub proof fn lemma_first_match<A>(s: Seq<A>, f: spec_fn(A) -> bool)
    ensures
        -1 <= first_match(s, f) < s.len(),
        first_match(s, f) >= 0 ==> f(s[first_match(s, f)]),
        forall|i: int| 0 <= i < s.len() && i < first_match(s, f) ==> !f(#[trigger] s[i]),
        first_match(s, f) == -1 ==> forall|i: int| 0 <= i < s.len() ==> !f(#[trigger] s[i]),
    decreases s.len(),
{
    if s.len() > 0 {
        lemma_first_match(s.drop_last(), f);
        assert forall|i: int| 0 <= i < s.len() - 1 implies #[trigger] s[i] == s.drop_last()[i] by {}
    }
}

/// The position of the decision whose action is `action`, or -1.
pub open spec fn active_index(ds: Seq<Decision>, action: Option<ActionId>) -> int {
    first_match(ds, has_action(action))
}

pub open spec fn has_action(action: Option<ActionId>) -> spec_fn(Decision) -> bool {
    |d: Decision| Some(d.action) == action
}

pub open spec fn is_candidate_for(idx: int, target: Option<EntityId>) -> spec_fn(Candidate) -> bool {
    |c: Candidate| c.decision as int == idx && c.target == target
}

/// The position of the candidate for decision `idx` and `target`, or -1.
pub open spec fn candidate_index(cands: Seq<Candidate>, idx: int, target: Option<EntityId>) -> int {
    first_match(cands, is_candidate_for(idx, target))
}

/// The inertia of decision `i`: its own, else the definition's default.
pub open spec fn inertia_of(def: AIDefinition, i: int) -> i64 {
    match def.decisions@[i].intertia {
        Some(v) => v,
        None => def.default_intertia,
    }
}

/// `a + b`, saturated into `i64`.
pub open spec fn sat_add(a: i64, b: i64) -> i64 {
    clamp_i64(a + b) as i64
}

/// The candidates with the active decision's inertia added to the candidate
/// of the active decision and the current target, if there is one.
pub open spec fn with_inertia(cands: Seq<Candidate>, def: AIDefinition, meta: AIMeta) -> Seq<
    Candidate,
> {
    let a = active_index(def.decisions@, meta.current_action);
    if a < 0 {
        cands
    } else {
        let inertia = inertia_of(def, a);
        let p = candidate_index(cands, a, meta.current_target);
        if inertia >= 0 && p >= 0 {
            cands.update(p, Candidate { score: sat_add(cands[p].score, inertia), ..cands[p] })
        } else {
            cands
        }
    }
}

/// The first position with the highest score.
pub open spec fn best_index(s: Seq<Candidate>) -> int
    decreases s.len(),
{
    if s.len() <= 1 {
        0
    } else {
        let b = best_index(s.drop_last());
        if s.last().score > s[b].score {
            s.len() - 1
        } else {
            b
        }
    }
}

/// `best_index` is the first candidate whose score no other exceeds.
pub proof fn lemma_best_index(s: Seq<Candidate>)
    requires
        s.len() > 0,
    ensures
        0 <= best_index(s) < s.len(),
        forall|j: int| 0 <= j < s.len() ==> #[trigger] s[j].score <= s[best_index(s)].score,
        forall|j: int| 0 <= j < best_index(s) ==> #[trigger] s[j].score < s[best_index(s)].score,
    decreases s.len(),
{
    if s.len() > 1 {
        lemma_best_index(s.drop_last());
        assert forall|i: int| 0 <= i < s.len() - 1 implies #[trigger] s[i] == s.drop_last()[i] by {}
    }
}

/// The candidates of `entity` with inertia applied: what the choice is made on.
pub open spec fn scored(def: AIDefinition, world: World, meta: AIMeta, entity: EntityId) -> Seq<
    Candidate,
> {
    with_inertia(candidates(def, world, meta, entity), def, meta)
}

fn apply_inertia(cands: &mut Vec<Candidate>, def: &AIDefinition, meta: &AIMeta)
    ensures
        final(cands)@ == with_inertia(old(cands)@, *def, *meta),
{
    let ghost fa = has_action(meta.current_action);
    proof {
        lemma_first_match(def.decisions@, fa);
    }
    let mut a: usize = 0;
    while a < def.decisions.len() && Some(def.decisions[a].action) != meta.current_action
        invariant
            a <= def.decisions@.len(),
            fa == has_action(meta.current_action),
            forall|j: int| 0 <= j < a ==> !fa(#[trigger] def.decisions@[j]),
        decreases def.decisions@.len() - a,
    {
        a = a + 1;
    }
    proof {
        lemma_first_match(def.decisions@, fa);
    }
    if a == def.decisions.len() {
        return;
    }
    assert(fa(def.decisions@[a as int]));
    assert(a as int == active_index(def.decisions@, meta.current_action));
    let inertia = match def.decisions[a].intertia {
        Some(v) => v,
        None => def.default_intertia,
    };
    if inertia < 0 {
        return;
    }
    let ghost fc = is_candidate_for(a as int, meta.current_target);
    let mut p: usize = 0;
    while p < cands.len()
        invariant
            p <= cands@.len(),
            cands@ == old(cands)@,
            fc == is_candidate_for(a as int, meta.current_target),
            inertia == inertia_of(*def, a as int),
            inertia >= 0,
            a as int == active_index(def.decisions@, meta.current_action),
            forall|j: int| 0 <= j < p ==> !fc(#[trigger] cands@[j]),
        decreases cands@.len() - p,
    {
        if cands[p].decision == a && cands[p].target == meta.current_target {
            proof {
                assert(fc(cands@[p as int]));
                lemma_first_match(cands@, fc);
            }
            let c = cands[p];
            let boosted = saturate(c.score as i128 + inertia as i128);
            cands.set(p, Candidate { decision: c.decision, target: c.target, score: boosted });
            return;
        }
        p = p + 1;
    }
    proof {
        lemma_first_match(cands@, fc);
    }
}

fn select_best(cands: &Vec<Candidate>) -> (r: usize)
    requires
        cands@.len() > 0,
    ensures
        r == best_index(cands@),
{
    let mut best: usize = 0;
    let mut i: usize = 1;
    while i < cands.len()
        invariant
            1 <= i <= cands@.len(),
            best as int == best_index(cands@.subrange(0, i as int)),
            best < i,
        decreases cands@.len() - i,
    {
        let ghost pre = cands@.subrange(0, i as int);
        assert(cands@.subrange(0, i + 1).drop_last() =~= pre);
        proof {
            lemma_best_index(pre);
        }
        if cands[i].score > cands[best].score {
            best = i;
        }
        i = i + 1;
    }
    assert(cands@.subrange(0, cands@.len() as int) =~= cands@);
    best
}

/// Whether some decision of `ds` reads `input` as a targeted input.
pub open spec fn reads_targeted(ds: Seq<Decision>, input: InputId) -> bool {
    exists|i: int, j: int| #[trigger] reads_input(ds, i, j, ConsiderationType::Targeted, input)
}

/// Whether a targeted consideration before position `(i, j)` reads `input`.
pub open spec fn read_before(ds: Seq<Decision>, i: int, j: int, input: InputId) -> bool {
    exists|i2: int, j2: int|
        #[trigger] reads_input(ds, i2, j2, ConsiderationType::Targeted, input) && (i2 < i || (i2
            == i && j2 < j))
}

/// `after` is `before` with the targets that no longer exist dropped from the
/// cache of every input that `read(input)` selects.
pub open spec fn cleaned_where(
    before: Map<InputId, ScoreMap>,
    after: Map<InputId, ScoreMap>,
    world: World,
    read: spec_fn(InputId) -> bool,
) -> bool {
    &&& after.dom() == before.dom()
    &&& forall|k: InputId|
        #[trigger] before.contains_key(k) ==> after[k]@ == if read(k) {
            before[k]@.filter(alive_entry(world))
        } else {
            before[k]@
        }
}

/// The targeted caches after a tick: for each input that the decisions read
/// as a targeted input, targets that no longer exist are dropped.
pub open spec fn targeted_cleaned(
    before: Map<InputId, ScoreMap>,
    after: Map<InputId, ScoreMap>,
    ds: Seq<Decision>,
    world: World,
) -> bool {
    cleaned_where(before, after, world, |k: InputId| reads_targeted(ds, k))
}

proof fn lemma_filter_idempotent<A>(s: Seq<A>, p: spec_fn(A) -> bool)
    ensures
        s.filter(p).filter(p) == s.filter(p),
    decreases s.len(),
{
    reveal(Seq::filter);
    if s.len() > 0 {
        lemma_filter_idempotent(s.drop_last(), p);
        let fs = s.drop_last().filter(p);
        if p(s.last()) {
            assert(fs.push(s.last()).drop_last() =~= fs);
        }
    }
}

/// Drops, from the cache of every input read by a targeted consideration,
/// the targets that no longer exist.
fn drop_dead_targets(meta: &mut AIMeta, def: &AIDefinition, world: &World)
    ensures
        targeted_cleaned(
            old(meta).targeted_input_scores@,
            final(meta).targeted_input_scores@,
            def.decisions@,
            *world,
        ),
        final(meta).input_scores@ == old(meta).input_scores@,
        final(meta).ai_definition == old(meta).ai_definition,
        final(meta).current_action == old(meta).current_action,
        final(meta).current_action_name == old(meta).current_action_name,
        final(meta).current_target == old(meta).current_target,
        final(meta).current_action_score == old(meta).current_action_score,
{
    let ghost before = meta.targeted_input_scores@;
    let ghost ds = def.decisions@;
    let mut i: usize = 0;
    while i < def.decisions.len()
        invariant
            ds == def.decisions@,
            i <= ds.len(),
            cleaned_where(
                before,
                meta.targeted_input_scores@,
                *world,
                |k: InputId| read_before(ds, i as int, 0, k),
            ),
            meta.input_scores@ == old(meta).input_scores@,
            meta.ai_definition == old(meta).ai_definition,
            meta.current_action == old(meta).current_action,
            meta.current_action_name == old(meta).current_action_name,
            meta.current_target == old(meta).current_target,
            meta.current_action_score == old(meta).current_action_score,
            before == old(meta).targeted_input_scores@,
        decreases ds.len() - i,
    {
        let d = &def.decisions[i];
        let mut j: usize = 0;
        while j < d.considerations.len()
            invariant
                ds == def.decisions@,
                i < ds.len(),
                *d == ds[i as int],
                j <= d.considerations@.len(),
                cleaned_where(
                    before,
                    meta.targeted_input_scores@,
                    *world,
                    |k: InputId| read_before(ds, i as int, j as int, k),
                ),
                meta.input_scores@ == old(meta).input_scores@,
                meta.ai_definition == old(meta).ai_definition,
                meta.current_action == old(meta).current_action,
                meta.current_action_name == old(meta).current_action_name,
                meta.current_target == old(meta).current_target,
                meta.current_action_score == old(meta).current_action_score,
                before == old(meta).targeted_input_scores@,
            decreases d.considerations@.len() - j,
        {
            let c = &d.considerations[j];
            let input = c.input;
            let ghost m0 = meta.targeted_input_scores@;
            if c.consideration_type == ConsiderationType::Targeted {
                match meta.targeted_input_scores.remove(&input) {
                    Some(mut sm) => {
                        let ghost s0 = sm@;
                        sm.retain_alive(world);
                        meta.targeted_input_scores.insert(input, sm);
                        proof {
                            if read_before(ds, i as int, j as int, input) {
                                lemma_filter_idempotent(before[input]@, alive_entry(*world));
                            }
                        }
                    },
                    None => {},
                }
            }
            proof {
                assert(reads_input(ds, i as int, j as int, c.consideration_type, input));
                assert forall|k: InputId|
                    read_before(ds, i as int, j + 1, k) <==> (read_before(ds, i as int, j as int, k)
                        || (c.consideration_type == ConsiderationType::Targeted && input == k)) by {
                    if read_before(ds, i as int, j + 1, k) {
                        let (i2, j2) = choose|i2: int, j2: int|
                            #[trigger] reads_input(ds, i2, j2, ConsiderationType::Targeted, k) && (
                            i2 < i || (i2 == i && j2 < j + 1));
                        if !(i2 < i || (i2 == i && j2 < j)) {
                            assert(i2 == i && j2 == j);
                        }
                    }
                }
                assert(meta.targeted_input_scores@.dom() =~= before.dom());
            }
            j = j + 1;
        }
        proof {
            assert forall|k: InputId|
                read_before(ds, i as int, d.considerations@.len() as int, k) <==> read_before(
                    ds,
                    i + 1,
                    0,
                    k,
                ) by {
                if read_before(ds, i + 1, 0, k) {
                    let (i2, j2) = choose|i2: int, j2: int|
                        #[trigger] reads_input(ds, i2, j2, ConsiderationType::Targeted, k) && (i2
                            < i + 1 || (i2 == i + 1 && j2 < 0));
                    assert(reads_input(ds, i2, j2, ConsiderationType::Targeted, k));
                }
            }
        }
        i = i + 1;
    }
    proof {
        assert forall|k: InputId|
            read_before(ds, ds.len() as int, 0, k) <==> reads_targeted(ds, k) by {
            if reads_targeted(ds, k) {
                let (i2, j2) = choose|i2: int, j2: int|
                    #[trigger] reads_input(ds, i2, j2, ConsiderationType::Targeted, k);
                assert(reads_input(ds, i2, j2, ConsiderationType::Targeted, k));
            }
        }
    }
}

/// Every candidate comes from one of the first `n` decisions, and from one
/// whose subject filters the entity passes.
pub proof fn lemma_candidates_shape(
    ds: Seq<Decision>,
    n: int,
    world: World,
    meta: AIMeta,
    entity: EntityId,
)
    requires
        0 <= n <= ds.len() <= usize::MAX,
    ensures
        forall|k: int|
            0 <= k < candidates_upto(ds, n, world, meta, entity).len() ==> {
                let c = #[trigger] candidates_upto(ds, n, world, meta, entity)[k];
                &&& c.decision < n
                &&& admits_all(ds[c.decision as int].subject_filters@, world.components(entity))
            },
    decreases n,
{
    if n > 0 {
        lemma_candidates_shape(ds, n - 1, world, meta, entity);
        let prev = candidates_upto(ds, n - 1, world, meta, entity);
        let cur = decision_candidates(ds[n - 1], n - 1, world, meta, entity);
        assert forall|k: int|
            0 <= k < (prev + cur).len() implies {
                let c = #[trigger] (prev + cur)[k];
                &&& c.decision < n
                &&& admits_all(ds[c.decision as int].subject_filters@, world.components(entity))
            } by {
            if k >= prev.len() {
                let d = ds[n - 1];
                if admits_all(d.subject_filters@, world.components(entity)) && d.is_targeted {
                    let acc = accumulate_targeted(
                        d.considerations@,
                        meta.targeted_input_scores@,
                        d.target_filters@,
                        world,
                        simple_score(d.considerations@, meta.input_scores@, d.base_score),
                    );
                    assert(cur[k - prev.len()] == Candidate {
                        decision: (n - 1) as usize,
                        target: Some(acc[k - prev.len()].0),
                        score: acc[k - prev.len()].1,
                    });
                }
                assert(cur[k - prev.len()].decision == n - 1);
                assert((prev + cur)[k] == cur[k - prev.len()]);
            } else {
                assert((prev + cur)[k] == prev[k]);
            }
        }
    }
}

/// Adding inertia changes one score at most: decisions and targets stay.
proof fn lemma_inertia_keeps_shape(cands: Seq<Candidate>, def: AIDefinition, meta: AIMeta)
    ensures
        with_inertia(cands, def, meta).len() == cands.len(),
        forall|k: int|
            0 <= k < cands.len() ==> (#[trigger] with_inertia(cands, def, meta)[k]).decision
                == cands[k].decision && with_inertia(cands, def, meta)[k].target
                == cands[k].target,
{
    lemma_first_match(cands, is_candidate_for(active_index(def.decisions@, meta.current_action), meta.current_target));
}

/// Tells the action-updating step that an entity's action or target changed.
#[derive(Debug, Clone, Copy, PartialEq, Eq)]
pub struct UpdateEntityActionInternalEvent {
    pub entity_id: EntityId,
    pub old_action: Option<ActionId>,
    pub new_action: ActionId,
    pub old_target: Option<EntityId>,
    pub new_target: Option<EntityId>,
}

/// Announces that an entity's action or target changed; the action may stay
/// the same while the target changes.
#[derive(Debug, Clone)]
pub struct EntityActionChangedEvent {
    pub entity_id: EntityId,
    pub prev_action: String,
    pub new_action: String,
    pub prev_target: Option<EntityId>,
    pub new_target: Option<EntityId>,
    pub prev_score: i64,
    pub new_score: i64,
}

/// The two notifications of one transition.
#[derive(Debug, Clone)]
pub struct ActionChange {
    pub update: UpdateEntityActionInternalEvent,
    pub changed: EntityActionChangedEvent,
}

/// The effect of one tick on an entity's state, with the transition `r` it
/// reports; see [`decide`].
pub open spec fn decided(
    before: AIMeta,
    after: AIMeta,
    entity: EntityId,
    definition: AIDefinition,
    world: World,
    r: Option<ActionChange>,
) -> bool {
    &&& after.input_scores@ == before.input_scores@
    &&& after.ai_definition == before.ai_definition
    &&& targeted_cleaned(
        before.targeted_input_scores@,
        after.targeted_input_scores@,
        definition.decisions@,
        world,
    )
    &&& ({
        let s = scored(definition, world, before, entity);
        if s.len() == 0 {
            &&& r is None
            &&& after.current_action == before.current_action
            &&& after.current_action_name == before.current_action_name
            &&& after.current_target == before.current_target
            &&& after.current_action_score == before.current_action_score
        } else {
            let w = s[best_index(s)];
            let d = definition.decisions@[w.decision as int];
            &&& w.decision < definition.decisions@.len()
            &&& after.current_action == Some(d.action)
            &&& after.current_target == w.target
            &&& after.current_action_score == w.score
            &&& if Some(d.action) == before.current_action && w.target == before.current_target {
                &&& r is None
                &&& after.current_action_name == before.current_action_name
            } else {
                &&& r matches Some(ch) && {
                    &&& ch.update == UpdateEntityActionInternalEvent {
                        entity_id: entity,
                        old_action: before.current_action,
                        new_action: d.action,
                        old_target: before.current_target,
                        new_target: w.target,
                    }
                    &&& ch.changed.entity_id == entity
                    &&& ch.changed.prev_action@ == before.current_action_name@
                    &&& ch.changed.new_action@ == d.action_name@
                    &&& ch.changed.prev_target == before.current_target
                    &&& ch.changed.new_target == w.target
                    &&& ch.changed.prev_score == before.current_action_score
                    &&& ch.changed.new_score == w.score
                }
                &&& after.current_action_name@ == d.action_name@
            }
        }
    })
}

/// One tick of the decision engine for one entity.
///
/// The candidates are scored from the state as it was at the call; inertia
/// is added to the active decision's candidate for the current target; the
/// first candidate with the highest score wins. When there is no candidate
/// the action, target and score are left as they are. When the winner is the
/// current action and target only the score is updated; otherwise the state
/// takes the winner and the transition is returned. Cached targets that no
/// longer exist are dropped from every targeted input the decisions read.
pub fn decide(meta: &mut AIMeta, entity: EntityId, definition: &AIDefinition, world: &World) -> (r:
    Option<ActionChange>)
    requires
        definition.wf(),
        world.has(entity),
    ensures
        decided(*old(meta), *final(meta), entity, *definition, *world, r),
{
    let mut cands = evaluate_decisions(definition, meta, world, entity);
    let _decision_count = definition.decisions.len();
    proof {
        lemma_candidates_shape(
            definition.decisions@,
            definition.decisions@.len() as int,
            *world,
            *meta,
            entity,
        );
        lemma_inertia_keeps_shape(cands@, *definition, *meta);
    }
    drop_dead_targets(meta, definition, world);
    if cands.len() == 0 {
        return None;
    }
    apply_inertia(&mut cands, definition, meta);
    let w = select_best(&cands);
    proof {
        lemma_best_index(cands@);
    }
    let c = cands[w];
    let d = &definition.decisions[c.decision];
    if Some(d.action) == meta.current_action && c.target == meta.current_target {
        meta.current_action_score = c.score;
        return None;
    }
    let update = UpdateEntityActionInternalEvent {
        entity_id: entity,
        old_action: meta.current_action,
        new_action: d.action,
        old_target: meta.current_target,
        new_target: c.target,
    };
    let changed = EntityActionChangedEvent {
        entity_id: entity,
        prev_action: meta.current_action_name.clone(),
        new_action: d.action_name.clone(),
        prev_target: meta.current_target,
        new_target: c.target,
        prev_score: meta.current_action_score,
        new_score: c.score,
    };
    meta.current_action = Some(d.action);
    meta.current_action_name = d.action_name.clone();
    meta.current_action_score = c.score;
    meta.current_target = c.target;
    Some(ActionChange { update, changed })
}

/// One tick of the decision engine for every entity that has AI state:
/// `states` pairs each entity with its state. The result holds, for each
/// entity in turn, the transition it made, if any.
pub fn make_decisions(
    states: &mut Vec<(EntityId, AIMeta)>,
    definitions: &AIDefinitions,
    world: &World,
) -> (r: Vec<Option<ActionChange>>)
    requires
        definitions.wf(),
        forall|i: int|
            0 <= i < old(states)@.len() ==> {
                &&& definitions.map@.contains_key((#[trigger] old(states)@[i]).1.ai_definition)
                &&& world.has(old(states)@[i].0)
            },
    ensures
        final(states)@.len() == old(states)@.len(),
        r@.len() == old(states)@.len(),
        forall|i: int|
            0 <= i < old(states)@.len() ==> {
                let (e, before) = #[trigger] old(states)@[i];
                let (e2, after) = final(states)@[i];
                &&& e2 == e
                &&& decided(before, after, e, definitions.map@[before.ai_definition], *world, r@[i])
            },
{
    let mut out: Vec<Option<ActionChange>> = Vec::new();
    let mut i: usize = 0;
    while i < states.len()
        invariant
            definitions.wf(),
            i <= states@.len(),
            states@.len() == old(states)@.len(),
            out@.len() == i,
            forall|j: int| i <= j < states@.len() ==> #[trigger] states@[j] == old(states)@[j],
            forall|j: int|
                0 <= j < old(states)@.len() ==> {
                    &&& definitions.map@.contains_key((#[trigger] old(states)@[j]).1.ai_definition)
                    &&& world.has(old(states)@[j].0)
                },
            forall|j: int|
                0 <= j < i ==> {
                    let (e, before) = #[trigger] old(states)@[j];
                    let (e2, after) = states@[j];
                    &&& e2 == e
                    &&& decided(
                        before,
                        after,
                        e,
                        definitions.map@[before.ai_definition],
                        *world,
                        out@[j],
                    )
                },
        decreases states@.len() - i,
    {
        let entity = states[i].0;
        let marker = states[i].1.ai_definition;
        let definition = definitions.map.get(&marker).unwrap();
        let outcome = decide(&mut states[i].1, entity, definition, world);
        out.push(outcome);
        i = i + 1;
    }
    out
}

/// After a tick, the targeted cache of every input that the decisions read
/// names only targets that exist.
pub proof fn lemma_dead_targets_dropped(
    before: Map<InputId, ScoreMap>,
    after: Map<InputId, ScoreMap>,
    ds: Seq<Decision>,
    world: World,
    input: InputId,
    i: int,
)
    requires
        targeted_cleaned(before, after, ds, world),
        after.contains_key(input),
        reads_targeted(ds, input),
        0 <= i < after[input]@.len(),
    ensures
        world.has(after[input]@[i].0),
{
    assert(before.contains_key(input));
    let s = before[input]@;
    assert(after[input]@ == s.filter(alive_entry(world)));
    s.lemma_filter_pred(alive_entry(world), i);
}

/// A decision whose subject filters the entity fails yields no candidate:
/// every candidate belongs to a decision whose filters the entity passes, so
/// when the entity fails the filters of every decision nothing is chosen.
pub proof fn lemma_subject_filter_exclusion(
    def: AIDefinition,
    world: World,
    meta: AIMeta,
    entity: EntityId,
)
    requires
        def.decisions@.len() <= usize::MAX,
    ensures
        forall|k: int|
            0 <= k < scored(def, world, meta, entity).len() ==> {
                let c = #[trigger] scored(def, world, meta, entity)[k];
                &&& c.decision < def.decisions@.len()
                &&& admits_all(
                    def.decisions@[c.decision as int].subject_filters@,
                    world.components(entity),
                )
            },
        (forall|i: int|
            0 <= i < def.decisions@.len() ==> !admits_all(
                (#[trigger] def.decisions@[i]).subject_filters@,
                world.components(entity),
            )) ==> scored(def, world, meta, entity).len() == 0,
{
    let ds = def.decisions@;
    let cands = candidates(def, world, meta, entity);
    lemma_candidates_shape(ds, ds.len() as int, world, meta, entity);
    lemma_inertia_keeps_shape(cands, def, meta);
    if forall|i: int|
        0 <= i < ds.len() ==> !admits_all(
            (#[trigger] ds[i]).subject_filters@,
            world.components(entity),
        ) {
        if cands.len() > 0 {
            assert(cands[0].decision < ds.len());
        }
    }
}

/// Inertia and switching: let the active decision have a candidate for the
/// current target, with score `s`, and inertia `i`. If every other candidate
/// scores below `s + i`, that candidate stays the winner; if some other
/// candidate scores above `s + i`, another candidate wins.
pub proof fn lemma_inertia_hysteresis(cands: Seq<Candidate>, def: AIDefinition, meta: AIMeta)
    requires
        active_index(def.decisions@, meta.current_action) >= 0,
        candidate_index(
            cands,
            active_index(def.decisions@, meta.current_action),
            meta.current_target,
        ) >= 0,
        inertia_of(def, active_index(def.decisions@, meta.current_action)) >= 0,
    ensures
        ({
            let a = active_index(def.decisions@, meta.current_action);
            let p = candidate_index(cands, a, meta.current_target);
            let boosted = sat_add(cands[p].score, inertia_of(def, a));
            let s = with_inertia(cands, def, meta);
            &&& (forall|j: int| 0 <= j < cands.len() && j != p ==> #[trigger] cands[j].score < boosted)
                ==> best_index(s) == p
            &&& (exists|j: int| 0 <= j < cands.len() && j != p && #[trigger] cands[j].score > boosted)
                ==> best_index(s) != p
        }),
{
    let a = active_index(def.decisions@, meta.current_action);
    let p = candidate_index(cands, a, meta.current_target);
    lemma_first_match(cands, is_candidate_for(a, meta.current_target));
    let s = with_inertia(cands, def, meta);
    let boosted = sat_add(cands[p].score, inertia_of(def, a));
    assert(s.len() == cands.len());
    lemma_best_index(s);
    assert(s[p].score == boosted);
    assert forall|j: int| 0 <= j < cands.len() && j != p implies #[trigger] s[j].score == cands[j].score by {}
    if forall|j: int| 0 <= j < cands.len() && j != p ==> #[trigger] cands[j].score < boosted {
        let b = best_index(s);
        if b != p {
            assert(s[b].score < boosted);
            assert(s[p].score <= s[b].score);
        }
    }
    if exists|j: int| 0 <= j < cands.len() && j != p && #[trigger] cands[j].score > boosted {
        let j = choose|j: int| 0 <= j < cands.len() && j != p && #[trigger] cands[j].score > boosted;
        assert(s[j].score > s[p].score);
    }
}

proof fn lemma_acc_update_unique(acc: Seq<(EntityId, i64)>, t: EntityId, v: i64, seed: i64)
    requires
        keys_unique(acc),
    ensures
        keys_unique(acc_update(acc, t, v, seed)),
{
    lemma_find_key(acc, t);
    let r = acc_update(acc, t, v, seed);
    if find_key(acc, t) >= 0 {
        assert forall|i: int, j: int| 0 <= i < j < r.len() implies #[trigger] r[i].0 != #[trigger] r[j].0 by {
            assert(r[i].0 == acc[i].0);
            assert(r[j].0 == acc[j].0);
        }
    } else {
        assert forall|i: int, j: int| 0 <= i < j < r.len() implies #[trigger] r[i].0 != #[trigger] r[j].0 by {
            if j == acc.len() {
                assert(acc[i].0 != t);
            }
        }
    }
}

proof fn lemma_accumulate_entries_unique(
    acc: Seq<(EntityId, i64)>,
    entries: Seq<(EntityId, i64)>,
    c: Consideration,
    filters: Seq<Filter>,
    world: World,
    seed: i64,
)
    requires
        keys_unique(acc),
    ensures
        keys_unique(accumulate_entries(acc, entries, c, filters, world, seed)),
    decreases entries.len(),
{
    if entries.len() > 0 {
        lemma_accumulate_entries_unique(acc, entries.drop_last(), c, filters, world, seed);
        let prev = accumulate_entries(acc, entries.drop_last(), c, filters, world, seed);
        let (t, raw) = entries.last();
        lemma_acc_update_unique(prev, t, consideration_score(c, raw), seed);
    }
}

proof fn lemma_accumulate_targeted_unique(
    cs: Seq<Consideration>,
    targeted: Map<InputId, ScoreMap>,
    filters: Seq<Filter>,
    world: World,
    seed: i64,
)
    ensures
        keys_unique(accumulate_targeted(cs, targeted, filters, world, seed)),
    decreases cs.len(),
{
    if cs.len() > 0 {
        lemma_accumulate_targeted_unique(cs.drop_last(), targeted, filters, world, seed);
        let c = cs.last();
        if c.consideration_type == ConsiderationType::Targeted && targeted.contains_key(c.input) {
            lemma_accumulate_entries_unique(
                accumulate_targeted(cs.drop_last(), targeted, filters, world, seed),
                targeted[c.input]@,
                c,
                filters,
                world,
                seed,
            );
        }
    }
}

/// No two candidates share both decision and target.
proof fn lemma_candidates_distinct(
    ds: Seq<Decision>,
    n: int,
    world: World,
    meta: AIMeta,
    entity: EntityId,
)
    requires
        0 <= n <= ds.len() <= usize::MAX,
    ensures
        ({
            let cands = candidates_upto(ds, n, world, meta, entity);
            forall|k1: int, k2: int|
                0 <= k1 < k2 < cands.len() ==> #[trigger] cands[k1].decision
                    != #[trigger] cands[k2].decision || cands[k1].target != cands[k2].target
        }),
    decreases n,
{
    if n > 0 {
        lemma_candidates_distinct(ds, n - 1, world, meta, entity);
        lemma_candidates_shape(ds, n - 1, world, meta, entity);
        let prev = candidates_upto(ds, n - 1, world, meta, entity);
        let cur = decision_candidates(ds[n - 1], n - 1, world, meta, entity);
        let all = prev + cur;
        let d = ds[n - 1];
        let s0 = simple_score(d.considerations@, meta.input_scores@, d.base_score);
        let acc = accumulate_targeted(
            d.considerations@,
            meta.targeted_input_scores@,
            d.target_filters@,
            world,
            s0,
        );
        lemma_accumulate_targeted_unique(
            d.considerations@,
            meta.targeted_input_scores@,
            d.target_filters@,
            world,
            s0,
        );
        assert forall|k: int| 0 <= k < cur.len() implies #[trigger] cur[k].decision == n - 1 by {
            if admits_all(d.subject_filters@, world.components(entity)) && d.is_targeted {
                assert(cur[k].decision == (n - 1) as usize);
            }
        }
        assert forall|k1: int, k2: int|
            0 <= k1 < k2 < all.len() implies #[trigger] all[k1].decision
                != #[trigger] all[k2].decision || all[k1].target != all[k2].target by {
            if k2 < prev.len() {
                assert(all[k1] == prev[k1]);
                assert(all[k2] == prev[k2]);
            } else if k1 < prev.len() {
                assert(all[k1] == prev[k1]);
                assert(all[k2] == cur[k2 - prev.len()]);
                assert(prev[k1].decision < n - 1);
            } else {
                let j1 = k1 - prev.len();
                let j2 = k2 - prev.len();
                assert(all[k1] == cur[j1]);
                assert(all[k2] == cur[j2]);
                assert(admits_all(d.subject_filters@, world.components(entity)) && d.is_targeted);
                assert(cur[j1].target == Some(acc[j1].0));
                assert(cur[j2].target == Some(acc[j2].0));
            }
        }
    }
}

/// Every decision has its own action.
pub open spec fn actions_distinct(ds: Seq<Decision>) -> bool {
    forall|i: int, j: int| 0 <= i < j < ds.len() ==> #[trigger] ds[i].action != #[trigger] ds[j].action
}

/// Inertia and transitions: let the active decision have a candidate for the
/// current target, with score `s`, and inertia `i`, and let every decision
/// have its own action. If every other candidate scores below `s + i`, the
/// winner is the current action and target, so nothing changes; if some other
/// candidate scores above `s + i`, the winner differs from the current action
/// or target, so a transition follows.
pub proof fn lemma_inertia_transition(
    def: AIDefinition,
    world: World,
    meta: AIMeta,
    entity: EntityId,
)
    requires
        def.decisions@.len() <= usize::MAX,
        actions_distinct(def.decisions@),
        active_index(def.decisions@, meta.current_action) >= 0,
        candidate_index(
            candidates(def, world, meta, entity),
            active_index(def.decisions@, meta.current_action),
            meta.current_target,
        ) >= 0,
        inertia_of(def, active_index(def.decisions@, meta.current_action)) >= 0,
    ensures
        ({
            let cands = candidates(def, world, meta, entity);
            let a = active_index(def.decisions@, meta.current_action);
            let p = candidate_index(cands, a, meta.current_target);
            let boosted = sat_add(cands[p].score, inertia_of(def, a));
            let s = scored(def, world, meta, entity);
            let w = s[best_index(s)];
            let same = Some(def.decisions@[w.decision as int].action) == meta.current_action
                && w.target == meta.current_target;
            &&& (forall|j: int| 0 <= j < cands.len() && j != p ==> #[trigger] cands[j].score < boosted)
                ==> same
            &&& (exists|j: int| 0 <= j < cands.len() && j != p && #[trigger] cands[j].score > boosted)
                ==> !same
        }),
{
    let ds = def.decisions@;
    let cands = candidates(def, world, meta, entity);
    let a = active_index(ds, meta.current_action);
    let p = candidate_index(cands, a, meta.current_target);
    let s = scored(def, world, meta, entity);
    lemma_inertia_hysteresis(cands, def, meta);
    lemma_first_match(ds, has_action(meta.current_action));
    lemma_first_match(cands, is_candidate_for(a, meta.current_target));
    lemma_candidates_shape(ds, ds.len() as int, world, meta, entity);
    lemma_candidates_distinct(ds, ds.len() as int, world, meta, entity);
    lemma_inertia_keeps_shape(cands, def, meta);
    lemma_best_index(s);
    let b = best_index(s);
    assert(s[b].decision == cands[b].decision && s[b].target == cands[b].target);
    if b != p {
        let db = cands[b].decision as int;
        if Some(ds[db].action) == meta.current_action && cands[b].target == meta.current_target {
            if db != a {
                if db < a {
                    assert(!has_action(meta.current_action)(ds[db]));
                } else {
                    assert(ds[a].action != ds[db].action);
                }
            }
            if b < p {
                assert(cands[b].decision != cands[p].decision || cands[b].target != cands[p].target);
            } else {
                assert(cands[p].decision != cands[b].decision || cands[p].target != cands[b].target);
            }
        }
    }
}

/// Whether every key of `acc` exists in `world` and passes `filters`.
pub open spec fn keys_admitted(acc: Seq<(EntityId, i64)>, filters: Seq<Filter>, world: World) -> bool {
    forall|i: int|
        0 <= i < acc.len() ==> world.has(#[trigger] acc[i].0) && admits_all(
            filters,
            world.components(acc[i].0),
        )
}

proof fn lemma_accumulate_entries_admitted(
    acc: Seq<(EntityId, i64)>,
    entries: Seq<(EntityId, i64)>,
    c: Consideration,
    filters: Seq<Filter>,
    world: World,
    seed: i64,
)
    requires
        keys_admitted(acc, filters, world),
    ensures
        keys_admitted(accumulate_entries(acc, entries, c, filters, world, seed), filters, world),
    decreases entries.len(),
{
    if entries.len() > 0 {
        lemma_accumulate_entries_admitted(acc, entries.drop_last(), c, filters, world, seed);
        let prev = accumulate_entries(acc, entries.drop_last(), c, filters, world, seed);
        let (t, raw) = entries.last();
        if world.has(t) && admits_all(filters, world.components(t)) {
            lemma_find_key(prev, t);
            let r = acc_update(prev, t, consideration_score(c, raw), seed);
            assert forall|i: int| 0 <= i < r.len() implies world.has(#[trigger] r[i].0) && admits_all(
                filters,
                world.components(r[i].0),
            ) by {
                if i < prev.len() && i != find_key(prev, t) {
                    assert(r[i] == prev[i]);
                }
            }
        }
    }
}

proof fn lemma_accumulate_targeted_admitted(
    cs: Seq<Consideration>,
    targeted: Map<InputId, ScoreMap>,
    filters: Seq<Filter>,
    world: World,
    seed: i64,
)
    ensures
        keys_admitted(accumulate_targeted(cs, targeted, filters, world, seed), filters, world),
    decreases cs.len(),
{
    if cs.len() > 0 {
        lemma_accumulate_targeted_admitted(cs.drop_last(), targeted, filters, world, seed);
        let c = cs.last();
        if c.consideration_type == ConsiderationType::Targeted && targeted.contains_key(c.input) {
            lemma_accumulate_entries_admitted(
                accumulate_targeted(cs.drop_last(), targeted, filters, world, seed),
                targeted[c.input]@,
                c,
                filters,
                world,
                seed,
            );
        }
    }
}

/// Every target among the candidates exists in `world` and passes the target
/// filters of the candidate's own decision. So a despawned target is never
/// scored, and a target is scored for a decision only when it passes that
/// decision's filters, whatever other decisions reading the same input ask.
pub proof fn lemma_candidate_targets_admitted(
    ds: Seq<Decision>,
    n: int,
    world: World,
    meta: AIMeta,
    entity: EntityId,
)
    requires
        0 <= n <= ds.len() <= usize::MAX,
    ensures
        forall|k: int|
            0 <= k < candidates_upto(ds, n, world, meta, entity).len() ==> {
                let c = #[trigger] candidates_upto(ds, n, world, meta, entity)[k];
                c.target matches Some(t) ==> world.has(t) && admits_all(
                    ds[c.decision as int].target_filters@,
                    world.components(t),
                )
            },
    decreases n,
{
    if n > 0 {
        lemma_candidate_targets_admitted(ds, n - 1, world, meta, entity);
        let prev = candidates_upto(ds, n - 1, world, meta, entity);
        let cur = decision_candidates(ds[n - 1], n - 1, world, meta, entity);
        let d = ds[n - 1];
        let s0 = simple_score(d.considerations@, meta.input_scores@, d.base_score);
        let acc = accumulate_targeted(
            d.considerations@,
            meta.targeted_input_scores@,
            d.target_filters@,
            world,
            s0,
        );
        lemma_accumulate_targeted_admitted(
            d.considerations@,
            meta.targeted_input_scores@,
            d.target_filters@,
            world,
            s0,
        );
        assert forall|k: int|
            0 <= k < (prev + cur).len() implies {
                let c = #[trigger] (prev + cur)[k];
                c.target matches Some(t) ==> world.has(t) && admits_all(
                    ds[c.decision as int].target_filters@,
                    world.components(t),
                )
            } by {
            if k < prev.len() {
                assert((prev + cur)[k] == prev[k]);
            } else {
                let j = k - prev.len();
                assert((prev + cur)[k] == cur[j]);
                if admits_all(d.subject_filters@, world.components(entity)) && d.is_targeted {
                    assert(cur[j] == Candidate {
                        decision: (n - 1) as usize,
                        target: Some(acc[j].0),
                        score: acc[j].1,
                    });
                    assert(world.has(acc[j].0));
                }
            }
        }
    }
}

proof fn lemma_entries_ignore_dead(
    acc: Seq<(EntityId, i64)>,
    entries: Seq<(EntityId, i64)>,
    c: Consideration,
    filters: Seq<Filter>,
    world: World,
    seed: i64,
)
    ensures
        accumulate_entries(acc, entries, c, filters, world, seed) == accumulate_entries(
            acc,
            entries.filter(alive_entry(world)),
            c,
            filters,
            world,
            seed,
        ),
    decreases entries.len(),
{
    reveal(Seq::filter);
    if entries.len() > 0 {
        let p = alive_entry(world);
        let rest = entries.drop_last();
        lemma_entries_ignore_dead(acc, rest, c, filters, world, seed);
        if p(entries.last()) {
            assert(rest.filter(p).push(entries.last()).drop_last() =~= rest.filter(p));
        }
    }
}

proof fn lemma_targeted_ignore_dead(
    cs: Seq<Consideration>,
    m1: Map<InputId, ScoreMap>,
    m2: Map<InputId, ScoreMap>,
    filters: Seq<Filter>,
    world: World,
    seed: i64,
)
    requires
        m2.dom() == m1.dom(),
        forall|k: InputId| #[trigger]
            m1.contains_key(k) ==> m2[k]@ == m1[k]@.filter(alive_entry(world)),
    ensures
        accumulate_targeted(cs, m1, filters, world, seed) == accumulate_targeted(
            cs,
            m2,
            filters,
            world,
            seed,
        ),
    decreases cs.len(),
{
    if cs.len() > 0 {
        lemma_targeted_ignore_dead(cs.drop_last(), m1, m2, filters, world, seed);
        let c = cs.last();
        if c.consideration_type == ConsiderationType::Targeted && m1.contains_key(c.input) {
            assert(m2.contains_key(c.input));
            lemma_entries_ignore_dead(
                accumulate_targeted(cs.drop_last(), m1, filters, world, seed),
                m1[c.input]@,
                c,
                filters,
                world,
                seed,
            );
        }
    }
}

/// Scoring ignores cached targets that no longer exist: dropping them from
/// every targeted cache leaves every candidate, and so every score and the
/// choice, as it was.
pub proof fn lemma_scoring_ignores_despawned(
    ds: Seq<Decision>,
    n: int,
    world: World,
    before: AIMeta,
    after: AIMeta,
    entity: EntityId,
)
    requires
        after.input_scores@ == before.input_scores@,
        after.targeted_input_scores@.dom() == before.targeted_input_scores@.dom(),
        forall|k: InputId| #[trigger]
            before.targeted_input_scores@.contains_key(k) ==> after.targeted_input_scores@[k]@
                == before.targeted_input_scores@[k]@.filter(alive_entry(world)),
    ensures
        candidates_upto(ds, n, world, before, entity) == candidates_upto(
            ds,
            n,
            world,
            after,
            entity,
        ),
    decreases n,
{
    if n > 0 {
        lemma_scoring_ignores_despawned(ds, n - 1, world, before, after, entity);
        let d = ds[n - 1];
        let s0 = simple_score(d.considerations@, before.input_scores@, d.base_score);
        lemma_targeted_ignore_dead(
            d.considerations@,
            before.targeted_input_scores@,
            after.targeted_input_scores@,
            d.target_filters@,
            world,
            s0,
        );
    }
}

} // verus!
