use crate::considerations::{Consideration, ConsiderationType};
use crate::decisions::{inertia_valid, Decision, Filter};
use crate::decisions::admits_all;
use crate::identity::{ComponentId, InputId, MarkerId};
use std::collections::{HashMap, HashSet};
use vstd::prelude::*;

verus! {

broadcast use vstd::std_specs::hash::group_hash_axioms;

/// The targets an input must be computed for: any entity, or any entity that
/// passes at least one of the listed filter sets.
#[derive(Debug)]
pub enum FilterDefinition {
    Any,
    Filtered(Vec<Vec<Filter>>),
}

/// `None` stands for `Any`, `Some(sets)` for `Filtered(sets)`.
pub open spec fn filter_sets_view(sets: Seq<Vec<Filter>>) -> Seq<Seq<Filter>> {
    sets.map_values(|v: Vec<Filter>| v@)
}

impl View for FilterDefinition {
    type V = Option<Seq<Seq<Filter>>>;

    open spec fn view(&self) -> Option<Seq<Seq<Filter>>> {
        match self {
            FilterDefinition::Any => None,
            FilterDefinition::Filtered(x) => Some(filter_sets_view(x@)),
        }
    }
}

/// Merging two requirements: `Any` absorbs everything, two filtered lists join.
pub open spec fn merge_spec(a: Option<Seq<Seq<Filter>>>, b: Option<Seq<Seq<Filter>>>) -> Option<
    Seq<Seq<Filter>>,
> {
    match (a, b) {
        (Some(x), Some(y)) => Some(x + y),
        _ => None,
    }
}

pub(crate) fn clone_filters(v: &Vec<Filter>) -> (r: Vec<Filter>)
    ensures
        r@ == v@,
{
    let mut r: Vec<Filter> = Vec::new();
    let mut i: usize = 0;
    while i < v.len()
        invariant
            i <= v@.len(),
            r@ == v@.subrange(0, i as int),
        decreases v.len() - i,
    {
        r.push(v[i]);
        i = i + 1;
    }
    assert(r@ =~= v@);
    r
}

/// Appends copies of the filter sets of `src` to `dst`.
fn extend_filter_sets(dst: &mut Vec<Vec<Filter>>, src: &Vec<Vec<Filter>>)
    ensures
        filter_sets_view(final(dst)@) == filter_sets_view(old(dst)@) + filter_sets_view(src@),
{
    let ghost start = filter_sets_view(dst@);
    let mut i: usize = 0;
    while i < src.len()
        invariant
            i <= src@.len(),
            filter_sets_view(dst@) == start + filter_sets_view(src@.subrange(0, i as int)),
        decreases src.len() - i,
    {
        let f = clone_filters(&src[i]);
        let ghost before = dst@;
        dst.push(f);
        assert(filter_sets_view(dst@) =~= filter_sets_view(before).push(f@));
        assert(filter_sets_view(src@.subrange(0, i + 1)) =~= filter_sets_view(
            src@.subrange(0, i as int),
        ).push(src@[i as int]@));
        i = i + 1;
    }
    assert(src@.subrange(0, src@.len() as int) =~= src@);
}

impl FilterDefinition {
    /// The merge of `self` and `other`; `self` is left as it is.
    pub fn merge(&mut self, other: &FilterDefinition) -> (r: FilterDefinition)
        ensures
            *final(self) == *old(self),
            r@ == merge_spec(old(self)@, other@),
    {
        match (&*self, other) {
            (FilterDefinition::Filtered(x), FilterDefinition::Filtered(y)) => {
                let mut joined: Vec<Vec<Filter>> = Vec::new();
                extend_filter_sets(&mut joined, x);
                extend_filter_sets(&mut joined, y);
                assert(filter_sets_view(joined@) =~= filter_sets_view(x@) + filter_sets_view(y@));
                FilterDefinition::Filtered(joined)
            },
            _ => FilterDefinition::Any,
        }
    }
}

/// Whether a target with components `comps` meets the requirement `req`:
/// `Any` (`None`) admits every target, a list of filter sets admits a target
/// that passes one of them.
pub open spec fn requirement_admits(req: Option<Seq<Seq<Filter>>>, comps: Set<ComponentId>) -> bool {
    exists|i: int| #[trigger] admitted_by_set(req, i, comps)
}

/// Whether `req` admits `comps` through its filter set `i`; `Any` admits
/// every set of components.
pub open spec fn admitted_by_set(req: Option<Seq<Seq<Filter>>>, i: int, comps: Set<ComponentId>) -> bool {
    match req {
        None => true,
        Some(sets) => 0 <= i < sets.len() && admits_all(sets[i], comps),
    }
}

/// What one decision asks of the targets of its targeted inputs: `Any`
/// without target filters, else its target filters as one filter set.
pub open spec fn decision_filter_req(d: Decision) -> Option<Seq<Seq<Filter>>> {
    if d.target_filters@.len() == 0 {
        None
    } else {
        Some(seq![d.target_filters@])
    }
}

/// Adds one requirement to an accumulated one (`None`: nothing yet).
pub open spec fn merge_into(
    acc: Option<Option<Seq<Seq<Filter>>>>,
    r: Option<Seq<Seq<Filter>>>,
) -> Option<Option<Seq<Seq<Filter>>>> {
    match acc {
        None => Some(r),
        Some(a) => Some(merge_spec(a, r)),
    }
}

/// The requirement on targets of `input` after the considerations `cs` of a
/// decision whose own requirement is `dreq`, starting from `acc`.
pub open spec fn req_after(
    cs: Seq<Consideration>,
    dreq: Option<Seq<Seq<Filter>>>,
    input: InputId,
    acc: Option<Option<Seq<Seq<Filter>>>>,
) -> Option<Option<Seq<Seq<Filter>>>>
    decreases cs.len(),
{
    if cs.len() == 0 {
        acc
    } else {
        let prev = req_after(cs.drop_last(), dreq, input, acc);
        let c = cs.last();
        if c.consideration_type == ConsiderationType::Targeted && c.input == input {
            merge_into(prev, dreq)
        } else {
            prev
        }
    }
}

/// The merged requirement on the targets of `input` over the decisions `ds`,
/// in order; `None` when no decision reads `input` as a targeted input.
pub open spec fn targeted_requirement(ds: Seq<Decision>, input: InputId) -> Option<
    Option<Seq<Seq<Filter>>>,
>
    decreases ds.len(),
{
    if ds.len() == 0 {
        None
    } else {
        let d = ds.last();
        req_after(
            d.considerations@,
            decision_filter_req(d),
            input,
            targeted_requirement(ds.drop_last(), input),
        )
    }
}

/// Whether consideration `j` of decision `i` is of type `t` and reads `input`.
pub open spec fn reads_input(
    ds: Seq<Decision>,
    i: int,
    j: int,
    t: ConsiderationType,
    input: InputId,
) -> bool {
    &&& 0 <= i < ds.len()
    &&& 0 <= j < ds[i].considerations@.len()
    &&& ds[i].considerations@[j].consideration_type == t
    &&& ds[i].considerations@[j].input == input
}

/// The inputs that some decision of `ds` reads as a simple input.
pub open spec fn simple_inputs_of(ds: Seq<Decision>) -> Set<InputId> {
    Set::new(
        |input: InputId|
            exists|i: int, j: int| #[trigger] reads_input(ds, i, j, ConsiderationType::Simple, input),
    )
}

pub struct TargetedInputRequirements {
    pub target_filter: FilterDefinition,
}

/// Whether `m` holds exactly the merged target requirements of `ds`.
pub open spec fn targeted_inputs_match(
    m: Map<InputId, TargetedInputRequirements>,
    ds: Seq<Decision>,
) -> bool {
    forall|k: InputId|
        {
            &&& m.contains_key(k) <==> (#[trigger] targeted_requirement(ds, k)) is Some
            &&& m.contains_key(k) ==> Some(m[k].target_filter@) == targeted_requirement(ds, k)
        }
}

/// An AI: a list of decisions, with the inputs that they read.
pub struct AIDefinition {
    /// The name of this definition.
    pub name: String,
    /// The behaviour marker this definition belongs to.
    pub marker_type: MarkerId,
    /// The inertia of a decision that sets none.
    pub default_intertia: i64,
    /// The decisions that make up this definition, in order.
    pub decisions: Vec<Decision>,
    /// The inputs read by simple considerations.
    pub simple_inputs: HashSet<InputId>,
    /// The inputs read by targeted considerations, with the merged
    /// requirement on their targets.
    pub targeted_inputs: HashMap<InputId, TargetedInputRequirements>,
}

impl AIDefinition {
    /// Well formed: valid decisions and default inertia, and the input sets
    /// are those that the decisions read.
    pub open spec fn wf(&self) -> bool {
        &&& inertia_valid(self.default_intertia as int)
        &&& forall|i: int| 0 <= i < self.decisions@.len() ==> (#[trigger] self.decisions@[i]).wf()
        &&& self.simple_inputs@ == simple_inputs_of(self.decisions@)
        &&& targeted_inputs_match(self.targeted_inputs@, self.decisions@)
    }

    pub fn requires_targeted_input(&self, input: &InputId) -> (r: bool)
        ensures
            r == self.targeted_inputs@.contains_key(*input),
            self.wf() ==> (r <==> targeted_requirement(self.decisions@, *input) is Some),
    {
        self.targeted_inputs.contains_key(input)
    }

    pub fn requires_simple_input(&self, input: &InputId) -> (r: bool)
        ensures
            r == self.simple_inputs@.contains(*input),
            self.wf() ==> (r <==> simple_inputs_of(self.decisions@).contains(*input)),
    {
        self.simple_inputs.contains(input)
    }

    pub fn get_targeted_input_requirements(&self, input: &InputId) -> (r:
        &TargetedInputRequirements)
        requires
            self.targeted_inputs@.contains_key(*input),
        ensures
            *r == self.targeted_inputs@[*input],
    {
        self.targeted_inputs.get(input).unwrap()
    }
}

/// The registry of AI definitions, keyed by behaviour marker.
pub struct AIDefinitions {
    pub map: HashMap<MarkerId, AIDefinition>,
}

impl AIDefinitions {
    /// Every definition is well formed and filed under its own marker.
    pub open spec fn wf(&self) -> bool {
        forall|k: MarkerId|
            #[trigger] self.map@.contains_key(k) ==> self.map@[k].wf() && self.map@[k].marker_type
                == k
    }

    pub fn new() -> (r: AIDefinitions)
        ensures
            r.wf(),
            r.map@ == Map::<MarkerId, AIDefinition>::empty(),
    {
        AIDefinitions { map: HashMap::new() }
    }

    pub fn contains(&self, marker: MarkerId) -> (r: bool)
        ensures
            r == self.map@.contains_key(marker),
    {
        self.map.contains_key(&marker)
    }

    pub fn get(&self, marker: MarkerId) -> (r: Option<&AIDefinition>)
        ensures
            match r {
                Some(d) => self.map@.contains_key(marker) && *d == self.map@[marker],
                None => !self.map@.contains_key(marker),
            },
    {
        self.map.get(&marker)
    }
}

/// Joining two requirements admits what either admits.
pub proof fn lemma_merge_admits(
    a: Option<Seq<Seq<Filter>>>,
    b: Option<Seq<Seq<Filter>>>,
    comps: Set<ComponentId>,
)
    ensures
        requirement_admits(merge_spec(a, b), comps) == (requirement_admits(a, comps)
            || requirement_admits(b, comps)),
{
    match (a, b) {
        (Some(x), Some(y)) => {
            if requirement_admits(merge_spec(a, b), comps) {
                let i = choose|i: int| #[trigger] admitted_by_set(Some(x + y), i, comps);
                if i < x.len() {
                    assert((x + y)[i] == x[i]);
                    assert(admitted_by_set(a, i, comps));
                } else {
                    assert((x + y)[i] == y[i - x.len()]);
                    assert(admitted_by_set(b, i - x.len(), comps));
                }
            }
            if requirement_admits(a, comps) {
                let i = choose|i: int| #[trigger] admitted_by_set(a, i, comps);
                assert((x + y)[i] == x[i]);
                assert(admitted_by_set(Some(x + y), i, comps));
            }
            if requirement_admits(b, comps) {
                let i = choose|i: int| #[trigger] admitted_by_set(b, i, comps);
                assert((x + y)[x.len() + i] == y[i]);
                assert(admitted_by_set(Some(x + y), x.len() + i, comps));
            }
        },
        _ => {
            assert(admitted_by_set(merge_spec(a, b), 0, comps));
            if a is None {
                assert(admitted_by_set(a, 0, comps));
            } else {
                assert(admitted_by_set(b, 0, comps));
            }
        },
    }
}

/// A decision's own requirement admits exactly what its target filters admit.
proof fn lemma_decision_req_admits(d: Decision, comps: Set<ComponentId>)
    ensures
        requirement_admits(decision_filter_req(d), comps) == admits_all(d.target_filters@, comps),
{
    if d.target_filters@.len() == 0 {
        assert(admitted_by_set(decision_filter_req(d), 0, comps));
    } else {
        let sets = seq![d.target_filters@];
        if admits_all(d.target_filters@, comps) {
            assert(admitted_by_set(Some(sets), 0, comps));
        }
        if requirement_admits(decision_filter_req(d), comps) {
            let i = choose|i: int| #[trigger] admitted_by_set(Some(sets), i, comps);
            assert(i == 0);
        }
    }
}

/// Whether some consideration of `cs` reads `input` as a targeted input.
pub open spec fn reads_targeted_in(cs: Seq<Consideration>, input: InputId) -> bool {
    exists|j: int|
        0 <= j < cs.len() && #[trigger] cs[j].consideration_type == ConsiderationType::Targeted
            && cs[j].input == input
}

proof fn lemma_req_after_admits(
    cs: Seq<Consideration>,
    dreq: Option<Seq<Seq<Filter>>>,
    input: InputId,
    acc: Option<Option<Seq<Seq<Filter>>>>,
    comps: Set<ComponentId>,
)
    ensures
        (req_after(cs, dreq, input, acc) is Some) == (acc is Some || reads_targeted_in(cs, input)),
        req_after(cs, dreq, input, acc) is Some ==> (requirement_admits(
            req_after(cs, dreq, input, acc).unwrap(),
            comps,
        ) == ((acc is Some && requirement_admits(acc.unwrap(), comps)) || (reads_targeted_in(
            cs,
            input,
        ) && requirement_admits(dreq, comps)))),
    decreases cs.len(),
{
    if cs.len() > 0 {
        let prev_cs = cs.drop_last();
        lemma_req_after_admits(prev_cs, dreq, input, acc, comps);
        let prev = req_after(prev_cs, dreq, input, acc);
        let c = cs.last();
        assert(reads_targeted_in(cs, input) == (reads_targeted_in(prev_cs, input) || (
        c.consideration_type == ConsiderationType::Targeted && c.input == input))) by {
            if reads_targeted_in(cs, input) {
                let j = choose|j: int|
                    0 <= j < cs.len() && #[trigger] cs[j].consideration_type
                        == ConsiderationType::Targeted && cs[j].input == input;
                if j < cs.len() - 1 {
                    assert(prev_cs[j] == cs[j]);
                }
            }
            if reads_targeted_in(prev_cs, input) {
                let j = choose|j: int|
                    0 <= j < prev_cs.len() && #[trigger] prev_cs[j].consideration_type
                        == ConsiderationType::Targeted && prev_cs[j].input == input;
                assert(prev_cs[j] == cs[j]);
            }
            if c.consideration_type == ConsiderationType::Targeted && c.input == input {
                assert(cs[cs.len() - 1] == c);
            }
        }
        if c.consideration_type == ConsiderationType::Targeted && c.input == input {
            if let Some(a) = prev {
                lemma_merge_admits(a, dreq, comps);
            }
        }
    }
}

/// The merged requirement on the targets of a targeted input admits a target
/// exactly when the target filters of some decision that reads the input
/// admit it; an input is required exactly when some decision reads it.
pub proof fn lemma_requirement_is_union(ds: Seq<Decision>, input: InputId, comps: Set<ComponentId>)
    ensures
        (targeted_requirement(ds, input) is Some) == (exists|i: int, j: int|
            #[trigger] reads_input(ds, i, j, ConsiderationType::Targeted, input)),
        targeted_requirement(ds, input) is Some ==> (requirement_admits(
            targeted_requirement(ds, input).unwrap(),
            comps,
        ) == (exists|i: int, j: int|
            #[trigger] reads_input(ds, i, j, ConsiderationType::Targeted, input) && admits_all(
                ds[i].target_filters@,
                comps,
            ))),
    decreases ds.len(),
{
    if ds.len() > 0 {
        let prev = ds.drop_last();
        let d = ds.last();
        let n = ds.len() - 1;
        lemma_requirement_is_union(prev, input, comps);
        lemma_req_after_admits(
            d.considerations@,
            decision_filter_req(d),
            input,
            targeted_requirement(prev, input),
            comps,
        );
        lemma_decision_req_admits(d, comps);
        if targeted_requirement(prev, input) is Some {
            let (i, j) = choose|i: int, j: int|
                #[trigger] reads_input(prev, i, j, ConsiderationType::Targeted, input);
            assert(prev[i] == ds[i]);
            assert(reads_input(ds, i, j, ConsiderationType::Targeted, input));
        }
        assert forall|i: int, j: int|
            #[trigger] reads_input(ds, i, j, ConsiderationType::Targeted, input) && i < n implies reads_input(
            prev,
            i,
            j,
            ConsiderationType::Targeted,
            input,
        ) by {
            assert(prev[i] == ds[i]);
        }
        if reads_targeted_in(d.considerations@, input) {
            let j = choose|j: int|
                0 <= j < d.considerations@.len() && #[trigger] d.considerations@[j].consideration_type
                    == ConsiderationType::Targeted && d.considerations@[j].input == input;
            assert(reads_input(ds, n, j, ConsiderationType::Targeted, input));
        }
        if exists|i: int, j: int| #[trigger] reads_input(ds, i, j, ConsiderationType::Targeted, input) {
            let (i, j) = choose|i: int, j: int|
                #[trigger] reads_input(ds, i, j, ConsiderationType::Targeted, input);
            if i == n {
                assert(reads_targeted_in(d.considerations@, input));
            } else {
                assert(reads_input(prev, i, j, ConsiderationType::Targeted, input));
            }
        }
        if targeted_requirement(ds, input) is Some {
            let lhs = requirement_admits(targeted_requirement(ds, input).unwrap(), comps);
            if lhs {
                if targeted_requirement(prev, input) is Some && requirement_admits(
                    targeted_requirement(prev, input).unwrap(),
                    comps,
                ) {
                    let (i, j) = choose|i: int, j: int|
                        #[trigger] reads_input(prev, i, j, ConsiderationType::Targeted, input)
                            && admits_all(prev[i].target_filters@, comps);
                    assert(reads_input(ds, i, j, ConsiderationType::Targeted, input));
                    assert(prev[i] == ds[i]);
                } else {
                    let j = choose|j: int|
                        0 <= j < d.considerations@.len()
                            && #[trigger] d.considerations@[j].consideration_type
                            == ConsiderationType::Targeted && d.considerations@[j].input == input;
                    assert(reads_input(ds, n, j, ConsiderationType::Targeted, input));
                }
            }
            if exists|i: int, j: int|
                #[trigger] reads_input(ds, i, j, ConsiderationType::Targeted, input) && admits_all(
                    ds[i].target_filters@,
                    comps,
                ) {
                let (i, j) = choose|i: int, j: int|
                    #[trigger] reads_input(ds, i, j, ConsiderationType::Targeted, input)
                        && admits_all(ds[i].target_filters@, comps);
                if i == n {
                    assert(reads_targeted_in(d.considerations@, input));
                } else {
                    assert(prev[i] == ds[i]);
                    assert(reads_input(prev, i, j, ConsiderationType::Targeted, input));
                }
            }
        }
    }
}

} // verus!
