use crate::considerations::{Consideration, ConsiderationType};
use crate::decisions::{inertia_valid, Decision};
use crate::definitions::{
    decision_filter_req, filter_sets_view, merge_into, merge_spec, req_after, simple_inputs_of,
    targeted_inputs_match, targeted_requirement, AIDefinition, AIDefinitions, FilterDefinition,
    TargetedInputRequirements, clone_filters, reads_input,
};
use crate::identity::{InputId, MarkerId};
use std::collections::{HashMap, HashSet};
use vstd::prelude::*;
use vstd::string::StringExecFns;

verus! {

broadcast use vstd::std_specs::hash::group_hash_axioms;

/// The inputs that the considerations `cs` read as simple inputs.
pub open spec fn simple_inputs_in(cs: Seq<Consideration>) -> Set<InputId> {
    Set::new(
        |input: InputId|
            exists|j: int|
                0 <= j < cs.len() && #[trigger] cs[j].consideration_type == ConsiderationType::Simple
                    && cs[j].input == input,
    )
}

proof fn lemma_simple_inputs_push(ds: Seq<Decision>, d: Decision)
    ensures
        simple_inputs_of(ds.push(d)) == simple_inputs_of(ds).union(
            simple_inputs_in(d.considerations@),
        ),
{
    let nds = ds.push(d);
    let cs = d.considerations@;
    assert forall|k: InputId| #[trigger]
        simple_inputs_of(nds).contains(k) implies simple_inputs_of(ds).union(
        simple_inputs_in(cs),
    ).contains(k) by {
        let (i, j) = choose|i: int, j: int| #[trigger]
            reads_input(nds, i, j, ConsiderationType::Simple, k);
        if i < ds.len() {
            assert(reads_input(ds, i, j, ConsiderationType::Simple, k));
        } else {
            assert(cs[j].consideration_type == ConsiderationType::Simple);
        }
    }
    assert forall|k: InputId| #[trigger]
        simple_inputs_of(ds).union(simple_inputs_in(cs)).contains(k) implies simple_inputs_of(
        nds,
    ).contains(k) by {
        if simple_inputs_of(ds).contains(k) {
            let (i, j) = choose|i: int, j: int| #[trigger]
                reads_input(ds, i, j, ConsiderationType::Simple, k);
            assert(reads_input(nds, i, j, ConsiderationType::Simple, k));
        } else {
            let j = choose|j: int|
                0 <= j < cs.len() && #[trigger] cs[j].consideration_type
                    == ConsiderationType::Simple && cs[j].input == k;
            assert(reads_input(nds, ds.len() as int, j, ConsiderationType::Simple, k));
        }
    }
    assert(simple_inputs_of(nds) =~= simple_inputs_of(ds).union(simple_inputs_in(cs)));
}

/// Declares an AI for one behaviour marker, decision by decision, and then
/// registers it.
pub struct DefineUtilityAI {
    name: String,
    marker: MarkerId,
    decisions: Vec<Decision>,
    simple_inputs: HashSet<InputId>,
    targeted_inputs: HashMap<InputId, TargetedInputRequirements>,
    default_intertia: i64,
}

/// Registering a second definition for a marker is refused.
#[derive(Debug, Clone, Copy, PartialEq, Eq, Structural)]
pub enum RegisterError {
    AlreadyDefined(MarkerId),
}

impl DefineUtilityAI {
    #[verifier::type_invariant]
    spec fn inv(&self) -> bool {
        &&& inertia_valid(self.default_intertia as int)
        &&& forall|i: int| 0 <= i < self.decisions@.len() ==> (#[trigger] self.decisions@[i]).wf()
        &&& self.simple_inputs@ == simple_inputs_of(self.decisions@)
        &&& targeted_inputs_match(self.targeted_inputs@, self.decisions@)
    }

    pub closed spec fn spec_name(&self) -> Seq<char> {
        self.name@
    }

    pub closed spec fn spec_marker(&self) -> MarkerId {
        self.marker
    }

    pub closed spec fn spec_decisions(&self) -> Seq<Decision> {
        self.decisions@
    }

    pub closed spec fn spec_default_inertia(&self) -> i64 {
        self.default_intertia
    }

    /// An empty definition for `marker`, with default inertia 0.
    pub fn new(marker: MarkerId, name: &str) -> (r: DefineUtilityAI)
        ensures
            r.spec_name() == name@,
            r.spec_marker() == marker,
            r.spec_decisions().len() == 0,
            r.spec_default_inertia() == 0,
    {
        let decisions: Vec<Decision> = Vec::new();
        let simple_inputs: HashSet<InputId> = HashSet::new();
        let targeted_inputs: HashMap<InputId, TargetedInputRequirements> = HashMap::new();
        assert(simple_inputs_of(decisions@) =~= simple_inputs@);
        assert(targeted_inputs_match(targeted_inputs@, decisions@));
        DefineUtilityAI {
            name: String::from_str(name),
            marker,
            decisions,
            simple_inputs,
            targeted_inputs,
            default_intertia: 0,
        }
    }

    /// The requirement that `decision` places on the targets of its
    /// targeted inputs.
    fn decision_filter_definition(decision: &Decision) -> (r: FilterDefinition)
        ensures
            r@ == decision_filter_req(*decision),
    {
        if decision.target_filters.len() == 0 {
            FilterDefinition::Any
        } else {
            let sets = vec![clone_filters(&decision.target_filters)];
            assert(filter_sets_view(sets@) =~= seq![decision.target_filters@]);
            FilterDefinition::Filtered(sets)
        }
    }

    /// Adds a decision, and records the inputs it reads: each simple input,
    /// and each targeted input with the decision's target filters merged into
    /// that input's requirement.
    pub fn add_decision(self, decision: Decision) -> (r: DefineUtilityAI)
        requires
            decision.wf(),
        ensures
            r.spec_decisions() == self.spec_decisions().push(decision),
            r.spec_name() == self.spec_name(),
            r.spec_marker() == self.spec_marker(),
            r.spec_default_inertia() == self.spec_default_inertia(),
    {
        proof {
            use_type_invariant(&self);
        }
        let DefineUtilityAI {
            name,
            marker,
            mut decisions,
            mut simple_inputs,
            mut targeted_inputs,
            default_intertia,
        } = self;
        let ghost old_ds = decisions@;
        let ghost cs = decision.considerations@;
        let fd = DefineUtilityAI::decision_filter_definition(&decision);
        let ghost dreq = decision_filter_req(decision);
        let n = decision.considerations.len();
        let mut j: usize = 0;
        while j < n
            invariant
                n == cs.len(),
                cs == decision.considerations@,
                j <= n,
                fd@ == dreq,
                dreq == decision_filter_req(decision),
                simple_inputs@ == simple_inputs_of(old_ds).union(
                    simple_inputs_in(cs.subrange(0, j as int)),
                ),
                forall|k: InputId|
                    {
                        let acc = #[trigger] req_after(
                            cs.subrange(0, j as int),
                            dreq,
                            k,
                            targeted_requirement(old_ds, k),
                        );
                        &&& targeted_inputs@.contains_key(k) <==> acc is Some
                        &&& targeted_inputs@.contains_key(k) ==> Some(
                            targeted_inputs@[k].target_filter@,
                        ) == acc
                    },
            decreases n - j,
        {
            let c = &decision.considerations[j];
            let input = c.input;
            let ghost prev = cs.subrange(0, j as int);
            let ghost next = cs.subrange(0, j + 1);
            assert(next.drop_last() =~= prev);
            assert(next.last() == cs[j as int]);
            match c.consideration_type {
                ConsiderationType::Simple => {
                    simple_inputs.insert(input);
                    assert(simple_inputs_in(next) =~= simple_inputs_in(prev).insert(input)) by {
                        assert forall|k: InputId| #[trigger]
                            simple_inputs_in(next).contains(k) implies simple_inputs_in(
                            prev,
                        ).insert(input).contains(k) by {
                            let jj = choose|jj: int|
                                0 <= jj < next.len() && #[trigger] next[jj].consideration_type
                                    == ConsiderationType::Simple && next[jj].input == k;
                            if jj < j {
                                assert(prev[jj] == next[jj]);
                            }
                        }
                        assert forall|k: InputId| #[trigger]
                            simple_inputs_in(prev).insert(input).contains(k) implies simple_inputs_in(
                            next,
                        ).contains(k) by {
                            if k == input {
                                assert(next[j as int].consideration_type
                                    == ConsiderationType::Simple);
                            } else {
                                let jj = choose|jj: int|
                                    0 <= jj < prev.len() && #[trigger] prev[jj].consideration_type
                                        == ConsiderationType::Simple && prev[jj].input == k;
                                assert(next[jj] == prev[jj]);
                            }
                        }
                    }
                },
                ConsiderationType::Targeted => {
                    assert(simple_inputs_in(next) =~= simple_inputs_in(prev)) by {
                        assert forall|k: InputId| #[trigger]
                            simple_inputs_in(next).contains(k) implies simple_inputs_in(
                            prev,
                        ).contains(k) by {
                            let jj = choose|jj: int|
                                0 <= jj < next.len() && #[trigger] next[jj].consideration_type
                                    == ConsiderationType::Simple && next[jj].input == k;
                            assert(prev[jj] == next[jj]);
                        }
                        assert forall|k: InputId| #[trigger]
                            simple_inputs_in(prev).contains(k) implies simple_inputs_in(
                            next,
                        ).contains(k) by {
                            let jj = choose|jj: int|
                                0 <= jj < prev.len() && #[trigger] prev[jj].consideration_type
                                    == ConsiderationType::Simple && prev[jj].input == k;
                            assert(next[jj] == prev[jj]);
                        }
                    }
                    let ghost m0 = targeted_inputs@;
                    let ghost acc0 = req_after(prev, dreq, input, targeted_requirement(old_ds, input));
                    let merged = match targeted_inputs.remove(&input) {
                        Some(mut req) => {
                            assert(m0.contains_key(input) && req == m0[input]);
                            let mg = req.target_filter.merge(&fd);
                            assert(merge_into(acc0, dreq) == Some(mg@));
                            mg
                        },
                        None => {
                            let fd2 = DefineUtilityAI::decision_filter_definition(&decision);
                            assert(merge_into(acc0, dreq) == Some(fd2@));
                            fd2
                        },
                    };
                    assert(merge_into(acc0, dreq) == Some(merged@));
                    targeted_inputs.insert(input, TargetedInputRequirements { target_filter: merged });
                    assert(targeted_inputs@ == m0.insert(
                        input,
                        TargetedInputRequirements { target_filter: merged },
                    ));
                },
            }
            proof {
                assert forall|k: InputId|
                    #[trigger] req_after(next, dreq, k, targeted_requirement(old_ds, k)) == (if cs[
                        j as int
                    ].consideration_type == ConsiderationType::Targeted && cs[j as int].input
                        == k {
                        merge_into(req_after(prev, dreq, k, targeted_requirement(old_ds, k)), dreq)
                    } else {
                        req_after(prev, dreq, k, targeted_requirement(old_ds, k))
                    }) by {}
            }
            j = j + 1;
        }
        let ghost new_ds = old_ds.push(decision);
        decisions.push(decision);
        proof {
            assert(cs.subrange(0, n as int) =~= cs);
            assert(new_ds.drop_last() =~= old_ds);
            lemma_simple_inputs_push(old_ds, decision);
            assert forall|k: InputId| #[trigger]
                targeted_requirement(new_ds, k) == req_after(
                    cs,
                    dreq,
                    k,
                    targeted_requirement(old_ds, k),
                ) by {}
        }
        DefineUtilityAI {
            name,
            marker,
            decisions,
            simple_inputs,
            targeted_inputs,
            default_intertia,
        }
    }

    /// Sets the inertia of decisions that set none; in `[0, 1)`.
    pub fn set_default_intertia(self, value: i64) -> (r: DefineUtilityAI)
        requires
            inertia_valid(value as int),
        ensures
            r.spec_default_inertia() == value,
            r.spec_decisions() == self.spec_decisions(),
            r.spec_name() == self.spec_name(),
            r.spec_marker() == self.spec_marker(),
    {
        proof {
            use_type_invariant(&self);
        }
        let DefineUtilityAI { name, marker, decisions, simple_inputs, targeted_inputs, .. } = self;
        DefineUtilityAI {
            name,
            marker,
            decisions,
            simple_inputs,
            targeted_inputs,
            default_intertia: value,
        }
    }

    /// Files the definition in `registry` under its marker. A marker that
    /// already has a definition is refused and the registry is left as it was.
    pub fn register(self, registry: &mut AIDefinitions) -> (r: Result<(), RegisterError>)
        requires
            old(registry).wf(),
        ensures
            final(registry).wf(),
            old(registry).map@.contains_key(self.spec_marker()) ==> {
                &&& r == Err::<(), RegisterError>(RegisterError::AlreadyDefined(self.spec_marker()))
                &&& final(registry).map@ == old(registry).map@
            },
            !old(registry).map@.contains_key(self.spec_marker()) ==> {
                let d = final(registry).map@[self.spec_marker()];
                &&& r is Ok
                &&& final(registry).map@ == old(registry).map@.insert(self.spec_marker(), d)
                &&& d.marker_type == self.spec_marker()
                &&& d.name@ == self.spec_name()
                &&& d.decisions@ == self.spec_decisions()
                &&& d.default_intertia == self.spec_default_inertia()
            },
    {
        proof {
            use_type_invariant(&self);
        }
        if registry.map.contains_key(&self.marker) {
            return Err(RegisterError::AlreadyDefined(self.marker));
        }
        let DefineUtilityAI {
            name,
            marker,
            decisions,
            simple_inputs,
            targeted_inputs,
            default_intertia,
        } = self;
        let definition = AIDefinition {
            name,
            marker_type: marker,
            default_intertia,
            decisions,
            simple_inputs,
            targeted_inputs,
        };
        registry.map.insert(marker, definition);
        Ok(())
    }
}

} // verus!
