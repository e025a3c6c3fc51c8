use crate::considerations::{Consideration, ConsiderationType};
use crate::fixed::SCALE;
use crate::identity::{random_tag, ActionId, ComponentId};
use vstd::prelude::*;
use vstd::string::StringExecFns;

verus! {

/// A condition on an entity's set of components.
#[derive(Debug, Copy, Clone, PartialEq, Eq, Structural)]
pub enum Filter {
    /// The entity must carry this component.
    Inclusive(ComponentId),
    /// The entity must not carry this component.
    Exclusive(ComponentId),
}

impl Filter {
    pub open spec fn component_spec(&self) -> ComponentId {
        match self {
            Filter::Inclusive(t) => *t,
            Filter::Exclusive(t) => *t,
        }
    }

    /// Whether an entity with the component set `components` passes the filter.
    pub open spec fn admits(&self, components: Set<ComponentId>) -> bool {
        match self {
            Filter::Inclusive(t) => components.contains(*t),
            Filter::Exclusive(t) => !components.contains(*t),
        }
    }

    pub fn component_type_id(&self) -> (r: ComponentId)
        ensures
            r == self.component_spec(),
    {
        match self {
            Filter::Inclusive(t) => *t,
            Filter::Exclusive(t) => *t,
        }
    }
}

/// Whether `components` passes every filter of `filters`.
pub open spec fn admits_all(filters: Seq<Filter>, components: Set<ComponentId>) -> bool {
    forall|i: int| 0 <= i < filters.len() ==> #[trigger] filters[i].admits(components)
}

/// Length of the random tag that makes a decision's default name unique.
pub const TAG_LEN: usize = 5;

/// A candidate action with the considerations that weigh it.
///
/// Its score starts at `base_score` and is multiplied by the score of each
/// consideration. A targeted decision is scored once per candidate target.
pub struct Decision {
    pub id: uuid::Uuid,
    pub name: String,
    pub action_name: String,
    /// The action this decision switches on.
    pub action: ActionId,
    pub is_targeted: bool,
    pub considerations: Vec<Consideration>,
    /// One-millionths; strictly between 0 and 10.
    pub base_score: i64,
    pub subject_filters: Vec<Filter>,
    pub target_filters: Vec<Filter>,
    /// Bonus added to this decision's score while it is active; when absent
    /// the definition's default applies. In `[0, 1)`.
    pub intertia: Option<i64>,
}

/// Base scores lie strictly between 0 and 10.
pub open spec fn base_score_valid(score: int) -> bool {
    0 < score < 10 * SCALE
}

/// Inertia lies in `[0, 1)`.
pub open spec fn inertia_valid(inertia: int) -> bool {
    0 <= inertia < SCALE
}

impl Decision {
    /// A well-formed decision: valid base score and inertia, considerations
    /// with valid bounds, and a simple decision has neither targeted
    /// considerations nor target filters.
    pub open spec fn wf(&self) -> bool {
        &&& base_score_valid(self.base_score as int)
        &&& (self.intertia matches Some(i) ==> inertia_valid(i as int))
        &&& forall|i: int|
            0 <= i < self.considerations@.len() ==> (#[trigger] self.considerations@[i]).wf()
        &&& !self.is_targeted ==> {
            &&& self.target_filters@.len() == 0
            &&& forall|i: int|
                0 <= i < self.considerations@.len()
                    ==> (#[trigger] self.considerations@[i]).consideration_type
                    == ConsiderationType::Simple
        }
    }

    fn construct(action: ActionId, action_name: &str, is_targeted: bool) -> (r: Decision)
        ensures
            r.wf(),
            r.action == action,
            r.action_name@ == action_name@,
            r.is_targeted == is_targeted,
            r.considerations@.len() == 0,
            r.base_score == SCALE,
            r.subject_filters@.len() == 0,
            r.target_filters@.len() == 0,
            r.intertia is None,
            r.name@.len() == action_name@.len() + 1 + TAG_LEN,
            r.name@.subrange(0, action_name@.len() as int) == action_name@,
            r.name@[action_name@.len() as int] == '_',
            forall|i: int|
                action_name@.len() < i < r.name@.len() ==> ('a' <= #[trigger] r.name@[i] <= 'z')
                    || ('0' <= r.name@[i] <= '9'),
    {
        proof {
            reveal_strlit("_");
        }
        let tag = random_tag(TAG_LEN);
        let mut name = String::from_str(action_name);
        name.append("_");
        name.append(tag.as_str());
        assert(name@.subrange(0, action_name@.len() as int) =~= action_name@);
        assert forall|i: int| action_name@.len() < i < name@.len() implies name@[i] == tag@[i
            - action_name@.len() - 1] by {}
        Decision {
            id: uuid::Uuid::new_v4(),
            name,
            action_name: String::from_str(action_name),
            action,
            is_targeted,
            base_score: SCALE,
            considerations: Vec::new(),
            subject_filters: Vec::new(),
            target_filters: Vec::new(),
            intertia: None,
        }
    }

    /// A decision without a target. Its name is the action's name, `_` and a
    /// random tag.
    pub fn simple(action: ActionId, action_name: &str) -> (r: Decision)
        ensures
            r.wf(),
            r.action == action,
            r.action_name@ == action_name@,
            !r.is_targeted,
            r.considerations@.len() == 0,
            r.base_score == SCALE,
            r.subject_filters@.len() == 0,
            r.target_filters@.len() == 0,
            r.intertia is None,
            r.name@.len() == action_name@.len() + 1 + TAG_LEN,
            r.name@.subrange(0, action_name@.len() as int) == action_name@,
            r.name@[action_name@.len() as int] == '_',
            forall|i: int|
                action_name@.len() < i < r.name@.len() ==> ('a' <= #[trigger] r.name@[i] <= 'z')
                    || ('0' <= r.name@[i] <= '9'),
    {
        Decision::construct(action, action_name, false)
    }

    /// A decision scored per candidate target.
    pub fn targeted(action: ActionId, action_name: &str) -> (r: Decision)
        ensures
            r.wf(),
            r.action == action,
            r.action_name@ == action_name@,
            r.is_targeted,
            r.considerations@.len() == 0,
            r.base_score == SCALE,
            r.subject_filters@.len() == 0,
            r.target_filters@.len() == 0,
            r.intertia is None,
            r.name@.len() == action_name@.len() + 1 + TAG_LEN,
            r.name@.subrange(0, action_name@.len() as int) == action_name@,
            r.name@[action_name@.len() as int] == '_',
            forall|i: int|
                action_name@.len() < i < r.name@.len() ==> ('a' <= #[trigger] r.name@[i] <= 'z')
                    || ('0' <= r.name@[i] <= '9'),
    {
        Decision::construct(action, action_name, true)
    }

    /// Adds a consideration; a simple decision takes simple considerations only.
    pub fn add_consideration(self, consideration: Consideration) -> (r: Decision)
        requires
            self.is_targeted || consideration.consideration_type == ConsiderationType::Simple,
        ensures
            r.considerations@ == self.considerations@.push(consideration),
            self.wf() && consideration.wf() ==> r.wf(),
            r.id == self.id,
            r.name == self.name,
            r.action_name == self.action_name,
            r.action == self.action,
            r.is_targeted == self.is_targeted,
            r.base_score == self.base_score,
            r.subject_filters == self.subject_filters,
            r.target_filters == self.target_filters,
            r.intertia == self.intertia,
    {
        let mut d = self;
        d.considerations.push(consideration);
        d
    }

    /// The subject must carry `component` for this decision to be scored.
    pub fn subject_filter_include(self, component: ComponentId) -> (r: Decision)
        ensures
            r.subject_filters@ == self.subject_filters@.push(Filter::Inclusive(component)),
            self.wf() ==> r.wf(),
            r.id == self.id,
            r.name == self.name,
            r.action_name == self.action_name,
            r.action == self.action,
            r.is_targeted == self.is_targeted,
            r.considerations == self.considerations,
            r.base_score == self.base_score,
            r.target_filters == self.target_filters,
            r.intertia == self.intertia,
    {
        let mut d = self;
        d.subject_filters.push(Filter::Inclusive(component));
        d
    }

    /// The subject must not carry `component` for this decision to be scored.
    pub fn subject_filter_exclude(self, component: ComponentId) -> (r: Decision)
        ensures
            r.subject_filters@ == self.subject_filters@.push(Filter::Exclusive(component)),
            self.wf() ==> r.wf(),
            r.id == self.id,
            r.name == self.name,
            r.action_name == self.action_name,
            r.action == self.action,
            r.is_targeted == self.is_targeted,
            r.considerations == self.considerations,
            r.base_score == self.base_score,
            r.target_filters == self.target_filters,
            r.intertia == self.intertia,
    {
        let mut d = self;
        d.subject_filters.push(Filter::Exclusive(component));
        d
    }

    /// Targets must carry `component`; only targeted decisions have target
    /// filters.
    pub fn target_filter_include(self, component: ComponentId) -> (r: Decision)
        requires
            self.is_targeted,
        ensures
            r.target_filters@ == self.target_filters@.push(Filter::Inclusive(component)),
            self.wf() ==> r.wf(),
            r.id == self.id,
            r.name == self.name,
            r.action_name == self.action_name,
            r.action == self.action,
            r.is_targeted == self.is_targeted,
            r.considerations == self.considerations,
            r.base_score == self.base_score,
            r.subject_filters == self.subject_filters,
            r.intertia == self.intertia,
    {
        let mut d = self;
        d.target_filters.push(Filter::Inclusive(component));
        d
    }

    /// Targets must not carry `component`; only targeted decisions have
    /// target filters.
    pub fn target_filter_exclude(self, component: ComponentId) -> (r: Decision)
        requires
            self.is_targeted,
        ensures
            r.target_filters@ == self.target_filters@.push(Filter::Exclusive(component)),
            self.wf() ==> r.wf(),
            r.id == self.id,
            r.name == self.name,
            r.action_name == self.action_name,
            r.action == self.action,
            r.is_targeted == self.is_targeted,
            r.considerations == self.considerations,
            r.base_score == self.base_score,
            r.subject_filters == self.subject_filters,
            r.intertia == self.intertia,
    {
        let mut d = self;
        d.target_filters.push(Filter::Exclusive(component));
        d
    }

    /// Sets the base score, the starting value that each consideration's
    /// score multiplies; it must lie strictly between 0 and 10. A decision
    /// without considerations scores its base score, which makes a fallback.
    pub fn set_base_score(self, score: i64) -> (r: Decision)
        requires
            base_score_valid(score as int),
        ensures
            r.base_score == score,
            self.wf() ==> r.wf(),
            r.id == self.id,
            r.name == self.name,
            r.action_name == self.action_name,
            r.action == self.action,
            r.is_targeted == self.is_targeted,
            r.considerations == self.considerations,
            r.subject_filters == self.subject_filters,
            r.target_filters == self.target_filters,
            r.intertia == self.intertia,
    {
        let mut d = self;
        d.base_score = score;
        d
    }

    /// Sets this decision's inertia, in `[0, 1)`: a bonus added to its score
    /// while it is the active one, so that the agent does not flip between
    /// two near-equal choices.
    pub fn set_intertia(self, intertia: i64) -> (r: Decision)
        requires
            inertia_valid(intertia as int),
        ensures
            r.intertia == Some(intertia),
            self.wf() ==> r.wf(),
            r.id == self.id,
            r.name == self.name,
            r.action_name == self.action_name,
            r.action == self.action,
            r.is_targeted == self.is_targeted,
            r.considerations == self.considerations,
            r.base_score == self.base_score,
            r.subject_filters == self.subject_filters,
            r.target_filters == self.target_filters,
    {
        let mut d = self;
        d.intertia = Some(intertia);
        d
    }

    pub fn with_name(self, name: &str) -> (r: Decision)
        ensures
            r.name@ == name@,
            self.wf() ==> r.wf(),
            r.id == self.id,
            r.action_name == self.action_name,
            r.action == self.action,
            r.is_targeted == self.is_targeted,
            r.considerations == self.considerations,
            r.base_score == self.base_score,
            r.subject_filters == self.subject_filters,
            r.target_filters == self.target_filters,
            r.intertia == self.intertia,
    {
        let mut d = self;
        d.name = String::from_str(name);
        d
    }
}

} // verus!
