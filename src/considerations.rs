use crate::fixed::{clamp, clamp_spec, SCALE};
use crate::identity::InputId;
use crate::response_curves::{curve_text, InputTransform, Linear, ResponseCurve};
use vstd::prelude::*;
use vstd::string::StringExecFns;

verus! {

#[derive(Debug, Clone, Copy, PartialEq, Eq, Structural)]
pub enum ConsiderationType {
    /// Reads an input computed per entity.
    Simple,
    /// Reads an input computed per entity and target.
    Targeted,
}

/// A transformed view on an input: the input's raw value goes through a
/// response curve and is clamped to `[lower_bound, upper_bound]`, giving a
/// weight for a decision.
pub struct Consideration {
    pub id: uuid::Uuid,
    pub name: String,
    /// The input this consideration reads.
    pub input: InputId,
    pub response_curve: ResponseCurve,
    pub consideration_type: ConsiderationType,
    /// The name of the input.
    pub input_name: String,
    /// Lower bound of the score, one-millionths; defaults to 0 and is never
    /// negative.
    pub lower_bound: i64,
    /// Upper bound of the score, one-millionths; defaults to `SCALE` (1.0) and
    /// is greater than the lower bound.
    pub upper_bound: i64,
}

impl Consideration {
    /// The bounds are valid: `0 <= lower_bound < upper_bound`.
    pub open spec fn wf(&self) -> bool {
        0 <= self.lower_bound < self.upper_bound
    }

    /// The score for a raw input `x`: the curve's value, clamped to the bounds.
    pub open spec fn score_spec(&self, x: int) -> int {
        clamp_spec(self.response_curve.value(x), self.lower_bound as int, self.upper_bound as int)
    }

    pub fn calculate_score(&self, input_score: i64) -> (r: i64)
        requires
            self.lower_bound <= self.upper_bound,
        ensures
            r == self.score_spec(input_score as int),
    {
        let v = self.response_curve.transform(input_score);
        clamp(v, self.lower_bound, self.upper_bound)
    }

    fn construct(input_name: &str, input: InputId, consideration_type: ConsiderationType) -> (r:
        Consideration)
        ensures
            r.wf(),
            r.input == input,
            r.input_name@ == input_name@,
            r.name@ == input_name@ + " - "@ + curve_text(r.response_curve),
            r.consideration_type == consideration_type,
            r.response_curve == ResponseCurve::LinearCurve(Linear { slope: SCALE, x_shift: 0, y_shift: 0 }),
            r.lower_bound == 0,
            r.upper_bound == SCALE,
    {
        let response_curve = ResponseCurve::LinearCurve(Linear::new(SCALE));
        let mut name = String::from_str(input_name);
        name.append(" - ");
        name.append(response_curve.describe().as_str());
        Consideration {
            id: uuid::Uuid::new_v4(),
            name,
            input,
            input_name: String::from_str(input_name),
            consideration_type,
            response_curve,
            lower_bound: 0,
            upper_bound: SCALE,
        }
    }

    /// A consideration on a per-entity input, with the identity curve and
    /// bounds `[0, 1]`.
    pub fn simple(input: InputId, input_name: &str) -> (r: Consideration)
        ensures
            r.wf(),
            r.input == input,
            r.input_name@ == input_name@,
            r.name@ == input_name@ + " - "@ + curve_text(r.response_curve),
            r.consideration_type == ConsiderationType::Simple,
            r.response_curve == ResponseCurve::LinearCurve(Linear { slope: SCALE, x_shift: 0, y_shift: 0 }),
            r.lower_bound == 0,
            r.upper_bound == SCALE,
    {
        Consideration::construct(input_name, input, ConsiderationType::Simple)
    }

    /// A consideration on a per-target input, with the identity curve and
    /// bounds `[0, 1]`.
    pub fn targeted(input: InputId, input_name: &str) -> (r: Consideration)
        ensures
            r.wf(),
            r.input == input,
            r.input_name@ == input_name@,
            r.name@ == input_name@ + " - "@ + curve_text(r.response_curve),
            r.consideration_type == ConsiderationType::Targeted,
            r.response_curve == ResponseCurve::LinearCurve(Linear { slope: SCALE, x_shift: 0, y_shift: 0 }),
            r.lower_bound == 0,
            r.upper_bound == SCALE,
    {
        Consideration::construct(input_name, input, ConsiderationType::Targeted)
    }

    /// Replaces the response curve; the name is rebuilt from the input's name
    /// and the curve.
    pub fn with_response_curve(self, response_curve: ResponseCurve) -> (r: Consideration)
        ensures
            r.response_curve == response_curve,
            r.name@ == self.input_name@ + " - "@ + curve_text(response_curve),
            r.id == self.id,
            r.input == self.input,
            r.input_name == self.input_name,
            r.consideration_type == self.consideration_type,
            r.lower_bound == self.lower_bound,
            r.upper_bound == self.upper_bound,
    {
        let mut name = self.input_name.clone();
        name.append(" - ");
        name.append(response_curve.describe().as_str());
        Consideration {
            id: self.id,
            name,
            input: self.input,
            input_name: self.input_name,
            consideration_type: self.consideration_type,
            response_curve,
            lower_bound: self.lower_bound,
            upper_bound: self.upper_bound,
        }
    }

    /// Sets the bounds of the score; `0 <= lower < upper` is required.
    pub fn with_bounds(self, lower: i64, upper: i64) -> (r: Consideration)
        requires
            0 <= lower < upper,
        ensures
            r.wf(),
            r.lower_bound == lower,
            r.upper_bound == upper,
            r.id == self.id,
            r.name == self.name,
            r.input == self.input,
            r.input_name == self.input_name,
            r.consideration_type == self.consideration_type,
            r.response_curve == self.response_curve,
    {
        Consideration { lower_bound: lower, upper_bound: upper, ..self }
    }

    pub fn with_name(self, name: &str) -> (r: Consideration)
        ensures
            r.name@ == name@,
            r.id == self.id,
            r.input == self.input,
            r.input_name == self.input_name,
            r.consideration_type == self.consideration_type,
            r.response_curve == self.response_curve,
            r.lower_bound == self.lower_bound,
            r.upper_bound == self.upper_bound,
    {
        Consideration { name: String::from_str(name), ..self }
    }
}

} // verus!
