use crate::fixed::{
    append_decimal, clamp_i64, decimal, div_trunc, fixed_mul, fixed_text, format_fixed,
    format_magnitude, magnitude, magnitude_text, mul_spec, saturate, SCALE,
};
use vstd::string::StringExecFns;
use vstd::prelude::*;

verus! {

/// A response curve: a pure transform of a fixed-point input.
pub trait InputTransform {
    /// The value of the curve at `x`.
    spec fn value(&self, x: int) -> int;

    /// Whether the curve is well formed.
    spec fn wf(&self) -> bool;

    fn transform(&self, input: i64) -> (r: i64)
        requires
            self.wf(),
        ensures
            r as int == self.value(input as int),
    ;
}

/// `y = slope * (x - x_shift) + y_shift`, saturated into `i64`.
#[derive(Debug, Clone, Copy, PartialEq, Eq, Structural)]
pub struct Linear {
    pub slope: i64,
    pub x_shift: i64,
    pub y_shift: i64,
}

pub open spec fn linear_value(slope: int, x_shift: int, y_shift: int, x: int) -> int {
    clamp_i64(div_trunc(slope * (x - x_shift), SCALE as int) + y_shift)
}

impl Linear {
    pub fn new(slope: i64) -> (r: Linear)
        ensures
            r == (Linear { slope, x_shift: 0, y_shift: 0 }),
    {
        Linear { slope, x_shift: 0, y_shift: 0 }
    }

    pub fn shifted(self, x_shift: i64, y_shift: i64) -> (r: Linear)
        ensures
            r == (Linear { slope: self.slope, x_shift, y_shift }),
    {
        Linear { slope: self.slope, x_shift, y_shift }
    }
}

impl InputTransform for Linear {
    open spec fn value(&self, x: int) -> int {
        linear_value(self.slope as int, self.x_shift as int, self.y_shift as int, x)
    }

    open spec fn wf(&self) -> bool {
        true
    }

    fn transform(&self, input: i64) -> (r: i64) {
        let d: i128 = input as i128 - self.x_shift as i128;
        proof {
            assert(-0x1_0000_0000_0000_0000int < d < 0x1_0000_0000_0000_0000int);
            lemma_product_fits(self.slope as int, d as int);
        }
        let p: i128 = (self.slope as i128) * d;
        let q: i128 = crate::fixed::div_trunc_i128(p, SCALE as i128);
        proof {
            lemma_div_trunc_shrinks(p as int, SCALE as int);
        }
        saturate(q + self.y_shift as i128)
    }
}

/// `y = slope * (x - x_shift) ^ k + y_shift` for a whole exponent `k`.
///
/// The power is taken by repeated fixed-point multiplication, each step
/// rounded toward zero and saturated; the difference `x - x_shift` is
/// saturated into `i64` first.
#[derive(Debug, Clone, Copy, PartialEq, Eq, Structural)]
pub struct Polynomial {
    pub slope: i64,
    pub k: u32,
    pub x_shift: i64,
    pub y_shift: i64,
}

/// `d ^ k` in fixed point, one rounded product per step; `d ^ 0` is one.
pub open spec fn power_value(d: int, k: nat) -> int
    decreases k,
{
    if k == 0 {
        SCALE as int
    } else {
        mul_spec(power_value(d, (k - 1) as nat), d)
    }
}

pub open spec fn polynomial_value(slope: int, k: nat, x_shift: int, y_shift: int, x: int) -> int {
    clamp_i64(
        div_trunc(slope * power_value(clamp_i64(x - x_shift), k), SCALE as int) + y_shift,
    )
}

proof fn lemma_power_in_range(d: int, k: nat)
    ensures
        i64::MIN <= power_value(d, k) <= i64::MAX,
    decreases k,
{
    if k > 0 {
        lemma_power_in_range(d, (k - 1) as nat);
    }
}

impl Polynomial {
    pub fn new(slope: i64, k: u32) -> (r: Polynomial)
        ensures
            r == (Polynomial { slope, k, x_shift: 0, y_shift: 0 }),
    {
        Polynomial { slope, k, x_shift: 0, y_shift: 0 }
    }

    pub fn shifted(self, x_shift: i64, y_shift: i64) -> (r: Polynomial)
        ensures
            r == (Polynomial { slope: self.slope, k: self.k, x_shift, y_shift }),
    {
        Polynomial { slope: self.slope, k: self.k, x_shift, y_shift }
    }
}

impl InputTransform for Polynomial {
    open spec fn value(&self, x: int) -> int {
        polynomial_value(
            self.slope as int,
            self.k as nat,
            self.x_shift as int,
            self.y_shift as int,
            x,
        )
    }

    open spec fn wf(&self) -> bool {
        true
    }

    fn transform(&self, input: i64) -> (r: i64) {
        let d: i64 = saturate(input as i128 - self.x_shift as i128);
        let mut p: i64 = SCALE;
        let mut i: u32 = 0;
        while i < self.k
            invariant
                i <= self.k,
                p as int == power_value(d as int, i as nat),
            decreases self.k - i,
        {
            p = fixed_mul(p, d);
            i = i + 1;
        }
        proof {
            lemma_product_fits(self.slope as int, p as int);
        }
        let prod: i128 = (self.slope as i128) * (p as i128);
        let q: i128 = crate::fixed::div_trunc_i128(prod, SCALE as i128);
        proof {
            lemma_div_trunc_shrinks(prod as int, SCALE as int);
        }
        saturate(q + self.y_shift as i128)
    }
}

/// A curve through a list of points, interpolated linearly between them.
///
/// Left of the first point the curve is the first point's `y`; at or right of
/// the last point it is the last point's `y`.
#[derive(Debug)]
pub struct PiecewiseLinear {
    points: Vec<(i64, i64)>,
}

/// At least two points, strictly increasing in `x`.
pub open spec fn points_valid(pts: Seq<(i64, i64)>) -> bool {
    &&& pts.len() >= 2
    &&& forall|i: int, j: int| 0 <= i < j < pts.len() ==> #[trigger] pts[i].0 < #[trigger] pts[j].0
}

/// The straight line through `l` and `r`, taken at `x`, rounded toward `l.1`.
pub open spec fn interpolate_spec(l: (i64, i64), r: (i64, i64), x: int) -> int {
    l.1 + div_trunc((r.1 - l.1) * (x - l.0), r.0 - l.0)
}

/// The curve at `x >= pts[i].0`, looking from segment `i` onwards.
pub open spec fn piecewise_from(pts: Seq<(i64, i64)>, i: nat, x: int) -> int
    decreases pts.len() - i,
{
    if i + 1 >= pts.len() {
        pts.last().1 as int
    } else if x < pts[i + 1int].0 {
        interpolate_spec(pts[i as int], pts[i + 1int], x)
    } else {
        piecewise_from(pts, i + 1, x)
    }
}

pub open spec fn piecewise_value(pts: Seq<(i64, i64)>, x: int) -> int {
    if x < pts[0].0 {
        pts[0].1 as int
    } else {
        piecewise_from(pts, 0, x)
    }
}

impl View for PiecewiseLinear {
    type V = Seq<(i64, i64)>;

    closed spec fn view(&self) -> Seq<(i64, i64)> {
        self.points@
    }
}

impl PiecewiseLinear {
    #[verifier::type_invariant]
    spec fn inv(&self) -> bool {
        points_valid(self.points@)
    }

    /// Builds the curve; the points must be at least two and strictly
    /// increasing in `x`.
    pub fn new(points: Vec<(i64, i64)>) -> (r: PiecewiseLinear)
        requires
            points_valid(points@),
        ensures
            r@ == points@,
    {
        PiecewiseLinear { points }
    }
}

/// `interpolate_spec` for `l.0 <= x < r.0`, where it lies between `l.1` and `r.1`.
fn interpolate(l: (i64, i64), r: (i64, i64), x: i64) -> (y: i64)
    requires
        l.0 <= x < r.0,
    ensures
        y as int == interpolate_spec(l, r, x as int),
{
    let dx: u128 = (x as i128 - l.0 as i128) as u128;
    let w: u128 = (r.0 as i128 - l.0 as i128) as u128;
    if r.1 >= l.1 {
        let dy: u128 = (r.1 as i128 - l.1 as i128) as u128;
        proof {
            lemma_u128_product(dy as int, dx as int);
            crate::fixed::lemma_scaled_quotient_bounded(dy as int, dx as int, w as int);
        }
        let q: u128 = dy * dx / w;
        (l.1 as i128 + q as i128) as i64
    } else {
        let dy: u128 = (l.1 as i128 - r.1 as i128) as u128;
        proof {
            lemma_u128_product(dy as int, dx as int);
            crate::fixed::lemma_scaled_quotient_bounded(dy as int, dx as int, w as int);
            assert((r.1 - l.1) * (x - l.0) == -(dy * dx)) by (nonlinear_arith)
                requires
                    dy == l.1 - r.1,
                    dx == x - l.0,
            ;
        }
        let q: u128 = dy * dx / w;
        (l.1 as i128 - q as i128) as i64
    }
}

proof fn lemma_u128_product(a: int, b: int)
    requires
        0 <= a < 0x1_0000_0000_0000_0000int,
        0 <= b < 0x1_0000_0000_0000_0000int,
    ensures
        0 <= a * b <= u128::MAX,
{
    assert(0 <= a * b <= 0xffff_ffff_ffff_fffe_0000_0000_0000_0001int) by (nonlinear_arith)
        requires
            0 <= a < 0x1_0000_0000_0000_0000int,
            0 <= b < 0x1_0000_0000_0000_0000int,
    ;
}

impl InputTransform for PiecewiseLinear {
    open spec fn value(&self, x: int) -> int {
        piecewise_value(self@, x)
    }

    open spec fn wf(&self) -> bool {
        true
    }

    fn transform(&self, input: i64) -> (r: i64) {
        proof {
            use_type_invariant(self);
        }
        let n = self.points.len();
        assert(self@ == self.points@);
        if input < self.points[0].0 {
            return self.points[0].1;
        }
        let mut i: usize = 0;
        while i + 1 < n
            invariant
                n == self.points@.len(),
                n >= 2,
                i + 1 <= n,
                input >= self.points@[0].0,
                input >= self.points@[i as int].0,
                piecewise_from(self.points@, 0, input as int) == piecewise_from(
                    self.points@,
                    i as nat,
                    input as int,
                ),
            decreases n - i,
        {
            if input < self.points[i + 1].0 {
                assert(piecewise_from(self.points@, i as nat, input as int) == interpolate_spec(
                    self.points@[i as int],
                    self.points@[i + 1],
                    input as int,
                ));
                return interpolate(self.points[i], self.points[i + 1], input);
            }
            i = i + 1;
        }
        assert(piecewise_from(self.points@, i as nat, input as int) == self.points@.last().1);
        self.points[n - 1].1
    }
}

/// Inside segment `i` (`pts[i].0 <= x < pts[i + 1].0`), the scan from any
/// earlier segment reaches the interpolation on segment `i`.
proof fn lemma_piecewise_from_segment(pts: Seq<(i64, i64)>, j: nat, i: int, x: int)
    requires
        points_valid(pts),
        j <= i < pts.len() - 1,
        pts[i].0 <= x < pts[i + 1].0,
    ensures
        piecewise_from(pts, j, x) == interpolate_spec(pts[i], pts[i + 1], x),
    decreases i - j,
{
    if j < i {
        if j + 1 < i {
            assert(pts[j + 1int].0 < pts[i].0);
        }
        lemma_piecewise_from_segment(pts, j + 1, i, x);
    }
}

/// At or right of the last point, the scan ends on the last point's `y`.
proof fn lemma_piecewise_from_last(pts: Seq<(i64, i64)>, j: nat, x: int)
    requires
        points_valid(pts),
        j < pts.len(),
        x >= pts.last().0,
    ensures
        piecewise_from(pts, j, x) == pts.last().1,
    decreases pts.len() - j,
{
    if j + 1 < pts.len() {
        if j + 1 < pts.len() - 1 {
            assert(pts[j + 1int].0 < pts[pts.len() - 1].0);
        }
        lemma_piecewise_from_last(pts, j + 1, x);
    }
}

/// A piecewise-linear curve passes through each of its points, is flat at the
/// first point's `y` to the left and at the last point's `y` from the last
/// point on, and between two neighbouring points is the straight line through
/// them.
pub proof fn lemma_piecewise_linear_shape(pts: Seq<(i64, i64)>, i: int, x: int)
    requires
        points_valid(pts),
    ensures
        0 <= i < pts.len() ==> piecewise_value(pts, pts[i].0 as int) == pts[i].1,
        x < pts[0].0 ==> piecewise_value(pts, x) == pts[0].1,
        x >= pts.last().0 ==> piecewise_value(pts, x) == pts.last().1,
        0 <= i < pts.len() - 1 && pts[i].0 <= x < pts[i + 1].0 ==> piecewise_value(pts, x)
            == interpolate_spec(pts[i], pts[i + 1], x),
{
    if x >= pts.last().0 {
        assert(pts[0].0 <= pts[pts.len() - 1].0);
        lemma_piecewise_from_last(pts, 0, x);
    }
    if 0 <= i < pts.len() - 1 && pts[i].0 <= x < pts[i + 1].0 {
        if i > 0 {
            assert(pts[0].0 < pts[i].0);
        }
        lemma_piecewise_from_segment(pts, 0, i, x);
    }
    if 0 <= i < pts.len() {
        let xi = pts[i].0 as int;
        if i > 0 {
            assert(pts[0].0 < pts[i].0);
        }
        if i == pts.len() - 1 {
            lemma_piecewise_from_last(pts, 0, xi);
        } else {
            assert(pts[i].0 < pts[i + 1].0);
            lemma_piecewise_from_segment(pts, 0, i, xi);
            assert((pts[i + 1].1 - pts[i].1) * (xi - pts[i].0) == 0);
        }
    }
}

/// The response curves that a consideration can use.
#[derive(Debug)]
pub enum ResponseCurve {
    LinearCurve(Linear),
    PolynomialCurve(Polynomial),
    PiecewiseLinear(PiecewiseLinear),
}

impl InputTransform for ResponseCurve {
    open spec fn value(&self, x: int) -> int {
        match self {
            ResponseCurve::LinearCurve(c) => c.value(x),
            ResponseCurve::PolynomialCurve(c) => c.value(x),
            ResponseCurve::PiecewiseLinear(c) => c.value(x),
        }
    }

    open spec fn wf(&self) -> bool {
        true
    }

    fn transform(&self, input: i64) -> (r: i64) {
        match self {
            ResponseCurve::LinearCurve(c) => c.transform(input),
            ResponseCurve::PolynomialCurve(c) => c.transform(input),
            ResponseCurve::PiecewiseLinear(c) => c.transform(input),
        }
    }
}

/// A curve is a function of its input: two evaluations at one input agree.
pub proof fn lemma_transform_deterministic(c: &ResponseCurve, x: int, r1: int, r2: int)
    requires
        r1 == c.value(x),
        r2 == c.value(x),
    ensures
        r1 == r2,
{
}

impl From<Linear> for ResponseCurve {
    fn from(value: Linear) -> (r: ResponseCurve) {
        ResponseCurve::LinearCurve(value)
    }
}

impl vstd::std_specs::convert::FromSpecImpl<Linear> for ResponseCurve {
    open spec fn obeys_from_spec() -> bool {
        true
    }

    open spec fn from_spec(v: Linear) -> ResponseCurve {
        ResponseCurve::LinearCurve(v)
    }
}

impl From<Polynomial> for ResponseCurve {
    fn from(value: Polynomial) -> (r: ResponseCurve) {
        ResponseCurve::PolynomialCurve(value)
    }
}

impl vstd::std_specs::convert::FromSpecImpl<Polynomial> for ResponseCurve {
    open spec fn obeys_from_spec() -> bool {
        true
    }

    open spec fn from_spec(v: Polynomial) -> ResponseCurve {
        ResponseCurve::PolynomialCurve(v)
    }
}

impl From<PiecewiseLinear> for ResponseCurve {
    fn from(value: PiecewiseLinear) -> (r: ResponseCurve) {
        ResponseCurve::PiecewiseLinear(value)
    }
}

impl vstd::std_specs::convert::FromSpecImpl<PiecewiseLinear> for ResponseCurve {
    open spec fn obeys_from_spec() -> bool {
        true
    }

    open spec fn from_spec(v: PiecewiseLinear) -> ResponseCurve {
        ResponseCurve::PiecewiseLinear(v)
    }
}

/// The slope factor: nothing for one, `-` for minus one, else the number.
pub open spec fn slope_text(slope: int) -> Seq<char> {
    if slope == SCALE {
        Seq::empty()
    } else if slope == -SCALE {
        seq!['-']
    } else {
        fixed_text(slope)
    }
}

/// `x`, `(x - a)` or `(x + a)`.
pub open spec fn x_text(x_shift: int) -> Seq<char> {
    if x_shift == 0 {
        seq!['x']
    } else if x_shift > 0 {
        "(x - "@ + fixed_text(x_shift) + ")"@
    } else {
        "(x + "@ + magnitude_text((-x_shift) as nat) + ")"@
    }
}

/// ` + a`, ` - a`, or nothing for a zero shift.
pub open spec fn y_text(y_shift: int) -> Seq<char> {
    if y_shift > 0 {
        " + "@ + fixed_text(y_shift)
    } else if y_shift < 0 {
        " - "@ + magnitude_text((-y_shift) as nat)
    } else {
        Seq::empty()
    }
}

/// `(x, y)` for each point, separated by `, `.
pub open spec fn points_text(pts: Seq<(i64, i64)>) -> Seq<char>
    decreases pts.len(),
{
    if pts.len() == 0 {
        Seq::empty()
    } else {
        let p = pts.last();
        points_text(pts.drop_last()) + (if pts.len() > 1 {
            ", "@
        } else {
            Seq::empty()
        }) + "("@ + fixed_text(p.0 as int) + ", "@ + fixed_text(p.1 as int) + ")"@
    }
}

/// The human-readable form of a curve.
pub open spec fn curve_text(c: ResponseCurve) -> Seq<char> {
    match c {
        ResponseCurve::LinearCurve(r) => "Linear("@ + slope_text(r.slope as int) + x_text(
            r.x_shift as int,
        ) + y_text(r.y_shift as int) + ")"@,
        ResponseCurve::PolynomialCurve(r) => "Poly("@ + slope_text(r.slope as int) + x_text(
            r.x_shift as int,
        ) + "^"@ + decimal(r.k as nat) + y_text(r.y_shift as int) + ")"@,
        ResponseCurve::PiecewiseLinear(r) => "PiecewiseLinear(["@ + points_text(r@) + "])"@,
    }
}

fn write_slope(s: &mut String, slope: i64)
    ensures
        final(s)@ == old(s)@ + slope_text(slope as int),
{
    proof {
        reveal_strlit("-");
    }
    if slope == SCALE {
        assert(final(s)@ =~= old(s)@ + slope_text(slope as int));
    } else if slope == -SCALE {
        s.append("-");
    } else {
        s.append(format_fixed(slope).as_str());
    }
}

fn write_x(s: &mut String, x_shift: i64)
    ensures
        final(s)@ == old(s)@ + x_text(x_shift as int),
{
    proof {
        reveal_strlit("x");
    }
    if x_shift == 0 {
        s.append("x");
    } else if x_shift > 0 {
        s.append("(x - ");
        s.append(format_fixed(x_shift).as_str());
        s.append(")");
        assert(final(s)@ =~= old(s)@ + x_text(x_shift as int));
    } else {
        s.append("(x + ");
        s.append(format_magnitude(magnitude(x_shift)).as_str());
        s.append(")");
        assert(final(s)@ =~= old(s)@ + x_text(x_shift as int));
    }
}

fn write_y_shift(s: &mut String, y_shift: i64)
    ensures
        final(s)@ == old(s)@ + y_text(y_shift as int),
{
    if y_shift > 0 {
        s.append(" + ");
        s.append(format_fixed(y_shift).as_str());
    } else if y_shift < 0 {
        s.append(" - ");
        s.append(format_magnitude(magnitude(y_shift)).as_str());
    } else {
        assert(final(s)@ =~= old(s)@ + y_text(y_shift as int));
    }
}

impl ResponseCurve {
    /// A human-readable form of the curve, such as `Linear(-x + 1)`.
    pub fn describe(&self) -> (r: String)
        ensures
            r@ == curve_text(*self),
    {
        let mut s = String::new();
        match self {
            ResponseCurve::LinearCurve(r) => {
                s.append("Linear(");
                write_slope(&mut s, r.slope);
                write_x(&mut s, r.x_shift);
                write_y_shift(&mut s, r.y_shift);
                s.append(")");
            },
            ResponseCurve::PolynomialCurve(r) => {
                s.append("Poly(");
                write_slope(&mut s, r.slope);
                write_x(&mut s, r.x_shift);
                s.append("^");
                append_decimal(&mut s, r.k as u64);
                write_y_shift(&mut s, r.y_shift);
                s.append(")");
            },
            ResponseCurve::PiecewiseLinear(r) => {
                s.append("PiecewiseLinear([");
                let ghost start = s@;
                let mut i: usize = 0;
                while i < r.points.len()
                    invariant
                        i <= r.points@.len(),
                        s@ == start + points_text(r.points@.subrange(0, i as int)),
                    decreases r.points.len() - i,
                {
                    let ghost pre = r.points@.subrange(0, i as int);
                    assert(r.points@.subrange(0, i + 1).drop_last() =~= pre);
                    if i > 0 {
                        s.append(", ");
                    }
                    s.append("(");
                    s.append(format_fixed(r.points[i].0).as_str());
                    s.append(", ");
                    s.append(format_fixed(r.points[i].1).as_str());
                    s.append(")");
                    i = i + 1;
                }
                assert(r.points@.subrange(0, r.points@.len() as int) =~= r.points@);
                assert(r@ == r.points@);
                s.append("])");
            },
        }
        s
    }
}

/// An `i64` times a value of at most 65 bits fits in an `i128`.
proof fn lemma_product_fits(a: int, d: int)
    requires
        -0x8000_0000_0000_0000int <= a <= 0x7fff_ffff_ffff_ffffint,
        -0x1_0000_0000_0000_0000int < d < 0x1_0000_0000_0000_0000int,
    ensures
        -0x7fff_ffff_ffff_ffff_ffff_ffff_ffff_ffffint < a * d
            < 0x7fff_ffff_ffff_ffff_ffff_ffff_ffff_ffffint,
{
    assert(-0x8000_0000_0000_0000_0000_0000_0000_0000int <= a * d <= 0x8000_0000_0000_0000_0000_0000_0000_0000int)
        by (nonlinear_arith)
        requires
            -0x8000_0000_0000_0000int <= a <= 0x7fff_ffff_ffff_ffffint,
            -0x1_0000_0000_0000_0000int < d < 0x1_0000_0000_0000_0000int,
    ;
    assert(a * d < 0x7fff_ffff_ffff_ffff_ffff_ffff_ffff_ffffint) by (nonlinear_arith)
        requires
            -0x8000_0000_0000_0000int <= a <= 0x7fff_ffff_ffff_ffffint,
            -0x1_0000_0000_0000_0000int < d < 0x1_0000_0000_0000_0000int,
    ;
    assert(a * d > -0x7fff_ffff_ffff_ffff_ffff_ffff_ffff_ffffint) by (nonlinear_arith)
        requires
            -0x8000_0000_0000_0000int <= a <= 0x7fff_ffff_ffff_ffffint,
            -0x1_0000_0000_0000_0000int < d < 0x1_0000_0000_0000_0000int,
    ;
}

/// Truncating division by a divisor of at least one never grows the magnitude.
proof fn lemma_div_trunc_shrinks(a: int, b: int)
    requires
        b >= 1,
    ensures
        a >= 0 ==> 0 <= div_trunc(a, b) <= a,
        a < 0 ==> a <= div_trunc(a, b) <= 0,
{
    if a >= 0 {
        vstd::arithmetic::div_mod::lemma_div_pos_is_pos(a, b);
        vstd::arithmetic::div_mod::lemma_div_is_ordered_by_denominator(a, 1, b);
    } else {
        vstd::arithmetic::div_mod::lemma_div_pos_is_pos(-a, b);
        vstd::arithmetic::div_mod::lemma_div_is_ordered_by_denominator(-a, 1, b);
    }
}

} // verus!
