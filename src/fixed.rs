use vstd::prelude::*;
use vstd::string::{StrSliceExecFns, StringExecFns};

verus! {

/// The fixed-point unit: a scalar `v` stands for the real number `v / SCALE`.
pub const SCALE: i64 = 1_000_000;

/// Saturates a mathematical integer into the range of `i64`.
pub open spec fn clamp_i64(v: int) -> int {
    if v < i64::MIN {
        i64::MIN as int
    } else if v > i64::MAX {
        i64::MAX as int
    } else {
        v
    }
}

/// Division rounding toward zero, as Rust's `/` does on integers.
pub open spec fn div_trunc(a: int, b: int) -> int
    recommends
        b > 0,
{
    if a >= 0 {
        a / b
    } else {
        -((-a) / b)
    }
}

/// The fixed-point product of `a` and `b`, rounded toward zero and saturated.
pub open spec fn mul_spec(a: int, b: int) -> int {
    clamp_i64(div_trunc(a * b, SCALE as int))
}

/// Lower and upper clamp; `lo <= hi` is expected.
pub open spec fn clamp_spec(v: int, lo: int, hi: int) -> int {
    if v < lo {
        lo
    } else if v > hi {
        hi
    } else {
        v
    }
}

/// Saturates an `i128` into `i64`.
pub fn saturate(v: i128) -> (r: i64)
    ensures
        r == clamp_i64(v as int),
{
    if v < i64::MIN as i128 {
        i64::MIN
    } else if v > i64::MAX as i128 {
        i64::MAX
    } else {
        v as i64
    }
}

/// `a / b` rounded toward zero, for a positive divisor.
pub fn div_trunc_i128(a: i128, b: i128) -> (r: i128)
    requires
        b > 0,
        a > i128::MIN,
    ensures
        r == div_trunc(a as int, b as int),
{
    if a >= 0 {
        a / b
    } else {
        let n: i128 = -a;
        let q: i128 = n / b;
        proof {
            vstd::arithmetic::div_mod::lemma_div_pos_is_pos(n as int, b as int);
            vstd::arithmetic::div_mod::lemma_div_is_ordered_by_denominator(n as int, 1, b as int);
        }
        -q
    }
}

/// Fixed-point multiplication, rounded toward zero and saturated.
pub fn fixed_mul(a: i64, b: i64) -> (r: i64)
    ensures
        r == mul_spec(a as int, b as int),
{
    proof {
        assert((a as int) * (b as int) <= 0x4000_0000_0000_0000_0000_0000_0000_0000int)
            by (nonlinear_arith)
            requires
                -0x8000_0000_0000_0000int <= a <= 0x7fff_ffff_ffff_ffffint,
                -0x8000_0000_0000_0000int <= b <= 0x7fff_ffff_ffff_ffffint,
        ;
        assert((a as int) * (b as int) >= -0x4000_0000_0000_0000_0000_0000_0000_0000int)
            by (nonlinear_arith)
            requires
                -0x8000_0000_0000_0000int <= a <= 0x7fff_ffff_ffff_ffffint,
                -0x8000_0000_0000_0000int <= b <= 0x7fff_ffff_ffff_ffffint,
        ;
    }
    let p: i128 = (a as i128) * (b as i128);
    saturate(div_trunc_i128(p, SCALE as i128))
}

/// Clamps `v` into `[lo, hi]`.
pub fn clamp(v: i64, lo: i64, hi: i64) -> (r: i64)
    requires
        lo <= hi,
    ensures
        r == clamp_spec(v as int, lo as int, hi as int),
{
    if v < lo {
        lo
    } else if v > hi {
        hi
    } else {
        v
    }
}

/// A fraction `dx / w` below one scales `a` to at most `a`.
pub proof fn lemma_scaled_quotient_bounded(a: int, dx: int, w: int)
    requires
        a >= 0,
        0 <= dx < w,
    ensures
        0 <= (a * dx) / w <= a,
{
    vstd::arithmetic::mul::lemma_mul_inequality(dx, w, a);
    vstd::arithmetic::mul::lemma_mul_nonnegative(a, dx);
    assert(dx * a == a * dx) by (nonlinear_arith);
    assert(w * a == a * w) by (nonlinear_arith);
    vstd::arithmetic::div_mod::lemma_div_is_ordered(a * dx, a * w, w);
    vstd::arithmetic::div_mod::lemma_div_by_multiple(a, w);
    vstd::arithmetic::div_mod::lemma_div_pos_is_pos(a * dx, w);
}

/// The character of the decimal digit `d`.
pub open spec fn digit_char(d: int) -> char {
    ((('0' as u32) as int) + d) as char
}

/// The decimal digits of `n`, without leading zeros (`0` for zero).
pub open spec fn decimal(n: nat) -> Seq<char>
    decreases n,
{
    if n < 10 {
        seq![digit_char(n as int)]
    } else {
        decimal(n / 10).push(digit_char((n % 10) as int))
    }
}

/// `k` zeros (none when `k` is not positive).
pub open spec fn zeros(k: int) -> Seq<char> {
    Seq::new(if k > 0 { k as nat } else { 0 }, |i: int| '0')
}

/// Drops trailing zeros of a fraction of `width` digits, keeping one digit.
pub open spec fn trimmed(frac: nat, width: nat) -> (nat, nat)
    decreases width,
{
    if frac % 10 == 0 && width > 1 {
        trimmed(frac / 10, (width - 1) as nat)
    } else {
        (frac, width)
    }
}

/// The decimal text of the non-negative fixed-point value `mag`: the whole
/// part, then, when there is a fraction, `.` and its digits without trailing
/// zeros.
pub open spec fn magnitude_text(mag: nat) -> Seq<char> {
    let whole = mag / (SCALE as nat);
    let frac = mag % (SCALE as nat);
    if frac == 0 {
        decimal(whole)
    } else {
        let (f, w) = trimmed(frac, 6);
        decimal(whole) + seq!['.'] + zeros(w - decimal(f).len()) + decimal(f)
    }
}

/// The decimal text of the fixed-point value `v`, with `-` when negative.
pub open spec fn fixed_text(v: int) -> Seq<char> {
    if v < 0 {
        seq!['-'] + magnitude_text((-v) as nat)
    } else {
        magnitude_text(v as nat)
    }
}

fn digit_str(d: u64) -> (r: &'static str)
    requires
        d < 10,
    ensures
        r@ == seq![digit_char(d as int)],
{
    proof {
        reveal_strlit("0");
        reveal_strlit("1");
        reveal_strlit("2");
        reveal_strlit("3");
        reveal_strlit("4");
        reveal_strlit("5");
        reveal_strlit("6");
        reveal_strlit("7");
        reveal_strlit("8");
        reveal_strlit("9");
    }
    if d == 0 {
        "0"
    } else if d == 1 {
        "1"
    } else if d == 2 {
        "2"
    } else if d == 3 {
        "3"
    } else if d == 4 {
        "4"
    } else if d == 5 {
        "5"
    } else if d == 6 {
        "6"
    } else if d == 7 {
        "7"
    } else if d == 8 {
        "8"
    } else {
        "9"
    }
}

/// Appends the decimal digits of `n`.
pub fn append_decimal(s: &mut String, n: u64)
    ensures
        final(s)@ == old(s)@ + decimal(n as nat),
    decreases n,
{
    if n >= 10 {
        append_decimal(s, n / 10);
    }
    s.append(digit_str(n % 10));
    assert(final(s)@ =~= old(s)@ + decimal(n as nat));
}

/// The absolute value of `v`.
pub fn magnitude(v: i64) -> (r: u64)
    ensures
        r as int == if v < 0 { -(v as int) } else { v as int },
{
    if v < 0 {
        (0 - (v as i128)) as u64
    } else {
        v as u64
    }
}

/// Human-readable decimal form of a fixed-point value: `1`, `-0.25`, `0.000001`.
pub fn format_fixed(v: i64) -> (r: String)
    ensures
        r@ == fixed_text(v as int),
{
    proof {
        reveal_strlit("-");
    }
    let mut s = if v < 0 {
        String::from_str("-")
    } else {
        String::new()
    };
    let m = format_magnitude(magnitude(v));
    s.append(m.as_str());
    s
}

/// Decimal form of the non-negative fixed-point value `mag`.
pub fn format_magnitude(mag: u64) -> (r: String)
    ensures
        r@ == magnitude_text(mag as nat),
{
    proof {
        reveal_strlit(".");
        reveal_strlit("0");
    }
    let whole: u64 = mag / (SCALE as u64);
    let mut frac: u64 = mag % (SCALE as u64);
    let mut s = String::new();
    append_decimal(&mut s, whole);
    if frac != 0 {
        s.append(".");
        let ghost start = s@;
        let mut width: u64 = 6;
        while frac % 10 == 0 && width > 1
            invariant
                trimmed(frac as nat, width as nat) == trimmed((mag % (SCALE as u64)) as nat, 6),
                1 <= width <= 6,
            decreases width,
        {
            frac = frac / 10;
            width = width - 1;
        }
        let mut digits = String::new();
        append_decimal(&mut digits, frac);
        let len = digits.as_str().unicode_len();
        let mut pad: u64 = 0;
        while (pad as u128) + (len as u128) < (width as u128)
            invariant
                s@ == start + zeros(pad as int),
                pad <= width,
                len == digits@.len(),
                pad == 0 || pad + len <= width,
            decreases width - pad,
        {
            proof {
                reveal_strlit("0");
            }
            s.append("0");
            assert(zeros(pad + 1) =~= zeros(pad as int).push('0'));
            pad = pad + 1;
        }
        assert(zeros(pad as int) =~= zeros(width - digits@.len()));
        s.append(digits.as_str());
    }
    s
}

} // verus!
