//! Binary interchange formats as ordered sets of magnitudes.
//!
//! A magnitude is a bit pattern without its sign: the biased exponent in the
//! high bits, `p` fraction bits below. Every finite magnitude is an integer
//! multiple of the smallest subnormal of its format; [`units`] is that
//! multiple. The pattern of infinity continues the same scale: its `units` is
//! one step past the largest finite magnitude, which is where round-to-nearest
//! overflows.
use vstd::arithmetic::div_mod::*;
use vstd::arithmetic::mul::*;
use vstd::arithmetic::power2::*;
use vstd::prelude::*;

verus! {

/// The value of the magnitude `m`, as a multiple of the format's smallest subnormal.
pub open spec fn units(p: nat, m: nat) -> nat {
    let e = m / pow2(p);
    let f = m % pow2(p);
    if e == 0 {
        f
    } else {
        (pow2(p) + f) * pow2((e - 1) as nat)
    }
}

/// `m` is the magnitude nearest to `num / den` (in `units`), ties going to the
/// even pattern. `inf` is the pattern of infinity: values at or above the
/// midpoint between the largest finite magnitude and `inf` round to it.
pub open spec fn is_rounded(p: nat, inf: nat, num: nat, den: nat, m: nat) -> bool {
    &&& m <= inf
    &&& m > 0 ==> above_midpoint(p, num, den, (m - 1) as nat, m % 2 == 0)
    &&& m < inf ==> below_midpoint(p, num, den, m, m % 2 == 0)
}

/// `num / den` lies above the midpoint of `m` and `m + 1`, or on it if `tie`.
pub open spec fn above_midpoint(p: nat, num: nat, den: nat, m: nat, tie: bool) -> bool {
    let mid = (units(p, m) + units(p, m + 1)) * den;
    mid < 2 * num || (tie && mid == 2 * num)
}

/// `num / den` lies below the midpoint of `m` and `m + 1`, or on it if `tie`.
pub open spec fn below_midpoint(p: nat, num: nat, den: nat, m: nat, tie: bool) -> bool {
    let mid = (units(p, m) + units(p, m + 1)) * den;
    2 * num < mid || (tie && 2 * num == mid)
}

/// `q` is the integer nearest to `n / d`, ties going to the even one.
pub open spec fn rounds_to_int(n: int, d: int, q: int) -> bool {
    &&& (2 * q - 1) * d <= 2 * n <= (2 * q + 1) * d
    &&& (2 * q - 1) * d == 2 * n ==> q % 2 == 0
    &&& (2 * q + 1) * d == 2 * n ==> q % 2 == 0
}

/// Within one binade (and the one above subnormals) magnitudes are evenly spaced.
pub proof fn lemma_units_step(p: nat, s: nat, q: nat)
    requires
        q <= pow2(p + 1),
        s > 0 ==> q >= pow2(p),
    ensures
        units(p, s * pow2(p) + q) == q * pow2(s),
{
    let b = pow2(p);
    lemma_pow2_pos(p);
    lemma_pow2_unfold(p + 1);
    lemma_pow2_pos(s);
    assert(pow2(0) == 1) by { lemma2_to64(); }
    let m = s * b + q;
    if q < b {
        assert(s * b == 0) by (nonlinear_arith) requires s == 0;
        lemma_small_mod(q, b);
        lemma_basic_div(q as int, b as int);
        assert(q * pow2(0) == q) by (nonlinear_arith) requires pow2(0) == 1;
    } else if q < 2 * b {
        let f = (q - b) as nat;
        assert(m == (s + 1) * b + f) by (nonlinear_arith) requires m == s * b + q, f == q - b;
        lemma_fundamental_div_mod_converse(m as int, b as int, (s + 1) as int, f as int);
        assert(b + f == q);
    } else {
        assert(m == (s + 2) * b + 0) by (nonlinear_arith) requires m == s * b + q, q == 2 * b;
        lemma_fundamental_div_mod_converse(m as int, b as int, (s + 2) as int, 0);
        lemma_pow2_unfold(s + 1);
        assert(b * (2 * pow2(s)) == q * pow2(s)) by (nonlinear_arith) requires q == 2 * b;
    }
}

/// Splits a magnitude into a spacing exponent and a significand.
pub proof fn lemma_units_split(p: nat, m: nat) -> (r: (nat, nat))
    ensures
        m == r.0 * pow2(p) + r.1,
        r.1 < pow2(p + 1),
        r.0 > 0 ==> r.1 >= pow2(p),
        units(p, m) == r.1 * pow2(r.0),
        units(p, m + 1) == (r.1 + 1) * pow2(r.0),
{
    let b = pow2(p);
    lemma_pow2_pos(p);
    lemma_pow2_unfold(p + 1);
    let e = m / b;
    let f = m % b;
    lemma_fundamental_div_mod(m as int, b as int);
    lemma_mod_bound(m as int, b as int);
    assert(b * e == e * b) by (nonlinear_arith);
    let (s, q): (nat, nat) = if e == 0 { (0nat, f) } else { ((e - 1) as nat, b + f) };
    if e > 0 {
        assert(e * b == s * b + b) by (nonlinear_arith) requires s == e - 1;
    } else {
        assert(e * b == 0) by (nonlinear_arith) requires e == 0;
        assert(s * b == 0) by (nonlinear_arith) requires s == 0;
    }
    lemma_units_step(p, s, q);
    lemma_units_step(p, s, q + 1);
    assert(m + 1 == s * b + (q + 1));
    (s, q)
}

/// Larger magnitudes have larger values.
pub proof fn lemma_units_increasing(p: nat, a: nat, b: nat)
    requires
        a < b,
    ensures
        units(p, a) < units(p, b),
    decreases b - a,
{
    let c = (b - 1) as nat;
    let (s, q) = lemma_units_split(p, c);
    lemma_pow2_pos(s);
    assert(q * pow2(s) < (q + 1) * pow2(s)) by (nonlinear_arith) requires pow2(s) > 0;
    if a < c {
        lemma_units_increasing(p, a, c);
    }
}

/// At most one magnitude is the rounding of a given value.
pub proof fn lemma_rounded_unique(p: nat, inf: nat, num: nat, den: nat, m1: nat, m2: nat)
    requires
        den > 0,
        is_rounded(p, inf, num, den, m1),
        is_rounded(p, inf, num, den, m2),
    ensures
        m1 == m2,
{
    lemma_rounded_order(p, inf, num, den, m1, m2);
    lemma_rounded_order(p, inf, num, den, m2, m1);
}

proof fn lemma_rounded_order(p: nat, inf: nat, num: nat, den: nat, m1: nat, m2: nat)
    requires
        den > 0,
        is_rounded(p, inf, num, den, m1),
        is_rounded(p, inf, num, den, m2),
    ensures
        m1 >= m2,
{
    if m1 + 1 < m2 {
        let lo = units(p, m1) + units(p, m1 + 1);
        let k = (m2 - 1) as nat;
        let hi = units(p, k) + units(p, m2);
        lemma_units_increasing(p, m1, k);
        lemma_units_increasing(p, m1 + 1, m2);
        assert(lo * den < hi * den) by (nonlinear_arith) requires lo < hi, den > 0;
    }
}

/// How far apart two integers are.
pub open spec fn distance(a: int, b: int) -> int {
    if a < b {
        b - a
    } else {
        a - b
    }
}

/// No magnitude is nearer to a value than its rounding, where that is finite; if
/// one is as near, the rounding is the even one.
pub proof fn lemma_rounded_is_nearest(p: nat, inf: nat, num: nat, r: nat, m: nat)
    requires
        is_rounded(p, inf, num, 1, r),
        r < inf,
    ensures
        distance(num as int, units(p, r) as int) <= distance(num as int, units(p, m) as int),
        m != r && distance(num as int, units(p, r) as int) == distance(
            num as int,
            units(p, m) as int,
        ) ==> r % 2 == 0,
{
    if m > r {
        lemma_units_increasing(p, r, r + 1);
        if m > r + 1 {
            lemma_units_increasing(p, r + 1, m);
        }
    } else if m < r {
        let k = (r - 1) as nat;
        lemma_units_increasing(p, k, r);
        if m < k {
            lemma_units_increasing(p, m, k);
        }
    }
}

/// A value rounds to infinity from the midpoint below it on, where the pattern of
/// infinity is even.
pub proof fn lemma_rounded_to_infinity(p: nat, inf: nat, num: nat, r: nat)
    requires
        is_rounded(p, inf, num, 1, r),
        inf > 0,
        inf % 2 == 0,
    ensures
        r == inf <==> units(p, (inf - 1) as nat) + units(p, inf) <= 2 * num,
{
    let k = (inf - 1) as nat;
    if r < k {
        lemma_units_increasing(p, r, k);
        lemma_units_increasing(p, r + 1, inf);
    }
}

/// The rounding of a value depends on the ratio alone.
pub proof fn lemma_rounded_scale(p: nat, inf: nat, num: nat, den: nat, k: nat, m: nat)
    requires
        k > 0,
    ensures
        is_rounded(p, inf, num * k, den * k, m) <==> is_rounded(p, inf, num, den, m),
{
    assert(2 * (num * k) == (2 * num) * k) by (nonlinear_arith);
    if m > 0 {
        let s = units(p, (m - 1) as nat) + units(p, m);
        assert(s * (den * k) == (s * den) * k) by (nonlinear_arith);
        lemma_order_cancel(s * den, 2 * num, k);
    }
    let s = units(p, m) + units(p, m + 1);
    assert(s * (den * k) == (s * den) * k) by (nonlinear_arith);
    lemma_order_cancel(s * den, 2 * num, k);
}

pub proof fn lemma_order_cancel(a: nat, b: nat, k: nat)
    requires
        k > 0,
    ensures
        a * k < b * k <==> a < b,
        a * k == b * k <==> a == b,
        a * k > b * k <==> a > b,
{
    if a < b {
        assert(a * k < b * k) by (nonlinear_arith) requires a < b, k > 0;
    } else if b < a {
        assert(b * k < a * k) by (nonlinear_arith) requires b < a, k > 0;
    }
}

/// An exactly representable value rounds to itself.
pub proof fn lemma_rounded_exact(p: nat, inf: nat, m: nat, den: nat)
    requires
        m <= inf,
        den > 0,
    ensures
        is_rounded(p, inf, units(p, m) * den, den, m),
{
    let u = units(p, m);
    assert(2 * (u * den) == (u + u) * den) by (nonlinear_arith);
    if m > 0 {
        lemma_units_increasing(p, (m - 1) as nat, m);
        lemma_order_cancel(units(p, (m - 1) as nat) + u, u + u, den);
    }
    lemma_units_increasing(p, m, m + 1);
    lemma_order_cancel(u + u, u + units(p, m + 1), den);
}

/// Rounding at the spacing `2^s` of the binade that holds the value gives the
/// nearest magnitude, and `s * 2^p + q` is its bit pattern, carries included.
pub proof fn lemma_round_in_binade(p: nat, inf: nat, num: nat, den: nat, s: nat, q: nat)
    requires
        p >= 1,
        den > 0,
        rounds_to_int(num as int, (den * pow2(s)) as int, q as int),
        num < pow2(p + 1) * (den * pow2(s)),
        s > 0 ==> num >= pow2(p) * (den * pow2(s)),
    ensures
        q <= pow2(p + 1),
        is_rounded(
            p,
            inf,
            num,
            den,
            if s * pow2(p) + q <= inf {
                s * pow2(p) + q
            } else {
                inf
            },
        ),
{
    let b = pow2(p);
    let w = pow2(s);
    let dw = den * w;
    let m = s * b + q;
    lemma_pow2_pos(p);
    lemma_pow2_pos(s);
    lemma_pow2_unfold(p + 1);
    lemma_pow2_unfold(p);
    assert(dw > 0) by (nonlinear_arith) requires dw == den * w, den > 0, w > 0;
    // q is at most the top of the binade
    assert(q <= 2 * b) by {
        if q > 2 * b {
            assert((2 * q - 1) * dw >= (4 * b + 1) * dw) by (nonlinear_arith)
                requires q > 2 * b, dw > 0;
            assert((4 * b + 1) * dw > 2 * (2 * b * dw)) by (nonlinear_arith) requires dw > 0;
        }
    }
    assert(s > 0 ==> q >= b) by {
        if s > 0 && q < b {
            assert((2 * q + 1) * dw <= (2 * b - 1) * dw) by (nonlinear_arith)
                requires q < b, dw > 0;
            assert((2 * b - 1) * dw < 2 * (b * dw)) by (nonlinear_arith) requires dw > 0;
        }
    }
    lemma_units_step(p, s, q);
    assert(m % 2 == q % 2) by {
        let h = pow2((p - 1) as nat);
        assert(m == 2 * (s * h) + q) by (nonlinear_arith) requires m == s * b + q, b == 2 * h;
    }
    let um = units(p, m);
    assert(um == q * w);
    // lower midpoint
    if m > 0 {
        let lo = units(p, (m - 1) as nat);
        let mid = (lo + um) * den;
        if q > b || (s == 0 && q > 0) {
            lemma_units_step(p, s, (q - 1) as nat);
            assert(m - 1 == s * b + (q - 1));
            assert(mid == (2 * q - 1) * dw) by (nonlinear_arith)
                requires
                    mid == (lo + um) * den,
                    lo == (q - 1) * w,
                    um == q * w,
                    dw == den * w,
            ;
        } else {
            lemma_units_increasing(p, (m - 1) as nat, m);
            if s == 0 {
                assert(s * b == 0) by (nonlinear_arith) requires s == 0;
            }
            assert(q == b);
            assert(mid < 2 * num) by (nonlinear_arith)
                requires
                    mid == (lo + um) * den,
                    lo < um,
                    um == q * w,
                    q == b,
                    dw == den * w,
                    num >= b * dw,
                    den > 0,
            ;
        }
        assert(above_midpoint(p, num, den, (m - 1) as nat, m % 2 == 0));
    }
    // upper midpoint
    {
        let hi = units(p, m + 1);
        let mid = (um + hi) * den;
        if q < 2 * b {
            lemma_units_step(p, s, q + 1);
            assert(m + 1 == s * b + (q + 1));
            assert(mid == (2 * q + 1) * dw) by (nonlinear_arith)
                requires
                    mid == (um + hi) * den,
                    hi == (q + 1) * w,
                    um == q * w,
                    dw == den * w,
            ;
        } else {
            lemma_units_increasing(p, m, m + 1);
            assert(2 * num < mid) by (nonlinear_arith)
                requires
                    mid == (um + hi) * den,
                    hi > um,
                    um == q * w,
                    q == 2 * b,
                    dw == den * w,
                    num < 2 * b * dw,
                    den > 0,
            ;
        }
        assert(below_midpoint(p, num, den, m, m % 2 == 0));
    }
    if m > inf && inf > 0 {
        let i1 = (inf - 1) as nat;
        let m1 = (m - 1) as nat;
        let a = units(p, i1) + units(p, inf);
        let c = units(p, m1) + um;
        lemma_units_increasing(p, i1, m1);
        lemma_units_increasing(p, inf, m);
        lemma_order_cancel(a, c, den);
    }
}

} // verus!
