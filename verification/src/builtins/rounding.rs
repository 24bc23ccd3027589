//! What the arithmetic of binary formats promises: results that no other value
//! is nearer to, operations that undo one another, and special values.
use crate::builtins::float_format::{
    distance, is_rounded, lemma_order_cancel, lemma_rounded_exact, lemma_rounded_unique,
    lemma_units_increasing, lemma_units_step, units,
};
use crate::builtins::soft_float::{
    f128_inf, f128_mag, f128_nan, f128_neg, f128_order, f128_units, f32_inf, f32_mag, f32_nan,
    f32_neg, f32_order, f32_units, f64_fixed, f64_inf, f64_mag, f64_nan, f64_neg, f64_negated,
    f64_order, f64_units, f64_value, is_f32_narrowed, is_f64_from_f128, is_f64_product,
    is_f64_quotient, is_f64_sum, is_f64_widened,
};
use vstd::arithmetic::div_mod::*;
use vstd::arithmetic::mul::*;
use vstd::arithmetic::power2::*;
use vstd::prelude::*;

verus! {

/// No magnitude is nearer to a ratio than its rounding, where that is finite; if
/// one is as near, the rounding is the even one.
pub proof fn lemma_rounded_ratio_is_nearest(
    p: nat,
    inf: nat,
    num: nat,
    den: nat,
    r: nat,
    m: nat,
)
    requires
        den > 0,
        is_rounded(p, inf, num, den, r),
        r < inf,
    ensures
        distance(num as int, (units(p, r) * den) as int) <= distance(num as int, (units(p, m) * den) as int),
        m != r && distance(num as int, (units(p, r) * den) as int) == distance(
            num as int,
            (units(p, m) * den) as int,
        ) ==> r % 2 == 0,
{
    let (ur, um) = (units(p, r), units(p, m));
    if m > r {
        let next = units(p, r + 1);
        lemma_units_increasing(p, r, r + 1);
        if m > r + 1 {
            lemma_units_increasing(p, r + 1, m);
        }
        assert((ur + next) * den == ur * den + next * den) by (nonlinear_arith);
        lemma_order_cancel(next, um, den);
        lemma_order_cancel(ur, next, den);
    } else if m < r {
        let last = units(p, (r - 1) as nat);
        lemma_units_increasing(p, (r - 1) as nat, r);
        if m < r - 1 {
            lemma_units_increasing(p, m, (r - 1) as nat);
        }
        assert((last + ur) * den == last * den + ur * den) by (nonlinear_arith);
        lemma_order_cancel(um, last, den);
        lemma_order_cancel(last, ur, den);
    }
}

/// The product of two finite values is the value nearest to their exact product,
/// the even one of two, where it is finite, and negative if one of them is.
pub proof fn lemma_f64_product_is_nearest(a: u64, b: u64, r: u64, c: u64)
    requires
        is_f64_product(a, b, r),
        f64_mag(a) < f64_inf(),
        f64_mag(b) < f64_inf(),
        f64_mag(r) < f64_inf(),
    ensures
        ({
            let exact = f64_units(a) * f64_units(b);
            let near = distance(exact as int, (f64_units(r) * pow2(1074)) as int);
            let other = distance(exact as int, (f64_units(c) * pow2(1074)) as int);
            &&& near <= other
            &&& near == other && f64_mag(c) != f64_mag(r) ==> f64_mag(r) % 2 == 0
            &&& f64_neg(r) == (f64_neg(a) != f64_neg(b))
        }),
{
    lemma_pow2_pos(1074);
    lemma_rounded_ratio_is_nearest(
        52,
        f64_inf(),
        f64_units(a) * f64_units(b),
        pow2(1074),
        f64_mag(r),
        f64_mag(c),
    );
}

/// The quotient of two finite values is the value nearest to their exact quotient,
/// the even one of two, where it is finite, and negative if one of them is.
pub proof fn lemma_f64_quotient_is_nearest(a: u64, b: u64, r: u64, c: u64)
    requires
        is_f64_quotient(a, b, r),
        f64_mag(a) < f64_inf(),
        0 < f64_mag(b) < f64_inf(),
        f64_mag(r) < f64_inf(),
    ensures
        ({
            let exact = f64_units(a) * pow2(1074);
            let near = distance(exact as int, (f64_units(r) * f64_units(b)) as int);
            let other = distance(exact as int, (f64_units(c) * f64_units(b)) as int);
            &&& near <= other
            &&& near == other && f64_mag(c) != f64_mag(r) ==> f64_mag(r) % 2 == 0
            &&& f64_neg(r) == (f64_neg(a) != f64_neg(b))
        }),
{
    lemma_units_increasing(52, 0, f64_mag(b));
    lemma_rounded_ratio_is_nearest(
        52,
        f64_inf(),
        f64_units(a) * pow2(1074),
        f64_units(b),
        f64_mag(r),
        f64_mag(c),
    );
}

/// The pattern of one.
pub open spec fn f64_one() -> u64 {
    0x3FF0_0000_0000_0000
}

proof fn lemma_units_of_one()
    ensures
        f64_units(f64_one()) == pow2(1074),
        f64_mag(f64_one()) < f64_inf(),
{
    assert(pow2(52) == 0x10_0000_0000_0000) by {
        lemma2_to64_rest();
    }
    lemma_pow2_unfold(53);
    lemma_units_step(52, 1022, pow2(52));
    lemma_pow2_adds(52, 1022);
    assert(0x3FF0_0000_0000_0000 == 1022 * 0x10_0000_0000_0000 + 0x10_0000_0000_0000);
}

/// Multiplying by one gives the value back.
pub proof fn lemma_one_is_neutral(a: u64, r: u64)
    requires
        is_f64_product(a, f64_one(), r),
        !f64_nan(a),
    ensures
        r == a,
{
    lemma_units_of_one();
    lemma_pow2_pos(1074);
    if f64_mag(a) < f64_inf() {
        lemma_rounded_exact(52, f64_inf(), f64_mag(a), pow2(1074));
        lemma_rounded_unique(
            52,
            f64_inf(),
            f64_units(a) * pow2(1074),
            pow2(1074),
            f64_mag(a),
            f64_mag(r),
        );
    }
}

/// A value divided by itself is one, unless it is zero, infinite or no number.
pub proof fn lemma_quotient_by_itself(a: u64, r: u64)
    requires
        is_f64_quotient(a, a, r),
        0 < f64_mag(a) < f64_inf(),
    ensures
        r == f64_one(),
{
    lemma_units_of_one();
    lemma_units_increasing(52, 0, f64_mag(a));
    let u = f64_units(a);
    assert(u * pow2(1074) == pow2(1074) * u) by (nonlinear_arith);
    lemma_rounded_exact(52, f64_inf(), f64_mag(f64_one()), u);
    lemma_rounded_unique(
        52,
        f64_inf(),
        u * pow2(1074),
        u,
        f64_mag(f64_one()),
        f64_mag(r),
    );
}

/// Operations on what is no number give no number; nor do the difference of two
/// infinities, zero times infinity, and the quotient of two zeroes or two
/// infinities.
pub proof fn lemma_f64_no_numbers(a: u64, b: u64, sum: u64, product: u64, quotient: u64)
    requires
        is_f64_sum(a, b, sum),
        is_f64_product(a, b, product),
        is_f64_quotient(a, b, quotient),
    ensures
        f64_nan(sum) <==> f64_nan(a) || f64_nan(b) || (f64_mag(a) == f64_inf() && f64_mag(b)
            == f64_inf() && f64_neg(a) != f64_neg(b)),
        f64_nan(product) <==> f64_nan(a) || f64_nan(b) || (f64_mag(a) == f64_inf() && f64_mag(b)
            == 0) || (f64_mag(a) == 0 && f64_mag(b) == f64_inf()),
        f64_nan(quotient) <==> f64_nan(a) || f64_nan(b) || (f64_mag(a) == f64_inf() && f64_mag(b)
            == f64_inf()) || (f64_mag(a) == 0 && f64_mag(b) == 0),
{
    lemma_quieted(a);
    lemma_quieted(b);
}

proof fn lemma_quieted(a: u64)
    ensures
        f64_nan(a) ==> f64_nan(a | 0x0008_0000_0000_0000),
{
    assert((a | 0x0008_0000_0000_0000) >= a && ((a | 0x0008_0000_0000_0000)
        >= 0x8000_0000_0000_0000 <==> a >= 0x8000_0000_0000_0000)) by (bit_vector);
}

/// Infinities: what a finite value does not change in a sum, what a value that is
/// not zero does not change in a product; what is divided by zero is infinite, and
/// what is divided by infinity zero. The sign is that of the operands.
pub proof fn lemma_f64_infinities(a: u64, b: u64, sum: u64, product: u64, quotient: u64)
    requires
        is_f64_sum(a, b, sum),
        is_f64_product(a, b, product),
        is_f64_quotient(a, b, quotient),
        !f64_nan(a),
        !f64_nan(b),
    ensures
        f64_mag(a) == f64_inf() && f64_mag(b) < f64_inf() ==> sum == a,
        f64_mag(b) == f64_inf() && f64_mag(a) < f64_inf() ==> sum == b,
        f64_mag(a) == f64_inf() && f64_mag(b) != 0 ==> f64_mag(product) == f64_inf()
            && f64_neg(product) == (f64_neg(a) != f64_neg(b)),
        f64_mag(b) == f64_inf() && f64_mag(a) != 0 ==> f64_mag(product) == f64_inf()
            && f64_neg(product) == (f64_neg(a) != f64_neg(b)),
        f64_mag(b) == 0 && f64_mag(a) != 0 ==> f64_mag(quotient) == f64_inf() && f64_neg(quotient)
            == (f64_neg(a) != f64_neg(b)),
        f64_mag(b) == f64_inf() && f64_mag(a) < f64_inf() ==> f64_mag(quotient) == 0
            && f64_neg(quotient) == (f64_neg(a) != f64_neg(b)),
{
}

/// A value that is widened and narrowed again is what it was.
pub proof fn lemma_widening_is_undone(a: u32, wide: u64, r: u32)
    requires
        is_f64_widened(a, wide),
        is_f32_narrowed(wide, r),
        !f32_nan(a),
    ensures
        r == a,
{
    lemma_pow2_pos(925);
    if f32_mag(a) < f32_inf() {
        lemma_rounded_exact(23, f32_inf(), f32_mag(a), pow2(925));
        lemma_rounded_unique(
            23,
            f32_inf(),
            f32_units(a) * pow2(925),
            pow2(925),
            f32_mag(a),
            f32_mag(r),
        );
    }
}

/// A value narrowed to binary32 is the one nearest to it, where it is finite.
pub proof fn lemma_narrowed_is_nearest(a: u64, r: u32, c: u32)
    requires
        is_f32_narrowed(a, r),
        f64_mag(a) < f64_inf(),
        f32_mag(r) < f32_inf(),
    ensures
        distance(f64_units(a) as int, (f32_units(r) * pow2(925)) as int) <= distance(
            f64_units(a) as int,
            (f32_units(c) * pow2(925)) as int,
        ),
        f32_neg(r) == f64_neg(a),
{
    lemma_pow2_pos(925);
    lemma_rounded_ratio_is_nearest(
        23,
        f32_inf(),
        f64_units(a),
        pow2(925),
        f32_mag(r),
        f32_mag(c),
    );
}

/// A binary128 value narrowed to binary64 is the one nearest to it, where it is
/// finite.
pub proof fn lemma_f128_narrowed_is_nearest(a: u128, r: u64, c: u64)
    requires
        is_f64_from_f128(a, r),
        f128_mag(a) < f128_inf(),
        f64_mag(r) < f64_inf(),
    ensures
        distance(f128_units(a) as int, (f64_units(r) * pow2(15420)) as int) <= distance(
            f128_units(a) as int,
            (f64_units(c) * pow2(15420)) as int,
        ),
        f64_neg(r) == (a >= 0x8000_0000_0000_0000_0000_0000_0000_0000),
{
    lemma_pow2_pos(15420);
    lemma_rounded_ratio_is_nearest(
        52,
        f64_inf(),
        f128_units(a),
        pow2(15420),
        f64_mag(r),
        f64_mag(c),
    );
}

/// A value that is an integer in the range converts to it.
pub proof fn lemma_integers_are_kept(a: u64, n: int, lo: int, hi: int)
    requires
        f64_mag(a) < f64_inf(),
        f64_value(a) == n * pow2(1074),
        lo <= n <= hi,
    ensures
        f64_fixed(a, lo, hi) == n,
{
    let d = pow2(1074) as int;
    lemma_pow2_pos(1074);
    let m = if f64_neg(a) {
        -n
    } else {
        n
    };
    assert(f64_units(a) == m * d) by (nonlinear_arith)
        requires
            f64_value(a) == n * d,
            f64_neg(a) ==> f64_units(a) == -f64_value(a) && m == -n,
            !f64_neg(a) ==> f64_units(a) == f64_value(a) && m == n,
    ;
    lemma_div_multiples_vanish(m, d);
    assert(m * d == d * m) by (nonlinear_arith);
}

/// A finite value converts to an integer by dropping its fraction, and what is
/// behind an end of the range to that end.
pub proof fn lemma_fraction_is_dropped(a: u64, lo: int, hi: int)
    requires
        f64_mag(a) < f64_inf(),
        lo <= 0 <= hi,
    ensures
        ({
            let n = f64_fixed(a, lo, hi);
            let v = f64_value(a);
            let d = pow2(1074) as int;
            &&& lo <= n <= hi
            &&& lo < n < hi && v >= 0 ==> n * d <= v < (n + 1) * d
            &&& lo < n < hi && v <= 0 ==> (n - 1) * d < v <= n * d
            &&& n == hi && v >= 0 ==> hi * d <= v
            &&& n == lo && v <= 0 ==> v <= lo * d
        }),
{
    let d = pow2(1074) as int;
    let u = f64_units(a) as int;
    lemma_pow2_pos(1074);
    lemma_fundamental_div_mod(u, d);
    lemma_mod_bound(u, d);
    let q = u / d;
    assert(d * q == q * d && (q + 1) * d == q * d + d && (-q) * d == -(q * d) && (-q - 1) * d == -(q
        * d) - d) by (nonlinear_arith);
    lemma_div_pos_is_pos(u, d);
    if hi <= q {
        assert(hi * d <= q * d) by (nonlinear_arith) requires hi <= q, d > 0;
    }
    if -q <= lo {
        assert((-q) * d <= lo * d) by (nonlinear_arith) requires -q <= lo, d > 0;
    }
    assert(0 * d == 0);
}

/// The order of numbers is that of their values: it turns round with the operands,
/// and equal are the same patterns and the two zeroes.
pub proof fn lemma_order_of_numbers(a: u64, b: u64)
    requires
        !f64_nan(a),
        !f64_nan(b),
    ensures
        f64_order(a, b, 0) == -f64_order(b, a, 0),
        f64_order(a, b, 0) == 0 <==> a == b || (f64_mag(a) == 0 && f64_mag(b) == 0),
        !f64_neg(a) && !f64_neg(b) ==> (f64_order(a, b, 0) < 0 <==> a < b),
        f64_neg(a) && f64_neg(b) ==> (f64_order(a, b, 0) < 0 <==> a > b),
        f64_neg(a) && !f64_neg(b) ==> f64_order(a, b, 0) <= 0,
{
    lemma_units_order(52, f64_mag(a), f64_mag(b));
    lemma_units_order(52, 0, f64_mag(a));
    lemma_units_order(52, 0, f64_mag(b));
    lemma_units_of_zero(52);
}

proof fn lemma_units_of_zero(p: nat)
    ensures
        units(p, 0) == 0,
{
    lemma_pow2_pos(p);
    lemma_small_mod(0, pow2(p));
    lemma_basic_div(0, pow2(p) as int);
}

proof fn lemma_units_order(p: nat, m: nat, n: nat)
    ensures
        units(p, m) < units(p, n) <==> m < n,
        units(p, m) == units(p, n) <==> m == n,
{
    if m < n {
        lemma_units_increasing(p, m, n);
    } else if n < m {
        lemma_units_increasing(p, n, m);
    }
}

/// Negation turns the sign round and keeps the magnitude.
pub proof fn lemma_negation(a: u64)
    ensures
        f64_value(f64_negated(a)) == -f64_value(a),
        f64_mag(f64_negated(a)) == f64_mag(a),
        f64_neg(f64_negated(a)) != f64_neg(a),
        f64_negated(f64_negated(a)) == a,
{
}

/// The difference of a number and itself is zero.
pub proof fn lemma_difference_from_itself(a: u64, r: u64)
    requires
        is_f64_sum(a, f64_negated(a), r),
        f64_mag(a) < f64_inf(),
    ensures
        r == 0,
{
    lemma_negation(a);
}

/// The order of binary32 numbers is that of their values: it turns round with the
/// operands, and equal are the same patterns and the two zeroes.
pub proof fn lemma_order_of_f32_numbers(a: u32, b: u32)
    requires
        !f32_nan(a),
        !f32_nan(b),
    ensures
        f32_order(a, b, 0) == -f32_order(b, a, 0),
        f32_order(a, b, 0) == 0 <==> a == b || (f32_mag(a) == 0 && f32_mag(b) == 0),
        !f32_neg(a) && !f32_neg(b) ==> (f32_order(a, b, 0) < 0 <==> a < b),
        f32_neg(a) && f32_neg(b) ==> (f32_order(a, b, 0) < 0 <==> a > b),
        f32_neg(a) && !f32_neg(b) ==> f32_order(a, b, 0) <= 0,
{
    lemma_units_order(23, f32_mag(a), f32_mag(b));
    lemma_units_order(23, 0, f32_mag(a));
    lemma_units_order(23, 0, f32_mag(b));
    lemma_units_of_zero(23);
}

/// The order of binary128 numbers is that of their values: it turns round with the
/// operands, and equal are the same patterns and the two zeroes.
pub proof fn lemma_order_of_f128_numbers(a: u128, b: u128)
    requires
        !f128_nan(a),
        !f128_nan(b),
    ensures
        f128_order(a, b, 0) == -f128_order(b, a, 0),
        f128_order(a, b, 0) == 0 <==> a == b || (f128_mag(a) == 0 && f128_mag(b) == 0),
        !f128_neg(a) && !f128_neg(b) ==> (f128_order(a, b, 0) < 0 <==> a < b),
        f128_neg(a) && f128_neg(b) ==> (f128_order(a, b, 0) < 0 <==> a > b),
        f128_neg(a) && !f128_neg(b) ==> f128_order(a, b, 0) <= 0,
{
    lemma_units_order(112, f128_mag(a), f128_mag(b));
    lemma_units_order(112, 0, f128_mag(a));
    lemma_units_order(112, 0, f128_mag(b));
    lemma_units_of_zero(112);
}

} // verus!
