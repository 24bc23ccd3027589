//! Binary32 arithmetic carried out in binary64 is correctly rounded.
//!
//! Rounding twice is harmless here: a binary64 result that falls on the midpoint
//! of two binary32 values does so only where the exact result is that midpoint.
use crate::builtins::float_format::{
    is_rounded, lemma_rounded_exact, lemma_rounded_scale, lemma_rounded_unique,
    lemma_units_increasing, lemma_units_split, lemma_units_step, units,
};
use crate::builtins::soft_float::{
    f32_inf, f32_mag, f32_neg, f32_units, f32_value, f64_inf, f64_mag, f64_neg, f64_negated,
    f64_units, f64_value, is_f32_difference, is_f32_narrowed, is_f32_product, is_f32_quotient,
    is_f32_sum, is_f64_product, is_f64_quotient, is_f64_sum, is_f64_widened,
};
use vstd::arithmetic::power2::*;
use vstd::prelude::*;

verus! {

/// Twice the midpoint of the binary32 magnitudes `m` and `m + 1`.
pub open spec fn middle(m: nat) -> nat {
    units(23, m) + units(23, m + 1)
}

proof fn lemma_constants()
    ensures
        pow2(0) == 1,
        pow2(1) == 2,
        pow2(23) == 0x80_0000,
        pow2(24) == 0x100_0000,
        pow2(25) == 0x200_0000,
        pow2(28) == 0x1000_0000,
        pow2(29) == 0x2000_0000,
        pow2(48) == 0x1_0000_0000_0000,
        pow2(52) == 0x0010_0000_0000_0000,
        pow2(53) == 0x0020_0000_0000_0000,
{
    lemma2_to64();
    lemma2_to64_rest();
}

/// Every number of at most 53 bits, shifted up, is a binary64 magnitude.
proof fn lemma_representable(n: nat, t: nat) -> (k: nat)
    requires
        n <= pow2(53),
    ensures
        units(52, k) == n * pow2(t),
        k <= (t + 2) * pow2(52),
    decreases t,
{
    lemma_constants();
    if n >= pow2(52) || t == 0 {
        lemma_units_step(52, t, n);
        let k = t * pow2(52) + n;
        assert(k <= (t + 2) * pow2(52)) by (nonlinear_arith)
            requires
                k == t * pow2(52) + n,
                n <= 2 * pow2(52),
        ;
        k
    } else {
        let k = lemma_representable(2 * n, (t - 1) as nat);
        lemma_pow2_unfold(t);
        let h = pow2((t - 1) as nat);
        assert((2 * n) * h == n * (2 * h)) by (nonlinear_arith);
        assert((t + 1) * pow2(52) <= (t + 2) * pow2(52)) by (nonlinear_arith);
        k
    }
}

proof fn lemma_rounded_at_most(p: nat, inf: nat, num: nat, den: nat, m: nat, k: nat)
    requires
        den > 0,
        is_rounded(p, inf, num, den, m),
        num <= units(p, k) * den,
    ensures
        m <= k,
{
    if m > k {
        let lo = units(p, (m - 1) as nat);
        let hi = units(p, m);
        let u = units(p, k);
        lemma_units_increasing(p, k, m);
        if k < m - 1 {
            lemma_units_increasing(p, k, (m - 1) as nat);
        }
        assert((lo + hi) * den > 2 * (u * den)) by (nonlinear_arith)
            requires
                lo >= u,
                hi > u,
                den > 0,
        ;
    }
}

proof fn lemma_rounded_at_least(p: nat, inf: nat, num: nat, den: nat, m: nat, k: nat)
    requires
        den > 0,
        is_rounded(p, inf, num, den, m),
        num >= units(p, k) * den,
        k <= inf,
    ensures
        m >= k,
{
    if m < k {
        let lo = units(p, m);
        let hi = units(p, m + 1);
        let u = units(p, k);
        lemma_units_increasing(p, m, k);
        if m + 1 < k {
            lemma_units_increasing(p, m + 1, k);
        }
        assert((lo + hi) * den < 2 * (u * den)) by (nonlinear_arith)
            requires
                lo < u,
                hi <= u,
                den > 0,
        ;
    }
}

/// A midpoint as an odd number of at most 25 bits, shifted up.
proof fn lemma_middle(m: nat) -> (r: (nat, nat))
    requires
        m <= f32_inf(),
    ensures
        middle(m) == (2 * r.1 + 1) * pow2(r.0),
        r.1 < pow2(24),
        r.0 > 0 ==> r.1 >= pow2(23),
        r.0 <= 255,
        units(23, m) == r.1 * pow2(r.0),
{
    lemma_constants();
    let (s, q) = lemma_units_split(23, m);
    let w = pow2(s);
    assert(q * w + (q + 1) * w == (2 * q + 1) * w) by (nonlinear_arith);
    assert(s <= 255) by (nonlinear_arith)
        requires
            m == s * pow2(23) + q,
            m <= 0x7F80_0000,
            pow2(23) == 0x80_0000,
            q >= 0,
    ;
    (s, q)
}

/// A midpoint of binary32 magnitudes as a binary64 magnitude.
proof fn lemma_middle_is_representable(m: nat) -> (k: nat)
    requires
        m <= f32_inf(),
    ensures
        2 * units(52, k) == middle(m) * pow2(925),
        k < f64_inf(),
{
    lemma_constants();
    let (s, q) = lemma_middle(m);
    let n = 2 * q + 1;
    let k = lemma_representable(n, s + 924);
    let w = pow2(s);
    lemma_pow2_adds(s, 924);
    lemma_pow2_unfold(925);
    let c = pow2(924);
    assert(2 * (n * (w * c)) == (n * w) * (2 * c)) by (nonlinear_arith);
    assert(k < 0x7FF0_0000_0000_0000) by (nonlinear_arith)
        requires
            k <= (s + 924 + 2) * pow2(52),
            s <= 255,
            pow2(52) == 0x0010_0000_0000_0000,
    ;
    k
}

/// Rounding to binary64 keeps the side of a midpoint.
proof fn lemma_side(num: nat, den: nat, w: nat, m: nat)
    requires
        den > 0,
        m <= f32_inf(),
        is_rounded(52, f64_inf(), num * pow2(925), den, w),
    ensures
        2 * units(52, w) > middle(m) * pow2(925) ==> 2 * num > middle(m) * den,
        2 * units(52, w) < middle(m) * pow2(925) ==> 2 * num < middle(m) * den,
{
    let k = lemma_middle_is_representable(m);
    let u = units(52, k);
    let mid = middle(m);
    let c = pow2(925);
    lemma_pow2_pos(925);
    if 2 * num <= mid * den {
        assert(num * c <= u * den) by (nonlinear_arith)
            requires
                2 * num <= mid * den,
                2 * u == mid * c,
                c > 0,
        ;
        lemma_rounded_at_most(52, f64_inf(), num * c, den, w, k);
        if w < k {
            lemma_units_increasing(52, w, k);
        }
    }
    if 2 * num >= mid * den {
        assert(num * c >= u * den) by (nonlinear_arith)
            requires
                2 * num >= mid * den,
                2 * u == mid * c,
                c > 0,
        ;
        lemma_rounded_at_least(52, f64_inf(), num * c, den, w, k);
        if k < w {
            lemma_units_increasing(52, k, w);
        }
    }
}

/// Whether the binary64 magnitude `w` falls on the midpoint behind `m` only if
/// `num / den` does.
spec fn true_tie(num: nat, den: nat, w: nat, m: nat) -> bool {
    2 * units(52, w) == middle(m) * pow2(925) ==> 2 * num == middle(m) * den
}

/// Rounding to binary64 and then to binary32 is rounding to binary32, unless the
/// first rounding makes a tie.
proof fn lemma_rounded_twice(num: nat, den: nat, w: nat, m: nat)
    requires
        den > 0,
        is_rounded(52, f64_inf(), num * pow2(925), den, w),
        is_rounded(23, f32_inf(), units(52, w), pow2(925), m),
        forall|k: nat| k <= f32_inf() ==> #[trigger] true_tie(num, den, w, k),
    ensures
        is_rounded(23, f32_inf(), num, den, m),
{
    let y = units(52, w);
    if m > 0 {
        let k = (m - 1) as nat;
        lemma_side(num, den, w, k);
        assert(true_tie(num, den, w, k));
        assert(middle(k) == units(23, k) + units(23, m));
    }
    if m < f32_inf() {
        lemma_side(num, den, w, m);
        assert(true_tie(num, den, w, m));
    }
}

/// Where a binary64 result falls on a midpoint, the exact result is that near to
/// it: within 2^-30 of the spacing there.
proof fn lemma_near_middle(num: nat, den: nat, w: nat, m: nat, s: nat, q: nat)
    requires
        den > 0,
        m <= f32_inf(),
        w < f64_inf(),
        is_rounded(52, f64_inf(), num * pow2(925), den, w),
        2 * units(52, w) == middle(m) * pow2(925),
        middle(m) == (2 * q + 1) * pow2(s),
        q < pow2(24),
    ensures
        (2 * num - middle(m) * den) * pow2(29) <= pow2(s) * den,
        (middle(m) * den - 2 * num) * pow2(29) <= pow2(s) * den,
{
    lemma_constants();
    let n = 2 * q + 1;
    let t = (s + 896) as nat;
    let y = units(52, w);
    let c = pow2(925);
    let g = pow2(t);
    let ps = pow2(s);
    let p896 = pow2(896);
    lemma_pow2_adds(s, 896);
    lemma_pow2_adds(896, 29);
    lemma_pow2_pos(896);
    lemma_pow2_pos(t);
    assert(g == ps * p896);
    assert(c == p896 * pow2(29));
    // the value is n * 2^28 steps of size g
    assert(y == (n * pow2(28)) * g) by (nonlinear_arith)
        requires
            2 * y == (n * ps) * c,
            c == p896 * pow2(29),
            g == ps * p896,
            pow2(29) == 0x2000_0000,
            pow2(28) == 0x1000_0000,
    ;
    let up = lemma_representable(n * pow2(28) + 1, t);
    let down = lemma_representable((n * pow2(28) - 1) as nat, t);
    assert(units(52, up) == y + g) by (nonlinear_arith)
        requires
            units(52, up) == (n * pow2(28) + 1) * g,
            y == (n * pow2(28)) * g,
    ;
    assert(units(52, down) == y - g) by (nonlinear_arith)
        requires
            units(52, down) == (n * pow2(28) - 1) * g,
            y == (n * pow2(28)) * g,
    ;
    assert(y > 0) by (nonlinear_arith)
        requires
            y == (n * pow2(28)) * g,
            n >= 1,
            pow2(28) == 0x1000_0000,
            g > 0,
    ;
    if up <= w {
        if up < w {
            lemma_units_increasing(52, up, w);
        }
    }
    if w + 1 < up {
        lemma_units_increasing(52, w + 1, up);
    }
    let above = units(52, w + 1);
    assert(above <= y + g);
    if down >= w {
        if w < down {
            lemma_units_increasing(52, w, down);
        }
    }
    assert(w > 0);
    let k = (w - 1) as nat;
    if down < k {
        lemma_units_increasing(52, down, k);
    }
    let below = units(52, k);
    assert(below >= y - g);
    let nn = num * c;
    assert(2 * nn <= (y + above) * den);
    assert((below + y) * den <= 2 * nn);
    let mid = middle(m);
    let d = 2 * num - mid * den;
    // in units of 2^-1074 the distance is at most g
    assert(d * c <= g * den) by (nonlinear_arith)
        requires
            2 * nn <= (y + above) * den,
            above <= y + g,
            nn == num * c,
            2 * y == mid * c,
            d == 2 * num - mid * den,
            den > 0,
    ;
    assert((0 - d) * c <= g * den) by (nonlinear_arith)
        requires
            (below + y) * den <= 2 * nn,
            below >= y - g,
            nn == num * c,
            2 * y == mid * c,
            d == 2 * num - mid * den,
            den > 0,
    ;
    assert(d * pow2(29) <= ps * den) by (nonlinear_arith)
        requires
            d * c <= g * den,
            c == p896 * pow2(29),
            g == ps * p896,
            p896 > 0,
    ;
    assert((0 - d) * pow2(29) <= ps * den) by (nonlinear_arith)
        requires
            (0 - d) * c <= g * den,
            c == p896 * pow2(29),
            g == ps * p896,
            p896 > 0,
    ;
}

/// A finite binary32 magnitude as a number of at most 24 bits, shifted up.
proof fn lemma_f32_parts(m: nat) -> (r: (nat, nat))
    requires
        m < f32_inf(),
    ensures
        units(23, m) == r.1 * pow2(r.0),
        r.1 < pow2(24),
        r.0 <= 253,
        r.0 > 0 ==> r.1 >= pow2(23),
{
    lemma_constants();
    let (s, q) = lemma_units_split(23, m);
    assert(s <= 253) by (nonlinear_arith)
        requires
            m == s * pow2(23) + q,
            m < 0x7F80_0000,
            pow2(23) == 0x80_0000,
            s > 0 ==> q >= pow2(23),
    ;
    (s, q)
}

/// A product of two magnitudes as one number, shifted up.
proof fn lemma_shifted(a: nat, s: nat, b: nat, t: nat)
    ensures
        (a * pow2(s)) * (b * pow2(t)) == (a * b) * pow2(s + t),
{
    lemma_pow2_adds(s, t);
    let x = pow2(s);
    let y = pow2(t);
    assert((a * x) * (b * y) == (a * b) * (x * y)) by (nonlinear_arith);
}

proof fn lemma_pow2_le(a: nat, b: nat)
    requires
        a <= b,
    ensures
        pow2(a) <= pow2(b),
{
    if a < b {
        lemma_pow2_strictly_increases(a, b);
    }
}

/// A multiple of `g` that is smaller than `g` is zero.
proof fn lemma_small_multiple(d: int, k: int, g: nat)
    requires
        d == k * g,
        -g < d < g,
    ensures
        d == 0,
{
    if k >= 1 {
        assert(k * g >= g) by (nonlinear_arith)
            requires
                k >= 1,
                g >= 0,
        ;
    } else if k <= -1 {
        assert(k * g <= -g) by (nonlinear_arith)
            requires
                k <= -1,
                g >= 0,
        ;
    } else {
        assert(k * g == 0) by (nonlinear_arith)
            requires
                k == 0,
        ;
    }
}

// ---------------------------------------------------------------------------
// Sums
// ---------------------------------------------------------------------------

/// The sum or difference of two binary32 magnitudes is no false tie: `ua` is the
/// larger one.
proof fn lemma_sum_tie(ma: nat, mb: nat, plus: bool, num: nat, w: nat, m: nat)
    requires
        ma < f32_inf(),
        mb < f32_inf(),
        units(23, ma) >= units(23, mb),
        num == if plus {
            (units(23, ma) + units(23, mb)) as int
        } else {
            units(23, ma) - units(23, mb)
        },
        m <= f32_inf(),
        w < f64_inf(),
        is_rounded(52, f64_inf(), num * pow2(925), 1, w),
    ensures
        true_tie(num, 1, w, m),
{
    let mid = middle(m);
    if 2 * units(52, w) == mid * pow2(925) {
        lemma_constants();
        let (s, q) = lemma_middle(m);
        let ps = pow2(s);
        lemma_near_middle(num, 1, w, m, s, q);
        let d = 2 * num - mid;
        assert(mid * 1 == mid);
        assert(ps * 1 == ps);
        assert(d * 0x2000_0000 <= ps && (0 - d) * 0x2000_0000 <= ps);
        if s < 29 {
            lemma_pow2_strictly_increases(s, 29);
            assert(d == 0) by (nonlinear_arith)
                requires
                    d * 0x2000_0000 <= ps,
                    (0 - d) * 0x2000_0000 <= ps,
                    ps < 0x2000_0000,
            ;
        } else {
            lemma_wide_sum_tie(ma, mb, plus, num, m, s, q);
        }
    }
}

proof fn lemma_wide_sum_tie(ma: nat, mb: nat, plus: bool, num: nat, m: nat, s: nat, q: nat)
    requires
        ma < f32_inf(),
        mb < f32_inf(),
        units(23, ma) >= units(23, mb),
        num == if plus {
            (units(23, ma) + units(23, mb)) as int
        } else {
            units(23, ma) - units(23, mb)
        },
        middle(m) == (2 * q + 1) * pow2(s),
        q >= pow2(23),
        s >= 29,
        (2 * num - middle(m)) * 0x2000_0000 <= pow2(s),
        (middle(m) - 2 * num) * 0x2000_0000 <= pow2(s),
    ensures
        2 * num == middle(m),
{
    lemma_constants();
    let ua = units(23, ma);
    let ub = units(23, mb);
    let mid = middle(m);
    let (sa, a) = lemma_f32_parts(ma);
    let (sb, b) = lemma_f32_parts(mb);
    let h = (s - 29) as nat;
    let ph = pow2(h);
    lemma_pow2_pos(h);
    lemma_pow2_adds(29, h);
    let ps = pow2(s);
    assert(ps == 0x2000_0000 * ph);
    let d = 2 * num - mid;
    assert(d <= ph && -ph <= d) by (nonlinear_arith)
        requires
            d * 0x2000_0000 <= ps,
            (0 - d) * 0x2000_0000 <= ps,
            ps == 0x2000_0000 * ph,
    ;
    // the larger operand is as large as the midpoint, up to a factor of two
    assert(sa + 1 >= s) by {
        if sa + 1 < s {
            let j = (s - sa - 2) as nat;
            lemma_pow2_adds(sa, 2 + j);
            lemma_pow2_adds(2, j);
            lemma_pow2_pos(j);
            lemma_pow2_pos(sa);
            assert(pow2(2) == 4) by {
                lemma2_to64();
            }
            let pa = pow2(sa);
            let pj = pow2(j);
            assert(ps == pa * (4 * pj));
            assert(4 * ua < 4 * (0x100_0000 * pa)) by (nonlinear_arith)
                requires
                    ua == a * pa,
                    a < 0x100_0000,
                    pa > 0,
            ;
            assert(0x100_0000 * ps >= 4 * (0x100_0000 * pa)) by (nonlinear_arith)
                requires
                    ps == pa * (4 * pj),
                    pj >= 1,
            ;
            assert(mid >= 0x100_0001 * ps) by (nonlinear_arith)
                requires
                    mid == (2 * q + 1) * ps,
                    q >= 0x80_0000,
            ;
            assert(ph <= ps);
            assert(2 * num <= 4 * ua);
        }
    }
    let j = (sa + 1 - s) as nat;
    lemma_pow2_adds(s, j);
    lemma_pow2_unfold(sa + 1);
    let pj = pow2(j);
    let pa = pow2(sa);
    assert(2 * ua == (a * pj) * ps) by (nonlinear_arith)
        requires
            ua == a * pa,
            2 * pa == ps * pj,
    ;
    // what is left is a multiple of the midpoint's spacing and the smaller operand
    let t = a * pj - (2 * q + 1);
    assert(2 * ua - mid == t * ps) by (nonlinear_arith)
        requires
            2 * ua == (a * pj) * ps,
            mid == (2 * q + 1) * ps,
            t == a * pj - (2 * q + 1),
    ;
    let sign: int = if plus {
        1
    } else {
        -1
    };
    assert(d == t * ps + sign * (2 * ub)) by (nonlinear_arith)
        requires
            d == 2 * num - mid,
            2 * ua - mid == t * ps,
            num == if plus {
                (ua + ub) as int
            } else {
                ua - ub
            },
            sign == if plus {
                1int
            } else {
                -1int
            },
    ;
    let pb = pow2(sb);
    if sb >= h {
        let i = (sb - h) as nat;
        lemma_pow2_adds(h, i);
        let pi = pow2(i);
        assert(pb == ph * pi);
        let f = t * 0x1000_0000 + sign * (b * pi);
        assert(d == f * (2 * ph)) by (nonlinear_arith)
            requires
                d == t * ps + sign * (2 * ub),
                ps == 0x2000_0000 * ph,
                ub == b * pb,
                pb == ph * pi,
                f == t * 0x1000_0000 + sign * (b * pi),
        ;
        lemma_small_multiple(d, f, 2 * ph);
    } else {
        // the smaller operand is negligible, so the larger one is the midpoint
        lemma_pow2_le(sb + 1, h);
        lemma_pow2_unfold(sb + 1);
        assert(2 * ub <= 0x100_0000 * ph) by (nonlinear_arith)
            requires
                ub == b * pb,
                b < 0x100_0000,
                2 * pb <= ph,
        ;
        assert(-ps < t * ps && t * ps < ps) by (nonlinear_arith)
            requires
                d == t * ps + sign * (2 * ub),
                d <= ph,
                -ph <= d,
                2 * ub <= 0x100_0000 * ph,
                ub >= 0,
                sign == 1 || sign == -1,
                ps == 0x2000_0000 * ph,
                ph > 0,
        ;
        lemma_small_multiple(t * ps, t, ps);
        assert(2 * ua == mid);
        if ma <= m {
            if ma < m {
                lemma_units_increasing(23, ma, m);
            }
            lemma_units_increasing(23, m, m + 1);
        } else {
            if m + 1 < ma {
                lemma_units_increasing(23, m + 1, ma);
            }
            lemma_units_increasing(23, m, m + 1);
        }
    }
}

/// A value of at most 600 bits is far from the end of binary64.
proof fn lemma_stays_finite(n: nat, den: nat, t: nat, w: nat)
    requires
        den > 0,
        t <= 2000,
        n <= pow2(t) * den,
        is_rounded(52, f64_inf(), n, den, w),
    ensures
        w < f64_inf(),
{
    lemma_constants();
    let k = lemma_representable(1, t);
    assert(1 * pow2(t) == pow2(t)) by (nonlinear_arith);
    lemma_rounded_at_most(52, f64_inf(), n, den, w, k);
    assert(k < 0x7FF0_0000_0000_0000) by (nonlinear_arith)
        requires
            k <= (t + 2) * pow2(52),
            t <= 2000,
            pow2(52) == 0x0010_0000_0000_0000,
    ;
}

proof fn lemma_f32_bound(m: nat)
    requires
        m < f32_inf(),
    ensures
        units(23, m) < pow2(277),
{
    lemma_constants();
    let (s, q) = lemma_f32_parts(m);
    lemma_pow2_adds(24, 253);
    lemma_pow2_le(s, 253);
    let c = pow2(253);
    let x = pow2(s);
    lemma_pow2_pos(s);
    assert(q * x < 0x100_0000 * c) by (nonlinear_arith)
        requires
            q < 0x100_0000,
            0 < x,
            x <= c,
    ;
}

/// Whether a binary32 value is finite.
pub open spec fn f32_finite(a: u32) -> bool {
    f32_mag(a) < f32_inf()
}

/// `r` is the magnitude of the binary32 value nearest to `num / den * 2^-149`.
pub open spec fn f32_nearest(num: nat, den: nat, r: u32) -> bool {
    is_rounded(23, f32_inf(), num, den, f32_mag(r))
}

/// The absolute value of a number.
pub open spec fn magnitude(v: int) -> nat {
    (if v < 0 {
        -v
    } else {
        v
    }) as nat
}

/// What the nearest binary32 value to an exact sum is: a sum of zero is negative
/// only if both operands are.
pub open spec fn is_nearest_sum(va: int, vb: int, both_neg: bool, r: u32) -> bool {
    let v = va + vb;
    &&& f32_nearest(magnitude(v), 1, r)
    &&& f32_neg(r) == (v < 0 || (v == 0 && both_neg))
}

proof fn lemma_sum_core(ma: nat, na: bool, mb: nat, nb: bool, wa: u64, wb: u64, w: u64, r: u32)
    requires
        ma < f32_inf(),
        mb < f32_inf(),
        f64_neg(wa) == na,
        f64_neg(wb) == nb,
        f64_mag(wa) < f64_inf(),
        f64_mag(wb) < f64_inf(),
        f64_units(wa) == units(23, ma) * pow2(925),
        f64_units(wb) == units(23, mb) * pow2(925),
        is_f64_sum(wa, wb, w),
        is_f32_narrowed(w, r),
    ensures
        is_nearest_sum(
            if na {
                -(units(23, ma) as int)
            } else {
                units(23, ma) as int
            },
            if nb {
                -(units(23, mb) as int)
            } else {
                units(23, mb) as int
            },
            na && nb,
            r,
        ),
{
    let ua = units(23, ma);
    let ub = units(23, mb);
    let c = pow2(925);
    let va: int = if na {
        -(ua as int)
    } else {
        ua as int
    };
    let vb: int = if nb {
        -(ub as int)
    } else {
        ub as int
    };
    let v = va + vb;
    let num = magnitude(v);
    lemma_pow2_pos(925);
    assert(f64_value(wa) == va * c) by (nonlinear_arith)
        requires
            f64_value(wa) == if na {
                -(ua * c)
            } else {
                (ua * c) as int
            },
            va == if na {
                -(ua as int)
            } else {
                ua as int
            },
    ;
    assert(f64_value(wb) == vb * c) by (nonlinear_arith)
        requires
            f64_value(wb) == if nb {
                -(ub * c)
            } else {
                (ub * c) as int
            },
            vb == if nb {
                -(ub as int)
            } else {
                ub as int
            },
    ;
    let vw = f64_value(wa) + f64_value(wb);
    assert(vw == v * c) by (nonlinear_arith)
        requires
            vw == va * c + vb * c,
            v == va + vb,
    ;
    if v == 0 {
        assert(v * c == 0) by (nonlinear_arith)
            requires
                v == 0,
        ;
        lemma_units_zero_52();
        lemma_rounded_scale(23, f32_inf(), 0, 1, c, f32_mag(r));
        assert(0 * c == 0 && 1 * c == c) by (nonlinear_arith);
    } else {
        assert(vw != 0 && (vw < 0) == (v < 0)) by (nonlinear_arith)
            requires
                vw == v * c,
                v != 0,
                c > 0,
        ;
        assert(magnitude(vw) == num * c) by (nonlinear_arith)
            requires
                vw == v * c,
                num == magnitude(v),
                c > 0,
        ;
        let mw = f64_mag(w);
        assert(is_rounded(52, f64_inf(), num * c, 1, mw));
        lemma_f32_bound(ma);
        lemma_f32_bound(mb);
        lemma_pow2_unfold(278);
        lemma_pow2_adds(278, 925);
        assert(num * c <= pow2(1203) * 1) by (nonlinear_arith)
            requires
                num <= pow2(278),
                pow2(278) * c == pow2(1203),
                c > 0,
        ;
        lemma_stays_finite(num * c, 1, 1203, mw);
        assert forall|k: nat| k <= f32_inf() implies #[trigger] true_tie(num, 1, mw, k) by {
            if ua >= ub {
                lemma_sum_tie(ma, mb, na == nb, num, mw, k);
            } else {
                lemma_sum_tie(mb, ma, na == nb, num, mw, k);
            }
        }
        lemma_rounded_twice(num, 1, mw, f32_mag(r));
    }
}

proof fn lemma_units_zero_52()
    ensures
        units(52, 0) == 0,
{
    lemma_constants();
    lemma_units_step(52, 0, 0);
    assert(0 * pow2(52) + 0 == 0) by (nonlinear_arith);
    assert(0 * pow2(0) == 0) by (nonlinear_arith);
}

/// The binary32 sum of two finite values is the value nearest to their exact
/// sum.
pub proof fn lemma_f32_sum_is_nearest(a: u32, b: u32, r: u32)
    requires
        is_f32_sum(a, b, r),
        f32_finite(a),
        f32_finite(b),
    ensures
        is_nearest_sum(f32_value(a), f32_value(b), f32_neg(a) && f32_neg(b), r),
{
    let (wa, wb, w) = choose|wa: u64, wb: u64, w: u64|
        {
            &&& #[trigger] is_f64_widened(a, wa)
            &&& #[trigger] is_f64_widened(b, wb)
            &&& is_f64_sum(wa, wb, w)
            &&& #[trigger] is_f32_narrowed(w, r)
        };
    lemma_sum_core(f32_mag(a), f32_neg(a), f32_mag(b), f32_neg(b), wa, wb, w, r);
}

/// The binary32 difference of two finite values is the value nearest to their
/// exact difference.
pub proof fn lemma_f32_difference_is_nearest(a: u32, b: u32, r: u32)
    requires
        is_f32_difference(a, b, r),
        f32_finite(a),
        f32_finite(b),
    ensures
        is_nearest_sum(f32_value(a), -f32_value(b), f32_neg(a) && !f32_neg(b), r),
{
    let (wa, wb, w) = choose|wa: u64, wb: u64, w: u64|
        {
            &&& #[trigger] is_f64_widened(a, wa)
            &&& #[trigger] is_f64_widened(b, wb)
            &&& is_f64_sum(wa, f64_negated(wb), w)
            &&& #[trigger] is_f32_narrowed(w, r)
        };
    lemma_sum_core(f32_mag(a), f32_neg(a), f32_mag(b), !f32_neg(b), wa, f64_negated(wb), w, r);
}

// ---------------------------------------------------------------------------
// Products
// ---------------------------------------------------------------------------

/// The binary32 product of two finite values is the value nearest to their exact
/// product.
pub proof fn lemma_f32_product_is_nearest(a: u32, b: u32, r: u32)
    requires
        is_f32_product(a, b, r),
        f32_finite(a),
        f32_finite(b),
    ensures
        f32_nearest(f32_units(a) * f32_units(b), pow2(149), r),
        f32_neg(r) == (f32_neg(a) != f32_neg(b)),
{
    let (wa, wb, w) = choose|wa: u64, wb: u64, w: u64|
        {
            &&& #[trigger] is_f64_widened(a, wa)
            &&& #[trigger] is_f64_widened(b, wb)
            &&& is_f64_product(wa, wb, w)
            &&& #[trigger] is_f32_narrowed(w, r)
        };
    lemma_constants();
    let ua = f32_units(a);
    let ub = f32_units(b);
    let num = ua * ub;
    let c = pow2(925);
    let mw = f64_mag(w);
    let d = pow2(776);
    let e = pow2(1074);
    lemma_pow2_pos(776);
    lemma_pow2_pos(1074);
    lemma_pow2_adds(925, 925);
    lemma_pow2_adds(776, 1074);
    lemma_pow2_adds(149, 776);
    assert((ua * c) * (ub * c) == (num * d) * e) by (nonlinear_arith)
        requires
            num == ua * ub,
            c * c == d * e,
    ;
    lemma_rounded_scale(52, f64_inf(), num * d, 1, e, mw);
    assert(1 * e == e) by (nonlinear_arith);
    // the product is exact in binary64
    let (sa, x) = lemma_f32_parts(f32_mag(a));
    let (sb, y) = lemma_f32_parts(f32_mag(b));
    lemma_shifted(x, sa, y, sb);
    lemma_shifted(x * y, sa + sb, 1, 776);
    assert(x * y <= pow2(53)) by (nonlinear_arith)
        requires
            x < 0x100_0000,
            y < 0x100_0000,
            pow2(53) == 0x0020_0000_0000_0000,
    ;
    let k = lemma_representable(x * y, sa + sb + 776);
    assert(1 * pow2(776) == pow2(776)) by (nonlinear_arith);
    assert((x * y) * 1 == x * y) by (nonlinear_arith);
    assert(units(52, k) == num * d);
    assert(k < 0x7FF0_0000_0000_0000) by (nonlinear_arith)
        requires
            k <= (sa + sb + 776 + 2) * pow2(52),
            sa <= 253,
            sb <= 253,
            pow2(52) == 0x0010_0000_0000_0000,
    ;
    lemma_rounded_exact(52, f64_inf(), k, 1);
    assert(units(52, k) * 1 == num * d) by (nonlinear_arith)
        requires
            units(52, k) == num * d,
    ;
    lemma_rounded_unique(52, f64_inf(), num * d, 1, mw, k);
    lemma_rounded_scale(23, f32_inf(), num, pow2(149), d, f32_mag(r));
}

// ---------------------------------------------------------------------------
// Quotients
// ---------------------------------------------------------------------------

proof fn lemma_quotient_tie(ma: nat, mb: nat, num: nat, den: nat, w: nat, m: nat)
    requires
        ma < f32_inf(),
        mb < f32_inf(),
        num == units(23, ma) * pow2(149),
        den == units(23, mb),
        den > 0,
        m <= f32_inf(),
        w < f64_inf(),
        is_rounded(52, f64_inf(), num * pow2(925), den, w),
    ensures
        true_tie(num, den, w, m),
{
    let mid = middle(m);
    if 2 * units(52, w) == mid * pow2(925) {
        lemma_constants();
        let (s, q) = lemma_middle(m);
        let (sa, a) = lemma_f32_parts(ma);
        let (sb, b) = lemma_f32_parts(mb);
        let ps = pow2(s);
        lemma_near_middle(num, den, w, m, s, q);
        let d = 2 * num - mid * den;
        // 2 num = a 2^i and mid den = (2 q + 1) b 2^j
        let i = (sa + 150) as nat;
        let j = (s + sb) as nat;
        lemma_shifted(a, sa, 1, 150);
        lemma_pow2_unfold(150);
        let pi = pow2(i);
        let pj = pow2(j);
        lemma_pow2_pos(i);
        lemma_pow2_pos(j);
        assert(2 * num == a * pi) by (nonlinear_arith)
            requires
                (a * pow2(sa)) * (1 * pow2(150)) == (a * 1) * pi,
                pow2(150) == 2 * pow2(149),
                num == (a * pow2(sa)) * pow2(149),
        ;
        lemma_shifted(2 * q + 1, s, b, sb);
        let n = (2 * q + 1) * b;
        assert(mid * den == n * pj);
        lemma_shifted(1, s, b, sb);
        assert(ps * den == b * pj) by (nonlinear_arith)
            requires
                (1 * ps) * (b * pow2(sb)) == (1 * b) * pj,
                den == b * pow2(sb),
        ;
        assert(d * 0x2000_0000 <= b * pj && (0 - d) * 0x2000_0000 <= b * pj);
        assert(b > 0) by (nonlinear_arith)
            requires
                den == b * pow2(sb),
                den > 0,
        ;
        if i >= j {
            let h = (i - j) as nat;
            lemma_pow2_adds(j, h);
            let ph = pow2(h);
            let f = a * ph - n;
            assert(d == f * pj) by (nonlinear_arith)
                requires
                    d == a * pi - n * pj,
                    pi == pj * ph,
                    f == a * ph - n,
            ;
            assert(-pj < d && d < pj) by (nonlinear_arith)
                requires
                    d * 0x2000_0000 <= b * pj,
                    (0 - d) * 0x2000_0000 <= b * pj,
                    b < 0x100_0000,
                    pj > 0,
            ;
            lemma_small_multiple(d, f, pj);
        } else {
            let h = (j - i) as nat;
            lemma_pow2_adds(i, h);
            let ph = pow2(h);
            let f = a - n * ph;
            assert(d == f * pi) by (nonlinear_arith)
                requires
                    d == a * pi - n * pj,
                    pj == pi * ph,
                    f == a - n * ph,
            ;
            // b 2^j is no larger than twice the dividend
            let bj = b * pj;
            assert(n * pj >= bj) by (nonlinear_arith)
                requires
                    n == (2 * q + 1) * b,
                    bj == b * pj,
            ;
            assert(bj <= 2 * (a * pi));
            assert(bj < 0x200_0000 * pi) by (nonlinear_arith)
                requires
                    bj <= 2 * (a * pi),
                    a < 0x100_0000,
                    pi > 0,
            ;
            assert(-pi < d && d < pi) by (nonlinear_arith)
                requires
                    d * 0x2000_0000 <= bj,
                    (0 - d) * 0x2000_0000 <= bj,
                    bj < 0x200_0000 * pi,
            ;
            lemma_small_multiple(d, f, pi);
        }
    }
}

/// The binary32 quotient of two finite values is the value nearest to their
/// exact quotient, where the divisor is not zero.
pub proof fn lemma_f32_quotient_is_nearest(a: u32, b: u32, r: u32)
    requires
        is_f32_quotient(a, b, r),
        f32_finite(a),
        f32_finite(b),
        f32_mag(b) != 0,
    ensures
        f32_nearest(f32_units(a) * pow2(149), f32_units(b), r),
        f32_neg(r) == (f32_neg(a) != f32_neg(b)),
{
    let (wa, wb, w) = choose|wa: u64, wb: u64, w: u64|
        {
            &&& #[trigger] is_f64_widened(a, wa)
            &&& #[trigger] is_f64_widened(b, wb)
            &&& is_f64_quotient(wa, wb, w)
            &&& #[trigger] is_f32_narrowed(w, r)
        };
    lemma_constants();
    let ua = f32_units(a);
    let ub = f32_units(b);
    let c = pow2(925);
    let mw = f64_mag(w);
    let num = ua * pow2(149);
    lemma_pow2_pos(925);
    lemma_units_increasing(23, 0, f32_mag(b));
    assert(ub > 0);
    assert(f64_mag(wb) != 0) by {
        if f64_mag(wb) == 0 {
            lemma_units_zero_52();
            assert(ub * c > 0) by (nonlinear_arith)
                requires
                    ub > 0,
                    c > 0,
            ;
        }
    }
    lemma_pow2_adds(149, 925);
    let e = pow2(1074);
    assert((ua * c) * e == (num * c) * c) by (nonlinear_arith)
        requires
            num == ua * pow2(149),
            e == pow2(149) * c,
    ;
    lemma_rounded_scale(52, f64_inf(), num * c, ub, c, mw);
    assert(is_rounded(52, f64_inf(), num * c, ub, mw));
    // the quotient is finite in binary64
    lemma_f32_bound(f32_mag(a));
    lemma_pow2_adds(277, 149);
    lemma_pow2_adds(426, 925);
    lemma_pow2_pos(149);
    lemma_pow2_pos(1351);
    let f = pow2(149);
    assert(num <= pow2(426)) by (nonlinear_arith)
        requires
            num == ua * f,
            ua < pow2(277),
            pow2(277) * f == pow2(426),
            f > 0,
    ;
    assert(num * c <= pow2(1351)) by (nonlinear_arith)
        requires
            num <= pow2(426),
            pow2(426) * c == pow2(1351),
            c > 0,
    ;
    assert(pow2(1351) <= pow2(1351) * ub) by (nonlinear_arith)
        requires
            ub >= 1,
            pow2(1351) > 0,
    ;
    lemma_stays_finite(num * c, ub, 1351, mw);
    assert forall|k: nat| k <= f32_inf() implies #[trigger] true_tie(num, ub, mw, k) by {
        lemma_quotient_tie(f32_mag(a), f32_mag(b), num, ub, mw, k);
    }
    lemma_rounded_twice(num, ub, mw, f32_mag(r));
}

} // verus!
