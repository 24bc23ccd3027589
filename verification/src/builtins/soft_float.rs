//! IEEE 754 arithmetic on bit patterns, round to nearest, ties to even.
//!
//! A binary32 value travels as `u32`, a binary64 value as `u64`, a binary128
//! value as `u128`.
use crate::builtins::float_format::{
    distance, is_rounded, lemma_order_cancel, lemma_round_in_binade, lemma_rounded_exact,
    lemma_rounded_is_nearest, lemma_rounded_scale, lemma_rounded_to_infinity,
    lemma_units_increasing, lemma_units_step, rounds_to_int, units,
};
use crate::builtins::single::{
    f32_finite, f32_nearest, is_nearest_sum, lemma_f32_difference_is_nearest,
    lemma_f32_product_is_nearest, lemma_f32_quotient_is_nearest, lemma_f32_sum_is_nearest,
};
use vstd::arithmetic::div_mod::*;
use vstd::arithmetic::mul::*;
use vstd::arithmetic::power2::*;
use vstd::bits::*;
use vstd::prelude::*;

verus! {

const F64_SIGN_BIT: u64 = 0x8000_0000_0000_0000;
const F64_INF: u64 = 0x7FF0_0000_0000_0000;
const F64_NAN: u64 = 0x7FF8_0000_0000_0000;
const F64_QUIET_BIT: u64 = 0x0008_0000_0000_0000;
const F64_IMPLICIT_BIT: u64 = 0x0010_0000_0000_0000;
const F64_FRAC_BITS: u32 = 52;

/// Whether the sign bit of a binary64 pattern is set.
pub open spec fn f64_neg(a: u64) -> bool {
    a >= 0x8000_0000_0000_0000
}

/// A binary64 pattern without its sign bit.
pub open spec fn f64_mag(a: u64) -> nat {
    (if f64_neg(a) {
        a - 0x8000_0000_0000_0000
    } else {
        a as int
    }) as nat
}

pub open spec fn f64_inf() -> nat {
    0x7FF0_0000_0000_0000
}

pub open spec fn f64_nan(a: u64) -> bool {
    f64_mag(a) > f64_inf()
}

/// The magnitude of a binary64 value in multiples of 2^-1074.
pub open spec fn f64_units(a: u64) -> nat {
    units(52, f64_mag(a))
}

/// A binary64 value in multiples of 2^-1074, sign included.
pub open spec fn f64_value(a: u64) -> int {
    if f64_neg(a) {
        -(f64_units(a) as int)
    } else {
        f64_units(a) as int
    }
}

/// `r` is the magnitude of the binary64 value nearest to `num / den * 2^-1074`.
pub open spec fn f64_nearest(num: nat, den: nat, r: u64) -> bool {
    is_rounded(52, f64_inf(), num, den, f64_mag(r))
}

/// What the sum of `a` and `b` is.
pub open spec fn is_f64_sum(a: u64, b: u64, r: u64) -> bool {
    if f64_nan(a) {
        r == a | 0x0008_0000_0000_0000
    } else if f64_nan(b) {
        r == b | 0x0008_0000_0000_0000
    } else if f64_mag(a) == f64_inf() {
        r == if f64_mag(b) == f64_inf() && f64_neg(a) != f64_neg(b) {
            0x7FF8_0000_0000_0000
        } else {
            a
        }
    } else if f64_mag(b) == f64_inf() {
        r == b
    } else {
        let v = f64_value(a) + f64_value(b);
        if v == 0 {
            r == if f64_neg(a) && f64_neg(b) {
                0x8000_0000_0000_0000u64
            } else {
                0
            }
        } else {
            &&& f64_neg(r) == (v < 0)
            &&& f64_nearest(
                (if v < 0 {
                    -v
                } else {
                    v
                }) as nat,
                1,
                r,
            )
        }
    }
}

/// What the product of `a` and `b` is.
pub open spec fn is_f64_product(a: u64, b: u64, r: u64) -> bool {
    let inf = f64_mag(a) == f64_inf() || f64_mag(b) == f64_inf();
    let zero = f64_mag(a) == 0 || f64_mag(b) == 0;
    if f64_nan(a) {
        r == a | 0x0008_0000_0000_0000
    } else if f64_nan(b) {
        r == b | 0x0008_0000_0000_0000
    } else if inf && zero {
        r == 0x7FF8_0000_0000_0000
    } else {
        &&& f64_neg(r) == (f64_neg(a) != f64_neg(b))
        &&& if inf {
            f64_mag(r) == f64_inf()
        } else {
            f64_nearest(f64_units(a) * f64_units(b), pow2(1074), r)
        }
    }
}

/// What the quotient of `a` by `b` is.
pub open spec fn is_f64_quotient(a: u64, b: u64, r: u64) -> bool {
    if f64_nan(a) {
        r == a | 0x0008_0000_0000_0000
    } else if f64_nan(b) {
        r == b | 0x0008_0000_0000_0000
    } else if f64_mag(a) == f64_mag(b) && (f64_mag(a) == f64_inf() || f64_mag(a) == 0) {
        r == 0x7FF8_0000_0000_0000
    } else {
        &&& f64_neg(r) == (f64_neg(a) != f64_neg(b))
        &&& if f64_mag(a) == f64_inf() || f64_mag(b) == 0 {
            f64_mag(r) == f64_inf()
        } else if f64_mag(b) == f64_inf() {
            f64_mag(r) == 0
        } else {
            f64_nearest(f64_units(a) * pow2(1074), f64_units(b), r)
        }
    }
}

proof fn lemma_f64_constants()
    ensures
        pow2(0) == 1,
        pow2(1) == 2,
        pow2(52) == 0x0010_0000_0000_0000,
        pow2(53) == 0x0020_0000_0000_0000,
        pow2(63) == 0x8000_0000_0000_0000,
        pow2(64) == 0x1_0000_0000_0000_0000,
        0x7FF * pow2(52) == 0x7FF0_0000_0000_0000,
{
    lemma2_to64();
    lemma2_to64_rest();
}

proof fn lemma_shl_u128(x: u128, k: u32)
    requires
        k < 128,
        x * pow2(k as nat) <= u128::MAX,
    ensures
        x << k == x * pow2(k as nat),
    decreases k,
{
    if k == 0 {
        lemma2_to64();
        assert(x << 0u32 == x) by (bit_vector);
    } else {
        let j = (k - 1) as u32;
        let w = pow2(j as nat);
        lemma_pow2_unfold(k as nat);
        assert(x * (2 * w) == 2 * (x * w)) by (nonlinear_arith);
        lemma_shl_u128(x, j);
        let y = x << j;
        assert(x << k == 2 * y) by (bit_vector)
            requires
                k < 128,
                j == k - 1,
                y == x << j,
                y <= 0x7FFF_FFFF_FFFF_FFFF_FFFF_FFFF_FFFF_FFFF,
        ;
    }
}

proof fn lemma_shr_u128(x: u128, k: u32)
    requires
        k < 128,
    ensures
        x >> k == x as nat / pow2(k as nat),
{
    lemma_u128_shr_is_div(x, k as u128);
    assert(x >> k == x >> (k as u128)) by (bit_vector);
}

/// Position of the highest set bit.
fn top_bit(x: u128) -> (r: u32)
    requires
        x > 0,
    ensures
        r < 128,
        pow2(r as nat) <= x < pow2(r as nat + 1),
{
    let mut v: u128 = x;
    let mut r: u32 = 0;
    proof {
        lemma_f64_constants();
    }
    while v > 1
        invariant
            v >= 1,
            r < 128,
            v * pow2(r as nat) <= x < (v + 1) * pow2(r as nat),
        decreases v,
    {
        let ghost w = pow2(r as nat);
        let ghost v0 = v;
        proof {
            lemma_pow2_unfold(r as nat + 1);
            lemma_pow2_pos(r as nat);
            if r == 127 {
                lemma_pow2_adds(63, 64);
                lemma_f64_constants();
                assert(v * w >= 2 * w) by (nonlinear_arith) requires v >= 2;
                assert(2 * (0x8000_0000_0000_0000 * 0x1_0000_0000_0000_0000) > u128::MAX);
            }
        }
        v = v / 2;
        r = r + 1;
        proof {
            assert(v * (2 * w) <= v0 * w) by (nonlinear_arith) requires 2 * v <= v0;
            assert((v0 + 1) * w <= (v + 1) * (2 * w)) by (nonlinear_arith)
                requires v0 + 1 <= 2 * (v + 1);
        }
    }
    proof {
        lemma_pow2_unfold(r as nat + 1);
        assert(v == 1);
    }
    r
}

/// Half-up decision of a right shift: `n / d` has the integer part `sig`,
/// whose division by `2h` leaves `q` and `rem`.
proof fn lemma_round_shift(sig: nat, n: nat, d: nat, h: nat, q: nat, rem: nat, up: bool)
    requires
        d > 0,
        h > 0,
        sig == q * (2 * h) + rem,
        rem < 2 * h,
        sig * d <= n < (sig + 1) * d,
        up == (rem > h || (rem == h && (n != sig * d || q % 2 == 1))),
    ensures
        rounds_to_int(
            n as int,
            (d * (2 * h)) as int,
            if up {
                (q + 1) as int
            } else {
                q as int
            },
        ),
{
    let dd = d * (2 * h);
    let hd = h * d;
    assert(dd == 2 * hd) by (nonlinear_arith) requires dd == d * (2 * h), hd == h * d;
    assert(hd > 0) by (nonlinear_arith) requires h > 0, d > 0, hd == h * d;
    assert(sig * d == q * (2 * hd) + rem * d) by (nonlinear_arith)
        requires sig == q * (2 * h) + rem, hd == h * d;
    assert((sig + 1) * d == sig * d + d) by (nonlinear_arith);
    assert((2 * q - 1) * dd == 2 * (q * (2 * hd)) - 2 * hd) by (nonlinear_arith)
        requires dd == 2 * hd;
    assert((2 * q + 1) * dd == 2 * (q * (2 * hd)) + 2 * hd) by (nonlinear_arith)
        requires dd == 2 * hd;
    assert((2 * (q + 1) - 1) * dd == (2 * q + 1) * dd);
    assert((2 * (q + 1) + 1) * dd == 2 * (q * (2 * hd)) + 6 * hd) by (nonlinear_arith)
        requires dd == 2 * hd;
    assert(rem * d >= 0) by (nonlinear_arith);
    if rem < h {
        assert(rem * d + d <= hd) by (nonlinear_arith) requires rem + 1 <= h, hd == h * d;
    } else if rem == h {
        assert(rem * d == hd);
        assert(d <= hd) by (nonlinear_arith) requires h >= 1, d > 0, hd == h * d;
    } else {
        assert(rem * d >= hd + d) by (nonlinear_arith) requires rem >= h + 1, hd == h * d;
        assert(rem * d + d <= 2 * hd) by (nonlinear_arith) requires rem + 1 <= 2 * h, hd == h * d;
    }
    if up {
        assert(rounds_to_int(n as int, dd as int, (q + 1) as int));
    } else {
        assert(rounds_to_int(n as int, dd as int, q as int));
    }
}

proof fn lemma_rounds_scale(n: nat, d: nat, q: nat, k: nat)
    requires
        k > 0,
        rounds_to_int(n as int, d as int, q as int),
    ensures
        rounds_to_int((n * k) as int, (d * k) as int, q as int),
{
    let a = (2 * q - 1) * d;
    let b = (2 * q + 1) * d;
    assert((2 * q - 1) * (d * k) == a * k) by (nonlinear_arith) requires a == (2 * q - 1) * d;
    assert((2 * q + 1) * (d * k) == b * k) by (nonlinear_arith) requires b == (2 * q + 1) * d;
    assert(2 * (n * k) == (2 * n) * k) by (nonlinear_arith);
    assert(a * k <= (2 * n) * k <= b * k) by (nonlinear_arith) requires a <= 2 * n <= b, k > 0;
    assert(a * k == (2 * n) * k ==> a == 2 * n) by (nonlinear_arith) requires k > 0;
    assert(b * k == (2 * n) * k ==> b == 2 * n) by (nonlinear_arith) requires k > 0;
}

/// Numerator of `n / d * 2^e`.
spec fn scaled_num(n: nat, e: int) -> nat {
    if e >= 0 {
        n * pow2(e as nat)
    } else {
        n
    }
}

/// Denominator of `n / d * 2^e`.
spec fn scaled_den(d: nat, e: int) -> nat {
    if e >= 0 {
        d
    } else {
        d * pow2((-e) as nat)
    }
}

/// Rounds `(sig + fraction) * 2^e` to the nearest magnitude of the format with
/// `p` fraction bits; `sticky` says that the fraction below `sig` is not zero.
fn round_magnitude(
    p: u32,
    inf: u64,
    sig: u128,
    e: i32,
    sticky: bool,
    Ghost(n): Ghost<nat>,
    Ghost(d): Ghost<nat>,
) -> (m: u64)
    requires
        1 <= p <= 52,
        0 < sig < 0x4000_0000_0000_0000_0000_0000_0000_0000,
        -20000 <= e <= 20000,
        d > 0,
        sig * d <= n < (sig + 1) * d,
        sticky == (n != sig * d),
        sticky ==> sig >= pow2(p as nat + 1),
    ensures
        m <= inf,
        is_rounded(p as nat, inf as nat, scaled_num(n, e as int), scaled_den(d, e as int), m as nat),
        !sticky && sig < pow2(p as nat + 1) && e >= 0 && (e + 2) * pow2(p as nat) <= inf ==> m < inf
            && units(p as nat, m as nat) == sig * pow2(e as nat),
{
    let msb: u32 = top_bit(sig);
    let top: i32 = msb as i32 + e - p as i32;
    let s: i32 = if top > 0 { top } else { 0 };
    let sh: i32 = s - e;
    let ghost pn = p as nat;
    let ghost num = scaled_num(n, e as int);
    let ghost den = scaled_den(d, e as int);
    proof {
        lemma_f64_constants();
        lemma_pow2_adds(63, 64);
        lemma_pow2_unfold(127);
        assert(pow2(126) == 0x4000_0000_0000_0000_0000_0000_0000_0000);
        if msb >= 126 {
            if msb > 126 {
                lemma_pow2_strictly_increases(126, msb as nat);
            }
        }
        assert(msb < 126);
    }
    let q: u64;
    if sh > 0 {
        proof {
            lemma_pow2_unfold(sh as nat);
            lemma_pow2_pos((sh - 1) as nat);
        }
        let ghost h = pow2((sh - 1) as nat);
        if sh >= 127 {
            q = 0;
            proof {
                if sh > 127 {
                    lemma_pow2_strictly_increases(126, (sh - 1) as nat);
                }
                assert(0 * (2 * h) == 0) by (nonlinear_arith);
                lemma_round_shift(sig as nat, n, d, h, 0, sig as nat, false);
            }
        } else {
            let k: u32 = sh as u32;
            let one: u128 = 1;
            proof {
                if k < 126 {
                    lemma_pow2_strictly_increases(k as nat, 126);
                }
                lemma_shr_u128(sig, k);
                assert(one * pow2(k as nat) == pow2(k as nat)) by (nonlinear_arith)
                    requires one == 1;
                lemma_shl_u128(one, k);
                lemma_fundamental_div_mod(sig as int, pow2(k as nat) as int);
                lemma_mod_bound(sig as int, pow2(k as nat) as int);
                lemma_div_pos_is_pos(sig as int, pow2(k as nat) as int);
            }
            let modulus: u128 = one << k;
            let q0: u128 = sig >> k;
            let rem: u128 = sig % modulus;
            let half: u128 = modulus / 2;
            proof {
                assert(modulus == 2 * h);
                assert(half == h);
                let a = (2 * h) * q0 as nat;
                assert(a == q0 as nat * (2 * h)) by (nonlinear_arith)
                    requires a == (2 * h) * q0 as nat;
                // q0 < 2^(p + 1)
                let c = pow2(pn + 1);
                assert(q0 < c) by {
                    lemma_pow2_adds(pn + 1, sh as nat);
                    assert(msb + 1 <= pn + 1 + sh);
                    if msb + 1 < pn + 1 + sh {
                        lemma_pow2_strictly_increases((msb + 1) as nat, (pn + 1 + sh) as nat);
                    }
                    if q0 >= c {
                        assert(q0 * (2 * h) >= c * (2 * h)) by (nonlinear_arith)
                            requires q0 >= c, h > 0;
                    }
                }
                if pn + 1 < 53 {
                    lemma_pow2_strictly_increases(pn + 1, 53);
                }
            }
            let up: bool = rem > half || (rem == half && (sticky || q0 % 2 == 1));
            q = if up { q0 as u64 + 1 } else { q0 as u64 };
            proof {
                lemma_round_shift(sig as nat, n, d, h, q0 as nat, rem as nat, up);
            }
        }
        proof {
            let w = pow2(sh as nat);
            assert(rounds_to_int(n as int, (d * w) as int, q as int));
            if e >= 0 {
                lemma_pow2_pos(e as nat);
                lemma_pow2_adds(sh as nat, e as nat);
                lemma_rounds_scale(n, d * w, q as nat, pow2(e as nat));
                assert((d * w) * pow2(e as nat) == d * (w * pow2(e as nat))) by (nonlinear_arith);
            } else {
                lemma_pow2_adds((-e) as nat, s as nat);
                assert((d * pow2((-e) as nat)) * pow2(s as nat) == d * (pow2((-e) as nat) * pow2(s as nat)))
                    by (nonlinear_arith);
            }
        }
    } else {
        let k: u32 = (-sh) as u32;
        proof {
            // no digit is dropped, so there is no fraction either
            if sticky {
                if msb < pn + 1 {
                    if msb + 1 < pn + 1 {
                        lemma_pow2_strictly_increases((msb + 1) as nat, pn + 1);
                    }
                }
                assert(false);
            }
            assert(msb + k <= pn);
            lemma_pow2_adds((msb + 1) as nat, k as nat);
            lemma_pow2_pos(k as nat);
            if msb + 1 + k < 53 {
                lemma_pow2_strictly_increases((msb + 1 + k) as nat, 53);
            }
            assert(sig * pow2(k as nat) < pow2((msb + 1) as nat) * pow2(k as nat)) by (nonlinear_arith)
                requires sig < pow2((msb + 1) as nat), pow2(k as nat) > 0;
            lemma_shl_u128(sig, k);
        }
        q = (sig << k) as u64;
        proof {
            let w = pow2(k as nat);
            assert(q == sig * w);
            let nn = n * w;
            assert(nn == q * d) by (nonlinear_arith) requires nn == n * w, n == sig * d, q == sig * w;
            assert((2 * q - 1) * d == 2 * nn - d) by (nonlinear_arith) requires nn == q * d;
            assert((2 * q + 1) * d == 2 * nn + d) by (nonlinear_arith) requires nn == q * d;
            assert(rounds_to_int(nn as int, d as int, q as int));
            lemma_pow2_pos(s as nat);
            lemma_rounds_scale(nn, d, q as nat, pow2(s as nat));
            lemma_pow2_adds(k as nat, s as nat);
            assert(k + s == e);
            assert((n * w) * pow2(s as nat) == n * (w * pow2(s as nat))) by (nonlinear_arith);
        }
    }
    proof {
        if !sticky && sig < pow2(pn + 1) && e >= 0 && (e + 2) * pow2(pn) <= inf {
            if msb >= pn + 1 {
                if msb > pn + 1 {
                    lemma_pow2_strictly_increases(pn + 1, msb as nat);
                }
            }
            assert(sh <= 0);
            let k = (-sh) as nat;
            lemma_pow2_unfold(pn + 1);
            lemma_pow2_adds((msb + 1) as nat, k);
            lemma_pow2_pos(k);
            if msb + 1 + k < pn + 1 {
                lemma_pow2_strictly_increases((msb + 1 + k) as nat, pn + 1);
            }
            assert(sig * pow2(k) < pow2((msb + 1) as nat) * pow2(k)) by (nonlinear_arith)
                requires sig < pow2((msb + 1) as nat), pow2(k) > 0;
            assert(q < pow2(pn + 1));
            assert(s * pow2(pn) + 2 * pow2(pn) <= (e + 2) * pow2(pn)) by (nonlinear_arith)
                requires s <= e;
            if s > 0 {
                lemma_pow2_adds(msb as nat, k);
                assert(sig * pow2(k) >= pow2(msb as nat) * pow2(k)) by (nonlinear_arith)
                    requires sig >= pow2(msb as nat);
            }
            lemma_units_step(pn, s as nat, q as nat);
            lemma_pow2_adds(k, s as nat);
            assert(q * pow2(s as nat) == sig * (pow2(k) * pow2(s as nat))) by (nonlinear_arith)
                requires q == sig * pow2(k);
        }
        let w = pow2(s as nat);
        assert(rounds_to_int(num as int, (den * w) as int, q as int));
        lemma_pow2_pos(s as nat);
        lemma_magnitude_bounds(pn, sig as nat, msb as nat, e as int, s as nat, n, d);
        if e < 0 {
            lemma_pow2_pos((-e) as nat);
            assert(den > 0) by (nonlinear_arith)
                requires den == d * pow2((-e) as nat), d > 0, pow2((-e) as nat) > 0;
        }
        lemma_round_in_binade(pn, inf as nat, num, den, s as nat, q as nat);
        // the pattern fits in 128 bits
        lemma_pow2_unfold(pn + 1);
        if pn < 52 {
            lemma_pow2_strictly_increases(pn, 52);
        }
        let sp = s as nat * pow2(pn);
        lemma_mul_upper_bound(s as int, 0x10_0000, pow2(pn) as int, 0x0010_0000_0000_0000);
        lemma_shl_u128(s as u128, p);
    }
    let m: u128 = ((s as u128) << p) + q as u128;
    if m <= inf as u128 {
        m as u64
    } else {
        inf
    }
}

/// The scaled value lies in the binade that its leading bit selects.
proof fn lemma_magnitude_bounds(p: nat, sig: nat, msb: nat, e: int, s: nat, n: nat, d: nat)
    requires
        d > 0,
        pow2(msb) <= sig < pow2(msb + 1),
        sig * d <= n < (sig + 1) * d,
        s == if msb + e - p > 0 {
            msb + e - p
        } else {
            0
        },
    ensures
        scaled_num(n, e) < pow2(p + 1) * (scaled_den(d, e) * pow2(s)),
        s > 0 ==> scaled_num(n, e) >= pow2(p) * (scaled_den(d, e) * pow2(s)),
{
    let w = pow2(s);
    let num = scaled_num(n, e);
    let den = scaled_den(d, e);
    let t = pow2(msb);
    let t1 = pow2(msb + 1);
    lemma_pow2_adds(p + 1, s);
    lemma_pow2_adds(p, s);
    let top = pow2(p + 1 + s);
    let bot = pow2(p + s);
    assert(pow2(p + 1) * (den * w) == top * den) by (nonlinear_arith)
        requires top == pow2(p + 1) * w;
    assert(pow2(p) * (den * w) == bot * den) by (nonlinear_arith) requires bot == pow2(p) * w;
    assert(n < t1 * d) by (nonlinear_arith) requires n < (sig + 1) * d, sig + 1 <= t1, d > 0;
    assert(n >= t * d) by (nonlinear_arith) requires n >= sig * d, sig >= t, d > 0;
    if e >= 0 {
        let x = pow2(e as nat);
        lemma_pow2_pos(e as nat);
        lemma_pow2_adds(msb + 1, e as nat);
        lemma_pow2_adds(msb, e as nat);
        if msb + 1 + e < p + 1 + s {
            lemma_pow2_strictly_increases((msb + 1 + e) as nat, p + 1 + s);
        }
        assert(n * x < (t1 * d) * x) by (nonlinear_arith) requires n < t1 * d, x > 0;
        assert((t1 * d) * x == (t1 * x) * d) by (nonlinear_arith);
        assert((t1 * x) * d <= top * d) by (nonlinear_arith) requires t1 * x <= top, d > 0;
        if s > 0 {
            assert(n * x >= (t * d) * x) by (nonlinear_arith) requires n >= t * d, x > 0;
            assert((t * d) * x == (t * x) * d) by (nonlinear_arith);
        }
    } else {
        let x = pow2((-e) as nat);
        lemma_pow2_pos((-e) as nat);
        lemma_pow2_adds(p + 1 + s, (-e) as nat);
        lemma_pow2_adds(p + s, (-e) as nat);
        if msb + 1 < p + 1 + s - e {
            lemma_pow2_strictly_increases(msb + 1, (p + 1 + s - e) as nat);
        }
        assert(top * (d * x) == (top * x) * d) by (nonlinear_arith);
        assert(t1 * d <= (top * x) * d) by (nonlinear_arith) requires t1 <= top * x, d > 0;
        if s > 0 {
            assert(bot * (d * x) == (bot * x) * d) by (nonlinear_arith);
            assert(bot * x == t);
        }
    }
}

// ---------------------------------------------------------------------------
// binary64 fields
// ---------------------------------------------------------------------------

fn f64_is_neg(a: u64) -> (r: bool)
    ensures
        r == f64_neg(a),
{
    a >= F64_SIGN_BIT
}

fn f64_magnitude(a: u64) -> (r: u64)
    ensures
        r == f64_mag(a),
        r < F64_SIGN_BIT,
{
    if a >= F64_SIGN_BIT {
        a - F64_SIGN_BIT
    } else {
        a
    }
}

fn f64_is_nan(a: u64) -> (r: bool)
    ensures
        r == f64_nan(a),
{
    f64_magnitude(a) > F64_INF
}

fn f64_pack(neg: bool, m: u64) -> (r: u64)
    requires
        m < F64_SIGN_BIT,
    ensures
        f64_neg(r) == neg,
        f64_mag(r) == m,
{
    if neg {
        m + F64_SIGN_BIT
    } else {
        m
    }
}

/// Significand and exponent of a finite magnitude, in multiples of 2^-1074.
fn f64_split(m: u64) -> (r: (u64, i32))
    requires
        m < F64_INF,
    ensures
        r.0 < 0x0020_0000_0000_0000,
        0 <= r.1 <= 2045,
        r.1 > 0 ==> r.0 >= 0x0010_0000_0000_0000,
        units(52, m as nat) == r.0 * pow2(r.1 as nat),
        m == r.1 * 0x0010_0000_0000_0000 + r.0,
        m > 0 <==> r.0 > 0,
{
    let exp: u64 = m / F64_IMPLICIT_BIT;
    let frac: u64 = m % F64_IMPLICIT_BIT;
    proof {
        lemma_f64_constants();
    }
    if exp == 0 {
        proof {
            assert(frac * pow2(0) == frac) by (nonlinear_arith) requires pow2(0) == 1;
        }
        (frac, 0)
    } else {
        (F64_IMPLICIT_BIT + frac, exp as i32 - 1)
    }
}

/// A significand moved up until its leading bit is bit 52, and the distance.
fn f64_normalize_subnormal(sig: u64) -> (r: (u64, u32))
    requires
        0 < sig < 0x0020_0000_0000_0000,
    ensures
        0x0010_0000_0000_0000 <= r.0 < 0x0020_0000_0000_0000,
        r.1 <= 52,
        r.0 == sig * pow2(r.1 as nat),
{
    let msb: u32 = top_bit(sig as u128);
    proof {
        lemma_f64_constants();
        if msb >= 53 {
            if msb > 53 {
                lemma_pow2_strictly_increases(53, msb as nat);
            }
        }
    }
    let t: u32 = 52 - msb;
    proof {
        lemma_pow2_adds(msb as nat, t as nat);
        lemma_pow2_adds(msb as nat + 1, t as nat);
        lemma_pow2_pos(t as nat);
        let w = pow2(t as nat);
        assert(sig * w >= pow2(msb as nat) * w) by (nonlinear_arith)
            requires sig >= pow2(msb as nat);
        assert(sig * w < pow2(msb as nat + 1) * w) by (nonlinear_arith)
            requires sig < pow2(msb as nat + 1), w > 0;
        lemma_shl_u128(sig as u128, t);
    }
    (((sig as u128) << t) as u64, t)
}

// ---------------------------------------------------------------------------
// binary64 addition and subtraction
// ---------------------------------------------------------------------------

/// The rounding of `hs * 2^he + ls * 2^le`, or of the difference.
fn round_sum(hs: u64, he: i32, ls: u64, le: i32, subtract: bool) -> (m: u64)
    requires
        hs < 0x0020_0000_0000_0000,
        ls < 0x0020_0000_0000_0000,
        0 <= le <= he <= 2045,
        he > 0 ==> hs >= 0x0010_0000_0000_0000,
        hs > 0,
        subtract ==> hs * pow2(he as nat) > ls * pow2(le as nat),
    ensures
        m <= F64_INF,
        is_rounded(
            52,
            f64_inf(),
            (if subtract {
                hs * pow2(he as nat) - ls * pow2(le as nat)
            } else {
                hs * pow2(he as nat) + ls * pow2(le as nat)
            }) as nat,
            1,
            m as nat,
        ),
{
    let diff: i32 = he - le;
    let ghost x = (if subtract {
        hs * pow2(he as nat) - ls * pow2(le as nat)
    } else {
        hs * pow2(he as nat) + ls * pow2(le as nat)
    }) as nat;
    let ghost wl = pow2(le as nat);
    proof {
        lemma_f64_constants();
        lemma_pow2_adds(53, 64);
        lemma_pow2_pos(le as nat);
        lemma_pow2_adds(diff as nat, le as nat);
    }
    if diff <= 64 {
        let k: u32 = diff as u32;
        proof {
            if k < 64 {
                lemma_pow2_strictly_increases(k as nat, 64);
            }
            let w = pow2(k as nat);
            lemma_pow2_pos(k as nat);
            assert(hs * w < 0x0020_0000_0000_0000 * 0x1_0000_0000_0000_0000) by (nonlinear_arith)
                requires hs < 0x0020_0000_0000_0000, w <= 0x1_0000_0000_0000_0000, w > 0;
            assert(hs * w >= hs) by (nonlinear_arith) requires w >= 1;
            lemma_shl_u128(hs as u128, k);
            assert(hs * (w * wl) == (hs * w) * wl) by (nonlinear_arith);
            if subtract {
                lemma_order_cancel(ls as nat, hs as nat * w, wl);
            }
        }
        let wide: u128 = (hs as u128) << k;
        let sig: u128 = if subtract { wide - ls as u128 } else { wide + ls as u128 };
        proof {
            if subtract {
                assert((wide - ls) * wl == wide * wl - ls * wl) by (nonlinear_arith);
            } else {
                assert((wide + ls) * wl == wide * wl + ls * wl) by (nonlinear_arith);
            }
            assert(sig * wl == x);
            assert(sig * 1 == sig && (sig + 1) * 1 == sig + 1);
        }
        round_magnitude(
            F64_FRAC_BITS,
            F64_INF,
            sig,
            le,
            false,
            Ghost(sig as nat),
            Ghost(1nat),
        )
    } else {
        let k: i32 = diff - 64;
        let ghost w = pow2(k as nat);
        proof {
            lemma_pow2_pos(k as nat);
            lemma_pow2_adds(64, k as nat);
            lemma_shl_u128(hs as u128, 64);
            lemma_fundamental_div_mod(ls as int, w as int);
            lemma_mod_bound(ls as int, w as int);
            lemma_div_pos_is_pos(ls as int, w as int);
            lemma_div_nonincreasing(ls as int, w as int);
        }
        let wide: u128 = (hs as u128) << 64u32;
        let low: u128;
        let rest: bool;
        if k >= 53 {
            proof {
                if k > 53 {
                    lemma_pow2_strictly_increases(53, k as nat);
                }
                lemma_small_mod(ls as nat, w);
                lemma_basic_div(ls as int, w as int);
            }
            low = 0;
            rest = ls != 0;
        } else {
            let one: u128 = 1;
            proof {
                lemma_pow2_strictly_increases(k as nat, 53);
                assert(one * w == w) by (nonlinear_arith) requires one == 1;
                lemma_shl_u128(one, k as u32);
            }
            let modulus: u128 = one << (k as u32);
            low = ls as u128 / modulus;
            rest = ls as u128 % modulus != 0;
        }
        let sig: u128 = if subtract {
            if rest {
                wide - low - 1
            } else {
                wide - low
            }
        } else {
            wide + low
        };
        let ghost lw = low as nat * w;
        let ghost rem = (ls as int % w as int) as nat;
        let ghost n = (if subtract {
            wide * w - ls
        } else {
            wide * w + ls
        }) as nat;
        proof {
            assert(low == ls as int / w as int);
            assert(w * low == low * w) by (nonlinear_arith);
            assert(ls == lw + rem);
            assert(rest == (rem != 0));
            assert((wide - low) * w == wide * w - lw) by (nonlinear_arith) requires lw == low * w;
            assert((wide - low - 1) * w == wide * w - lw - w) by (nonlinear_arith)
                requires lw == low * w;
            assert((wide + low) * w == wide * w + lw) by (nonlinear_arith) requires lw == low * w;
            assert((sig + 1) * w == sig * w + w) by (nonlinear_arith);
            assert(sig * w <= n < (sig + 1) * w);
            assert(rest == (n != sig * w));
            // the value is n * 2^le
            let hw = hs * pow2(he as nat);
            assert(diff == 64 + k);
            lemma_mul_is_associative(hs as int, pow2(diff as nat) as int, wl as int);
            assert(pow2(he as nat) == pow2(diff as nat) * wl);
            assert(pow2(diff as nat) == pow2(64) * w);
            assert(hs * (pow2(64) * w) == (hs * pow2(64)) * w) by (nonlinear_arith);
            assert(hw == (wide * w) * wl);
            if subtract {
                assert((wide * w - ls) * wl == (wide * w) * wl - ls * wl) by (nonlinear_arith);
            } else {
                assert((wide * w + ls) * wl == (wide * w) * wl + ls * wl) by (nonlinear_arith);
            }
            assert(n * wl == x);
            lemma_pow2_adds(le as nat, k as nat);
            assert(he - 64 == le + k);
            assert(n * (wl * w) == (n * wl) * w) by (nonlinear_arith);
            assert(scaled_num(n, he - 64) == x * w);
            assert(1 * w == w);
        }
        let m: u64 = round_magnitude(F64_FRAC_BITS, F64_INF, sig, he - 64, rest, Ghost(n), Ghost(w));
        proof {
            lemma_rounded_scale(52, f64_inf(), x, 1, w, m as nat);
        }
        m
    }
}

/// The sum of two finite values is the finite value nearest to their exact sum,
/// the even one of two; it is infinite from the midpoint behind the largest finite
/// value on.
pub proof fn lemma_f64_sum_is_nearest(a: u64, b: u64, r: u64, c: u64)
    requires
        is_f64_sum(a, b, r),
        f64_mag(a) < f64_inf(),
        f64_mag(b) < f64_inf(),
        f64_mag(c) < f64_inf(),
    ensures
        ({
            let v = f64_value(a) + f64_value(b);
            let near = distance(v, f64_value(r));
            let other = distance(v, f64_value(c));
            &&& f64_mag(r) <= f64_inf()
            &&& f64_mag(r) < f64_inf() ==> near <= other
            &&& f64_mag(r) < f64_inf() && near == other && f64_value(c) != f64_value(r)
                ==> f64_mag(r) % 2 == 0
            &&& f64_mag(r) == f64_inf() <==> units(52, (f64_inf() - 1) as nat) + units(
                52,
                f64_inf(),
            ) <= 2 * distance(v, 0)
            &&& v != 0 ==> f64_neg(r) == (v < 0)
        }),
{
    let v = f64_value(a) + f64_value(b);
    let num = distance(v, 0) as nat;
    lemma_units_zero(52, 0);
    lemma_units_increasing(52, 0, f64_inf());
    if v != 0 {
        lemma_rounded_to_infinity(52, f64_inf(), num, f64_mag(r));
        if f64_mag(r) < f64_inf() {
            lemma_rounded_is_nearest(52, f64_inf(), num, f64_mag(r), f64_mag(c));
            lemma_rounded_is_nearest(52, f64_inf(), num, f64_mag(r), 0);
            if f64_mag(c) > 0 {
                lemma_units_increasing(52, 0, f64_mag(c));
            }
        }
    }
}

/// Core addition routine used by both [`__adddf3`] and [`__subdf3`].
pub fn add_f64(a_bits: u64, b_bits: u64) -> (r: u64)
    ensures
        is_f64_sum(a_bits, b_bits, r),
{
    let a_neg: bool = f64_is_neg(a_bits);
    let a_mag: u64 = f64_magnitude(a_bits);
    let b_neg: bool = f64_is_neg(b_bits);
    let b_mag: u64 = f64_magnitude(b_bits);
    if a_mag > F64_INF {
        return a_bits | F64_QUIET_BIT;
    }
    if b_mag > F64_INF {
        return b_bits | F64_QUIET_BIT;
    }
    if a_mag == F64_INF {
        if b_mag == F64_INF && a_neg != b_neg {
            return F64_NAN;
        }
        return a_bits;
    }
    if b_mag == F64_INF {
        return b_bits;
    }
    let (a_sig, a_exp) = f64_split(a_mag);
    let (b_sig, b_exp) = f64_split(b_mag);
    proof {
        lemma_f64_constants();
        lemma_pow2_pos(a_exp as nat);
        lemma_pow2_pos(b_exp as nat);
        lemma_units_zero(52, a_mag as nat);
        lemma_units_zero(52, b_mag as nat);
        if a_mag < b_mag {
            lemma_units_increasing(52, a_mag as nat, b_mag as nat);
        } else if b_mag < a_mag {
            lemma_units_increasing(52, b_mag as nat, a_mag as nat);
        }
    }
    if a_mag == 0 && b_mag == 0 {
        return if a_neg && b_neg {
            F64_SIGN_BIT
        } else {
            0
        };
    }
    if a_neg != b_neg && a_mag == b_mag {
        return 0;
    }
    let m: u64;
    let neg: bool;
    if a_mag >= b_mag {
        neg = a_neg;
        m = round_sum(a_sig, a_exp, b_sig, b_exp, a_neg != b_neg);
    } else {
        neg = b_neg;
        m = round_sum(b_sig, b_exp, a_sig, a_exp, a_neg != b_neg);
    }
    f64_pack(neg, m)
}

/// Only the zero pattern has the value zero.
proof fn lemma_units_zero(p: nat, m: nat)
    ensures
        units(p, 0) == 0,
        m > 0 ==> units(p, m) > 0,
{
    lemma_pow2_pos(p);
    lemma_basic_div(0, pow2(p) as int);
    lemma_small_mod(0, pow2(p));
    if m > 0 {
        lemma_units_increasing(p, 0, m);
    }
}

/// f64 + f64.
pub fn __adddf3(a: u64, b: u64) -> (r: u64)
    ensures
        is_f64_sum(a, b, r),
{
    add_f64(a, b)
}

/// A binary64 pattern with its sign bit inverted.
pub open spec fn f64_negated(a: u64) -> u64 {
    (if f64_neg(a) {
        a - 0x8000_0000_0000_0000
    } else {
        a + 0x8000_0000_0000_0000
    }) as u64
}

/// f64 - f64.
pub fn __subdf3(a: u64, b: u64) -> (r: u64)
    ensures
        is_f64_sum(a, f64_negated(b), r),
{
    add_f64(a, __negdf2(b))
}

/// Negates an f64 by inverting its sign bit.
pub fn __negdf2(a: u64) -> (r: u64)
    ensures
        r == f64_negated(a),
        r == a ^ 0x8000_0000_0000_0000,
{
    proof {
        assert(a >= 0x8000_0000_0000_0000u64 ==> a ^ 0x8000_0000_0000_0000u64 == a
            - 0x8000_0000_0000_0000u64) by (bit_vector);
        assert(a < 0x8000_0000_0000_0000u64 ==> a ^ 0x8000_0000_0000_0000u64 == a
            + 0x8000_0000_0000_0000u64) by (bit_vector);
    }
    a ^ F64_SIGN_BIT
}

// ---------------------------------------------------------------------------
// binary64 multiplication and division
// ---------------------------------------------------------------------------

/// f64 * f64.
pub fn __muldf3(a: u64, b: u64) -> (r: u64)
    ensures
        is_f64_product(a, b, r),
{
    let a_mag: u64 = f64_magnitude(a);
    let b_mag: u64 = f64_magnitude(b);
    let neg: bool = f64_is_neg(a) != f64_is_neg(b);
    if a_mag > F64_INF {
        return a | F64_QUIET_BIT;
    }
    if b_mag > F64_INF {
        return b | F64_QUIET_BIT;
    }
    if a_mag == F64_INF || b_mag == F64_INF {
        if a_mag == 0 || b_mag == 0 {
            return F64_NAN;
        }
        return f64_pack(neg, F64_INF);
    }
    let ghost ua = units(52, a_mag as nat);
    let ghost ub = units(52, b_mag as nat);
    let ghost den = pow2(1074);
    proof {
        lemma_pow2_pos(1074);
        lemma_units_zero(52, a_mag as nat);
        lemma_units_zero(52, b_mag as nat);
    }
    if a_mag == 0 || b_mag == 0 {
        proof {
            assert(ua * ub == 0) by (nonlinear_arith) requires ua == 0 || ub == 0;
            lemma_rounded_exact(52, f64_inf(), 0, den);
            assert(0 * den == 0) by (nonlinear_arith);
        }
        return f64_pack(neg, 0);
    }
    let (a_sig, a_exp) = f64_split(a_mag);
    let (b_sig, b_exp) = f64_split(b_mag);
    // 53 x 53 bits fit in 106
    proof {
        lemma_mul_strict_upper_bound(
            a_sig as int,
            0x0020_0000_0000_0000,
            b_sig as int,
            0x0020_0000_0000_0000,
        );
        assert(a_sig * b_sig > 0) by (nonlinear_arith) requires a_sig > 0, b_sig > 0;
    }
    let sig: u128 = (a_sig as u128) * (b_sig as u128);
    let e: i32 = a_exp + b_exp - 1074;
    let ghost num = scaled_num(sig as nat, e as int);
    let ghost dd = scaled_den(1, e as int);
    proof {
        assert(sig * 1 == sig && (sig + 1) * 1 == sig + 1);
    }
    let m: u64 = round_magnitude(
        F64_FRAC_BITS,
        F64_INF,
        sig,
        e,
        false,
        Ghost(sig as nat),
        Ghost(1nat),
    );
    proof {
        let wa = pow2(a_exp as nat);
        let wb = pow2(b_exp as nat);
        lemma_pow2_adds(a_exp as nat, b_exp as nat);
        let w = pow2((a_exp + b_exp) as nat);
        lemma_pow2_pos((a_exp + b_exp) as nat);
        assert(ua * ub == sig * w) by (nonlinear_arith)
            requires ua == a_sig * wa, ub == b_sig * wb, sig == a_sig * b_sig, w == wa * wb;
        if e >= 0 {
            lemma_pow2_adds(e as nat, 1074);
            assert(num * den == sig * (pow2(e as nat) * den)) by (nonlinear_arith)
                requires num == sig * pow2(e as nat);
            assert(dd * den == den);
            lemma_rounded_scale(52, f64_inf(), num, dd, den, m as nat);
        } else {
            lemma_pow2_adds((-e) as nat, (a_exp + b_exp) as nat);
            assert(dd == pow2((-e) as nat));
            lemma_rounded_scale(52, f64_inf(), num, dd, w, m as nat);
        }
    }
    f64_pack(neg, m)
}

/// f64 / f64.
pub fn __divdf3(a: u64, b: u64) -> (r: u64)
    ensures
        is_f64_quotient(a, b, r),
{
    let a_mag: u64 = f64_magnitude(a);
    let b_mag: u64 = f64_magnitude(b);
    let neg: bool = f64_is_neg(a) != f64_is_neg(b);
    if a_mag > F64_INF {
        return a | F64_QUIET_BIT;
    }
    if b_mag > F64_INF {
        return b | F64_QUIET_BIT;
    }
    if a_mag == F64_INF {
        if b_mag == F64_INF {
            return F64_NAN;
        }
        return f64_pack(neg, F64_INF);
    }
    if b_mag == F64_INF {
        return f64_pack(neg, 0);
    }
    if b_mag == 0 {
        if a_mag == 0 {
            return F64_NAN;
        }
        return f64_pack(neg, F64_INF);
    }
    let ghost ua = units(52, a_mag as nat);
    let ghost ub = units(52, b_mag as nat);
    let ghost one = pow2(1074);
    proof {
        lemma_units_zero(52, a_mag as nat);
        lemma_units_zero(52, b_mag as nat);
    }
    if a_mag == 0 {
        proof {
            assert(ua * one == 0) by (nonlinear_arith) requires ua == 0;
            lemma_rounded_exact(52, f64_inf(), 0, ub);
            assert(0 * ub == 0) by (nonlinear_arith);
        }
        return f64_pack(neg, 0);
    }
    let (a_sig, a_exp) = f64_split(a_mag);
    let (b_sig, b_exp) = f64_split(b_mag);
    let (top, t) = f64_normalize_subnormal(a_sig);
    // 62 more bits leave at least 61 bits of quotient
    proof {
        lemma2_to64();
        lemma2_to64_rest();
        lemma_shl_u128(top as u128, 62);
    }
    let numerator: u128 = (top as u128) << 62u32;
    let divisor: u128 = b_sig as u128;
    let sig: u128 = numerator / divisor;
    let sticky: bool = numerator % divisor != 0;
    let e: i32 = a_exp - b_exp + 1012 - t as i32;
    proof {
        lemma_fundamental_div_mod(numerator as int, divisor as int);
        lemma_mod_bound(numerator as int, divisor as int);
        assert(divisor * sig == sig * divisor) by (nonlinear_arith);
        assert((sig + 1) * divisor == sig * divisor + divisor) by (nonlinear_arith);
        assert(sig >= 0x2000_0000_0000_0000) by {
            if sig < 0x2000_0000_0000_0000 {
                assert((sig + 1) * divisor <= 0x2000_0000_0000_0000 * 0x0020_0000_0000_0000)
                    by (nonlinear_arith)
                    requires sig + 1 <= 0x2000_0000_0000_0000, divisor <= 0x0020_0000_0000_0000;
            }
        }
        lemma_div_nonincreasing(numerator as int, divisor as int);
    }
    let ghost num = scaled_num(numerator as nat, e as int);
    let ghost den = scaled_den(b_sig as nat, e as int);
    let m: u64 = round_magnitude(
        F64_FRAC_BITS,
        F64_INF,
        sig,
        e,
        sticky,
        Ghost(numerator as nat),
        Ghost(b_sig as nat),
    );
    proof {
        let wa = pow2(a_exp as nat);
        let wb = pow2(b_exp as nat);
        let wt = pow2(t as nat + 62);
        lemma_pow2_adds(t as nat, 62);
        lemma_pow2_pos(b_exp as nat);
        lemma_pow2_adds(a_exp as nat, 1074);
        let wu = pow2(a_exp as nat + 1074);
        assert(ua * one == a_sig * wu) by (nonlinear_arith)
            requires ua == a_sig * wa, wu == wa * one;
        assert(numerator == a_sig * wt) by (nonlinear_arith)
            requires
                numerator == top * pow2(62),
                top == a_sig * pow2(t as nat),
                wt == pow2(t as nat) * pow2(62),
        ;
        if e >= 0 {
            let we = pow2(e as nat);
            lemma_pow2_adds(t as nat + 62, e as nat);
            lemma_pow2_adds((t + 62 + e) as nat, b_exp as nat);
            assert((numerator * we) * wb == a_sig * ((wt * we) * wb)) by (nonlinear_arith)
                requires numerator == a_sig * wt;
            lemma_rounded_scale(52, f64_inf(), num, den, wb, m as nat);
        } else {
            let j = (a_exp + 1012 - t) as nat;
            let wj = pow2(j);
            lemma_pow2_pos(j);
            lemma_pow2_adds(t as nat + 62, j);
            lemma_pow2_adds((-e) as nat, j);
            assert(numerator * wj == a_sig * (wt * wj)) by (nonlinear_arith)
                requires numerator == a_sig * wt;
            assert((b_sig * pow2((-e) as nat)) * wj == b_sig * (pow2((-e) as nat) * wj))
                by (nonlinear_arith);
            lemma_rounded_scale(52, f64_inf(), num, den, wj, m as nat);
        }
    }
    f64_pack(neg, m)
}

// ---------------------------------------------------------------------------
// binary64 comparisons
// ---------------------------------------------------------------------------

/// Order of two binary64 values: -1, 0 or 1, or `nan_result` if either is a NaN.
pub open spec fn f64_order(a: u64, b: u64, nan_result: int) -> int {
    if f64_nan(a) || f64_nan(b) {
        nan_result
    } else if f64_value(a) < f64_value(b) {
        -1
    } else if f64_value(a) == f64_value(b) {
        0
    } else {
        1
    }
}

/// Compares two f64 values. Returns -1, 0 or 1, or `nan_result` if either is a NaN.
fn cmp_f64(a: u64, b: u64, nan_result: i32) -> (r: i32)
    ensures
        f64_nan(a) || f64_nan(b) ==> r == nan_result,
        !f64_nan(a) && !f64_nan(b) ==> r == f64_order(a, b, 0),
{
    if f64_is_nan(a) || f64_is_nan(b) {
        return nan_result;
    }
    let a_mag: u64 = f64_magnitude(a);
    let b_mag: u64 = f64_magnitude(b);
    let a_neg: bool = f64_is_neg(a);
    let b_neg: bool = f64_is_neg(b);
    proof {
        lemma_units_zero(52, f64_mag(a));
        lemma_units_zero(52, f64_mag(b));
        if f64_mag(a) < f64_mag(b) {
            lemma_units_increasing(52, f64_mag(a), f64_mag(b));
        } else if f64_mag(b) < f64_mag(a) {
            lemma_units_increasing(52, f64_mag(b), f64_mag(a));
        }
    }
    if a_mag == 0 && b_mag == 0 {
        return 0;
    }
    if a_neg != b_neg {
        return if a_neg {
            -1
        } else {
            1
        };
    }
    if a_mag == b_mag {
        return 0;
    }
    if a_neg {
        if a_mag > b_mag {
            -1
        } else {
            1
        }
    } else {
        if a_mag > b_mag {
            1
        } else {
            -1
        }
    }
}

/// Negative if `a < b`, zero if equal, positive if `a > b` or unordered.
pub fn __ltdf2(a: u64, b: u64) -> (r: i32)
    ensures
        r == f64_order(a, b, 1),
{
    cmp_f64(a, b, 1)
}

/// Not positive exactly if `a <= b`; positive if unordered.
pub fn __ledf2(a: u64, b: u64) -> (r: i32)
    ensures
        r == f64_order(a, b, 1),
{
    cmp_f64(a, b, 1)
}

/// Positive exactly if `a > b`; negative if unordered.
pub fn __gtdf2(a: u64, b: u64) -> (r: i32)
    ensures
        r == f64_order(a, b, -1),
{
    cmp_f64(a, b, -1)
}

/// Not negative exactly if `a >= b`; negative if unordered.
pub fn __gedf2(a: u64, b: u64) -> (r: i32)
    ensures
        r == f64_order(a, b, -1),
{
    cmp_f64(a, b, -1)
}

/// Zero exactly if `a == b`.
pub fn __eqdf2(a: u64, b: u64) -> (r: i32)
    ensures
        r == f64_order(a, b, 1),
{
    cmp_f64(a, b, 1)
}

/// Nonzero exactly if `a != b` or unordered.
pub fn __nedf2(a: u64, b: u64) -> (r: i32)
    ensures
        r == f64_order(a, b, 1),
{
    cmp_f64(a, b, 1)
}

/// 1 if either operand is a NaN, else 0.
pub fn __unorddf2(a: u64, b: u64) -> (r: i32)
    ensures
        r == if f64_nan(a) || f64_nan(b) {
            1i32
        } else {
            0
        },
{
    if f64_is_nan(a) || f64_is_nan(b) {
        1
    } else {
        0
    }
}

// ---------------------------------------------------------------------------
// binary32 fields and comparisons
// ---------------------------------------------------------------------------

const F32_SIGN_BIT: u32 = 0x8000_0000;
const F32_INF: u32 = 0x7F80_0000;
const F32_NAN: u32 = 0x7FC0_0000;
const F32_IMPLICIT_BIT: u32 = 0x0080_0000;
const F32_FRAC_BITS: u32 = 23;

/// Whether the sign bit of a binary32 pattern is set.
pub open spec fn f32_neg(a: u32) -> bool {
    a >= 0x8000_0000
}

/// A binary32 pattern without its sign bit.
pub open spec fn f32_mag(a: u32) -> nat {
    (if f32_neg(a) {
        a - 0x8000_0000
    } else {
        a as int
    }) as nat
}

pub open spec fn f32_inf() -> nat {
    0x7F80_0000
}

pub open spec fn f32_nan(a: u32) -> bool {
    f32_mag(a) > f32_inf()
}

/// The magnitude of a binary32 value in multiples of 2^-149.
pub open spec fn f32_units(a: u32) -> nat {
    units(23, f32_mag(a))
}

/// A binary32 value in multiples of 2^-149, sign included.
pub open spec fn f32_value(a: u32) -> int {
    if f32_neg(a) {
        -(f32_units(a) as int)
    } else {
        f32_units(a) as int
    }
}

fn f32_is_neg(a: u32) -> (r: bool)
    ensures
        r == f32_neg(a),
{
    a >= F32_SIGN_BIT
}

fn f32_magnitude(a: u32) -> (r: u32)
    ensures
        r == f32_mag(a),
        r < F32_SIGN_BIT,
{
    if a >= F32_SIGN_BIT {
        a - F32_SIGN_BIT
    } else {
        a
    }
}

fn f32_is_nan(a: u32) -> (r: bool)
    ensures
        r == f32_nan(a),
{
    f32_magnitude(a) > F32_INF
}

fn f32_pack(neg: bool, m: u32) -> (r: u32)
    requires
        m < F32_SIGN_BIT,
    ensures
        f32_neg(r) == neg,
        f32_mag(r) == m,
{
    if neg {
        m + F32_SIGN_BIT
    } else {
        m
    }
}

/// Order of two binary32 values: -1, 0 or 1, or `nan_result` if either is a NaN.
pub open spec fn f32_order(a: u32, b: u32, nan_result: int) -> int {
    if f32_nan(a) || f32_nan(b) {
        nan_result
    } else if f32_value(a) < f32_value(b) {
        -1
    } else if f32_value(a) == f32_value(b) {
        0
    } else {
        1
    }
}

/// Compares two f32 values. Returns -1, 0 or 1, or `nan_result` if either is a NaN.
fn cmp_f32(a: u32, b: u32, nan_result: i32) -> (r: i32)
    ensures
        f32_nan(a) || f32_nan(b) ==> r == nan_result,
        !f32_nan(a) && !f32_nan(b) ==> r == f32_order(a, b, 0),
{
    if f32_is_nan(a) || f32_is_nan(b) {
        return nan_result;
    }
    let a_mag: u32 = f32_magnitude(a);
    let b_mag: u32 = f32_magnitude(b);
    let a_neg: bool = f32_is_neg(a);
    let b_neg: bool = f32_is_neg(b);
    proof {
        lemma_units_zero(23, f32_mag(a));
        lemma_units_zero(23, f32_mag(b));
        if f32_mag(a) < f32_mag(b) {
            lemma_units_increasing(23, f32_mag(a), f32_mag(b));
        } else if f32_mag(b) < f32_mag(a) {
            lemma_units_increasing(23, f32_mag(b), f32_mag(a));
        }
    }
    if a_mag == 0 && b_mag == 0 {
        return 0;
    }
    if a_neg != b_neg {
        return if a_neg {
            -1
        } else {
            1
        };
    }
    if a_mag == b_mag {
        return 0;
    }
    if a_neg {
        if a_mag > b_mag {
            -1
        } else {
            1
        }
    } else {
        if a_mag > b_mag {
            1
        } else {
            -1
        }
    }
}

/// Negative if `a < b`, zero if equal, positive if `a > b` or unordered.
pub fn __ltsf2(a: u32, b: u32) -> (r: i32)
    ensures
        r == f32_order(a, b, 1),
{
    cmp_f32(a, b, 1)
}

/// Not positive exactly if `a <= b`; positive if unordered.
pub fn __lesf2(a: u32, b: u32) -> (r: i32)
    ensures
        r == f32_order(a, b, 1),
{
    cmp_f32(a, b, 1)
}

/// Positive exactly if `a > b`; negative if unordered.
pub fn __gtsf2(a: u32, b: u32) -> (r: i32)
    ensures
        r == f32_order(a, b, -1),
{
    cmp_f32(a, b, -1)
}

/// Not negative exactly if `a >= b`; negative if unordered.
pub fn __gesf2(a: u32, b: u32) -> (r: i32)
    ensures
        r == f32_order(a, b, -1),
{
    cmp_f32(a, b, -1)
}

/// Zero exactly if `a == b`.
pub fn __eqsf2(a: u32, b: u32) -> (r: i32)
    ensures
        r == f32_order(a, b, 1),
{
    cmp_f32(a, b, 1)
}

/// Nonzero exactly if `a != b` or unordered.
pub fn __nesf2(a: u32, b: u32) -> (r: i32)
    ensures
        r == f32_order(a, b, 1),
{
    cmp_f32(a, b, 1)
}

/// 1 if either operand is a NaN, else 0.
pub fn __unordsf2(a: u32, b: u32) -> (r: i32)
    ensures
        r == if f32_nan(a) || f32_nan(b) {
            1i32
        } else {
            0
        },
{
    if f32_is_nan(a) || f32_is_nan(b) {
        1
    } else {
        0
    }
}

// ---------------------------------------------------------------------------
// binary128 fields and comparisons
// ---------------------------------------------------------------------------

const F128_SIGN_BIT: u128 = 0x8000_0000_0000_0000_0000_0000_0000_0000;
const F128_INF: u128 = 0x7FFF_0000_0000_0000_0000_0000_0000_0000;
const F128_IMPLICIT_BIT: u128 = 0x0001_0000_0000_0000_0000_0000_0000_0000;

/// Whether the sign bit of a binary128 pattern is set.
pub open spec fn f128_neg(a: u128) -> bool {
    a >= 0x8000_0000_0000_0000_0000_0000_0000_0000
}

/// A binary128 pattern without its sign bit.
pub open spec fn f128_mag(a: u128) -> nat {
    (if f128_neg(a) {
        a - 0x8000_0000_0000_0000_0000_0000_0000_0000
    } else {
        a as int
    }) as nat
}

pub open spec fn f128_inf() -> nat {
    0x7FFF_0000_0000_0000_0000_0000_0000_0000
}

pub open spec fn f128_nan(a: u128) -> bool {
    f128_mag(a) > f128_inf()
}

/// The magnitude of a binary128 value in multiples of 2^-16494.
pub open spec fn f128_units(a: u128) -> nat {
    units(112, f128_mag(a))
}

/// A binary128 value in multiples of 2^-16494, sign included.
pub open spec fn f128_value(a: u128) -> int {
    if f128_neg(a) {
        -(f128_units(a) as int)
    } else {
        f128_units(a) as int
    }
}

fn f128_is_neg(a: u128) -> (r: bool)
    ensures
        r == f128_neg(a),
{
    a >= F128_SIGN_BIT
}

fn f128_magnitude(a: u128) -> (r: u128)
    ensures
        r == f128_mag(a),
        r < F128_SIGN_BIT,
{
    if a >= F128_SIGN_BIT {
        a - F128_SIGN_BIT
    } else {
        a
    }
}

fn f128_is_nan(a: u128) -> (r: bool)
    ensures
        r == f128_nan(a),
{
    f128_magnitude(a) > F128_INF
}

/// Order of two binary128 values: -1, 0 or 1, or `nan_result` if either is a NaN.
pub open spec fn f128_order(a: u128, b: u128, nan_result: int) -> int {
    if f128_nan(a) || f128_nan(b) {
        nan_result
    } else if f128_value(a) < f128_value(b) {
        -1
    } else if f128_value(a) == f128_value(b) {
        0
    } else {
        1
    }
}

/// Compares two f128 values. Returns -1, 0 or 1, or `nan_result` if either is a NaN.
fn cmp_f128(a: u128, b: u128, nan_result: i32) -> (r: i32)
    ensures
        f128_nan(a) || f128_nan(b) ==> r == nan_result,
        !f128_nan(a) && !f128_nan(b) ==> r == f128_order(a, b, 0),
{
    if f128_is_nan(a) || f128_is_nan(b) {
        return nan_result;
    }
    let a_mag: u128 = f128_magnitude(a);
    let b_mag: u128 = f128_magnitude(b);
    let a_neg: bool = f128_is_neg(a);
    let b_neg: bool = f128_is_neg(b);
    proof {
        lemma_units_zero(112, f128_mag(a));
        lemma_units_zero(112, f128_mag(b));
        if f128_mag(a) < f128_mag(b) {
            lemma_units_increasing(112, f128_mag(a), f128_mag(b));
        } else if f128_mag(b) < f128_mag(a) {
            lemma_units_increasing(112, f128_mag(b), f128_mag(a));
        }
    }
    if a_mag == 0 && b_mag == 0 {
        return 0;
    }
    if a_neg != b_neg {
        return if a_neg {
            -1
        } else {
            1
        };
    }
    if a_mag == b_mag {
        return 0;
    }
    if a_neg {
        if a_mag > b_mag {
            -1
        } else {
            1
        }
    } else {
        if a_mag > b_mag {
            1
        } else {
            -1
        }
    }
}

/// Negative if `a < b`, zero if equal, positive if `a > b` or unordered.
pub fn __lttf2(a: u128, b: u128) -> (r: i32)
    ensures
        r == f128_order(a, b, 1),
{
    cmp_f128(a, b, 1)
}

/// Not positive exactly if `a <= b`; positive if unordered.
pub fn __letf2(a: u128, b: u128) -> (r: i32)
    ensures
        r == f128_order(a, b, 1),
{
    cmp_f128(a, b, 1)
}

/// Positive exactly if `a > b`; negative if unordered.
pub fn __gttf2(a: u128, b: u128) -> (r: i32)
    ensures
        r == f128_order(a, b, -1),
{
    cmp_f128(a, b, -1)
}

/// Not negative exactly if `a >= b`; negative if unordered.
pub fn __getf2(a: u128, b: u128) -> (r: i32)
    ensures
        r == f128_order(a, b, -1),
{
    cmp_f128(a, b, -1)
}

/// Zero exactly if `a == b`.
pub fn __eqtf2(a: u128, b: u128) -> (r: i32)
    ensures
        r == f128_order(a, b, 1),
{
    cmp_f128(a, b, 1)
}

/// Nonzero exactly if `a != b` or unordered.
pub fn __netf2(a: u128, b: u128) -> (r: i32)
    ensures
        r == f128_order(a, b, 1),
{
    cmp_f128(a, b, 1)
}

/// 1 if either operand is a NaN, else 0.
pub fn __unordtf2(a: u128, b: u128) -> (r: i32)
    ensures
        r == if f128_nan(a) || f128_nan(b) {
            1i32
        } else {
            0
        },
{
    if f128_is_nan(a) || f128_is_nan(b) {
        1
    } else {
        0
    }
}

// ---------------------------------------------------------------------------
// integer to binary64
// ---------------------------------------------------------------------------

/// The magnitude nearest to the integer `mag`; exact below 2^53.
fn f64_from_integer(neg: bool, mag: u64) -> (r: u64)
    requires
        mag > 0,
    ensures
        f64_neg(r) == neg,
        f64_nearest(mag as nat * pow2(1074), 1, r),
        mag < 0x0020_0000_0000_0000 ==> f64_units(r) == mag * pow2(1074),
{
    proof {
        assert(mag * 1 == mag && (mag + 1) * 1 == mag + 1);
        lemma_f64_constants();
    }
    let m: u64 = round_magnitude(
        F64_FRAC_BITS,
        F64_INF,
        mag as u128,
        1074,
        false,
        Ghost(mag as nat),
        Ghost(1nat),
    );
    f64_pack(neg, m)
}

/// i32 to f64. Every `i32` is representable.
pub fn __floatsidf(a: i32) -> (r: u64)
    ensures
        f64_neg(r) == (a < 0),
        f64_mag(r) < f64_inf(),
        f64_value(r) == a * pow2(1074),
{
    if a == 0 {
        proof {
            lemma_units_zero(52, 0);
            assert(0 * pow2(1074) == 0) by (nonlinear_arith);
        }
        return 0;
    }
    let mag: u64 = if a < 0 { (-(a as i64)) as u64 } else { a as u64 };
    let r: u64 = f64_from_integer(a < 0, mag);
    proof {
        lemma_small_integer_finite(mag as nat, f64_mag(r));
        assert(-(mag * pow2(1074)) == (-mag) * pow2(1074)) by (nonlinear_arith);
    }
    r
}

/// Integers below 2^64 are far from the overflow threshold.
proof fn lemma_small_integer_finite(mag: nat, m: nat)
    requires
        mag < 0x1_0000_0000_0000_0000,
        is_rounded(52, f64_inf(), mag * pow2(1074), 1, m),
    ensures
        m < f64_inf(),
{
    if m == f64_inf() {
        let k = (f64_inf() - 1) as nat;
        lemma_f64_constants();
        lemma_units_step(52, 2046, pow2(52));
        assert(2046 * pow2(52) + pow2(52) == f64_inf());
        lemma_pow2_adds(52, 2046);
        lemma_pow2_adds(64, 1074);
        lemma_pow2_strictly_increases(64 + 1074, 52 + 2046);
        lemma_pow2_strictly_increases(64 + 1074, 52 + 2045);
        lemma_pow2_unfold(2098);
        lemma_pow2_pos(1074);
        assert(mag * pow2(1074) < pow2(64) * pow2(1074)) by (nonlinear_arith)
            requires mag < pow2(64), pow2(1074) > 0;
        assert((units(52, k) + units(52, f64_inf())) * 1 >= units(52, f64_inf()));
    }
}

/// i64 to f64, rounded to nearest, ties to even.
pub fn __floatdidf(a: i64) -> (r: u64)
    ensures
        f64_neg(r) == (a < 0),
        f64_mag(r) < f64_inf(),
        f64_nearest(
            (if a < 0 {
                -(a as int)
            } else {
                a as int
            }) as nat * pow2(1074),
            1,
            r,
        ),
{
    if a == 0 {
        proof {
            assert(0nat * pow2(1074) == 0) by (nonlinear_arith);
            lemma_units_zero(52, 0);
            lemma_rounded_exact(52, f64_inf(), 0, 1);
        }
        return 0;
    }
    let mag: u64 = if a == i64::MIN {
        F64_SIGN_BIT
    } else if a < 0 {
        (-a) as u64
    } else {
        a as u64
    };
    let r: u64 = f64_from_integer(a < 0, mag);
    proof {
        lemma_small_integer_finite(mag as nat, f64_mag(r));
    }
    r
}

/// u32 to f64. Every `u32` is representable.
pub fn __floatunsidf(a: u32) -> (r: u64)
    ensures
        !f64_neg(r),
        f64_mag(r) < f64_inf(),
        f64_value(r) == a * pow2(1074),
{
    if a == 0 {
        proof {
            lemma_units_zero(52, 0);
            assert(0 * pow2(1074) == 0) by (nonlinear_arith);
        }
        return 0;
    }
    let r: u64 = f64_from_integer(false, a as u64);
    proof {
        lemma_small_integer_finite(a as nat, f64_mag(r));
    }
    r
}

/// u64 to f64, rounded to nearest, ties to even.
pub fn __floatundidf(a: u64) -> (r: u64)
    ensures
        !f64_neg(r),
        f64_mag(r) < f64_inf(),
        f64_nearest(a as nat * pow2(1074), 1, r),
{
    if a == 0 {
        proof {
            assert(0nat * pow2(1074) == 0) by (nonlinear_arith);
            lemma_units_zero(52, 0);
            lemma_rounded_exact(52, f64_inf(), 0, 1);
        }
        return 0;
    }
    let r: u64 = f64_from_integer(false, a);
    proof {
        lemma_small_integer_finite(a as nat, f64_mag(r));
    }
    r
}

// ---------------------------------------------------------------------------
// binary64 to integer
// ---------------------------------------------------------------------------

/// The integer part of a binary64 value, fraction dropped.
pub open spec fn f64_integer_part(a: u64) -> int {
    let mag = f64_units(a) as int / pow2(1074) as int;
    if f64_neg(a) {
        -mag
    } else {
        mag
    }
}

/// The integer part, limited to `lo..=hi`; 0 for infinities and NaNs.
pub open spec fn f64_fixed(a: u64, lo: int, hi: int) -> int {
    if f64_mag(a) >= f64_inf() {
        0
    } else if f64_integer_part(a) < lo {
        lo
    } else if f64_integer_part(a) > hi {
        hi
    } else {
        f64_integer_part(a)
    }
}

/// The integer part of a finite magnitude, limited to `u64::MAX`.
fn f64_truncate_magnitude(m: u64) -> (r: u64)
    requires
        m < F64_INF,
    ensures
        ({
            let whole = units(52, m as nat) as int / pow2(1074) as int;
            r == if whole > u64::MAX {
                u64::MAX as int
            } else {
                whole
            }
        }),
{
    let (sig, e) = f64_split(m);
    let ghost u = units(52, m as nat);
    let ghost one = pow2(1074);
    let ghost we = pow2(e as nat);
    proof {
        lemma_f64_constants();
        lemma_pow2_pos(1074);
        lemma_pow2_pos(e as nat);
    }
    if e >= 1074 {
        let k: i32 = e - 1074;
        let ghost w = pow2(k as nat);
        proof {
            lemma_pow2_adds(k as nat, 1074);
            lemma_pow2_pos(k as nat);
            assert(sig * (w * one) == one * (sig * w)) by (nonlinear_arith);
            lemma_div_multiples_vanish((sig * w) as int, one as int);
        }
        if k >= 12 {
            proof {
                lemma_pow2_adds(52, 12);
                if k > 12 {
                    lemma_pow2_strictly_increases(12, k as nat);
                }
                assert(sig * w >= pow2(52) * pow2(12)) by (nonlinear_arith)
                    requires sig >= pow2(52), w >= pow2(12);
            }
            u64::MAX
        } else {
            proof {
                lemma_pow2_strictly_increases(k as nat, 12);
                lemma_pow2_unfold(12);
                lemma_pow2_adds(53, 11);
                if k < 11 {
                    lemma_pow2_strictly_increases(k as nat, 11);
                }
                assert(sig * w < pow2(53) * pow2(11)) by (nonlinear_arith)
                    requires sig < pow2(53), w <= pow2(11), w > 0;
                lemma_shl_u128(sig as u128, k as u32);
            }
            ((sig as u128) << (k as u32)) as u64
        }
    } else {
        let k: i32 = 1074 - e;
        let ghost w = pow2(k as nat);
        proof {
            lemma_pow2_adds(k as nat, e as nat);
            lemma_pow2_pos(k as nat);
            assert(one == we * w);
            assert(sig * we == we * sig) by (nonlinear_arith);
            lemma_truncate_ratio(sig as int, w as int, we as int);
        }
        if k >= 53 {
            proof {
                if k > 53 {
                    lemma_pow2_strictly_increases(53, k as nat);
                }
                lemma_basic_div(sig as int, w as int);
            }
            0
        } else {
            proof {
                lemma_shr_u128(sig as u128, k as u32);
                lemma_div_nonincreasing(sig as int, w as int);
                lemma_div_pos_is_pos(sig as int, w as int);
            }
            ((sig as u128) >> (k as u32)) as u64
        }
    }
}

/// A common factor cancels in a whole-number division.
proof fn lemma_truncate_ratio(x: int, d: int, k: int)
    requires
        x >= 0,
        d > 0,
        k > 0,
    ensures
        (k * x) / (k * d) == x / d,
{
    lemma_mul_strictly_positive(k, d);
    lemma_div_denominator(k * x, k, d);
    lemma_div_multiples_vanish(x, k);
}

/// f64 to i32, truncating toward zero and limited to the range of `i32`.
pub fn __fixdfsi(a: u64) -> (r: i32)
    ensures
        r == f64_fixed(a, i32::MIN as int, i32::MAX as int),
{
    let m: u64 = f64_magnitude(a);
    if m >= F64_INF {
        return 0;
    }
    let mag: u64 = f64_truncate_magnitude(m);
    if f64_is_neg(a) {
        if mag >= 0x8000_0000 {
            i32::MIN
        } else {
            -(mag as i32)
        }
    } else {
        if mag >= 0x8000_0000 {
            i32::MAX
        } else {
            mag as i32
        }
    }
}

/// f64 to i64, truncating toward zero and limited to the range of `i64`.
pub fn __fixdfdi(a: u64) -> (r: i64)
    ensures
        r == f64_fixed(a, i64::MIN as int, i64::MAX as int),
{
    let m: u64 = f64_magnitude(a);
    if m >= F64_INF {
        return 0;
    }
    let mag: u64 = f64_truncate_magnitude(m);
    if f64_is_neg(a) {
        if mag >= F64_SIGN_BIT {
            i64::MIN
        } else {
            -(mag as i64)
        }
    } else {
        if mag >= F64_SIGN_BIT {
            i64::MAX
        } else {
            mag as i64
        }
    }
}

/// f64 to u32, truncating toward zero and limited to the range of `u32`.
pub fn __fixunsdfsi(a: u64) -> (r: u32)
    ensures
        r == f64_fixed(a, 0, u32::MAX as int),
{
    let m: u64 = f64_magnitude(a);
    if m >= F64_INF {
        return 0;
    }
    let mag: u64 = f64_truncate_magnitude(m);
    if f64_is_neg(a) {
        return 0;
    }
    if mag > u32::MAX as u64 {
        u32::MAX
    } else {
        mag as u32
    }
}

/// f64 to u64, truncating toward zero and limited to the range of `u64`.
pub fn __fixunsdfdi(a: u64) -> (r: u64)
    ensures
        r == f64_fixed(a, 0, u64::MAX as int),
{
    let m: u64 = f64_magnitude(a);
    if m >= F64_INF {
        return 0;
    }
    let mag: u64 = f64_truncate_magnitude(m);
    if f64_is_neg(a) {
        return 0;
    }
    mag
}

// ---------------------------------------------------------------------------
// conversions between formats
// ---------------------------------------------------------------------------

/// What a binary64 value is as a binary32 value, rounded to nearest.
pub open spec fn is_f32_narrowed(a: u64, r: u32) -> bool {
    &&& f32_neg(r) == f64_neg(a)
    &&& if f64_nan(a) {
        f32_mag(r) == 0x7FC0_0000
    } else if f64_mag(a) == f64_inf() {
        f32_mag(r) == f32_inf()
    } else {
        is_rounded(23, f32_inf(), f64_units(a), pow2(925), f32_mag(r))
    }
}

/// What a binary32 value is as a binary64 value; finite values are kept exactly.
pub open spec fn is_f64_widened(a: u32, r: u64) -> bool {
    &&& f64_neg(r) == f32_neg(a)
    &&& if f32_nan(a) {
        f64_mag(r) == (f32_mag(a) - f32_inf()) * 0x2000_0000 + f64_inf() + if (f32_mag(a)
            - f32_inf()) < 0x40_0000 {
            0x0008_0000_0000_0000int
        } else {
            0
        }
    } else if f32_mag(a) == f32_inf() {
        f64_mag(r) == f64_inf()
    } else {
        f64_mag(r) < f64_inf() && f64_units(r) == f32_units(a) * pow2(925)
    }
}

/// What a binary128 value is as a binary64 value, rounded to nearest.
pub open spec fn is_f64_from_f128(a: u128, r: u64) -> bool {
    &&& f64_neg(r) == f128_neg(a)
    &&& if f128_nan(a) {
        f64_mag(r) == 0x7FF8_0000_0000_0000
    } else if f128_mag(a) == f128_inf() {
        f64_mag(r) == f64_inf()
    } else {
        is_rounded(52, f64_inf(), f128_units(a), pow2(15420), f64_mag(r))
    }
}

/// Rounds `sig * 2^e`, given in multiples of 2^-`k` of the target's unit.
fn round_narrowed(p: u32, inf: u64, sig: u128, e: i32, k: i32) -> (m: u64)
    requires
        1 <= p <= 52,
        0 < sig < 0x4000_0000_0000_0000_0000_0000_0000_0000,
        0 <= e <= 32767,
        0 <= k <= 16384,
        e - k <= 20000,
    ensures
        m <= inf,
        is_rounded(p as nat, inf as nat, sig as nat * pow2(e as nat), pow2(k as nat), m as nat),
{
    proof {
        assert(sig * 1 == sig && (sig + 1) * 1 == sig + 1);
    }
    let ghost num = scaled_num(sig as nat, e - k);
    let ghost den = scaled_den(1, e - k);
    let m: u64 = round_magnitude(p, inf, sig, e - k, false, Ghost(sig as nat), Ghost(1nat));
    proof {
        let wk = pow2(k as nat);
        let we = pow2(e as nat);
        lemma_pow2_pos(k as nat);
        lemma_pow2_pos(e as nat);
        if e >= k {
            lemma_pow2_adds((e - k) as nat, k as nat);
            assert((sig * pow2((e - k) as nat)) * wk == sig * (pow2((e - k) as nat) * wk))
                by (nonlinear_arith);
            lemma_rounded_scale(p as nat, inf as nat, num, den, wk, m as nat);
        } else {
            lemma_pow2_adds((k - e) as nat, e as nat);
            assert(den == pow2((k - e) as nat));
            lemma_rounded_scale(p as nat, inf as nat, num, den, we, m as nat);
        }
    }
    m
}

/// f64 to f32.
pub fn __truncdfsf2(a: u64) -> (r: u32)
    ensures
        is_f32_narrowed(a, r),
{
    let neg: bool = f64_is_neg(a);
    let mag: u64 = f64_magnitude(a);
    if mag > F64_INF {
        return f32_pack(neg, F32_NAN);
    }
    if mag == F64_INF {
        return f32_pack(neg, F32_INF);
    }
    if mag == 0 {
        proof {
            lemma_units_zero(52, 0);
            lemma_units_zero(23, 0);
            lemma_pow2_pos(925);
            lemma_rounded_exact(23, f32_inf(), 0, pow2(925));
            assert(0 * pow2(925) == 0) by (nonlinear_arith);
        }
        return f32_pack(neg, 0);
    }
    let (sig, e) = f64_split(mag);
    let m: u32 = truncate_to_f32(sig, e);
    f32_pack(neg, m)
}

/// The binary32 magnitude nearest to `sig * 2^e` multiples of 2^-1074.
fn truncate_to_f32(sig: u64, e: i32) -> (m: u32)
    requires
        0 < sig < 0x0020_0000_0000_0000,
        0 <= e <= 2045,
    ensures
        m <= F32_INF,
        is_rounded(23, f32_inf(), sig as nat * pow2(e as nat), pow2(925), m as nat),
{
    round_narrowed(F32_FRAC_BITS, F32_INF as u64, sig as u128, e, 925) as u32
}

/// f32 to f64.
pub fn __extendsfdf2(a: u32) -> (r: u64)
    ensures
        is_f64_widened(a, r),
{
    let neg: bool = f32_is_neg(a);
    let mag: u32 = f32_magnitude(a);
    if mag > F32_INF {
        // the fraction moves up with the quiet bit set
        let frac: u64 = (mag - F32_INF) as u64;
        let quiet: u64 = if frac < 0x40_0000 { F64_QUIET_BIT } else { 0 };
        return f64_pack(neg, F64_INF + frac * 0x2000_0000 + quiet);
    }
    if mag == F32_INF {
        return f64_pack(neg, F64_INF);
    }
    if mag == 0 {
        proof {
            lemma_units_zero(52, 0);
            lemma_units_zero(23, 0);
            assert(0 * pow2(925) == 0) by (nonlinear_arith);
        }
        return f64_pack(neg, 0);
    }
    let exp: u32 = mag / F32_IMPLICIT_BIT;
    let frac: u32 = mag % F32_IMPLICIT_BIT;
    proof {
        lemma_f64_constants();
        lemma2_to64();
    }
    let sig: u64 = if exp == 0 { frac as u64 } else { (F32_IMPLICIT_BIT + frac) as u64 };
    let e: i32 = if exp == 0 { 0 } else { exp as i32 - 1 };
    proof {
        assert(units(23, mag as nat) == sig * pow2(e as nat)) by {
            assert(sig * pow2(0) == sig) by (nonlinear_arith) requires pow2(0) == 1;
        }
        assert(sig * 1 == sig && (sig + 1) * 1 == sig + 1);
        assert((e + 925 + 2) * pow2(52) <= F64_INF) by (nonlinear_arith)
            requires e <= 254, pow2(52) == 0x0010_0000_0000_0000, F64_INF == 0x7FF0_0000_0000_0000u64;
        lemma_pow2_adds(e as nat, 925);
        assert(sig * (pow2(e as nat) * pow2(925)) == (sig * pow2(e as nat)) * pow2(925))
            by (nonlinear_arith);
    }
    let m: u64 = round_magnitude(
        F64_FRAC_BITS,
        F64_INF,
        sig as u128,
        e + 925,
        false,
        Ghost(sig as nat),
        Ghost(1nat),
    );
    f64_pack(neg, m)
}

/// f128 to f64.
pub fn __trunctfdf2(a: u128) -> (r: u64)
    ensures
        is_f64_from_f128(a, r),
{
    let neg: bool = f128_is_neg(a);
    let mag: u128 = f128_magnitude(a);
    if mag > F128_INF {
        return f64_pack(neg, F64_NAN);
    }
    if mag == F128_INF {
        return f64_pack(neg, F64_INF);
    }
    if mag == 0 {
        proof {
            lemma_units_zero(112, 0);
            lemma_units_zero(52, 0);
            lemma_pow2_pos(15420);
            lemma_rounded_exact(52, f64_inf(), 0, pow2(15420));
            assert(0 * pow2(15420) == 0) by (nonlinear_arith);
        }
        return f64_pack(neg, 0);
    }
    let exp: u128 = mag / F128_IMPLICIT_BIT;
    let frac: u128 = mag % F128_IMPLICIT_BIT;
    let sig: u128 = if exp == 0 { frac } else { F128_IMPLICIT_BIT + frac };
    let e: i32 = if exp == 0 { 0 } else { exp as i32 - 1 };
    proof {
        lemma_f64_constants();
        lemma2_to64();
        lemma_pow2_adds(56, 56);
        lemma2_to64_rest();
        assert(units(112, mag as nat) == sig * pow2(e as nat)) by {
            assert(sig * pow2(0) == sig) by (nonlinear_arith) requires pow2(0) == 1;
        }
    }
    let m: u64 = round_narrowed(F64_FRAC_BITS, F64_INF, sig, e, 15420);
    f64_pack(neg, m)
}

// ---------------------------------------------------------------------------
// binary32 arithmetic, carried out in binary64
// ---------------------------------------------------------------------------

/// What the sum of two binary32 values is: the binary64 sum, narrowed.
pub open spec fn is_f32_sum(a: u32, b: u32, r: u32) -> bool {
    exists|wa: u64, wb: u64, w: u64|
        {
            &&& #[trigger] is_f64_widened(a, wa)
            &&& #[trigger] is_f64_widened(b, wb)
            &&& is_f64_sum(wa, wb, w)
            &&& #[trigger] is_f32_narrowed(w, r)
        }
}

/// f32 + f32.
pub fn __addsf3(a: u32, b: u32) -> (r: u32)
    ensures
        is_f32_sum(a, b, r),
        f32_finite(a) && f32_finite(b) ==> is_nearest_sum(
            f32_value(a),
            f32_value(b),
            f32_neg(a) && f32_neg(b),
            r,
        ),
{
    let wa: u64 = __extendsfdf2(a);
    let wb: u64 = __extendsfdf2(b);
    let w: u64 = __adddf3(wa, wb);
    let r: u32 = __truncdfsf2(w);
    assert(is_f64_widened(a, wa) && is_f64_widened(b, wb) && is_f32_narrowed(w, r));
    proof {
        if f32_finite(a) && f32_finite(b) {
            lemma_f32_sum_is_nearest(a, b, r);
        }
    }
    r
}

/// What the difference of two binary32 values is: the binary64 difference, narrowed.
pub open spec fn is_f32_difference(a: u32, b: u32, r: u32) -> bool {
    exists|wa: u64, wb: u64, w: u64|
        {
            &&& #[trigger] is_f64_widened(a, wa)
            &&& #[trigger] is_f64_widened(b, wb)
            &&& is_f64_sum(wa, f64_negated(wb), w)
            &&& #[trigger] is_f32_narrowed(w, r)
        }
}

/// f32 - f32.
pub fn __subsf3(a: u32, b: u32) -> (r: u32)
    ensures
        is_f32_difference(a, b, r),
        f32_finite(a) && f32_finite(b) ==> is_nearest_sum(
            f32_value(a),
            -f32_value(b),
            f32_neg(a) && !f32_neg(b),
            r,
        ),
{
    let wa: u64 = __extendsfdf2(a);
    let wb: u64 = __extendsfdf2(b);
    let w: u64 = __subdf3(wa, wb);
    let r: u32 = __truncdfsf2(w);
    assert(is_f64_widened(a, wa) && is_f64_widened(b, wb) && is_f32_narrowed(w, r));
    proof {
        if f32_finite(a) && f32_finite(b) {
            lemma_f32_difference_is_nearest(a, b, r);
        }
    }
    r
}

/// What the product of two binary32 values is: the binary64 product, narrowed.
pub open spec fn is_f32_product(a: u32, b: u32, r: u32) -> bool {
    exists|wa: u64, wb: u64, w: u64|
        {
            &&& #[trigger] is_f64_widened(a, wa)
            &&& #[trigger] is_f64_widened(b, wb)
            &&& is_f64_product(wa, wb, w)
            &&& #[trigger] is_f32_narrowed(w, r)
        }
}

/// f32 * f32.
pub fn __mulsf3(a: u32, b: u32) -> (r: u32)
    ensures
        is_f32_product(a, b, r),
        f32_finite(a) && f32_finite(b) ==> f32_nearest(
            f32_units(a) * f32_units(b),
            pow2(149),
            r,
        ),
{
    let wa: u64 = __extendsfdf2(a);
    let wb: u64 = __extendsfdf2(b);
    let w: u64 = __muldf3(wa, wb);
    let r: u32 = __truncdfsf2(w);
    assert(is_f64_widened(a, wa) && is_f64_widened(b, wb) && is_f32_narrowed(w, r));
    proof {
        if f32_finite(a) && f32_finite(b) {
            lemma_f32_product_is_nearest(a, b, r);
        }
    }
    r
}

/// What the quotient of two binary32 values is: the binary64 quotient, narrowed.
pub open spec fn is_f32_quotient(a: u32, b: u32, r: u32) -> bool {
    exists|wa: u64, wb: u64, w: u64|
        {
            &&& #[trigger] is_f64_widened(a, wa)
            &&& #[trigger] is_f64_widened(b, wb)
            &&& is_f64_quotient(wa, wb, w)
            &&& #[trigger] is_f32_narrowed(w, r)
        }
}

/// f32 / f32.
pub fn __divsf3(a: u32, b: u32) -> (r: u32)
    ensures
        is_f32_quotient(a, b, r),
        f32_finite(a) && f32_finite(b) && f32_mag(b) != 0 ==> f32_nearest(
            f32_units(a) * pow2(149),
            f32_units(b),
            r,
        ),
{
    let wa: u64 = __extendsfdf2(a);
    let wb: u64 = __extendsfdf2(b);
    let w: u64 = __divdf3(wa, wb);
    let r: u32 = __truncdfsf2(w);
    assert(is_f64_widened(a, wa) && is_f64_widened(b, wb) && is_f32_narrowed(w, r));
    proof {
        if f32_finite(a) && f32_finite(b) && f32_mag(b) != 0 {
            lemma_f32_quotient_is_nearest(a, b, r);
        }
    }
    r
}

} // verus!
