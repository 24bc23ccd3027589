//! 128-bit shifts, multiplication and division built from 64-bit words.
use vstd::arithmetic::div_mod::*;
use vstd::arithmetic::mul::*;
use vstd::arithmetic::power2::*;
use vstd::bits::*;
use vstd::prelude::*;

verus! {

/// 2^64.
pub open spec fn word() -> nat {
    0x1_0000_0000_0000_0000
}

/// 2^128.
pub open spec fn modulus() -> nat {
    0x1_0000_0000_0000_0000 * 0x1_0000_0000_0000_0000
}

/// The `i128` that has the two's complement pattern of `x`, as a number.
pub open spec fn wrap_i128(x: int) -> int {
    let u = x % modulus() as int;
    if u >= 0x8000_0000_0000_0000 * word() {
        u - modulus()
    } else {
        u
    }
}

/// Quotient of a signed division that truncates toward zero.
pub open spec fn truncated_quotient(a: int, b: int) -> int {
    let q = abs(a) / abs(b);
    if (a < 0) != (b < 0) {
        -q
    } else {
        q
    }
}

/// Remainder of a signed division that truncates toward zero: it takes the
/// sign of the dividend.
pub open spec fn truncated_remainder(a: int, b: int) -> int {
    let r = abs(a) % abs(b);
    if a < 0 {
        -r
    } else {
        r
    }
}

pub open spec fn abs(x: int) -> int {
    if x < 0 {
        -x
    } else {
        x
    }
}

#[derive(Clone, Copy)]
struct U128Words {
    lo: u64,
    hi: u64,
}

impl U128Words {
    spec fn val(self) -> nat {
        self.hi as nat * word() + self.lo as nat
    }

    fn zero() -> (r: U128Words)
        ensures
            r.val() == 0,
    {
        U128Words { lo: 0, hi: 0 }
    }

    fn is_zero(self) -> (r: bool)
        ensures
            r == (self.val() == 0),
    {
        self.lo == 0 && self.hi == 0
    }

    fn less_than(self, other: U128Words) -> (r: bool)
        ensures
            r == (self.val() < other.val()),
    {
        self.hi < other.hi || (self.hi == other.hi && self.lo < other.lo)
    }

    /// Bit `bit` of the number.
    fn bit(self, bit: u32) -> (r: u64)
        requires
            bit < 128,
        ensures
            r == (self.val() / pow2(bit as nat)) % 2,
    {
        if bit < 64 {
            proof {
                lemma_word_bit(self.lo, bit);
                lemma_low_word_digit(self.lo as nat, self.hi as nat, bit as nat);
            }
            (self.lo >> bit) & 1
        } else {
            proof {
                lemma_word_bit(self.hi, (bit - 64) as u32);
                lemma_high_word_shift(self.lo as nat, self.hi as nat, bit as nat);
            }
            (self.hi >> (bit - 64)) & 1
        }
    }

    /// Sets bit `bit`, which is clear.
    fn set_bit(&mut self, bit: u32)
        requires
            bit < 128,
            (old(self).val() / pow2(bit as nat)) % 2 == 0,
        ensures
            final(self).val() == old(self).val() + pow2(bit as nat),
    {
        if bit < 64 {
            proof {
                lemma_word_bit(self.lo, bit);
                lemma_low_word_digit(self.lo as nat, self.hi as nat, bit as nat);
                lemma_word_set_bit(self.lo, bit);
            }
            self.lo = self.lo | (1u64 << bit);
        } else {
            proof {
                let b = (bit - 64) as u32;
                lemma_word_bit(self.hi, b);
                lemma_high_word_shift(self.lo as nat, self.hi as nat, bit as nat);
                lemma_word_set_bit(self.hi, b);
                lemma_pow2_adds(b as nat, 64);
                lemma2_to64();
                lemma2_to64_rest();
                assert((self.hi + pow2(b as nat)) * word() == self.hi * word() + pow2(b as nat)
                    * word()) by (nonlinear_arith);
            }
            self.hi = self.hi | (1u64 << (bit - 64));
        }
    }

    /// Doubles the number.
    fn shl1(self) -> (r: U128Words)
        requires
            2 * self.val() < modulus(),
        ensures
            r.val() == 2 * self.val(),
            r.lo % 2 == 0,
    {
        proof {
            let lo = self.lo;
            let hi = self.hi;
            assert(hi < 0x8000_0000_0000_0000) by {
                if hi >= 0x8000_0000_0000_0000 {
                    assert(hi * word() >= 0x8000_0000_0000_0000 * word()) by (nonlinear_arith)
                        requires hi >= 0x8000_0000_0000_0000;
                }
            }
            assert(lo < 0x8000_0000_0000_0000u64 ==> (lo << 1) == 2 * lo && (lo >> 63) == 0)
                by (bit_vector);
            assert(lo >= 0x8000_0000_0000_0000u64 ==> (lo << 1) == 2 * lo - 0x1_0000_0000_0000_0000
                && (lo >> 63) == 1) by (bit_vector);
            assert(hi < 0x8000_0000_0000_0000u64 ==> ((hi << 1) | 0) == 2 * hi && ((hi << 1) | 1)
                == 2 * hi + 1) by (bit_vector);
        }
        U128Words { lo: self.lo << 1, hi: (self.hi << 1) | (self.lo >> 63) }
    }

    fn wrapping_add(self, other: U128Words) -> (r: U128Words)
        ensures
            r.val() == (self.val() + other.val()) % modulus(),
    {
        let lo: u64 = self.lo.wrapping_add(other.lo);
        let carry: u64 = if lo < self.lo { 1 } else { 0 };
        let hi: u64 = self.hi.wrapping_add(other.hi).wrapping_add(carry);
        let r = U128Words { lo, hi };
        proof {
            let s = self.val() + other.val();
            if s < modulus() {
                lemma_small_mod(s, modulus());
            } else {
                lemma_mod_minus(s, modulus());
            }
        }
        r
    }

    fn wrapping_sub(self, other: U128Words) -> (r: U128Words)
        requires
            self.val() >= other.val(),
        ensures
            r.val() == self.val() - other.val(),
    {
        let lo: u64 = self.lo.wrapping_sub(other.lo);
        let borrow: u64 = if self.lo < other.lo { 1 } else { 0 };
        U128Words { lo, hi: self.hi.wrapping_sub(other.hi).wrapping_sub(borrow) }
    }

    fn not(self) -> (r: U128Words)
        ensures
            r.val() == modulus() - 1 - self.val(),
    {
        proof {
            let lo = self.lo;
            let hi = self.hi;
            assert(!lo == 0xffff_ffff_ffff_ffffu64 - lo) by (bit_vector);
            assert(!hi == 0xffff_ffff_ffff_ffffu64 - hi) by (bit_vector);
        }
        U128Words { lo: !self.lo, hi: !self.hi }
    }

    fn wrapping_neg(self) -> (r: U128Words)
        ensures
            r.val() == (modulus() - self.val()) as nat % modulus(),
    {
        self.not().wrapping_add(U128Words { lo: 1, hi: 0 })
    }
}

proof fn lemma_mod_minus(s: nat, m: nat)
    requires
        m <= s < 2 * m,
    ensures
        s % m == s - m,
{
    lemma_fundamental_div_mod_converse(s as int, m as int, 1, s - m);
}

proof fn lemma_word_bit(x: u64, bit: u32)
    requires
        bit < 64,
    ensures
        (x >> bit) & 1 == (x as nat / pow2(bit as nat)) % 2,
{
    let y = x >> bit;
    lemma_u64_shr_is_div(x, bit as u64);
    assert(x >> bit == x >> (bit as u64)) by (bit_vector);
    assert(y & 1 == y % 2) by (bit_vector);
}

proof fn lemma_word_set_bit(x: u64, bit: u32)
    requires
        bit < 64,
        (x >> bit) & 1 == 0,
    ensures
        x | (1u64 << bit) == x + pow2(bit as nat),
{
    assert(x | (1u64 << bit) == x + (1u64 << bit)) by (bit_vector)
        requires
            bit < 64,
            (x >> bit) & 1 == 0,
    ;
    lemma_u64_pow2_no_overflow(bit as nat);
    lemma_u64_shl_is_mul(1, bit as u64);
    assert(1u64 << bit == 1u64 << (bit as u64)) by (bit_vector);
}

/// A bit of the low word is a bit of the number.
proof fn lemma_low_word_digit(lo: nat, hi: nat, bit: nat)
    requires
        bit < 64,
    ensures
        ((hi * word() + lo) / pow2(bit)) % 2 == (lo / pow2(bit)) % 2,
{
    let w = pow2(bit);
    let k = pow2((64 - bit) as nat);
    let h = pow2((63 - bit) as nat);
    lemma_pow2_pos(bit);
    lemma_pow2_adds(bit, (64 - bit) as nat);
    lemma_pow2_unfold((64 - bit) as nat);
    lemma2_to64();
    lemma2_to64_rest();
    assert(hi * word() + lo == w * (hi * k) + lo) by (nonlinear_arith) requires word() == w * k;
    lemma_div_multiples_vanish_fancy(hi as int * k as int, lo as int % w as int, w as int);
    lemma_fundamental_div_mod(lo as int, w as int);
    let x = hi * k;
    let y = lo / w;
    assert(w * x + lo == w * (x + y) + lo % w) by (nonlinear_arith)
        requires lo == w * y + lo % w;
    lemma_mod_bound(lo as int, w as int);
    assert(w * (x + y) == (x + y) * w) by (nonlinear_arith);
    lemma_fundamental_div_mod_converse(
        (w * x + lo) as int,
        w as int,
        (x + y) as int,
        (lo % w) as int,
    );
    assert(x == 2 * (hi * h)) by (nonlinear_arith) requires x == hi * k, k == 2 * h;
}

/// Shifting by a word or more only leaves the high word.
proof fn lemma_high_word_shift(lo: nat, hi: nat, bit: nat)
    requires
        64 <= bit,
        lo < word(),
    ensures
        (hi * word() + lo) / pow2(bit) == hi / pow2((bit - 64) as nat),
{
    let w = pow2((bit - 64) as nat);
    lemma_pow2_pos((bit - 64) as nat);
    lemma_pow2_adds(64, (bit - 64) as nat);
    lemma2_to64();
    lemma2_to64_rest();
    let x = hi * word() + lo;
    lemma_fundamental_div_mod_converse(x as int, word() as int, hi as int, lo as int);
    lemma_div_denominator(x as int, word() as int, w as int);
}

fn u128_to_words(value: u128) -> (r: U128Words)
    ensures
        r.val() == value,
{
    U128Words {
        lo: (value % 0x1_0000_0000_0000_0000) as u64,
        hi: (value / 0x1_0000_0000_0000_0000) as u64,
    }
}

fn words_to_u128(words: U128Words) -> (r: u128)
    ensures
        r == words.val(),
{
    words.hi as u128 * 0x1_0000_0000_0000_0000 + words.lo as u128
}

fn i128_to_words(value: i128) -> (r: U128Words)
    ensures
        r.val() == value as int % modulus() as int,
{
    proof {
        if value < 0 {
            lemma_fundamental_div_mod_converse(
                value as int,
                modulus() as int,
                -1,
                value + modulus(),
            );
        } else {
            lemma_small_mod(value as nat, modulus());
        }
    }
    if value < 0 {
        u128_to_words(u128::MAX - (-(value + 1)) as u128)
    } else {
        u128_to_words(value as u128)
    }
}

fn words_to_i128(words: U128Words) -> (r: i128)
    ensures
        r == wrap_i128(words.val() as int),
{
    let u: u128 = words_to_u128(words);
    proof {
        lemma_small_mod(words.val(), modulus());
    }
    if u >= 0x8000_0000_0000_0000_0000_0000_0000_0000 {
        -((u128::MAX - u) as i128) - 1
    } else {
        u as i128
    }
}

/// Left shift of a word keeps the low 64 bits of the product.
proof fn lemma_word_shl(x: u64, k: u32)
    requires
        k < 64,
    ensures
        x << k == (x * pow2(k as nat)) % word() as int,
    decreases k,
{
    if k == 0 {
        lemma2_to64();
        assert(x << 0u32 == x) by (bit_vector);
        lemma_small_mod(x as nat, word());
    } else {
        let j = (k - 1) as u32;
        let w = pow2(j as nat);
        lemma_pow2_unfold(k as nat);
        lemma_word_shl(x, j);
        let y = x << j;
        assert(x << k == y << 1u32) by (bit_vector)
            requires
                1 <= k < 64,
                j == k - 1,
                y == x << j,
        ;
        lemma_word_double(y);
        if y < 0x8000_0000_0000_0000 {
            lemma_small_mod((2 * y) as nat, word());
        } else {
            lemma_mod_minus((2 * y) as nat, word());
        }
        assert(x * (2 * w) == 2 * (x * w)) by (nonlinear_arith);
        lemma_mul_mod_noop_right(2, (x * w) as int, word() as int);
    }
}

proof fn lemma_word_double(y: u64)
    ensures
        y < 0x8000_0000_0000_0000 ==> y << 1u32 == 2 * y,
        y >= 0x8000_0000_0000_0000 ==> y << 1u32 == 2 * y - 0x1_0000_0000_0000_0000,
{
    assert(y < 0x8000_0000_0000_0000u64 ==> y << 1u32 == 2 * y) by (bit_vector);
    assert(y >= 0x8000_0000_0000_0000u64 ==> y << 1u32 == 2 * (y - 0x8000_0000_0000_0000u64))
        by (bit_vector);
}

proof fn lemma_word_shr(x: u64, k: u32)
    requires
        k < 64,
    ensures
        x >> k == x as nat / pow2(k as nat),
{
    lemma_u64_shr_is_div(x, k as u64);
    assert(x >> k == x >> (k as u64)) by (bit_vector);
}

/// The bits that a shift moves across a word boundary: with `s + c == 64`,
/// `x << s` holds the low `c` bits of `x`, and `x >> c` the others.
proof fn lemma_word_split(x: u64, s: u32, c: u32)
    requires
        1 <= s <= 63,
        s + c == 64,
    ensures
        (x >> c) * word() + (x << s) == x * pow2(s as nat),
        x << s == (x as nat % pow2(c as nat)) * pow2(s as nat),
{
    let ws = pow2(s as nat);
    let wc = pow2(c as nat);
    lemma_pow2_pos(s as nat);
    lemma_pow2_pos(c as nat);
    lemma_pow2_adds(s as nat, c as nat);
    lemma2_to64();
    lemma2_to64_rest();
    lemma_word_shl(x, s);
    lemma_word_shr(x, c);
    lemma_fundamental_div_mod(x as int, wc as int);
    lemma_mod_bound(x as int, wc as int);
    let q = x as int / wc as int;
    let r = x as int % wc as int;
    assert(x * ws == q * word() + r * ws) by (nonlinear_arith)
        requires x == wc * q + r, word() == ws * wc;
    assert(0 <= r * ws < word()) by (nonlinear_arith)
        requires 0 <= r < wc, word() == ws * wc, ws > 0;
    lemma_fundamental_div_mod_converse(x * ws, word() as int, q, r * ws);
}

fn shl_words(value: U128Words, shift: u32) -> (r: U128Words)
    ensures
        shift < 128 ==> r.val() == (value.val() * pow2(shift as nat)) % modulus(),
        shift >= 128 ==> r.val() == 0,
{
    let ghost lo = value.lo;
    let ghost hi = value.hi;
    let ghost ws = pow2(shift as nat);
    let ghost w = word() as int;
    if shift == 0 {
        proof {
            lemma2_to64();
            lemma_small_mod(value.val(), modulus());
        }
        value
    } else if shift <= 63 {
        proof {
            let c = (64 - shift) as u32;
            lemma_word_split(lo, shift, c);
            lemma_word_shl(hi, shift);
            assert((hi << shift) | (lo >> c) == (hi << shift) + (lo >> c)) by (bit_vector)
                requires
                    1 <= shift <= 63,
                    c == 64 - shift,
            ;
        }
        let r = U128Words {
            lo: value.lo << shift,
            hi: (value.hi << shift) | (value.lo >> (64 - shift)),
        };
        proof {
            let hs = hi * ws;
            lemma_fundamental_div_mod(hs as int, w);
            let j = hs as int / w;
            assert(value.val() * ws == j * (w * w) + r.val()) by (nonlinear_arith)
                requires
                    value.val() == hi * w + lo,
                    hs == hi * ws,
                    hs == w * j + hs as int % w,
                    r.val() == r.hi * w + r.lo,
                    r.hi == hs as int % w + (lo >> ((64 - shift) as u32)),
                    (lo >> ((64 - shift) as u32)) * w + r.lo == lo * ws,
            ;
            lemma_fundamental_div_mod_converse(
                (value.val() * ws) as int,
                modulus() as int,
                j,
                r.val() as int,
            );
        }
        r
    } else if shift <= 127 {
        let r = U128Words { lo: 0, hi: value.lo << (shift - 64) };
        proof {
            let k = (shift - 64) as u32;
            let wk = pow2(k as nat);
            lemma_word_shl(lo, k);
            lemma_pow2_adds(k as nat, 64);
            lemma2_to64();
            lemma2_to64_rest();
            let ls = lo * wk;
            lemma_fundamental_div_mod(ls as int, w);
            let j = hi * wk + ls as int / w;
            assert(value.val() * ws == j * (w * w) + r.val()) by (nonlinear_arith)
                requires
                    value.val() == hi * w + lo,
                    ws == wk * w,
                    ls == lo * wk,
                    ls == w * (ls as int / w) + ls as int % w,
                    j == hi * wk + ls as int / w,
                    r.val() == r.hi * w,
                    r.hi == ls as int % w,
            ;
            lemma_fundamental_div_mod_converse(
                (value.val() * ws) as int,
                modulus() as int,
                j,
                r.val() as int,
            );
        }
        r
    } else {
        U128Words::zero()
    }
}

fn lshr_words(value: U128Words, shift: u32) -> (r: U128Words)
    ensures
        r.val() == value.val() / pow2(shift as nat),
{
    let ghost lo = value.lo;
    let ghost hi = value.hi;
    let ghost ws = pow2(shift as nat);
    let ghost w = word() as int;
    if shift == 0 {
        proof {
            lemma2_to64();
        }
        value
    } else if shift <= 63 {
        proof {
            let c = (64 - shift) as u32;
            lemma_word_split(hi, c, shift);
            lemma_word_shr(lo, shift);
            lemma_word_shr(hi, shift);
            assert((lo >> shift) | (hi << c) == (lo >> shift) + (hi << c)) by (bit_vector)
                requires
                    1 <= shift <= 63,
                    c == 64 - shift,
            ;
        }
        let r = U128Words {
            lo: (value.lo >> shift) | (value.hi << (64 - shift)),
            hi: value.hi >> shift,
        };
        proof {
            let c = (64 - shift) as u32;
            let wc = pow2(c as nat);
            lemma_pow2_pos(shift as nat);
            lemma_pow2_adds(shift as nat, c as nat);
            lemma2_to64();
            lemma2_to64_rest();
            lemma_fundamental_div_mod(lo as int, ws as int);
            lemma_mod_bound(lo as int, ws as int);
            lemma_fundamental_div_mod(hi as int, ws as int);
            let hq = hi as int / ws as int;
            let hr = hi as int % ws as int;
            let lq = lo as int / ws as int;
            let lr = lo as int % ws as int;
            assert(value.val() == r.val() * ws + lr) by (nonlinear_arith)
                requires
                    value.val() == hi * w + lo,
                    w == ws * wc,
                    hi == ws * hq + hr,
                    lo == ws * lq + lr,
                    r.val() == hq * w + (lq + hr * wc),
            ;
            lemma_fundamental_div_mod_converse(
                value.val() as int,
                ws as int,
                r.val() as int,
                lr,
            );
        }
        r
    } else if shift <= 127 {
        proof {
            lemma_high_word_shift(lo as nat, hi as nat, shift as nat);
            lemma_word_shr(hi, (shift - 64) as u32);
        }
        U128Words { lo: value.hi >> (shift - 64), hi: 0 }
    } else {
        proof {
            lemma2_to64();
            lemma2_to64_rest();
            lemma_pow2_adds(64, 64);
            if shift > 128 {
                lemma_pow2_strictly_increases(128, shift as nat);
            }
            lemma_basic_div(value.val() as int, ws as int);
        }
        U128Words::zero()
    }
}

/// Shifts right, filling with the sign bit.
fn ashr_words(value: U128Words, shift: u32) -> (r: U128Words)
    ensures
        wrap_i128(r.val() as int) == wrap_i128(value.val() as int) / pow2(shift as nat) as int,
{
    let ghost w = pow2(shift as nat);
    proof {
        lemma_pow2_pos(shift as nat);
        lemma_small_mod(value.val(), modulus());
    }
    if value.hi >= 0x8000_0000_0000_0000 {
        let inverted = value.not();
        let shifted = lshr_words(inverted, shift);
        let r = shifted.not();
        proof {
            let a = wrap_i128(value.val() as int);
            let c = inverted.val();
            assert(c == -1 - a);
            lemma_div_nonincreasing(c as int, w as int);
            lemma_div_pos_is_pos(c as int, w as int);
            lemma_small_mod(r.val(), modulus());
            // floor((-1 - c) / w) = -1 - floor(c / w)
            lemma_fundamental_div_mod(c as int, w as int);
            lemma_mod_bound(c as int, w as int);
            let q = c as int / w as int;
            assert(a == (-1 - q) * w + (w - 1 - c % w)) by (nonlinear_arith)
                requires c == w * q + c % w, a == -1 - c;
            lemma_fundamental_div_mod_converse(a, w as int, -1 - q, w - 1 - c % w);
        }
        r
    } else {
        let r = lshr_words(value, shift);
        proof {
            lemma_div_nonincreasing(value.val() as int, w as int);
            lemma_div_pos_is_pos(value.val() as int, w as int);
            lemma_small_mod(r.val(), modulus());
        }
        r
    }
}

proof fn lemma_half_word(x: u64)
    ensures
        x & 0xffff_ffff == x % 0x1_0000_0000,
        x >> 32 == x / 0x1_0000_0000,
        x < 0x1_0000_0000 ==> x << 32 == x * 0x1_0000_0000,
{
    assert(x & 0xffff_ffff == x % 0x1_0000_0000) by (bit_vector);
    assert(x >> 32 == x / 0x1_0000_0000) by (bit_vector);
    assert(x < 0x1_0000_0000 ==> x << 32 == x * 0x1_0000_0000) by (bit_vector);
}

/// The full 128-bit product of two words, from 32-bit halves.
fn mul_u64_wide(a: u64, b: u64) -> (r: U128Words)
    ensures
        r.val() == a * b,
{
    let half: u64 = 0xffff_ffff;
    proof {
        lemma_half_word(a);
        lemma_half_word(b);
    }
    let a_lo: u64 = a & half;
    let a_hi: u64 = a >> 32;
    let b_lo: u64 = b & half;
    let b_hi: u64 = b >> 32;
    proof {
        lemma_mul_upper_bound(a_lo as int, 0xffff_ffff, b_lo as int, 0xffff_ffff);
        lemma_mul_upper_bound(a_hi as int, 0xffff_ffff, b_lo as int, 0xffff_ffff);
        lemma_mul_upper_bound(b_hi as int, 0xffff_ffff, a_lo as int, 0xffff_ffff);
        lemma_mul_upper_bound(a_hi as int, 0xffff_ffff, b_hi as int, 0xffff_ffff);
        assert(a_lo * b_lo >= 0 && a_hi * b_lo >= 0 && b_hi * a_lo >= 0 && a_hi * b_hi >= 0)
            by (nonlinear_arith);
    }
    let ghost ll = a_lo * b_lo;
    let ghost hl = a_hi * b_lo;
    let ghost lh = b_hi * a_lo;
    let ghost hh = a_hi * b_hi;
    let p: u64 = a_lo * b_lo;
    proof {
        lemma_half_word(p);
    }
    let lo0: u64 = p & half;
    let t0: u64 = (p >> 32) + a_hi * b_lo;
    proof {
        lemma_half_word(t0);
        lemma_half_word(t0 & 0xffff_ffff);
    }
    let lo1: u64 = lo0 + ((t0 & half) << 32);
    let hi0: u64 = t0 >> 32;
    proof {
        lemma_half_word(lo1);
    }
    let t1: u64 = (lo1 >> 32) + b_hi * a_lo;
    proof {
        lemma_half_word(t1);
        lemma_half_word(t1 & 0xffff_ffff);
    }
    let lo: u64 = (lo1 & half) + ((t1 & half) << 32);
    proof {
        // the high word is what is left of the product
        assert(a * b == ll + 0x1_0000_0000 * (hl + lh) + word() * hh) by (nonlinear_arith)
            requires
                a == a_hi * 0x1_0000_0000 + a_lo,
                b == b_hi * 0x1_0000_0000 + b_lo,
                ll == a_lo * b_lo,
                hl == a_hi * b_lo,
                lh == b_hi * a_lo,
                hh == a_hi * b_hi,
        ;
        lemma_mul_upper_bound(a as int, 0xffff_ffff_ffff_ffff, b as int, 0xffff_ffff_ffff_ffff);
    }
    let hi: u64 = hi0 + (t1 >> 32) + a_hi * b_hi;
    U128Words { lo, hi }
}

/// Schoolbook product of two-digit numbers in base `w`, carries collected.
proof fn lemma_word_product(
    w: int,
    ah: int,
    al: int,
    bh: int,
    bl: int,
    ph: int,
    pl: int,
    k1: int,
    c1: int,
    k2: int,
    c2: int,
    k: int,
    rh: int,
)
    requires
        al * bl == ph * w + pl,
        ah * bl == w * k1 + c1,
        al * bh == w * k2 + c2,
        rh == ph + c1 + c2 - k * w,
    ensures
        (ah * w + al) * (bh * w + bl) == (ah * bh + k1 + k2 + k) * (w * w) + (rh * w + pl),
{
    let x1 = ah * bl;
    let x2 = al * bh;
    let hh = ah * bh;
    let ww = w * w;
    let aw = ah * w;
    let bw = bh * w;
    assert((aw + al) * (bw + bl) == aw * bw + aw * bl + al * bw + al * bl) by (nonlinear_arith);
    assert((ah * w) * (bh * w) == (ah * bh) * (w * w)) by (nonlinear_arith);
    assert((ah * w) * bl == (ah * bl) * w) by (nonlinear_arith);
    assert(al * (bh * w) == (al * bh) * w) by (nonlinear_arith);
    assert(x1 * w == k1 * ww + c1 * w) by (nonlinear_arith) requires x1 == w * k1 + c1, ww == w * w;
    assert(x2 * w == k2 * ww + c2 * w) by (nonlinear_arith) requires x2 == w * k2 + c2, ww == w * w;
    assert(rh * w == ph * w + c1 * w + c2 * w - k * ww) by (nonlinear_arith)
        requires rh == ph + c1 + c2 - k * w, ww == w * w;
    assert((hh + k1 + k2 + k) * ww == hh * ww + k1 * ww + k2 * ww + k * ww) by (nonlinear_arith);
}

/// The low 128 bits of a product.
fn mul_words(a: U128Words, b: U128Words) -> (r: U128Words)
    ensures
        r.val() == (a.val() * b.val()) % modulus(),
{
    let product = mul_u64_wide(a.lo, b.lo);
    let c1: u64 = a.hi.wrapping_mul(b.lo);
    let c2: u64 = a.lo.wrapping_mul(b.hi);
    let r = U128Words { lo: product.lo, hi: product.hi.wrapping_add(c1).wrapping_add(c2) };
    proof {
        let w = word() as int;
        let x1 = (a.hi * b.lo) as int;
        let x2 = (a.lo * b.hi) as int;
        let hh = (a.hi * b.hi) as int;
        lemma_fundamental_div_mod(x1, w);
        lemma_fundamental_div_mod(x2, w);
        let s = product.hi + c1 + c2;
        let k = if s >= 2 * w {
            2int
        } else if s >= w {
            1
        } else {
            0
        };
        assert(r.hi == s - k * w);
        let j = hh + x1 / w + x2 / w + k;
        lemma_word_product(
            w,
            a.hi as int,
            a.lo as int,
            b.hi as int,
            b.lo as int,
            product.hi as int,
            product.lo as int,
            x1 / w,
            c1 as int,
            x2 / w,
            c2 as int,
            k,
            r.hi as int,
        );
        lemma_fundamental_div_mod_converse(
            (a.val() * b.val()) as int,
            modulus() as int,
            j,
            r.val() as int,
        );
    }
    r
}

/// Quotient and remainder by shift and subtract, one bit at a time.
fn udivmod_words(numerator: U128Words, divisor: U128Words) -> (r: (U128Words, U128Words))
    requires
        divisor.val() != 0,
    ensures
        r.0.val() == numerator.val() / divisor.val(),
        r.1.val() == numerator.val() % divisor.val(),
{
    let ghost n = numerator.val();
    let ghost d = divisor.val();
    if numerator.less_than(divisor) {
        proof {
            lemma_basic_div(n as int, d as int);
            lemma_small_mod(n, d);
        }
        return (U128Words::zero(), numerator);
    }
    let mut quotient = U128Words::zero();
    let mut remainder = U128Words::zero();
    let mut bit: u32 = 128;
    proof {
        lemma2_to64();
        lemma2_to64_rest();
        lemma_pow2_adds(64, 64);
        lemma_basic_div(n as int, pow2(128) as int);
        lemma_basic_div(0, d as int);
        lemma_small_mod(0, d);
        assert(0 * pow2(128) == 0) by (nonlinear_arith);
    }
    while bit != 0
        invariant
            bit <= 128,
            n == numerator.val(),
            n < modulus(),
            d == divisor.val(),
            d > 0,
            remainder.val() == (n / pow2(bit as nat)) % d,
            quotient.val() == (n / pow2(bit as nat)) / d * pow2(bit as nat),
        decreases bit,
    {
        let ghost w0 = pow2(bit as nat);
        let ghost x = (n / w0) as int;
        let ghost q = x / d as int;
        let ghost rm = x % d as int;
        bit = bit - 1;
        let ghost w = pow2(bit as nat);
        let ghost y = (n / w) as int;
        let ghost b = y % 2;
        proof {
            lemma_pow2_pos(bit as nat);
            lemma_pow2_unfold(bit as nat + 1);
            // y = 2 x + b
            lemma_div_denominator(n as int, w as int, 2);
            assert(w * 2 == w0);
            assert(y == 2 * x + b);
            lemma_fundamental_div_mod(x, d as int);
            lemma_mod_bound(x, d as int);
            lemma_mod_decreases(x as nat, d);
            // the remainder still has a free top bit
            lemma_div_nonincreasing(n as int, w as int);
            assert(y <= n);
        }
        remainder = remainder.shl1();
        let next: u64 = numerator.bit(bit);
        proof {
            let l = remainder.lo;
            assert(next == 0 || next == 1);
            assert(l % 2 == 0 ==> (l | 0) == l && (l | 1) == l + 1) by (bit_vector);
        }
        remainder.lo = remainder.lo | next;
        proof {
            assert(remainder.val() == 2 * rm + b);
            assert(2 * q * w == q * w0) by (nonlinear_arith) requires w0 == 2 * w;
            assert((2 * q + 1) * w == q * w0 + w) by (nonlinear_arith) requires w0 == 2 * w;
            // bit `bit` of the quotient is clear
            assert(w * (2 * q) == q * w0) by (nonlinear_arith) requires w0 == 2 * w;
            lemma_div_multiples_vanish(2 * q, w as int);
            assert(y == d * (2 * q) + (2 * rm + b)) by (nonlinear_arith)
                requires y == 2 * x + b, x == d * q + rm;
            assert(d * (2 * q) == (2 * q) * d) by (nonlinear_arith);
            assert((2 * q + 1) * d == (2 * q) * d + d) by (nonlinear_arith);
        }
        if !remainder.less_than(divisor) {
            remainder = remainder.wrapping_sub(divisor);
            quotient.set_bit(bit);
            proof {
                lemma_fundamental_div_mod_converse(y, d as int, 2 * q + 1, 2 * rm + b - d);
            }
        } else {
            proof {
                lemma_fundamental_div_mod_converse(y, d as int, 2 * q, 2 * rm + b);
            }
        }
    }
    proof {
        lemma_div_basics(n as int);
        lemma2_to64();
    }
    (quotient, remainder)
}

/// The magnitude of a signed number.
fn abs_i128_words(value: i128) -> (r: U128Words)
    ensures
        r.val() == abs(value as int),
{
    let bits = i128_to_words(value);
    proof {
        if value < 0 {
            lemma_fundamental_div_mod_converse(
                value as int,
                modulus() as int,
                -1,
                value + modulus(),
            );
            lemma_small_mod((-(value as int)) as nat, modulus());
        } else {
            lemma_small_mod(value as nat, modulus());
        }
    }
    if value < 0 {
        bits.wrapping_neg()
    } else {
        bits
    }
}

/// Gives a magnitude a sign, modulo 2^128.
fn with_sign(magnitude: U128Words, neg: bool) -> (r: i128)
    ensures
        r == wrap_i128(
            if neg {
                -(magnitude.val() as int)
            } else {
                magnitude.val() as int
            },
        ),
{
    proof {
        lemma_neg_mod(magnitude.val());
    }
    words_to_i128(
        if neg {
            magnitude.wrapping_neg()
        } else {
            magnitude
        },
    )
}

proof fn lemma_neg_mod(x: nat)
    requires
        x < modulus(),
    ensures
        ((modulus() - x) as nat % modulus()) as int % modulus() as int == (-(x as int))
            % modulus() as int,
{
    let m = modulus() as int;
    if x == 0 {
        lemma_mod_self_0(m);
    } else {
        lemma_small_mod((m - x) as nat, modulus());
        lemma_fundamental_div_mod_converse(-(x as int), m, -1, m - x);
    }
}

/// The wrapped product, and whether the exact one does not fit.
fn signed_mul_overflow(a: i128, b: i128) -> (r: (i128, bool))
    ensures
        r.0 == wrap_i128(a * b),
        r.1 == !(i128::MIN <= a * b <= i128::MAX),
{
    let neg: bool = (a < 0) != (b < 0);
    let a_abs = abs_i128_words(a);
    let b_abs = abs_i128_words(b);
    let product = mul_words(a_abs, b_abs);
    let ghost x = a_abs.val();
    let ghost y = b_abs.val();
    let ghost xy = x * y;
    let ghost m = modulus() as int;
    proof {
        assert(a * b == if neg { -(xy as int) } else { xy as int }) by {
            assert((-(a as int)) * (b as int) == -(a * b)) by (nonlinear_arith);
            assert((a as int) * (-(b as int)) == -(a * b)) by (nonlinear_arith);
            assert((-(a as int)) * (-(b as int)) == a * b) by (nonlinear_arith);
            if a == 0 {
                assert(0 * (b as int) == 0 && 0 * y == 0) by (nonlinear_arith);
            }
            if b == 0 {
                assert((a as int) * 0 == 0 && x * 0 == 0) by (nonlinear_arith);
            }
        }
    }
    let overflow: bool = if a_abs.is_zero() || b_abs.is_zero() {
        proof {
            assert(xy == 0) by (nonlinear_arith) requires xy == x * y, x == 0 || y == 0;
        }
        false
    } else {
        let limit: U128Words = if neg {
            U128Words { lo: 0, hi: 0x8000_0000_0000_0000 }
        } else {
            U128Words { lo: 0xffff_ffff_ffff_ffff, hi: 0x7fff_ffff_ffff_ffff }
        };
        let (max_factor, rest) = udivmod_words(limit, a_abs);
        proof {
            let l = limit.val() as int;
            let f = max_factor.val() as int;
            lemma_fundamental_div_mod(l, x as int);
            lemma_mod_bound(l, x as int);
            assert((y <= f) == (xy <= l)) by {
                if y <= f {
                    assert(x * y <= x * f) by (nonlinear_arith) requires y <= f, x > 0;
                } else {
                    assert(x * y >= x * (f + 1)) by (nonlinear_arith) requires y >= f + 1, x > 0;
                    assert(x * (f + 1) == x * f + x) by (nonlinear_arith);
                }
            }
        }
        max_factor.less_than(b_abs)
    };
    let signed: i128 = with_sign(product, neg);
    proof {
        let p = xy as int % m;
        if neg {
            lemma_sub_mod_noop(0, xy as int, m);
            lemma_sub_mod_noop(0, p, m);
            lemma_mod_twice(xy as int, m);
        } else {
            lemma_mod_twice(xy as int, m);
        }
    }
    (signed, overflow)
}

/// `a << b`; the result is 0 for a distance of 128 or more.
pub fn __ashlti3(a: u128, b: u32) -> (r: u128)
    ensures
        b < 128 ==> r == (a * pow2(b as nat)) % modulus() as int,
        b >= 128 ==> r == 0,
{
    words_to_u128(shl_words(u128_to_words(a), b))
}

/// `a >> b` for unsigned numbers.
pub fn __lshrti3(a: u128, b: u32) -> (r: u128)
    ensures
        r == a as int / pow2(b as nat) as int,
{
    words_to_u128(lshr_words(u128_to_words(a), b))
}

/// `a >> b` for signed numbers, rounding toward negative infinity.
pub fn __ashrti3(a: i128, b: u32) -> (r: i128)
    ensures
        r == a as int / pow2(b as nat) as int,
{
    let w = i128_to_words(a);
    proof {
        lemma_mod_twice(a as int, modulus() as int);
        lemma_wrap_identity(a as int);
    }
    words_to_i128(ashr_words(w, b))
}

/// A number in the range of `i128` is its own wrapping.
pub proof fn lemma_wrap_identity(x: int)
    requires
        i128::MIN <= x <= i128::MAX,
    ensures
        wrap_i128(x) == x,
{
    if x < 0 {
        lemma_fundamental_div_mod_converse(x, modulus() as int, -1, x + modulus());
    } else {
        lemma_small_mod(x as nat, modulus());
    }
}

/// The product modulo 2^128.
pub fn __multi3(a: i128, b: i128) -> (r: i128)
    ensures
        r == wrap_i128(a * b),
{
    let x = i128_to_words(a);
    let y = i128_to_words(b);
    proof {
        let m = modulus() as int;
        lemma_mul_mod_noop(a as int, b as int, m);
        lemma_mod_twice((x.val() * y.val()) as int, m);
    }
    words_to_i128(mul_words(x, y))
}

/// The product modulo 2^128; `overflow` tells whether the exact product does
/// not fit.
pub fn __muloti4(a: i128, b: i128, overflow: &mut i32) -> (r: i128)
    ensures
        r == wrap_i128(a * b),
        *final(overflow) == if i128::MIN <= a * b <= i128::MAX {
            0i32
        } else {
            1
        },
{
    let (result, did_overflow) = signed_mul_overflow(a, b);
    *overflow = if did_overflow {
        1
    } else {
        0
    };
    result
}

/// Unsigned division; the remainder goes to `rem` if there is a place for it.
pub fn __udivmodti4(n: u128, d: u128, rem: Option<&mut u128>) -> (r: u128)
    requires
        d != 0,
    ensures
        r == n / d,
        rem matches Some(p) ==> *final(p) == n % d,
{
    let (quotient, remainder) = udivmod_words(u128_to_words(n), u128_to_words(d));
    match rem {
        Some(p) => {
            *p = words_to_u128(remainder);
        },
        None => {},
    }
    words_to_u128(quotient)
}

/// Unsigned quotient.
pub fn __udivti3(n: u128, d: u128) -> (r: u128)
    requires
        d != 0,
    ensures
        r == n / d,
{
    __udivmodti4(n, d, None)
}

/// Unsigned remainder.
pub fn __umodti3(n: u128, d: u128) -> (r: u128)
    requires
        d != 0,
    ensures
        r == n % d,
{
    let mut rem: u128 = 0;
    let _ = __udivmodti4(n, d, Some(&mut rem));
    rem
}

/// Signed division truncating toward zero; the remainder, with the sign of the
/// dividend, goes to `rem` if there is a place for it.
pub fn __divmodti4(a: i128, b: i128, rem: Option<&mut i128>) -> (r: i128)
    requires
        b != 0,
    ensures
        r == wrap_i128(truncated_quotient(a as int, b as int)),
        rem matches Some(p) ==> *final(p) == truncated_remainder(a as int, b as int),
{
    let (quotient, remainder) = udivmod_words(abs_i128_words(a), abs_i128_words(b));
    proof {
        lemma_truncated_remainder_range(a, b);
    }
    match rem {
        Some(p) => {
            *p = with_sign(remainder, a < 0);
        },
        None => {},
    }
    with_sign(quotient, (a < 0) != (b < 0))
}

proof fn lemma_truncated_remainder_range(a: i128, b: i128)
    requires
        b != 0,
    ensures
        wrap_i128(truncated_remainder(a as int, b as int)) == truncated_remainder(
            a as int,
            b as int,
        ),
{
    lemma_mod_bound(abs(a as int), abs(b as int));
    lemma_wrap_identity(truncated_remainder(a as int, b as int));
}

/// Signed quotient, truncating toward zero.
pub fn __divti3(a: i128, b: i128) -> (r: i128)
    requires
        b != 0,
    ensures
        r == wrap_i128(truncated_quotient(a as int, b as int)),
{
    let quotient: u128 = __udivti3(
        words_to_u128(abs_i128_words(a)),
        words_to_u128(abs_i128_words(b)),
    );
    with_sign(u128_to_words(quotient), (a < 0) != (b < 0))
}

/// Signed remainder, with the sign of the dividend.
pub fn __modti3(a: i128, b: i128) -> (r: i128)
    requires
        b != 0,
    ensures
        r == truncated_remainder(a as int, b as int),
{
    let remainder: u128 = __umodti3(
        words_to_u128(abs_i128_words(a)),
        words_to_u128(abs_i128_words(b)),
    );
    proof {
        lemma_truncated_remainder_range(a, b);
    }
    with_sign(u128_to_words(remainder), a < 0)
}

/// Signed division law: the quotient times the divisor, plus the remainder, is
/// the dividend, and the quotient wraps for one pair of operands only.
pub proof fn lemma_signed_division(a: i128, b: i128)
    requires
        b != 0,
    ensures
        a == truncated_quotient(a as int, b as int) * b + truncated_remainder(a as int, b as int),
        abs(truncated_remainder(a as int, b as int)) < abs(b as int),
        !(a == i128::MIN && b == -1) ==> wrap_i128(truncated_quotient(a as int, b as int))
            == truncated_quotient(a as int, b as int),
{
    let x = abs(a as int);
    let y = abs(b as int);
    let q = x / y;
    lemma_fundamental_div_mod(x, y);
    lemma_mod_bound(x, y);
    lemma_div_pos_is_pos(x, y);
    lemma_div_nonincreasing(x, y);
    assert((-q) * (-y) == y * q && q * y == y * q && (-q) * y == -(y * q) && q * (-y) == -(y * q))
        by (nonlinear_arith);
    if y >= 2 {
        assert(2 * q <= y * q) by (nonlinear_arith) requires y >= 2, q >= 0;
    } else {
        assert(1 * q == q);
    }
    if !(a == i128::MIN && b == -1) {
        lemma_wrap_identity(truncated_quotient(a as int, b as int));
    }
}

/// What a wrapped number is: in the range of `i128`, and apart from the number by a
/// multiple of 2^128.
pub proof fn lemma_wrapped(x: int)
    ensures
        i128::MIN <= wrap_i128(x) <= i128::MAX,
        (wrap_i128(x) - x) % (u128::MAX + 1) == 0,
{
    let m = modulus() as int;
    assert(m == u128::MAX + 1);
    lemma_fundamental_div_mod(x, m);
    lemma_mod_bound(x, m);
}

/// The remainder has the sign of the dividend, and the quotient rounds toward zero.
pub proof fn lemma_division_truncates(a: i128, b: i128)
    requires
        b != 0,
    ensures
        ({
            let q = truncated_quotient(a as int, b as int);
            let r = truncated_remainder(a as int, b as int);
            &&& a >= 0 ==> r >= 0
            &&& a <= 0 ==> r <= 0
            &&& abs(q * b) <= abs(a as int)
            &&& q == 0 <==> abs(a as int) < abs(b as int)
            &&& q > 0 ==> (a < 0) == (b < 0)
            &&& q < 0 ==> (a < 0) != (b < 0)
        }),
{
    let x = abs(a as int);
    let y = abs(b as int);
    lemma_signed_division(a, b);
    lemma_mod_bound(x, y);
    lemma_div_pos_is_pos(x, y);
    lemma_fundamental_div_mod(x, y);
    let q = x / y;
    let r = x % y;
    assert(y * q >= 0) by (nonlinear_arith) requires y > 0, q >= 0;
    if x < y {
        lemma_basic_div(x, y);
    } else {
        assert(q > 0) by (nonlinear_arith) requires x == y * q + r, r < y, x >= y, y > 0;
    }
}

} // verus!
