use trona::builtins::int128::{
    __ashlti3, __ashrti3, __divmodti4, __divti3, __lshrti3, __modti3, __muloti4, __multi3,
    __udivmodti4, __udivti3, __umodti3,
};
use trona::builtins::mem::{bcmp, memcmp, memcpy, memmove, memset, strlen};
use trona::builtins::soft_float::{
    __adddf3, __addsf3, __divdf3, __divsf3, __eqdf2, __eqsf2, __eqtf2, __extendsfdf2, __fixdfdi,
    __fixdfsi, __fixunsdfdi, __fixunsdfsi, __floatdidf, __floatsidf, __floatundidf, __floatunsidf,
    __gedf2, __gesf2, __getf2, __gtdf2, __gtsf2, __gttf2, __ledf2, __lesf2, __letf2, __ltdf2,
    __ltsf2, __lttf2, __muldf3, __mulsf3, __nedf2, __negdf2, __nesf2, __netf2, __subdf3, __subsf3,
    __truncdfsf2, __trunctfdf2, __unorddf2, __unordsf2, __unordtf2,
};

/// Deterministic bit patterns, dense around the interesting exponents.
fn patterns(n: usize) -> Vec<u64> {
    let mut out: Vec<u64> = vec![
        0,
        1,
        2,
        0x000F_FFFF_FFFF_FFFF,
        0x0010_0000_0000_0000,
        0x0010_0000_0000_0001,
        0x3FF0_0000_0000_0000,
        0x3FF0_0000_0000_0001,
        0x3FEF_FFFF_FFFF_FFFF,
        0x4340_0000_0000_0000,
        0x7FEF_FFFF_FFFF_FFFF,
        0x7FF0_0000_0000_0000,
        0x7FF0_0000_0000_0001,
        0x7FF8_0000_0000_0000,
        0x1FF0_0000_0000_0001,
        0x2000_0000_0000_0003,
    ];
    let mut x: u64 = 0x9E37_79B9_7F4A_7C15;
    let mut i = 0;
    while i < n {
        x ^= x << 13;
        x ^= x >> 7;
        x ^= x << 17;
        out.push(x);
        out.push((x & 0x800F_FFFF_FFFF_FFFF) | (0x3FE + (x >> 52) % 4) << 52);
        out.push(x & 0x801F_FFFF_FFFF_FFFF);
        out.push((x & 0x800F_FFFF_FFFF_FFFF) | (0x1E0 + (x >> 52) % 0x40) << 52);
        out.push((x & 0xFFFF_FFF0_0000_0000) | (i as u64 & 7));
        i += 1;
    }
    let with_signs: Vec<u64> = out.iter().map(|v| v ^ 0x8000_0000_0000_0000).collect();
    out.extend(with_signs);
    out
}

fn same64(got: u64, want: f64, a: u64, b: u64, op: &str) {
    if want.is_nan() {
        assert!(f64::from_bits(got).is_nan(), "{op} {a:x} {b:x}");
    } else {
        assert_eq!(got, want.to_bits(), "{op} {a:x} {b:x}");
    }
}

fn same32(got: u32, want: f32, a: u32, b: u32, op: &str) {
    if want.is_nan() {
        assert!(f32::from_bits(got).is_nan(), "{op} {a:x} {b:x}");
    } else {
        assert_eq!(got, want.to_bits(), "{op} {a:x} {b:x}");
    }
}

#[test]
fn double_arithmetic_is_correctly_rounded() {
    let p = patterns(24);
    for &a in &p {
        for &b in &p {
            let (x, y) = (f64::from_bits(a), f64::from_bits(b));
            same64(__adddf3(a, b), x + y, a, b, "+");
            same64(__subdf3(a, b), x - y, a, b, "-");
            same64(__muldf3(a, b), x * y, a, b, "*");
            same64(__divdf3(a, b), x / y, a, b, "/");
        }
    }
}

#[test]
fn nan_operands_come_back_quiet() {
    let s = 0x7FF0_0000_0000_0001u64;
    let one = 0x3FF0_0000_0000_0000u64;
    assert_eq!(__adddf3(s, one), 0x7FF8_0000_0000_0001);
    assert_eq!(__muldf3(one, s), 0x7FF8_0000_0000_0001);
    assert_eq!(__divdf3(s, one), 0x7FF8_0000_0000_0001);
    assert_eq!(__subdf3(one, s), 0xFFF8_0000_0000_0001);
    let inf = 0x7FF0_0000_0000_0000u64;
    assert_eq!(__subdf3(inf, inf), 0x7FF8_0000_0000_0000);
    assert_eq!(__muldf3(inf, 0), 0x7FF8_0000_0000_0000);
    assert_eq!(__divdf3(0, 0), 0x7FF8_0000_0000_0000);
    assert_eq!(__divdf3(one, 0), inf);
}

#[test]
fn subnormal_results_round_once() {
    // 3 * 2^-1074 / 2 is halfway between two subnormals; the even one wins
    assert_eq!(__divdf3(3, 0x4000_0000_0000_0000), 2);
    assert_eq!(__muldf3(3, 0x3FE0_0000_0000_0000), 2);
    assert_eq!(__divdf3(1, 0x4000_0000_0000_0000), 0);
    // an inexact quotient below the halfway point is not rounded up
    assert_eq!(
        __divdf3(1.0f64.to_bits(), 3.0f64.to_bits()),
        (1.0f64 / 3.0).to_bits()
    );
}

#[test]
fn single_arithmetic_matches() {
    let p: Vec<u32> = patterns(20).iter().map(|v| (v >> 20) as u32 ^ *v as u32).collect();
    let edge = [0u32, 1, 2, 0x0040_0000, 0x007F_FFFF, 0x0080_0000, 0x7F7F_FFFF, 0x7F80_0000, 0x7FC0_0000];
    for &a in p.iter().chain(edge.iter()) {
        for &b in p.iter().chain(edge.iter()) {
            let (x, y) = (f32::from_bits(a), f32::from_bits(b));
            same32(__addsf3(a, b), x + y, a, b, "+");
            same32(__subsf3(a, b), x - y, a, b, "-");
            same32(__mulsf3(a, b), x * y, a, b, "*");
            same32(__divsf3(a, b), x / y, a, b, "/");
        }
    }
}

#[test]
fn widening_keeps_subnormals_exact() {
    for a in [1u32, 2, 3, 0x0040_0000, 0x007F_FFFF, 0x0012_3456, 0x8000_0001, 0x3F80_0000] {
        assert_eq!(__extendsfdf2(a), (f32::from_bits(a) as f64).to_bits());
    }
    assert_eq!(__extendsfdf2(0x7F80_0001), 0x7FF8_0000_2000_0000);
    assert_eq!(__extendsfdf2(0xFFC0_0000), 0xFFF8_0000_0000_0000);
    assert_eq!(__extendsfdf2(0xFF80_0000), 0xFFF0_0000_0000_0000);
}

#[test]
fn narrowing_rounds_to_nearest() {
    for &a in &patterns(200) {
        let want = f64::from_bits(a) as f32;
        if want.is_nan() {
            assert_eq!(__truncdfsf2(a), 0x7FC0_0000 | ((a >> 63) as u32) << 31);
        } else {
            assert_eq!(__truncdfsf2(a), want.to_bits(), "{a:x}");
        }
    }
    for &m in &[0x3690_0000_0000_0000u64, 0x3690_0000_0000_0001, 0x36A8_0000_0000_0000] {
        assert_eq!(__truncdfsf2(m), (f64::from_bits(m) as f32).to_bits());
    }
}

#[test]
fn comparisons_follow_values() {
    let p = patterns(8);
    for &a in &p {
        for &b in &p {
            let (x, y) = (f64::from_bits(a), f64::from_bits(b));
            assert_eq!(__ltdf2(a, b) < 0, x < y);
            assert_eq!(__ledf2(a, b) <= 0, x <= y);
            assert_eq!(__gtdf2(a, b) > 0, x > y);
            assert_eq!(__gedf2(a, b) >= 0, x >= y);
            assert_eq!(__eqdf2(a, b) == 0, x == y);
            assert_eq!(__nedf2(a, b) != 0, x != y);
            assert_eq!(__unorddf2(a, b) != 0, x.is_nan() || y.is_nan());
        }
    }
    let one = 0x3F80_0000u32;
    let two = 0x4000_0000u32;
    let nan = 0x7FC0_0000u32;
    assert_eq!(__ltsf2(one, two), -1);
    assert_eq!(__lesf2(two, one), 1);
    assert_eq!(__gtsf2(two, one), 1);
    assert_eq!(__gesf2(nan, one), -1);
    assert_eq!(__eqsf2(0x8000_0000, 0), 0);
    assert_eq!(__nesf2(one, nan), 1);
    assert_eq!(__unordsf2(one, two), 0);
    assert_eq!(__unordsf2(nan, two), 1);
    let qone = 0x3FFFu128 << 112;
    let qtwo = 0x4000u128 << 112;
    let qnan = (0x7FFFu128 << 112) | 1;
    let sign = 1u128 << 127;
    assert_eq!(__lttf2(qone, qtwo), -1);
    assert_eq!(__letf2(qnan, qtwo), 1);
    assert_eq!(__gttf2(qtwo, qone), 1);
    assert_eq!(__getf2(qone | sign, qtwo | sign), 1);
    assert_eq!(__eqtf2(sign, 0), 0);
    assert_eq!(__netf2(qone, qone | sign), 1);
    assert_eq!(__unordtf2(qnan, 0), 1);
    assert_eq!(__unordtf2(qone, 0), 0);
}

#[test]
fn integer_conversions() {
    for a in [0i32, 1, -1, 7, i32::MAX, i32::MIN] {
        assert_eq!(__floatsidf(a), (a as f64).to_bits());
        assert_eq!(__fixdfsi(__floatsidf(a)), a);
        assert_eq!(__floatunsidf(a as u32), (a as u32 as f64).to_bits());
    }
    for a in [0i64, 1, -1, i64::MAX, i64::MIN, 0x0020_0000_0000_0001, -0x0020_0000_0000_0003] {
        assert_eq!(__floatdidf(a), (a as f64).to_bits());
        assert_eq!(__floatundidf(a as u64), (a as u64 as f64).to_bits());
    }
    for &a in &patterns(100) {
        let x = f64::from_bits(a);
        let finite = x.is_finite();
        assert_eq!(__fixdfsi(a), if finite { x as i32 } else { 0 });
        assert_eq!(__fixdfdi(a), if finite { x as i64 } else { 0 });
        assert_eq!(__fixunsdfsi(a), if finite { x as u32 } else { 0 });
        assert_eq!(__fixunsdfdi(a), if finite { x as u64 } else { 0 });
        assert_eq!(__negdf2(a), a ^ 0x8000_0000_0000_0000);
    }
    assert_eq!(__fixdfsi((-2.75f64).to_bits()), -2);
    assert_eq!(__fixdfsi(3e9f64.to_bits()), i32::MAX);
    assert_eq!(__fixdfdi((-1e30f64).to_bits()), i64::MIN);
    assert_eq!(__fixunsdfsi((-1.0f64).to_bits()), 0);
    assert_eq!(__fixunsdfdi(1e300f64.to_bits()), u64::MAX);
}

#[test]
fn quad_to_double() {
    let one = 0x3FFFu128 << 112;
    assert_eq!(__trunctfdf2(one), 0x3FF0_0000_0000_0000);
    assert_eq!(__trunctfdf2(one | 1u128 << 127), 0xBFF0_0000_0000_0000);
    // halfway between 1 and the next double: to even
    assert_eq!(__trunctfdf2(one | 1u128 << 59), 0x3FF0_0000_0000_0000);
    assert_eq!(__trunctfdf2(one | 1u128 << 59 | 1), 0x3FF0_0000_0000_0001);
    assert_eq!(__trunctfdf2(one | 3u128 << 59), 0x3FF0_0000_0000_0002);
    assert_eq!(__trunctfdf2(0x7FFEu128 << 112), 0x7FF0_0000_0000_0000);
    assert_eq!(__trunctfdf2(1), 0);
    assert_eq!(__trunctfdf2((0x7FFFu128 << 112) | 5), 0x7FF8_0000_0000_0000);
    // 2^-1074, 2^-1075 and a little more than 2^-1075
    assert_eq!(__trunctfdf2((16383u128 - 1074) << 112), 1);
    assert_eq!(__trunctfdf2((16383u128 - 1075) << 112), 0);
    assert_eq!(__trunctfdf2(((16383u128 - 1075) << 112) | 1), 1);
}

fn wide_values() -> Vec<u128> {
    let mut out = vec![0u128, 1, 2, 3, u64::MAX as u128, 1 << 64, u128::MAX, 1 << 127, (1 << 127) - 1];
    let mut x: u128 = 0x9E37_79B9_7F4A_7C15_F39C_C060_5CED_C835;
    for i in 0..20 {
        x = x.wrapping_mul(0x2360_ED05_1FC6_5DA4_4385_DF64_9FCC_F645).wrapping_add(11);
        out.push(x >> (i * 6));
    }
    out
}

#[test]
fn wide_integer_arithmetic() {
    for &a in &wide_values() {
        for s in [0u32, 1, 31, 63, 64, 65, 100, 127] {
            assert_eq!(__ashlti3(a, s), a << s);
            assert_eq!(__lshrti3(a, s), a >> s);
            assert_eq!(__ashrti3(a as i128, s), (a as i128) >> s);
        }
        assert_eq!(__ashlti3(a, 128), 0);
        assert_eq!(__lshrti3(a, 200), 0);
        assert_eq!(__ashrti3(a as i128, 130), if (a as i128) < 0 { -1 } else { 0 });
        for &b in &wide_values() {
            let (x, y) = (a as i128, b as i128);
            assert_eq!(__multi3(x, y), x.wrapping_mul(y));
            let mut o = 7;
            assert_eq!(__muloti4(x, y, &mut o), x.wrapping_mul(y));
            assert_eq!(o != 0, x.checked_mul(y).is_none());
            if b != 0 {
                let mut r = 0;
                assert_eq!(__udivmodti4(a, b, Some(&mut r)), a / b);
                assert_eq!(r, a % b);
                assert_eq!(__udivti3(a, b), a / b);
                assert_eq!(__umodti3(a, b), a % b);
                let mut q = 0;
                assert_eq!(__divmodti4(x, y, Some(&mut q)), x.wrapping_div(y));
                assert_eq!(q, x.wrapping_rem(y));
                assert_eq!(__divti3(x, y), x.wrapping_div(y));
                assert_eq!(__modti3(x, y), x.wrapping_rem(y));
            }
        }
    }
}

#[test]
fn memory_routines() {
    let mut d = [1u8, 2, 3, 4];
    memset(&mut d, 0x1AB, 2);
    assert_eq!(d, [0xAB, 0xAB, 3, 4]);
    memcpy(&mut d, &[9, 8, 7], 3);
    assert_eq!(d, [9, 8, 7, 4]);
    let mut b = [1u8, 2, 3, 4, 5, 6];
    memmove(&mut b, 2, 0, 4);
    assert_eq!(b, [1, 2, 1, 2, 3, 4]);
    let mut b = [1u8, 2, 3, 4, 5, 6];
    memmove(&mut b, 0, 2, 4);
    assert_eq!(b, [3, 4, 5, 6, 5, 6]);
    assert_eq!(memcmp(b"abc", b"abd", 3), -1);
    assert_eq!(memcmp(b"abc", b"abd", 2), 0);
    assert_eq!(memcmp(&[200], &[3], 1), 197);
    assert_ne!(bcmp(b"a", b"b", 1), 0);
    assert_eq!(bcmp(b"a", b"a", 1), 0);
    assert_eq!(strlen(b"hello\0x\0"), 5);
}
