//! Double-precision numbers by their bits: what a bit pattern stands for, how
//! two of them compare, and which of them an integer rounds to.

use vstd::arithmetic::div_mod::lemma_div_denominator;
use vstd::arithmetic::power2::{
    lemma2_to64, lemma2_to64_rest, lemma_pow2_adds, lemma_pow2_pos, lemma_pow2_strictly_increases, lemma_pow2_unfold,
    pow2,
};
use vstd::prelude::*;

use crate::types::order::int_order;
use crate::types::order::Order;

verus! {

/// A double-precision number, given by the 64 bits of its encoding.
#[derive(Debug, Clone, Copy, PartialEq, Eq, Structural)]
pub struct FloatBits {
    /// Sign, exponent and fraction, from the highest bit down.
    pub bits: u64,
}

/// The weight of the sign bit.
pub const SIGN: u64 = 0x8000_0000_0000_0000;

/// The weight of the lowest exponent bit, two to the 52.
pub const EXPONENT_UNIT: u64 = 0x10_0000_0000_0000;

/// Two to the 53: integers below it have an exact double.
pub const EXACT_LIMIT: u64 = 0x20_0000_0000_0000;

/// The bits of positive infinity.
pub const INFINITY: u64 = 0x7ff0_0000_0000_0000;

/// The bits without the sign.
pub open spec fn magnitude(bits: u64) -> int {
    bits as int % SIGN as int
}

/// Whether the bits stand for no number.
pub open spec fn is_nan(bits: u64) -> bool {
    magnitude(bits) > INFINITY
}

/// The absolute value that a magnitude stands for, in units of two to the
/// minus 1074, the smallest positive double. Infinity comes out as the power of
/// two after the largest finite value.
pub open spec fn scaled_magnitude(m: int) -> int {
    let exponent = m / EXPONENT_UNIT as int;
    let fraction = m % EXPONENT_UNIT as int;
    if exponent == 0 {
        fraction
    } else {
        (EXPONENT_UNIT + fraction) * pow2((exponent - 1) as nat)
    }
}

/// The value that the bits stand for, in units of two to the minus 1074.
pub open spec fn scaled(bits: u64) -> int {
    if bits >= SIGN {
        -scaled_magnitude(magnitude(bits))
    } else {
        scaled_magnitude(magnitude(bits))
    }
}

/// How two doubles compare. A pattern that is no number compares with nothing.
pub open spec fn float_order(a: u64, b: u64) -> Option<Order> {
    if is_nan(a) || is_nan(b) {
        None
    } else {
        Some(int_order(scaled(a), scaled(b)))
    }
}

/// `n / d` rounded to an integer, halves to the even one.
pub open spec fn half_even(n: int, d: int) -> int {
    let q = n / d;
    let r = n % d;
    if 2 * r > d || (2 * r == d && q % 2 == 1) {
        q + 1
    } else {
        q
    }
}

/// How many low bits of `n` are beyond the 53 that a double holds.
pub open spec fn excess_bits(n: nat) -> nat
    decreases n,
{
    if n < EXACT_LIMIT {
        0
    } else {
        1 + excess_bits(n / 2)
    }
}

/// `n` rounded to 53 significant bits, halves to even.
pub open spec fn rounded(n: nat) -> int {
    half_even(n as int, pow2(excess_bits(n)) as int) * pow2(excess_bits(n))
}

/// A signed integer rounded to 53 significant bits, halves to even.
pub open spec fn rounded_int(n: int) -> int {
    if n < 0 {
        -rounded((-n) as nat)
    } else {
        rounded(n as nat)
    }
}

/// Integers up to two to the 53 are doubles exactly.
pub proof fn law_small_integers_are_exact(n: int)
    requires
        -EXACT_LIMIT <= n <= EXACT_LIMIT,
    ensures
        rounded_int(n) == n,
{
    let m: nat = if n < 0 {
        (-n) as nat
    } else {
        n as nat
    };
    lemma2_to64();
    reveal_with_fuel(excess_bits, 2);
    if m < EXACT_LIMIT {
        assert(excess_bits(m) == 0);
    } else {
        assert(excess_bits(m) == 1);
    }
}

/// The bits beyond 53 are those that have to go, and no more.
proof fn lemma_excess_bits(n: nat)
    ensures
        (n as int / (pow2(excess_bits(n)) as int)) < EXACT_LIMIT,
        excess_bits(n) > 0 ==> 2 * (n as int / (pow2(excess_bits(n)) as int)) >= EXACT_LIMIT,
    decreases n,
{
    lemma2_to64();
    if n >= EXACT_LIMIT {
        let k = excess_bits(n / 2);
        lemma_excess_bits(n / 2);
        lemma_pow2_unfold(k + 1);
        lemma_pow2_pos(k);
        lemma_div_denominator(n as int, 2, pow2(k) as int);
    }
}

/// A larger number has at least as many bits beyond 53.
proof fn lemma_excess_bits_monotone(a: nat, b: nat)
    requires
        a <= b,
    ensures
        excess_bits(a) <= excess_bits(b),
    decreases a,
{
    if a >= EXACT_LIMIT {
        lemma_excess_bits_monotone(a / 2, b / 2);
    }
}

proof fn lemma_half_even_bounds(n: int, d: int)
    requires
        0 <= n,
        0 < d,
    ensures
        0 <= n / d <= half_even(n, d) <= n / d + 1,
{
    vstd::arithmetic::div_mod::lemma_div_pos_is_pos(n, d);
}

proof fn lemma_half_even_monotone(m: int, n: int, d: int)
    requires
        0 <= m <= n,
        0 < d,
    ensures
        half_even(m, d) <= half_even(n, d),
{
    vstd::arithmetic::div_mod::lemma_div_is_ordered(m, n, d);
    vstd::arithmetic::div_mod::lemma_fundamental_div_mod(m, d);
    vstd::arithmetic::div_mod::lemma_fundamental_div_mod(n, d);
    lemma_half_even_bounds(m, d);
    lemma_half_even_bounds(n, d);
    if m / d == n / d {
        assert(m % d <= n % d);
    }
}

proof fn lemma_rounded_monotone(a: nat, b: nat)
    requires
        a <= b,
    ensures
        0 <= rounded(a) <= rounded(b),
{
    let k = excess_bits(a);
    let j = excess_bits(b);
    let p = pow2(k) as int;
    let q = pow2(j) as int;
    let x = half_even(a as int, p);
    let y = half_even(b as int, q);
    lemma_pow2_pos(k);
    lemma_pow2_pos(j);
    lemma_excess_bits(a);
    lemma_excess_bits(b);
    lemma_excess_bits_monotone(a, b);
    lemma_half_even_bounds(a as int, p);
    lemma_half_even_bounds(b as int, q);
    assert(x * p >= 0) by (nonlinear_arith)
        requires
            x >= 0,
            p > 0,
    ;
    if k == j {
        lemma_half_even_monotone(a as int, b as int, p);
        assert(x * p <= y * p) by (nonlinear_arith)
            requires
                x <= y,
                p > 0,
        ;
    } else {
        let d = pow2((j - k - 1) as nat) as int;
        lemma_pow2_pos((j - k - 1) as nat);
        lemma_pow2_adds((j - k - 1) as nat, (k + 1) as nat);
        lemma_pow2_unfold((k + 1) as nat);
        assert(x * p <= y * q) by (nonlinear_arith)
            requires
                x <= EXACT_LIMIT,
                2 * y >= EXACT_LIMIT,
                q == d * (2 * p),
                d >= 1,
                p > 0,
        ;
    }
}

/// What bits stand for: among positive doubles more means larger, the highest bit is
/// the sign, one more in the exponent doubles a value, and one is one.
pub proof fn law_bits_of_doubles(x: u64, y: u64)
    ensures
        x < y <= 0x7ff0_0000_0000_0000 ==> scaled(x) < scaled(y),
        x < 0x8000_0000_0000_0000 && y == x + 0x8000_0000_0000_0000 ==> scaled(y) == -scaled(x)
            && is_nan(x) == is_nan(y),
        0x10_0000_0000_0000 <= x && x + 0x10_0000_0000_0000 < 0x7ff0_0000_0000_0000 && y == x
            + 0x10_0000_0000_0000 ==> scaled(y) == 2 * scaled(x),
        scaled(0) == 0,
        scaled(0x3ff0_0000_0000_0000) == pow2(1074),
        x <= 0x7ff0_0000_0000_0000 ==> !is_nan(x),
        0x7ff0_0000_0000_0000 < x < 0x8000_0000_0000_0000 ==> is_nan(x),
{
    if x < y <= 0x7ff0_0000_0000_0000 {
        lemma_scaled_monotone(x as int, y as int);
    }
    if 0x10_0000_0000_0000 <= x && x + 0x10_0000_0000_0000 < 0x7ff0_0000_0000_0000 && y == x
        + 0x10_0000_0000_0000 {
        let e = x as int / EXPONENT_UNIT as int;
        let f = x as int % EXPONENT_UNIT as int;
        assert(y as int / EXPONENT_UNIT as int == e + 1);
        assert(y as int % EXPONENT_UNIT as int == f);
        lemma_pow2_unfold(e as nat);
        let p = pow2((e - 1) as nat) as int;
        assert((EXPONENT_UNIT + f) * (2 * p) == 2 * ((EXPONENT_UNIT + f) * p)) by (nonlinear_arith);
    }
    assert(0x3ff0_0000_0000_0000int / EXPONENT_UNIT as int == 1023);
    assert(0x3ff0_0000_0000_0000int % EXPONENT_UNIT as int == 0);
    lemma_pow2_adds(52, 1022);
    lemma2_to64_rest();
}

/// Rounding is to the nearest: what is cut off is at most half of the last place.
pub proof fn law_rounding_is_near(n: nat)
    ensures
        2 * (n - rounded(n)) <= pow2(excess_bits(n)),
        2 * (rounded(n) - n) <= pow2(excess_bits(n)),
        rounded(n) % (pow2(excess_bits(n)) as int) == 0,
{
    let d = pow2(excess_bits(n)) as int;
    lemma_pow2_pos(excess_bits(n));
    vstd::arithmetic::div_mod::lemma_fundamental_div_mod(n as int, d);
    let q = n as int / d;
    let h = half_even(n as int, d);
    vstd::arithmetic::div_mod::lemma_mod_multiples_basic(h, d);
    assert((q + 1) * d == q * d + d) by (nonlinear_arith);
    assert(d * q == q * d) by (nonlinear_arith);
}

/// Rounding keeps the order: a larger integer is not rounded to a smaller one.
pub proof fn law_rounding_is_monotone(a: int, b: int)
    requires
        a <= b,
    ensures
        rounded_int(a) <= rounded_int(b),
{
    if b < 0 {
        lemma_rounded_monotone((-b) as nat, (-a) as nat);
    } else if a < 0 {
        lemma_rounded_monotone(0, (-a) as nat);
        lemma_rounded_monotone(0, b as nat);
    } else {
        lemma_rounded_monotone(a as nat, b as nat);
    }
}

/// A larger magnitude stands for a larger value.
proof fn lemma_scaled_monotone(a: int, b: int)
    requires
        0 <= a < b,
    ensures
        0 <= scaled_magnitude(a) < scaled_magnitude(b),
{
    let u = EXPONENT_UNIT as int;
    let ea = a / u;
    let eb = b / u;
    let fa = a % u;
    let fb = b % u;
    assert(ea <= eb);
    if ea > 0 {
        lemma_pow2_pos((ea - 1) as nat);
        let p = pow2((ea - 1) as nat) as int;
        assert(scaled_magnitude(a) == (u + fa) * p);
        assert((u + fa) * p >= 0) by (nonlinear_arith)
            requires
                u + fa >= 0,
                p >= 0,
        ;
    }
    if ea == eb {
        if ea > 0 {
            let p = pow2((ea - 1) as nat) as int;
            lemma_pow2_pos((ea - 1) as nat);
            assert((u + fa) * p < (u + fb) * p) by (nonlinear_arith)
                requires
                    fa < fb,
                    p > 0,
            ;
        }
    } else {
        let q = pow2((eb - 1) as nat) as int;
        lemma_pow2_pos((eb - 1) as nat);
        assert(scaled_magnitude(b) == (u + fb) * q);
        if ea == 0 {
            assert((u + fb) * q >= u) by (nonlinear_arith)
                requires
                    u + fb >= u,
                    u > 0,
                    q >= 1,
            ;
        } else {
            let p = pow2((ea - 1) as nat) as int;
            lemma_pow2_pos((ea - 1) as nat);
            lemma_pow2_unfold(ea as nat);
            if ea < eb - 1 {
                lemma_pow2_strictly_increases(ea as nat, (eb - 1) as nat);
            }
            assert(q >= 2 * p);
            assert((u + fa) * p < (u + fb) * q) by (nonlinear_arith)
                requires
                    0 <= fa < u,
                    0 <= fb,
                    q >= 2 * p,
                    p > 0,
            ;
        }
    }
}

/// Compares two doubles.
pub fn compare_floats(a: FloatBits, b: FloatBits) -> (r: Option<Order>)
    ensures
        r == float_order(a.bits, b.bits),
{
    let ma: u64 = a.bits % SIGN;
    let mb: u64 = b.bits % SIGN;
    if ma > INFINITY || mb > INFINITY {
        return None;
    }
    proof {
        if ma < mb {
            lemma_scaled_monotone(ma as int, mb as int);
        }
        if mb < ma {
            lemma_scaled_monotone(mb as int, ma as int);
        }
        assert(scaled_magnitude(0) == 0);
        if ma > 0 {
            lemma_scaled_monotone(0, ma as int);
        }
        if mb > 0 {
            lemma_scaled_monotone(0, mb as int);
        }
    }
    let na: bool = a.bits >= SIGN;
    let nb: bool = b.bits >= SIGN;
    if na != nb {
        if ma == 0 && mb == 0 {
            return Some(Order::Equal);
        }
        return Some(
            if na {
                Order::Less
            } else {
                Order::Greater
            },
        );
    }
    if ma == mb {
        Some(Order::Equal)
    } else if (ma < mb) != na {
        Some(Order::Less)
    } else {
        Some(Order::Greater)
    }
}

/// Rounds to 53 significant bits: the rounded digits and how many zero bits
/// follow them.
pub fn round_to_double(n: u64) -> (r: (u64, u32))
    ensures
        r.0 * pow2(r.1 as nat) == rounded(n as nat),
        r.1 == excess_bits(n as nat),
        r.0 <= EXACT_LIMIT,
        r.1 <= 11,
        r.1 == 0 ==> r.0 == n && n < EXACT_LIMIT,
        r.1 > 0 ==> r.0 >= EXPONENT_UNIT,
{
    let mut k: u32 = 0;
    let mut unit: u64 = 1;
    let mut cur: u64 = n;
    proof {
        lemma2_to64();
    }
    while cur >= EXACT_LIMIT
        invariant
            unit == pow2(k as nat),
            cur == n as int / unit as int,
            unit >= 1,
            k <= 11,
            unit <= 2048,
            excess_bits(n as nat) == k + excess_bits(cur as nat),
            k > 0 ==> cur >= EXPONENT_UNIT,
        decreases cur,
    {
        proof {
            lemma_pow2_unfold((k + 1) as nat);
            lemma_div_denominator(n as int, unit as int, 2);
            assert(excess_bits(cur as nat) == 1 + excess_bits((cur / 2) as nat));
            assert(unit < 2048) by (nonlinear_arith)
                requires
                    cur == n as int / unit as int,
                    cur >= 0x20_0000_0000_0000u64,
                    n <= 0xffff_ffff_ffff_ffffu64,
                    unit <= 2048,
                    unit >= 1,
            ;
            lemma2_to64();
            if k == 11 {
                assert(pow2(11) == 2048);
            }
        }
        unit = unit * 2;
        cur = cur / 2;
        k = k + 1;
    }
    let rest: u64 = n % unit;
    let up: bool = 2 * rest > unit || (2 * rest == unit && cur % 2 == 1);
    let digits: u64 = if up {
        cur + 1
    } else {
        cur
    };
    proof {
        assert(excess_bits(cur as nat) == 0);
        if k == 0 {
            assert(rest == 0);
            assert(digits * pow2(0) == digits);
        }
    }
    (digits, k)
}

/// Doubles `n` until it has 53 bits, counting the steps.
fn normalize(n: u64) -> (r: (u64, u32))
    requires
        0 < n < EXACT_LIMIT,
    ensures
        EXPONENT_UNIT <= r.0 < EXACT_LIMIT,
        r.1 <= 52,
        r.0 == n * pow2(r.1 as nat),
{
    let mut m: u64 = n;
    let mut s: u32 = 0;
    proof {
        lemma2_to64();
        assert(n * pow2(0) == n);
    }
    while m < EXPONENT_UNIT
        invariant
            0 < n,
            0 < m < EXACT_LIMIT,
            m == n * pow2(s as nat),
            s <= 52,
        decreases EXACT_LIMIT - m,
    {
        proof {
            lemma_pow2_unfold((s + 1) as nat);
            let p = pow2(s as nat);
            assert(n * (2 * p) == 2 * (n * p)) by (nonlinear_arith);
            assert(p <= m) by (nonlinear_arith)
                requires
                    m == n * p,
                    n >= 1,
                    p >= 0,
            ;
            if s == 52 {
                lemma2_to64_rest();
                assert(pow2(52) == 0x10_0000_0000_0000);
            }
        }
        m = m * 2;
        s = s + 1;
    }
    (m, s)
}

/// The double of an unsigned integer, without sign.
fn double_of(n: u64) -> (r: u64)
    ensures
        r <= INFINITY - EXPONENT_UNIT,
        scaled(r) == rounded(n as nat) * pow2(1074),
{
    let (digits, k): (u64, u32) = round_to_double(n);
    if digits == 0 {
        proof {
            lemma_pow2_pos(k as nat);
            assert(rounded(n as nat) == 0);
        }
        return 0;
    }
    if digits == EXACT_LIMIT {
        let r: u64 = (1076 + k as u64) * EXPONENT_UNIT;
        proof {
            lemma_pow2_adds((k + 1) as nat, 1074);
            lemma_pow2_unfold((k + 1) as nat);
            let p = pow2(k as nat) as int;
            let big = pow2(1074) as int;
            assert(r as int / EXPONENT_UNIT as int == 1076 + k);
            assert(r as int % EXPONENT_UNIT as int == 0);
            assert(0x10_0000_0000_0000 * (2 * p * big) == (0x20_0000_0000_0000 * p) * big)
                by (nonlinear_arith);
        }
        return r;
    }
    let (m, s): (u64, u32) = normalize(digits);
    let r: u64 = (1075 + k as u64 - s as u64) * EXPONENT_UNIT + (m - EXPONENT_UNIT);
    proof {
        let e = 1075 + k - s;
        let f = m - EXPONENT_UNIT;
        assert(r as int / EXPONENT_UNIT as int == e);
        assert(r as int % EXPONENT_UNIT as int == f);
        assert(scaled(r) == m * pow2((e - 1) as nat));
        lemma_pow2_adds(s as nat, (e - 1) as nat);
        lemma_pow2_adds(k as nat, 1074);
        let ps = pow2(s as nat) as int;
        let pe = pow2((e - 1) as nat) as int;
        let pk = pow2(k as nat) as int;
        let big = pow2(1074) as int;
        assert(ps * pe == pk * big);
        assert((digits * ps) * pe == (digits * pk) * big) by (nonlinear_arith)
            requires
                ps * pe == pk * big,
        ;
    }
    r
}

/// The double nearest to an integer, halfway cases to the one whose last bit is
/// zero.
pub fn float_from_int(n: i64) -> (r: FloatBits)
    ensures
        !is_nan(r.bits),
        scaled(r.bits) == rounded_int(n as int) * pow2(1074),
        r.bits >= SIGN <==> n < 0,
{
    if n < 0 {
        let abs: u64 = if n == i64::MIN {
            SIGN
        } else {
            (-n) as u64
        };
        let m: u64 = double_of(abs);
        proof {
            let x = rounded(abs as nat);
            let big = pow2(1074) as int;
            assert((-x) * big == -(x * big)) by (nonlinear_arith);
        }
        FloatBits { bits: m + SIGN }
    } else {
        FloatBits { bits: double_of(n as u64) }
    }
}

} // verus!
