//! Ids and epochs that come as doubles.
//!
//! A script has doubles for numbers, and ids are unsigned integers. A double is
//! taken as an id if it is neither negative, nor above the integers that a double
//! tells apart, nor no number at all.

use vstd::arithmetic::div_mod::{lemma_div_denominator, lemma_fundamental_div_mod};
use vstd::arithmetic::power2::{
    lemma2_to64, lemma2_to64_rest, lemma_pow2_adds, lemma_pow2_pos, pow2,
};
use vstd::prelude::*;
use vstd::string::StringExecFns;

use crate::graph::store::{EdgeId, EpochId, NodeId};
use crate::types::float::FloatBits;
use crate::types::float::{is_nan, magnitude, scaled, scaled_magnitude};
use crate::types::float::{EXPONENT_UNIT, SIGN};

verus! {

/// The largest integer such that a double tells it and all below it apart.
pub const MAX_SAFE_INTEGER: u64 = 9_007_199_254_740_991;

/// One, in units of two to the minus 1074.
pub open spec fn one() -> int {
    pow2(1074) as int
}

/// Whether a double can be an id.
pub open spec fn is_safe_id(bits: u64) -> bool {
    !is_nan(bits) && 0 <= scaled(bits) <= MAX_SAFE_INTEGER * one()
}

/// The id that a double stands for: its integer part.
pub open spec fn id_value(bits: u64) -> Option<u64> {
    if is_safe_id(bits) {
        Some((scaled(bits) / one()) as u64)
    } else {
        None
    }
}

/// Two to the `n`, for small `n`.
fn two_to(n: u64) -> (r: u64)
    requires
        n <= 52,
    ensures
        r == pow2(n as nat),
        r >= 1,
        r <= EXPONENT_UNIT,
{
    let mut value: u64 = 1;
    let mut k: u64 = 0;
    proof {
        lemma2_to64();
        lemma2_to64_rest();
    }
    while k < n
        invariant
            k <= n <= 52,
            value == pow2(k as nat),
            pow2(52) == EXPONENT_UNIT,
        decreases n - k,
    {
        proof {
            vstd::arithmetic::power2::lemma_pow2_unfold((k + 1) as nat);
            vstd::arithmetic::power2::lemma_pow2_strictly_increases(k as nat, 52);
        }
        value = value * 2;
        k = k + 1;
    }
    proof {
        lemma_pow2_pos(n as nat);
        if n < 52 {
            vstd::arithmetic::power2::lemma_pow2_strictly_increases(n as nat, 52);
        }
    }
    value
}

/// The integer part of a magnitude between one and two to the 53: how its value is
/// made of its digits.
proof fn lemma_integer_part(m: int, exponent: int, digits: int)
    requires
        0 <= m < SIGN,
        exponent == m / EXPONENT_UNIT as int,
        digits == EXPONENT_UNIT + m % EXPONENT_UNIT as int,
        1023 <= exponent <= 1075,
    ensures
        scaled_magnitude(m) == digits * pow2((exponent - 1) as nat),
        exponent <= 1074 ==> scaled_magnitude(m) / one() == digits / pow2(
            (1075 - exponent) as nat,
        ) as int,
        exponent == 1075 ==> scaled_magnitude(m) == digits * one(),
{
    let v = scaled_magnitude(m);
    let p = pow2((exponent - 1) as nat) as int;
    assert(v == digits * p);
    if exponent <= 1074 {
        let q = pow2((1075 - exponent) as nat) as int;
        lemma_pow2_adds((exponent - 1) as nat, (1075 - exponent) as nat);
        lemma_pow2_pos((exponent - 1) as nat);
        lemma_pow2_pos((1075 - exponent) as nat);
        assert(p * q == one());
        lemma_div_denominator(v, p, q);
        vstd::arithmetic::div_mod::lemma_div_multiples_vanish(digits, p);
        assert(digits * p == p * digits) by (nonlinear_arith);
        assert(v / p == digits);
    }
}

/// A magnitude below one, and one above two to the 53.
proof fn lemma_outside(m: int, exponent: int)
    requires
        0 <= m < SIGN,
        exponent == m / EXPONENT_UNIT as int,
    ensures
        scaled_magnitude(m) >= 0,
        exponent < 1023 ==> scaled_magnitude(m) < one(),
        exponent >= 1076 ==> scaled_magnitude(m) > MAX_SAFE_INTEGER * one(),
{
    let unit = EXPONENT_UNIT as int;
    let fraction = m % unit;
    lemma_pow2_pos(1074);
    lemma2_to64_rest();
    assert(pow2(52) == EXPONENT_UNIT);
    lemma_pow2_adds(52, 1022);
    if exponent == 0 {
        lemma_pow2_pos(1022);
        assert(one() == unit * pow2(1022));
        assert(fraction < one()) by (nonlinear_arith)
            requires
                fraction < unit,
                one() == unit * pow2(1022),
                pow2(1022) >= 1,
                unit > 0,
        ;
    } else {
        let p = pow2((exponent - 1) as nat) as int;
        lemma_pow2_pos((exponent - 1) as nat);
        assert((unit + fraction) * p >= 0) by (nonlinear_arith)
            requires
                unit + fraction >= 0,
                p >= 0,
        ;
        if exponent < 1023 {
            lemma_pow2_adds(53, 1021);
            assert(pow2(53) == 2 * unit) by {
                vstd::arithmetic::power2::lemma_pow2_unfold(53);
            }
            if exponent - 1 < 1021 {
                vstd::arithmetic::power2::lemma_pow2_strictly_increases(
                    (exponent - 1) as nat,
                    1021,
                );
            }
            let big = pow2(1021) as int;
            assert(one() == (2 * unit) * big);
            assert((unit + fraction) * p < (2 * unit) * big) by (nonlinear_arith)
                requires
                    unit + fraction < 2 * unit,
                    0 < p <= big,
                    unit > 0,
                    fraction >= 0,
            ;
        }
        if exponent >= 1076 {
            vstd::arithmetic::power2::lemma_pow2_unfold(1075);
            if exponent - 1 > 1075 {
                vstd::arithmetic::power2::lemma_pow2_strictly_increases(
                    1075,
                    (exponent - 1) as nat,
                );
            }
            let o = one();
            assert(p >= 2 * o);
            assert((unit + fraction) * p >= unit * (2 * o)) by (nonlinear_arith)
                requires
                    p >= 2 * o,
                    fraction >= 0,
                    unit > 0,
                    o > 0,
            ;
            assert(unit * (2 * o) == (2 * unit) * o) by (nonlinear_arith);
            assert((2 * unit) * o > MAX_SAFE_INTEGER * o) by (nonlinear_arith)
                requires
                    2 * unit > MAX_SAFE_INTEGER,
                    o > 0,
            ;
        }
    }
}

/// The id that a double stands for.
#[must_use]
pub fn id_from_double(id: FloatBits) -> (r: Option<u64>)
    ensures
        r == id_value(id.bits),
{
    let bits: u64 = id.bits;
    let m: u64 = bits % SIGN;
    let exponent: u64 = m / EXPONENT_UNIT;
    let fraction: u64 = m % EXPONENT_UNIT;
    proof {
        lemma_pow2_pos(1074);
        lemma_outside(m as int, exponent as int);
        assert(magnitude(bits) == m);
    }
    if bits >= SIGN {
        if m == 0 {
            proof {
                assert(scaled_magnitude(0) == 0);
                assert(0int / one() == 0) by (nonlinear_arith)
                    requires
                        one() > 0,
                ;
                assert(0 <= MAX_SAFE_INTEGER * one()) by (nonlinear_arith)
                    requires
                        one() > 0,
                ;
            }
            return Some(0);
        }
        proof {
            lemma_negative(m as int);
        }
        return None;
    }
    if exponent < 1023 {
        proof {
            let v = scaled_magnitude(m as int);
            let o = one();
            assert(v / o == 0) by (nonlinear_arith)
                requires
                    0 <= v < o,
            ;
            assert(v <= MAX_SAFE_INTEGER * o) by (nonlinear_arith)
                requires
                    0 <= v < o,
            ;
        }
        return Some(0);
    }
    if exponent >= 1076 {
        return None;
    }
    let digits: u64 = EXPONENT_UNIT + fraction;
    proof {
        lemma_integer_part(m as int, exponent as int, digits as int);
    }
    if exponent == 1075 {
        proof {
            let v = scaled_magnitude(m as int);
            let o = one();
            vstd::arithmetic::div_mod::lemma_div_multiples_vanish(digits as int, o);
            assert(digits * o == o * digits) by (nonlinear_arith);
            assert(digits * o <= MAX_SAFE_INTEGER * o) by (nonlinear_arith)
                requires
                    digits <= MAX_SAFE_INTEGER,
                    o > 0,
            ;
        }
        return Some(digits);
    }
    let unit: u64 = two_to(1075 - exponent);
    let value: u64 = digits / unit;
    proof {
        let v = scaled_magnitude(m as int);
        let o = one();
        assert(v / o == value);
        assert(value <= digits) by (nonlinear_arith)
            requires
                value == digits / unit,
                unit >= 1,
        ;
        lemma_fundamental_div_mod(v, o);
        assert(v < (value + 1) * o) by (nonlinear_arith)
            requires
                v == o * (v / o) + v % o,
                v / o == value,
                v % o < o,
        ;
        assert(unit >= 2) by {
            lemma2_to64();
            if 1075 - exponent > 1 {
                vstd::arithmetic::power2::lemma_pow2_strictly_increases(
                    1,
                    (1075 - exponent) as nat,
                );
            }
        }
        assert(value + 1 <= MAX_SAFE_INTEGER) by (nonlinear_arith)
            requires
                value == digits / unit,
                unit >= 2,
                digits <= MAX_SAFE_INTEGER,
        ;
        assert((value + 1) * o <= MAX_SAFE_INTEGER * o) by (nonlinear_arith)
            requires
                value + 1 <= MAX_SAFE_INTEGER,
                o > 0,
        ;
    }
    Some(value)
}

/// A magnitude that is not zero stands for a positive value.
proof fn lemma_negative(m: int)
    requires
        0 < m < SIGN,
    ensures
        scaled_magnitude(m) > 0,
{
    let exponent = m / EXPONENT_UNIT as int;
    let fraction = m % EXPONENT_UNIT as int;
    if exponent > 0 {
        let p = pow2((exponent - 1) as nat) as int;
        lemma_pow2_pos((exponent - 1) as nat);
        assert((EXPONENT_UNIT + fraction) * p > 0) by (nonlinear_arith)
            requires
                EXPONENT_UNIT + fraction > 0,
                p > 0,
        ;
    }
}

/// What is said of a double that is no id: what it was to be, and how it is shown.
pub open spec fn id_error(what: Seq<char>, shown: Seq<char>) -> Seq<char> {
    "Invalid "@ + what + ": "@ + shown
}

/// What is said of a double that is no id.
fn invalid(what: &str, shown: &str) -> (r: String)
    ensures
        r@ == id_error(what@, shown@),
{
    let mut out: String = String::new();
    out.append("Invalid ");
    out.append(what);
    out.append(": ");
    out.append(shown);
    assert(out@ =~= id_error(what@, shown@));
    out
}

/// A double is an id exactly if it is a number from zero to two to the 53 less one. The
/// id is the largest integer that is not above it.
pub proof fn law_id_is_the_integer_part(bits: u64)
    ensures
        id_value(bits) is Some <==> !is_nan(bits) && 0 <= scaled(bits)
            <= 9_007_199_254_740_991 * pow2(1074),
        id_value(bits) matches Some(n) ==> n <= 9_007_199_254_740_991 && n * pow2(1074) <= scaled(
            bits,
        ) < (n + 1) * pow2(1074),
{
    lemma_pow2_pos(1074);
    if is_safe_id(bits) {
        let (v, unit) = (scaled(bits), pow2(1074) as int);
        lemma_fundamental_div_mod(v, unit);
        let q = v / unit;
        assert(0 <= q <= 9_007_199_254_740_991 && q * unit <= v < (q + 1) * unit) by (nonlinear_arith)
            requires
                unit > 0,
                0 <= v <= 9_007_199_254_740_991 * unit,
                v == unit * q + v % unit,
                0 <= v % unit < unit,
        ;
        assert(q as u64 == q);
    }
}

/// What is said of a double that is no id names what it was to be, and shows it.
pub proof fn law_id_errors_show_the_double(what: Seq<char>, shown: Seq<char>)
    ensures
        id_error(what, shown) == "Invalid "@ + what + ": "@ + shown,
{
}

/// Takes a double as the id of a node. `shown` is how the double is shown if it is
/// none.
pub fn validate_node_id(id: FloatBits, shown: &str) -> (r: Result<NodeId, String>)
    ensures
        match r {
            Ok(n) => id_value(id.bits) == Some(n.0),
            Err(e) => id_value(id.bits) is None && e@ == id_error("node ID"@, shown@),
        },
{
    match id_from_double(id) {
        Some(n) => Ok(NodeId(n)),
        None => Err(invalid("node ID", shown)),
    }
}

/// Takes a double as the id of an edge. `shown` is how the double is shown if it is
/// none.
pub fn validate_edge_id(id: FloatBits, shown: &str) -> (r: Result<EdgeId, String>)
    ensures
        match r {
            Ok(n) => id_value(id.bits) == Some(n.0),
            Err(e) => id_value(id.bits) is None && e@ == id_error("edge ID"@, shown@),
        },
{
    match id_from_double(id) {
        Some(n) => Ok(EdgeId(n)),
        None => Err(invalid("edge ID", shown)),
    }
}

/// Takes a double as an epoch. `shown` is how the double is shown if it is none.
pub fn validate_epoch(epoch: FloatBits, shown: &str) -> (r: Result<EpochId, String>)
    ensures
        match r {
            Ok(n) => id_value(epoch.bits) == Some(n.0),
            Err(e) => id_value(epoch.bits) is None && e@ == id_error("epoch"@, shown@),
        },
{
    match id_from_double(epoch) {
        Some(n) => Ok(EpochId(n)),
        None => Err(invalid("epoch", shown)),
    }
}

} // verus!
