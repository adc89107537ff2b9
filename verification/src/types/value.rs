//! Property values: what they are, when two are equal and how they compare.

use arcstr::ArcStr;
use vstd::arithmetic::power2::pow2;
use vstd::prelude::*;
use vstd::std_specs::convert::FromSpecImpl;
use vstd::utf8::encode_utf8;

use crate::trusted::shared_str::arcstr_from;
use crate::trusted::shared_str::arcstr_text;
use crate::trusted::text::str_eq;
use crate::types::float::{compare_floats, float_from_int, round_to_double, FloatBits};
use crate::types::float::{float_order, is_nan, rounded_int, scaled, EXACT_LIMIT};
use crate::types::float::{law_rounding_is_monotone, law_small_integers_are_exact};
use crate::types::order::{bytes_order, int_order};
use crate::types::order::{compare_bytes, Order};
use crate::types::order::law_first_difference_decides;
use crate::types::order::{
    lemma_bytes_order_equal, lemma_bytes_order_flips, lemma_bytes_order_transitive,
};

verus! {

/// A property value.
#[derive(Debug)]
pub enum Value {
    /// The absent value.
    Null,
    /// A truth value.
    Bool(bool),
    /// A signed integer.
    Int64(i64),
    /// A double-precision number.
    Float64(FloatBits),
    /// A string.
    String(ArcStr),
    /// A value of any other type (a list, a vector, a date), by its text form.
    Other(String),
}

/// What a value is, apart from how it is stored.
#[verifier::ext_equal]
pub enum ValueModel {
    Null,
    Bool(bool),
    Int64(i64),
    Float64(u64),
    String(Seq<char>),
    Other(Seq<char>),
}

impl View for Value {
    type V = ValueModel;

    open spec fn view(&self) -> ValueModel {
        match self {
            Value::Null => ValueModel::Null,
            Value::Bool(b) => ValueModel::Bool(*b),
            Value::Int64(n) => ValueModel::Int64(*n),
            Value::Float64(f) => ValueModel::Float64(f.bits),
            Value::String(s) => ValueModel::String(arcstr_text(*s)),
            Value::Other(s) => ValueModel::Other(s@),
        }
    }
}

impl Clone for Value {
    fn clone(&self) -> (r: Self)
        ensures
            r@ == self@,
    {
        match self {
            Value::Null => Value::Null,
            Value::Bool(b) => Value::Bool(*b),
            Value::Int64(n) => Value::Int64(*n),
            Value::Float64(f) => Value::Float64(*f),
            Value::String(s) => Value::String(s.clone()),
            Value::Other(s) => Value::Other(s.clone()),
        }
    }
}

/// When two values are equal. Numbers of different types are not, and neither is
/// a pattern that is no number to itself; the two zeros are.
pub open spec fn values_equal(a: ValueModel, b: ValueModel) -> bool {
    match (a, b) {
        (ValueModel::Float64(x), ValueModel::Float64(y)) => float_order(x, y) == Some(Order::Equal),
        _ => a == b,
    }
}

impl PartialEq for Value {
    fn eq(&self, other: &Self) -> (r: bool) {
        match (self, other) {
            (Value::Null, Value::Null) => true,
            (Value::Bool(a), Value::Bool(b)) => *a == *b,
            (Value::Int64(a), Value::Int64(b)) => *a == *b,
            (Value::Float64(a), Value::Float64(b)) => match compare_floats(*a, *b) {
                Some(Order::Equal) => true,
                _ => false,
            },
            (Value::String(a), Value::String(b)) => str_eq(a.as_str(), b.as_str()),
            (Value::Other(a), Value::Other(b)) => str_eq(a.as_str(), b.as_str()),
            _ => false,
        }
    }
}

impl vstd::std_specs::cmp::PartialEqSpecImpl for Value {
    open spec fn obeys_eq_spec() -> bool {
        true
    }

    open spec fn eq_spec(&self, other: &Self) -> bool {
        values_equal(self@, other@)
    }
}

impl<'a> From<&'a str> for Value {
    fn from(s: &'a str) -> (r: Self)
        ensures
            r@ == ValueModel::String(s@),
    {
        Value::String(arcstr_from(s))
    }
}

impl<'a> FromSpecImpl<&'a str> for Value {
    open spec fn obeys_from_spec() -> bool {
        false
    }

    open spec fn from_spec(s: &'a str) -> Self {
        Value::Null
    }
}

/// The rank of a truth value.
pub open spec fn bool_rank(b: bool) -> int {
    if b {
        1
    } else {
        0
    }
}

/// How an integer compares with a double: the integer is first rounded to a
/// double.
pub open spec fn int_float_order(n: i64, bits: u64) -> Option<Order> {
    if is_nan(bits) {
        None
    } else {
        Some(int_order(rounded_int(n as int) * pow2(1074), scaled(bits)))
    }
}

/// How two values compare, or `None` where their types do not compare.
pub open spec fn value_order(a: ValueModel, b: ValueModel) -> Option<Order> {
    match (a, b) {
        (ValueModel::Int64(x), ValueModel::Int64(y)) => Some(int_order(x as int, y as int)),
        (ValueModel::Float64(x), ValueModel::Float64(y)) => float_order(x, y),
        (ValueModel::Int64(x), ValueModel::Float64(y)) => int_float_order(x, y),
        (ValueModel::Float64(x), ValueModel::Int64(y)) => match int_float_order(y, x) {
            Some(o) => Some(o.flipped()),
            None => None,
        },
        (ValueModel::String(x), ValueModel::String(y)) => Some(
            bytes_order(encode_utf8(x), encode_utf8(y)),
        ),
        (ValueModel::Bool(x), ValueModel::Bool(y)) => Some(int_order(bool_rank(x), bool_rank(y))),
        _ => None,
    }
}

/// Whether values of this type have an order.
pub open spec fn orderable(v: ValueModel) -> bool {
    v is Int64 || v is Float64 || v is String || v is Bool
}

fn compare_ints(a: i64, b: i64) -> (r: Order)
    ensures
        r == int_order(a as int, b as int),
{
    if a < b {
        Order::Less
    } else if a == b {
        Order::Equal
    } else {
        Order::Greater
    }
}

fn compare_bools(a: bool, b: bool) -> (r: Order)
    ensures
        r == int_order(bool_rank(a), bool_rank(b)),
{
    if a == b {
        Order::Equal
    } else if b {
        Order::Less
    } else {
        Order::Greater
    }
}

fn compare_strings(a: &str, b: &str) -> (r: Order)
    ensures
        r == bytes_order(encode_utf8(a@), encode_utf8(b@)),
{
    compare_bytes(a.as_bytes(), b.as_bytes())
}

/// Compares two values for ordering. `None` for types that do not compare.
pub fn compare_values(a: &Value, b: &Value) -> (r: Option<Order>)
    ensures
        r == value_order(a@, b@),
{
    match (a, b) {
        (Value::Int64(x), Value::Int64(y)) => Some(compare_ints(*x, *y)),
        (Value::Float64(x), Value::Float64(y)) => compare_floats(*x, *y),
        (Value::Int64(x), Value::Float64(y)) => compare_floats(float_from_int(*x), *y),
        (Value::Float64(x), Value::Int64(y)) => compare_floats(*x, float_from_int(*y)),
        (Value::String(x), Value::String(y)) => Some(compare_strings(x.as_str(), y.as_str())),
        (Value::Bool(x), Value::Bool(y)) => Some(compare_bools(*x, *y)),
        _ => None,
    }
}

/// Whether values of this type have an order.
pub fn is_orderable(value: &Value) -> (r: bool)
    ensures
        r == orderable(value@),
{
    match value {
        Value::Int64(_) | Value::Float64(_) | Value::String(_) | Value::Bool(_) => true,
        _ => false,
    }
}

/// Comparing the other way round gives the opposite outcome.
pub proof fn law_value_order_flips(a: ValueModel, b: ValueModel)
    ensures
        value_order(b, a) == match value_order(a, b) {
            Some(o) => Some(o.flipped()),
            None => None,
        },
{
    match (a, b) {
        (ValueModel::String(x), ValueModel::String(y)) => {
            lemma_bytes_order_flips(encode_utf8(x), encode_utf8(y));
        },
        _ => {},
    }
}

/// The place of a value's type in the total order of values.
pub open spec fn type_rank(v: ValueModel) -> int {
    match v {
        ValueModel::Null => 0,
        ValueModel::Bool(_) => 1,
        ValueModel::Int64(_) => 2,
        ValueModel::Float64(bits) => if is_nan(bits) {
            3
        } else {
            2
        },
        ValueModel::String(_) => 4,
        ValueModel::Other(_) => 5,
    }
}

/// The double that a number is or rounds to, in units of the smallest double.
pub open spec fn number_key(v: ValueModel) -> int {
    match v {
        ValueModel::Int64(n) => rounded_int(n as int) * pow2(1074),
        ValueModel::Float64(bits) => scaled(bits),
        _ => 0,
    }
}

/// What an integer has beyond the double that it rounds to.
pub open spec fn number_rest(v: ValueModel) -> int {
    match v {
        ValueModel::Int64(n) => n - rounded_int(n as int),
        _ => 0,
    }
}

/// The bytes of a string or of a text form.
pub open spec fn text_bytes(v: ValueModel) -> Seq<u8> {
    match v {
        ValueModel::String(s) => encode_utf8(s),
        ValueModel::Other(s) => encode_utf8(s),
        _ => Seq::empty(),
    }
}

/// The total order of values: by type first (null, truth values, numbers, what
/// is no number, strings, everything else), then by value. Two numbers compare as
/// doubles, and integers that round to the same double by what they differ from
/// it.
pub open spec fn total_order(a: ValueModel, b: ValueModel) -> Order {
    if type_rank(a) != type_rank(b) {
        int_order(type_rank(a), type_rank(b))
    } else {
        match (a, b) {
            (ValueModel::Bool(x), ValueModel::Bool(y)) => int_order(bool_rank(x), bool_rank(y)),
            _ => if type_rank(a) == 2 {
                if number_key(a) != number_key(b) {
                    int_order(number_key(a), number_key(b))
                } else {
                    int_order(number_rest(a), number_rest(b))
                }
            } else {
                bytes_order(text_bytes(a), text_bytes(b))
            },
        }
    }
}

/// The total order is one: comparing the other way round gives the opposite, and
/// it is transitive.
pub proof fn law_total_order(a: ValueModel, b: ValueModel, c: ValueModel)
    ensures
        total_order(b, a) == total_order(a, b).flipped(),
        total_order(a, b) != Order::Greater && total_order(b, c) != Order::Greater ==> {
            &&& total_order(a, c) != Order::Greater
            &&& total_order(a, b) == Order::Less || total_order(b, c) == Order::Less
                ==> total_order(a, c) == Order::Less
        },
{
    let (x, y, z) = (text_bytes(a), text_bytes(b), text_bytes(c));
    lemma_bytes_order_flips(x, y);
    if bytes_order(x, y) != Order::Greater && bytes_order(y, z) != Order::Greater {
        lemma_bytes_order_transitive(x, y, z);
    }
}

/// Sorting agrees with comparing: where two values compare and one comes before the
/// other, the total order puts them the same way round. Two values of one type that
/// compare as equal are equal in the total order too.
pub proof fn law_total_order_agrees_with_comparing(a: ValueModel, b: ValueModel)
    ensures
        value_order(a, b) == Some(Order::Less) ==> total_order(a, b) == Order::Less,
        value_order(a, b) == Some(Order::Greater) ==> total_order(a, b) == Order::Greater,
        value_order(a, b) == Some(Order::Equal) && (a is Int64 <==> b is Int64) ==> total_order(
            a,
            b,
        ) == Order::Equal,
{
    match (a, b) {
        (ValueModel::Int64(x), ValueModel::Int64(y)) => {
            if x <= y {
                lemma_integers_keep_their_order(x, y);
            } else {
                lemma_integers_keep_their_order(y, x);
                law_total_order(b, a, b);
            }
        },
        _ => {},
    }
}

/// A larger integer comes later in the total order.
proof fn lemma_integers_keep_their_order(x: i64, y: i64)
    requires
        x <= y,
    ensures
        total_order(ValueModel::Int64(x), ValueModel::Int64(y)) == int_order(x as int, y as int),
{
    law_rounding_is_monotone(x as int, y as int);
    vstd::arithmetic::power2::lemma_pow2_pos(1074);
    let (p, q) = (rounded_int(x as int), rounded_int(y as int));
    if p < q {
        vstd::arithmetic::mul::lemma_mul_strict_inequality(p, q, pow2(1074) as int);
    }
}

/// Integers are ordered by their size, both for comparing and for sorting.
pub proof fn law_integers_are_ordered_by_size(x: i64, y: i64)
    requires
        x < y,
    ensures
        value_order(ValueModel::Int64(x), ValueModel::Int64(y)) == Some(Order::Less),
        value_order(ValueModel::Int64(y), ValueModel::Int64(x)) == Some(Order::Greater),
        total_order(ValueModel::Int64(x), ValueModel::Int64(y)) == Order::Less,
        total_order(ValueModel::Int64(y), ValueModel::Int64(x)) == Order::Greater,
{
    law_total_order_agrees_with_comparing(ValueModel::Int64(x), ValueModel::Int64(y));
    law_total_order_agrees_with_comparing(ValueModel::Int64(y), ValueModel::Int64(x));
}

/// False comes before true, both for comparing and for sorting.
pub proof fn law_false_comes_before_true()
    ensures
        value_order(ValueModel::Bool(false), ValueModel::Bool(true)) == Some(Order::Less),
        value_order(ValueModel::Bool(true), ValueModel::Bool(false)) == Some(Order::Greater),
        total_order(ValueModel::Bool(false), ValueModel::Bool(true)) == Order::Less,
        total_order(ValueModel::Bool(true), ValueModel::Bool(false)) == Order::Greater,
{
}

/// Strings are ordered as their bytes are, both for comparing and for sorting: at the
/// first place where the bytes differ the smaller one comes first, however long the
/// strings are, and a string comes before each longer one that begins with it.
pub proof fn law_strings_are_ordered_by_bytes(x: Seq<char>, y: Seq<char>, p: int)
    requires
        0 <= p <= encode_utf8(x).len(),
        p < encode_utf8(y).len(),
        encode_utf8(x).take(p) == encode_utf8(y).take(p),
        p < encode_utf8(x).len() ==> encode_utf8(x)[p] < encode_utf8(y)[p],
    ensures
        value_order(ValueModel::String(x), ValueModel::String(y)) == Some(Order::Less),
        value_order(ValueModel::String(y), ValueModel::String(x)) == Some(Order::Greater),
        total_order(ValueModel::String(x), ValueModel::String(y)) == Order::Less,
        total_order(ValueModel::String(y), ValueModel::String(x)) == Order::Greater,
        total_order(ValueModel::Other(x), ValueModel::Other(y)) == Order::Less,
        total_order(ValueModel::Other(y), ValueModel::Other(x)) == Order::Greater,
{
    law_first_difference_decides(encode_utf8(x), encode_utf8(y), p);
}

/// Doubles are ordered by what they stand for, and one that is no number compares with
/// nothing and is sorted behind all numbers.
pub proof fn law_doubles_are_ordered_by_size(x: u64, y: u64, v: ValueModel)
    requires
        v is Int64 || v is Float64,
    ensures
        !is_nan(x) && !is_nan(y) && scaled(x) < scaled(y) ==> {
            &&& value_order(ValueModel::Float64(x), ValueModel::Float64(y)) == Some(Order::Less)
            &&& value_order(ValueModel::Float64(y), ValueModel::Float64(x)) == Some(Order::Greater)
            &&& total_order(ValueModel::Float64(x), ValueModel::Float64(y)) == Order::Less
            &&& total_order(ValueModel::Float64(y), ValueModel::Float64(x)) == Order::Greater
        },
        !is_nan(x) && !is_nan(y) && scaled(x) == scaled(y) ==> {
            &&& value_order(ValueModel::Float64(x), ValueModel::Float64(y)) == Some(Order::Equal)
            &&& total_order(ValueModel::Float64(x), ValueModel::Float64(y)) == Order::Equal
        },
        is_nan(x) ==> {
            &&& value_order(ValueModel::Float64(x), v) is None
            &&& value_order(v, ValueModel::Float64(x)) is None
            &&& !values_equal(ValueModel::Float64(x), ValueModel::Float64(x))
            &&& (v matches ValueModel::Float64(z) ==> !is_nan(z)) ==> total_order(
                v,
                ValueModel::Float64(x),
            ) == Order::Less
        },
{
}

/// An integer of at most 53 bits compares with a double as the two numbers do.
pub proof fn law_integers_compare_with_doubles(n: i64, bits: u64)
    requires
        -EXACT_LIMIT <= n <= EXACT_LIMIT,
        !is_nan(bits),
    ensures
        n * pow2(1074) < scaled(bits) ==> {
            &&& value_order(ValueModel::Int64(n), ValueModel::Float64(bits)) == Some(Order::Less)
            &&& value_order(ValueModel::Float64(bits), ValueModel::Int64(n)) == Some(Order::Greater)
            &&& total_order(ValueModel::Int64(n), ValueModel::Float64(bits)) == Order::Less
        },
        n * pow2(1074) > scaled(bits) ==> {
            &&& value_order(ValueModel::Int64(n), ValueModel::Float64(bits)) == Some(Order::Greater)
            &&& value_order(ValueModel::Float64(bits), ValueModel::Int64(n)) == Some(Order::Less)
            &&& total_order(ValueModel::Int64(n), ValueModel::Float64(bits)) == Order::Greater
        },
        n * pow2(1074) == scaled(bits) ==> {
            &&& value_order(ValueModel::Int64(n), ValueModel::Float64(bits)) == Some(Order::Equal)
            &&& value_order(ValueModel::Float64(bits), ValueModel::Int64(n)) == Some(Order::Equal)
            &&& total_order(ValueModel::Int64(n), ValueModel::Float64(bits)) == Order::Equal
        },
{
    law_small_integers_are_exact(n as int);
}

/// Whether a value is a number: an integer or a double that is one.
pub open spec fn is_number(v: ValueModel) -> bool {
    v is Int64 || (v matches ValueModel::Float64(bits) && !is_nan(bits))
}

/// Values of different types are sorted by type: nulls, truth values, numbers, strings
/// and everything else, in this order.
pub proof fn law_types_are_sorted_apart(a: ValueModel, b: ValueModel)
    ensures
        a is Null && !(b is Null) ==> total_order(a, b) == Order::Less,
        a is Bool && (is_number(b) || b is String || b is Other) ==> total_order(a, b)
            == Order::Less,
        is_number(a) && (b is String || b is Other) ==> total_order(a, b) == Order::Less,
        a is String && b is Other ==> total_order(a, b) == Order::Less,
        a is Null && b is Null ==> total_order(a, b) == Order::Equal,
{
    lemma_bytes_order_equal(Seq::empty(), Seq::empty());
}

/// Values that do not compare: a null, a value of a type without an order, and values
/// of different types, but for two numbers.
pub proof fn law_types_that_do_not_compare(a: ValueModel, b: ValueModel)
    ensures
        a is Null || a is Other ==> value_order(a, b) is None && !orderable(a),
        a is Bool && !(b is Bool) ==> value_order(a, b) is None,
        a is String && !(b is String) ==> value_order(a, b) is None,
        a is Bool || a is Int64 || a is Float64 || a is String ==> orderable(a),
        is_number(a) && is_number(b) ==> value_order(a, b) is Some,
        a is Bool && b is Bool || a is String && b is String ==> value_order(a, b) is Some,
{
}

/// Equal values are of one type, and equal where the two compare as equal.
pub proof fn law_equal_values(a: ValueModel, b: ValueModel)
    ensures
        !(a is Float64) ==> (values_equal(a, b) <==> a == b),
        values_equal(a, b) && orderable(a) ==> value_order(a, b) == Some(Order::Equal),
        values_equal(a, b) == values_equal(b, a),
        a is Int64 && b is Float64 ==> !values_equal(a, b),
{
    law_value_order_flips(a, b);
    if a is String {
        lemma_bytes_order_equal(encode_utf8(a->String_0), encode_utf8(a->String_0));
    }
}

/// The rank of a value's type.
fn rank_of(v: &Value) -> (r: u8)
    ensures
        r == type_rank(v@),
{
    match v {
        Value::Null => 0,
        Value::Bool(_) => 1,
        Value::Int64(_) => 2,
        Value::Float64(f) => match compare_floats(*f, *f) {
            Some(_) => 2,
            None => 3,
        },
        Value::String(_) => 4,
        Value::Other(_) => 5,
    }
}

/// What an integer has beyond the double that it rounds to.
fn rest_of(v: &Value) -> (r: i128)
    ensures
        r == number_rest(v@),
{
    match v {
        Value::Int64(n) => {
            let abs: u64 = if *n == i64::MIN {
                0x8000_0000_0000_0000
            } else if *n < 0 {
                (-*n) as u64
            } else {
                *n as u64
            };
            let (digits, k): (u64, u32) = round_to_double(abs);
            let mut near: u128 = digits as u128;
            let mut i: u32 = 0;
            proof {
                vstd::arithmetic::power2::lemma2_to64();
                assert(digits * pow2(0) == digits);
            }
            while i < k
                invariant
                    i <= k <= 11,
                    digits <= 0x20_0000_0000_0000,
                    near == digits * pow2(i as nat),
                    near <= 0x20_0000_0000_0000 * pow2(i as nat),
                decreases k - i,
            {
                proof {
                    let p = pow2(i as nat);
                    vstd::arithmetic::power2::lemma_pow2_unfold((i + 1) as nat);
                    assert(digits * (2 * p) == 2 * (digits * p)) by (nonlinear_arith);
                    vstd::arithmetic::power2::lemma2_to64();
                    assert(p <= 2048) by {
                        if i < 11 {
                            vstd::arithmetic::power2::lemma_pow2_strictly_increases(i as nat, 11);
                        }
                    }
                }
                near = near * 2;
                i = i + 1;
            }
            proof {
                vstd::arithmetic::power2::lemma2_to64();
                if k < 11 {
                    vstd::arithmetic::power2::lemma_pow2_strictly_increases(k as nat, 11);
                }
            }
            if *n < 0 {
                *n as i128 + near as i128
            } else {
                *n as i128 - near as i128
            }
        },
        _ => 0,
    }
}

/// Compares two numbers, an integer as the double that it rounds to.
fn compare_numbers(a: &Value, b: &Value) -> (r: Order)
    requires
        type_rank(a@) == 2,
        type_rank(b@) == 2,
    ensures
        r == int_order(number_key(a@), number_key(b@)),
{
    let x: FloatBits = match a {
        Value::Int64(n) => float_from_int(*n),
        Value::Float64(f) => *f,
        _ => FloatBits { bits: 0 },
    };
    let y: FloatBits = match b {
        Value::Int64(n) => float_from_int(*n),
        Value::Float64(f) => *f,
        _ => FloatBits { bits: 0 },
    };
    match compare_floats(x, y) {
        Some(o) => o,
        None => Order::Equal,
    }
}

/// Compares two values in the total order.
pub fn compare_values_total(a: &Value, b: &Value) -> (r: Order)
    ensures
        r == total_order(a@, b@),
{
    let ra: u8 = rank_of(a);
    let rb: u8 = rank_of(b);
    if ra < rb {
        return Order::Less;
    }
    if ra > rb {
        return Order::Greater;
    }
    if ra == 2 {
        let by_double: Order = compare_numbers(a, b);
        if by_double != Order::Equal {
            return by_double;
        }
        let x: i128 = rest_of(a);
        let y: i128 = rest_of(b);
        return if x < y {
            Order::Less
        } else if x == y {
            Order::Equal
        } else {
            Order::Greater
        };
    }
    match (a, b) {
        (Value::Bool(x), Value::Bool(y)) => compare_bools(*x, *y),
        (Value::String(x), Value::String(y)) => compare_strings(x.as_str(), y.as_str()),
        (Value::Other(x), Value::Other(y)) => compare_strings(x.as_str(), y.as_str()),
        _ => Order::Equal,
    }
}

/// Values that compare as equal strings are equal.
pub proof fn law_string_order_is_equality(a: Seq<char>, b: Seq<char>)
    ensures
        value_order(ValueModel::String(a), ValueModel::String(b)) == Some(Order::Equal) <==> a == b,
{
    lemma_bytes_order_equal(encode_utf8(a), encode_utf8(b));
    vstd::utf8::encode_utf8_decode_utf8(a);
    vstd::utf8::encode_utf8_decode_utf8(b);
}

} // verus!
