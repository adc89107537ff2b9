//! Per-column zone maps for predicate pushdown.
//!
//! Each column tracks its smallest and largest value and its number of nulls.
//! The query engine uses them to skip whole blocks where a predicate cannot
//! match.

use vstd::arithmetic::div_mod::lemma_fundamental_div_mod;
use vstd::arithmetic::mul::lemma_mul_strict_inequality;
use vstd::arithmetic::power2::{lemma_pow2_pos, pow2};
use vstd::prelude::*;
use vstd::utf8::{decode_utf8, encode_utf8, valid_utf8};

use crate::graph::compact::column::ColumnCodec;
use crate::le::{le_bytes, le_value, lemma_le_bytes_len, lemma_le_value_of_bytes, lemma_pow256};
use crate::le::{push_u32_le, push_u64_le, read_u32_le, read_u64_le};
use crate::trusted::shared_str::arcstr_from;
use crate::trusted::text::str_from_utf8;
use crate::types::float::{is_nan, law_rounding_is_monotone, rounded_int, scaled};
use crate::types::order::Order;
use crate::types::order::{int_order, lemma_bytes_order_equal, lemma_bytes_order_transitive};
use crate::types::value::{compare_values, is_orderable, Value};
use crate::types::value::{orderable, value_order, values_equal, ValueModel};
use crate::types::value::law_value_order_flips;

verus! {

/// How a predicate compares a column with a value.
#[derive(Debug, Clone, Copy, PartialEq, Eq, Structural)]
pub enum CompareOp {
    /// Equal.
    Eq,
    /// Not equal.
    Ne,
    /// Less than.
    Lt,
    /// Less than or equal.
    Le,
    /// Greater than.
    Gt,
    /// Greater than or equal.
    Ge,
}

/// Whether an outcome of a comparison satisfies an operator.
pub open spec fn satisfies(op: CompareOp, order: Order) -> bool {
    match op {
        CompareOp::Eq => order == Order::Equal,
        CompareOp::Ne => order != Order::Equal,
        CompareOp::Lt => order == Order::Less,
        CompareOp::Le => order != Order::Greater,
        CompareOp::Gt => order == Order::Greater,
        CompareOp::Ge => order != Order::Less,
    }
}

/// Whether a row matches `column <op> value`. A row that does not compare with
/// the value does not match.
pub open spec fn row_matches(row: ValueModel, op: CompareOp, value: ValueModel) -> bool {
    value_order(row, value) matches Some(order) && satisfies(op, order)
}

/// The model of an optional value.
pub open spec fn option_view(v: Option<Value>) -> Option<ValueModel> {
    match v {
        Some(x) => Some(x@),
        None => None,
    }
}

/// The answer to "might `column <op> value` match any row?", from the bounds of
/// the column alone. Without bounds, and where values do not compare, it is yes.
pub open spec fn might_match_spec(
    min: Option<ValueModel>,
    max: Option<ValueModel>,
    null_count: nat,
    op: CompareOp,
    value: ValueModel,
) -> bool {
    match (min, max) {
        (Some(lo), Some(hi)) => match op {
            CompareOp::Eq => value_order(value, lo) != Some(Order::Less) && value_order(value, hi)
                != Some(Order::Greater),
            CompareOp::Ne => null_count > 0 || value_order(lo, hi) != Some(Order::Equal)
                || !values_equal(lo, value),
            CompareOp::Lt => value_order(lo, value) matches Some(o) ==> o == Order::Less,
            CompareOp::Le => value_order(lo, value) != Some(Order::Greater),
            CompareOp::Gt => value_order(hi, value) matches Some(o) ==> o == Order::Greater,
            CompareOp::Ge => value_order(hi, value) != Some(Order::Less),
        },
        _ => true,
    }
}

/// The smallest value among `rows`, the earliest among equals. Where values do
/// not compare, the earlier one stays.
pub open spec fn lowest(rows: Seq<Option<ValueModel>>) -> Option<ValueModel>
    decreases rows.len(),
{
    if rows.len() == 0 {
        None
    } else {
        let best = lowest(rows.drop_last());
        match rows.last() {
            Some(v) if orderable(v) => match best {
                Some(b) => if value_order(v, b) == Some(Order::Less) {
                    Some(v)
                } else {
                    best
                },
                None => Some(v),
            },
            _ => best,
        }
    }
}

/// The largest value among `rows`, the earliest among equals. Where values do
/// not compare, the earlier one stays.
pub open spec fn highest(rows: Seq<Option<ValueModel>>) -> Option<ValueModel>
    decreases rows.len(),
{
    if rows.len() == 0 {
        None
    } else {
        let best = highest(rows.drop_last());
        match rows.last() {
            Some(v) if orderable(v) => match best {
                Some(b) => if value_order(v, b) == Some(Order::Greater) {
                    Some(v)
                } else {
                    best
                },
                None => Some(v),
            },
            _ => best,
        }
    }
}

/// How many of `rows` are null.
pub open spec fn nulls_in(rows: Seq<Option<ValueModel>>) -> nat
    decreases rows.len(),
{
    if rows.len() == 0 {
        0
    } else {
        nulls_in(rows.drop_last()) + if rows.last() is None {
            1nat
        } else {
            0nat
        }
    }
}

/// The rows of block `i`.
pub open spec fn block_of(
    rows: Seq<Option<ValueModel>>,
    block_rows: nat,
    i: int,
) -> Seq<Option<ValueModel>> {
    let end = if (i + 1) * block_rows <= rows.len() {
        (i + 1) * block_rows
    } else {
        rows.len() as int
    };
    rows.subrange(i * block_rows, end)
}

/// Whether comparisons among the given values never contradict each other: what
/// comes before a value that comes before a third comes before the third.
pub open spec fn comparisons_agree(values: Set<ValueModel>) -> bool {
    forall|a: ValueModel, b: ValueModel, c: ValueModel| #![trigger value_order(a, b), value_order(b, c)]
        values.contains(a) && values.contains(b) && values.contains(c) ==> {
            &&& value_order(a, b) == Some(Order::Less) && (value_order(b, c) == Some(Order::Less)
                || value_order(b, c) == Some(Order::Equal)) ==> value_order(a, c) == Some(
                Order::Less,
            )
            &&& value_order(a, b) == Some(Order::Equal) ==> value_order(a, c) == value_order(b, c)
        }
}

/// The values that occur in `rows`, and `value`.
pub open spec fn values_of(rows: Seq<Option<ValueModel>>, value: ValueModel) -> Set<ValueModel> {
    Set::new(|v: ValueModel| v == value || rows.contains(Some(v)))
}

/// The bounds of a block enclose each of its rows that compares with them.
proof fn lemma_bounds_enclose(rows: Seq<Option<ValueModel>>, value: ValueModel, row: ValueModel)
    requires
        comparisons_agree(values_of(rows, value)),
        rows.contains(Some(row)),
        orderable(row),
    ensures
        lowest(rows) is Some,
        highest(rows) is Some,
        values_of(rows, value).contains(lowest(rows).unwrap()),
        values_of(rows, value).contains(highest(rows).unwrap()),
        value_order(row, lowest(rows).unwrap()) != Some(Order::Less),
        value_order(row, highest(rows).unwrap()) != Some(Order::Greater),
    decreases rows.len(),
{
    let shorter = rows.drop_last();
    let small = values_of(shorter, value);
    let large = values_of(rows, value);
    let i = choose|i: int| 0 <= i < rows.len() && rows[i] == Some(row);
    assert forall|v: ValueModel| small.contains(v) implies large.contains(v) by {
        if shorter.contains(Some(v)) {
            let k = choose|k: int| 0 <= k < shorter.len() && shorter[k] == Some(v);
            assert(rows[k] == Some(v));
        }
    }
    assert(comparisons_agree(small));
    lemma_bounds_occur(rows);
    lemma_bounds_occur(shorter);
    law_value_order_flips(row, row);
    if i < rows.len() - 1 {
        assert(shorter[i] == Some(row));
        lemma_bounds_enclose(shorter, value, row);
        let lo = lowest(shorter).unwrap();
        let hi = highest(shorter).unwrap();
        match rows.last() {
            Some(v) => {
                assert(rows[rows.len() - 1] == Some(v));
                assert(large.contains(v));
                law_value_order_flips(row, v);
                law_value_order_flips(v, hi);
                law_value_order_flips(row, hi);
                // A new lower bound that came after the row would put the row
                // below the old bound.
                if value_order(row, v) == Some(Order::Less) && value_order(v, lo) == Some(
                    Order::Less,
                ) {
                    assert(value_order(row, lo) == Some(Order::Less));
                }
                if value_order(hi, v) == Some(Order::Less) && value_order(v, row) == Some(
                    Order::Less,
                ) {
                    assert(value_order(hi, row) == Some(Order::Less));
                }
            },
            None => {},
        }
    } else {
        // The row is the last one: it has just been compared with the bounds.
        if lowest(shorter) is Some {
            law_value_order_flips(row, lowest(shorter).unwrap());
        }
        if highest(shorter) is Some {
            law_value_order_flips(row, highest(shorter).unwrap());
        }
    }
}

/// The bounds are values of the rows, and both are there or none.
proof fn lemma_bounds_occur(rows: Seq<Option<ValueModel>>)
    ensures
        lowest(rows) matches Some(v) ==> rows.contains(Some(v)) && orderable(v),
        highest(rows) matches Some(v) ==> rows.contains(Some(v)) && orderable(v),
        lowest(rows) is Some <==> highest(rows) is Some,
    decreases rows.len(),
{
    if rows.len() > 0 {
        let shorter = rows.drop_last();
        lemma_bounds_occur(shorter);
        assert forall|v: ValueModel| shorter.contains(Some(v)) implies rows.contains(Some(v)) by {
            let k = choose|k: int| 0 <= k < shorter.len() && shorter[k] == Some(v);
            assert(rows[k] == Some(v));
        }
        assert(rows[rows.len() - 1] == rows.last());
    }
}

/// What satisfies an operator: less than, equal and greater than mean one outcome each,
/// and each of the others means that its opposite is not satisfied.
pub proof fn law_operators_and_outcomes(order: Order)
    ensures
        satisfies(CompareOp::Lt, order) <==> order == Order::Less,
        satisfies(CompareOp::Eq, order) <==> order == Order::Equal,
        satisfies(CompareOp::Gt, order) <==> order == Order::Greater,
        satisfies(CompareOp::Ge, order) <==> !satisfies(CompareOp::Lt, order),
        satisfies(CompareOp::Ne, order) <==> !satisfies(CompareOp::Eq, order),
        satisfies(CompareOp::Le, order) <==> !satisfies(CompareOp::Gt, order),
{
}

/// Blocks are skipped where they can be. Where the bounds compare with the value, the
/// smallest value decides of less than, the largest of greater than, and both of equal.
/// Of not equal a block is skipped only if all its values are the value.
pub proof fn law_bounds_decide(lo: ValueModel, hi: ValueModel, nulls: nat, value: ValueModel)
    ensures
        value_order(lo, value) is Some ==> {
            &&& might_match_spec(Some(lo), Some(hi), nulls, CompareOp::Lt, value) <==> row_matches(
                lo,
                CompareOp::Lt,
                value,
            )
            &&& might_match_spec(Some(lo), Some(hi), nulls, CompareOp::Le, value) <==> row_matches(
                lo,
                CompareOp::Le,
                value,
            )
        },
        value_order(hi, value) is Some ==> {
            &&& might_match_spec(Some(lo), Some(hi), nulls, CompareOp::Gt, value) <==> row_matches(
                hi,
                CompareOp::Gt,
                value,
            )
            &&& might_match_spec(Some(lo), Some(hi), nulls, CompareOp::Ge, value) <==> row_matches(
                hi,
                CompareOp::Ge,
                value,
            )
        },
        value_order(lo, value) is Some && value_order(hi, value) is Some ==> (might_match_spec(
            Some(lo),
            Some(hi),
            nulls,
            CompareOp::Eq,
            value,
        ) <==> row_matches(lo, CompareOp::Le, value) && row_matches(hi, CompareOp::Ge, value)),
        !might_match_spec(Some(lo), Some(hi), nulls, CompareOp::Ne, value) <==> nulls == 0
            && value_order(lo, hi) == Some(Order::Equal) && values_equal(lo, value),
{
    law_value_order_flips(lo, value);
    law_value_order_flips(hi, value);
}

/// Without bounds, and where the bounds do not compare with the value, a block is never
/// skipped.
pub proof fn law_unknown_blocks_are_kept(
    bound: Option<ValueModel>,
    lo: ValueModel,
    hi: ValueModel,
    nulls: nat,
    op: CompareOp,
    value: ValueModel,
)
    ensures
        might_match_spec(None, bound, nulls, op, value),
        might_match_spec(bound, None, nulls, op, value),
        op != CompareOp::Ne && value_order(lo, value) is None && value_order(hi, value) is None
            ==> might_match_spec(Some(lo), Some(hi), nulls, op, value),
{
    law_value_order_flips(lo, value);
    law_value_order_flips(hi, value);
}

/// The bounds of rows are two of their values, and no row is below the one or above the
/// other, wherever the comparisons agree with each other. There are none exactly if no
/// row has a value with an order.
pub proof fn law_bounds_are_extremes(rows: Seq<Option<ValueModel>>, row: ValueModel)
    requires
        comparisons_agree(values_of(rows, row)),
    ensures
        lowest(rows) is Some <==> exists|v: ValueModel| #[trigger]
            rows.contains(Some(v)) && orderable(v),
        highest(rows) is Some <==> lowest(rows) is Some,
        lowest(rows) is Some ==> rows.contains(lowest(rows)) && orderable(lowest(rows)->0),
        highest(rows) is Some ==> rows.contains(highest(rows)) && orderable(highest(rows)->0),
        rows.contains(Some(row)) && orderable(row) ==> value_order(row, lowest(rows)->0) != Some(
            Order::Less,
        ) && value_order(row, highest(rows)->0) != Some(Order::Greater),
{
    lemma_bounds_occur(rows);
    if lowest(rows) is Some {
        let v = lowest(rows)->0;
        assert(rows.contains(Some(v)) && orderable(v));
    }
    if exists|v: ValueModel| #[trigger] rows.contains(Some(v)) && orderable(v) {
        let v = choose|v: ValueModel| #[trigger] rows.contains(Some(v)) && orderable(v);
        lemma_bounds_exist(rows, v);
    }
    if rows.contains(Some(row)) && orderable(row) {
        lemma_bounds_enclose(rows, row, row);
    }
}

proof fn lemma_bounds_exist(rows: Seq<Option<ValueModel>>, v: ValueModel)
    requires
        rows.contains(Some(v)),
        orderable(v),
    ensures
        lowest(rows) is Some,
        highest(rows) is Some,
    decreases rows.len(),
{
    let i = choose|i: int| 0 <= i < rows.len() && rows[i] == Some(v);
    let shorter = rows.drop_last();
    if i < rows.len() - 1 {
        assert(shorter[i] == Some(v));
        lemma_bounds_exist(shorter, v);
    }
}

/// A row moves a bound only if it goes beyond it, so that the earliest of equal values
/// stays. Nulls and values without an order move none, and nulls are counted.
pub proof fn law_one_more_row(rows: Seq<Option<ValueModel>>, v: ValueModel)
    ensures
        lowest(Seq::empty()) is None && highest(Seq::empty()) is None && nulls_in(Seq::empty())
            == 0,
        lowest(rows.push(None)) == lowest(rows),
        highest(rows.push(None)) == highest(rows),
        nulls_in(rows.push(None)) == nulls_in(rows) + 1,
        nulls_in(rows.push(Some(v))) == nulls_in(rows),
        !orderable(v) ==> lowest(rows.push(Some(v))) == lowest(rows) && highest(
            rows.push(Some(v)),
        ) == highest(rows),
        orderable(v) && lowest(rows) is None ==> lowest(rows.push(Some(v))) == Some(v),
        orderable(v) && highest(rows) is None ==> highest(rows.push(Some(v))) == Some(v),
        orderable(v) && lowest(rows) is Some ==> lowest(rows.push(Some(v))) == (if value_order(
            v,
            lowest(rows)->0,
        ) == Some(Order::Less) {
            Some(v)
        } else {
            lowest(rows)
        }),
        orderable(v) && highest(rows) is Some ==> highest(rows.push(Some(v))) == (if value_order(
            v,
            highest(rows)->0,
        ) == Some(Order::Greater) {
            Some(v)
        } else {
            highest(rows)
        }),
{
    assert(rows.push(None).drop_last() =~= rows);
    assert(rows.push(Some(v)).drop_last() =~= rows);
}

/// Row `p` stands in block `p / block_rows`, at the place that is left over. Every block
/// that is not cut off by the end of the rows is full.
pub proof fn law_where_rows_stand(rows: Seq<Option<ValueModel>>, block_rows: nat, p: int)
    requires
        block_rows >= 1,
        0 <= p < rows.len(),
    ensures
        p % (block_rows as int) < block_of(rows, block_rows, p / (block_rows as int)).len()
            <= block_rows,
        block_of(rows, block_rows, p / (block_rows as int))[p % (block_rows as int)] == rows[p],
        (p / (block_rows as int) + 1) * block_rows <= rows.len() ==> block_of(
            rows,
            block_rows,
            p / (block_rows as int),
        ).len() == block_rows,
{
    let b = block_rows as int;
    lemma_fundamental_div_mod(p, b);
    let q = p / b;
    assert(q * b + p % b == p && (q + 1) * b == q * b + b && q * b >= 0) by (nonlinear_arith)
        requires
            p == b * q + p % b,
            b >= 1,
            q >= 0,
    ;
}

/// Skipping a block is safe: where the bounds of the rows say that a predicate
/// cannot match, no row matches it. This holds wherever the comparisons among
/// the rows and the value agree with each other.
pub proof fn law_skipping_is_safe(
    rows: Seq<Option<ValueModel>>,
    op: CompareOp,
    value: ValueModel,
    i: int,
)
    requires
        comparisons_agree(values_of(rows, value)),
        !might_match_spec(lowest(rows), highest(rows), nulls_in(rows), op, value),
        0 <= i < rows.len(),
    ensures
        rows[i] matches Some(row) ==> !row_matches(row, op, value),
{
    if let Some(row) = rows[i] {
        assert(rows.contains(Some(row)));
        let all = values_of(rows, value);
        lemma_bounds_occur(rows);
        if orderable(row) && value_order(row, value) is Some {
            lemma_bounds_enclose(rows, value, row);
            let lo = lowest(rows).unwrap();
            let hi = highest(rows).unwrap();
            assert(all.contains(row) && all.contains(value));
            law_value_order_flips(value, lo);
            law_value_order_flips(value, hi);
            law_value_order_flips(row, lo);
            law_value_order_flips(row, hi);
            law_value_order_flips(row, value);
            lemma_comparable_kinds(row, value, lo);
            lemma_comparable_kinds(row, value, hi);
            if row_matches(row, op, value) {
                match op {
                    CompareOp::Eq => {
                        assert(value_order(value, row) == Some(Order::Equal));
                        assert(value_order(value, lo) == value_order(row, lo));
                        assert(value_order(value, hi) == value_order(row, hi));
                    },
                    CompareOp::Ne => {
                        lemma_equal_values_compare(lo, value);
                        law_value_order_flips(lo, hi);
                        law_value_order_flips(lo, value);
                        assert(value_order(lo, value) == Some(Order::Equal));
                        assert(value_order(lo, row) == value_order(value, row));
                        assert(value_order(hi, lo) == Some(Order::Equal));
                        assert(value_order(hi, row) == value_order(lo, row));
                    },
                    CompareOp::Lt => {
                        assert(value_order(row, value) == Some(Order::Less));
                        assert(value_order(value, lo) == Some(Order::Less) || value_order(value, lo)
                            == Some(Order::Equal));
                        assert(value_order(row, lo) == Some(Order::Less));
                    },
                    CompareOp::Le => {
                        assert(value_order(value, lo) == Some(Order::Less));
                        if value_order(row, value) == Some(Order::Less) {
                            assert(value_order(row, lo) == Some(Order::Less));
                        } else {
                            assert(value_order(row, lo) == value_order(value, lo));
                        }
                    },
                    CompareOp::Gt => {
                        assert(value_order(value, row) == Some(Order::Less));
                        assert(value_order(hi, value) == Some(Order::Less) || value_order(hi, value)
                            == Some(Order::Equal));
                        if value_order(hi, value) == Some(Order::Less) {
                            assert(value_order(hi, row) == Some(Order::Less));
                        } else {
                            assert(value_order(hi, row) == value_order(value, row));
                        }
                    },
                    CompareOp::Ge => {
                        assert(value_order(hi, value) == Some(Order::Less));
                        assert(value_order(value, row) == Some(Order::Less) || value_order(
                            value,
                            row,
                        ) == Some(Order::Equal));
                        assert(value_order(hi, row) == Some(Order::Less));
                    },
                }
            }
        }
    }
}

/// Values that are equal and of a type with an order compare as equal, unless
/// they are no number.
proof fn lemma_equal_values_compare(a: ValueModel, b: ValueModel)
    requires
        values_equal(a, b),
        orderable(a),
    ensures
        value_order(a, b) == Some(Order::Equal),
{
    match a {
        ValueModel::String(s) => {
            crate::types::order::lemma_bytes_order_equal(encode_utf8(s), encode_utf8(s));
        },
        _ => {},
    }
}

/// A bound that does not compare with a value does not compare with a row that
/// does, unless the bound is no number.
proof fn lemma_comparable_kinds(row: ValueModel, value: ValueModel, bound: ValueModel)
    requires
        value_order(row, value) is Some,
    ensures
        value_order(bound, value) is Some <==> value_order(bound, row) is Some,
        value_order(value, bound) is Some <==> value_order(bound, value) is Some,
        value_order(row, bound) is Some <==> value_order(bound, row) is Some,
{
}

/// Where no row and no value is a double, comparisons agree, so that skipping is
/// always safe.
pub proof fn law_comparisons_agree_without_doubles(values: Set<ValueModel>)
    requires
        forall|v: ValueModel| #[trigger] values.contains(v) ==> !(v is Float64),
    ensures
        comparisons_agree(values),
{
    assert forall|a: ValueModel, b: ValueModel, c: ValueModel| #![trigger value_order(a, b), value_order(b, c)]
        values.contains(a) && values.contains(b) && values.contains(c) implies {
        &&& value_order(a, b) == Some(Order::Less) && (value_order(b, c) == Some(Order::Less)
            || value_order(b, c) == Some(Order::Equal)) ==> value_order(a, c) == Some(Order::Less)
        &&& value_order(a, b) == Some(Order::Equal) ==> value_order(a, c) == value_order(b, c)
    } by {
        match (a, b, c) {
            (ValueModel::String(x), ValueModel::String(y), ValueModel::String(z)) => {
                let (p, q, r) = (encode_utf8(x), encode_utf8(y), encode_utf8(z));
                lemma_bytes_order_equal(p, q);
                if value_order(a, b) == Some(Order::Less) && value_order(b, c) != Some(
                    Order::Greater,
                ) {
                    lemma_bytes_order_transitive(p, q, r);
                }
            },
            (ValueModel::String(x), ValueModel::String(y), _) => {},
            _ => {},
        }
    }
}

/// Where every integer is a double exactly, comparisons agree, so that skipping is
/// always safe.
pub proof fn law_comparisons_agree_for_exact_integers(values: Set<ValueModel>)
    requires
        forall|n: i64| #[trigger] values.contains(ValueModel::Int64(n)) ==> rounded_int(n as int)
            == n,
    ensures
        comparisons_agree(values),
{
    law_comparisons_agree_for_integers_told_apart(values);
}

/// Where no two integers round to the same double, comparisons agree, so that
/// skipping is always safe.
pub proof fn law_comparisons_agree_for_integers_told_apart(values: Set<ValueModel>)
    requires
        forall|m: i64, n: i64| #[trigger]
            values.contains(ValueModel::Int64(m)) && #[trigger] values.contains(
                ValueModel::Int64(n),
            ) && rounded_int(m as int) == rounded_int(n as int) ==> m == n,
    ensures
        comparisons_agree(values),
{
    assert forall|a: ValueModel, b: ValueModel, c: ValueModel| #![trigger value_order(a, b), value_order(b, c)]
        values.contains(a) && values.contains(b) && values.contains(c) implies {
        &&& value_order(a, b) == Some(Order::Less) && (value_order(b, c) == Some(Order::Less)
            || value_order(b, c) == Some(Order::Equal)) ==> value_order(a, c) == Some(Order::Less)
        &&& value_order(a, b) == Some(Order::Equal) ==> value_order(a, c) == value_order(b, c)
    } by {
        if a is String && b is String && c is String {
            let (p, q, r) = (
                encode_utf8(a->String_0),
                encode_utf8(b->String_0),
                encode_utf8(c->String_0),
            );
            lemma_bytes_order_equal(p, q);
            if value_order(a, b) == Some(Order::Less) && value_order(b, c) != Some(Order::Greater) {
                lemma_bytes_order_transitive(p, q, r);
            }
        } else if is_number(a) && is_number(b) && is_number(c) {
            lemma_number_order(a, b);
            lemma_number_order(b, c);
            lemma_number_order(a, c);
        }
    }
}

/// Whether a value is an integer or a double.
spec fn is_number(v: ValueModel) -> bool {
    v is Int64 || v is Float64
}

/// What a number is worth among doubles, in units of two to the minus 1074. A
/// double that is no number is worth nothing.
spec fn worth(v: ValueModel) -> Option<int> {
    match v {
        ValueModel::Int64(n) => Some(rounded_int(n as int) * pow2(1074)),
        ValueModel::Float64(bits) => if is_nan(bits) {
            None
        } else {
            Some(scaled(bits))
        },
        _ => None,
    }
}

/// Numbers compare by what they are worth, but for two integers that round to the
/// same double.
proof fn lemma_number_order(a: ValueModel, b: ValueModel)
    requires
        is_number(a),
        is_number(b),
        a is Int64 && b is Int64 && rounded_int(a->Int64_0 as int) == rounded_int(b->Int64_0 as int)
            ==> a == b,
    ensures
        value_order(a, b) == (match (worth(a), worth(b)) {
            (Some(x), Some(y)) => Some(int_order(x, y)),
            _ => None,
        }),
{
    match (a, b) {
        (ValueModel::Int64(x), ValueModel::Int64(y)) => {
            lemma_rounding_keeps_order(x, y);
            lemma_rounding_keeps_order(y, x);
        },
        _ => {},
    }
}

/// A larger integer is not worth less; it is worth more where the two round to
/// different doubles.
proof fn lemma_rounding_keeps_order(x: i64, y: i64)
    ensures
        x <= y ==> rounded_int(x as int) * pow2(1074) <= rounded_int(y as int) * pow2(1074),
        x < y && rounded_int(x as int) != rounded_int(y as int) ==> rounded_int(x as int) * pow2(
            1074,
        ) < rounded_int(y as int) * pow2(1074),
{
    if x <= y {
        law_rounding_is_monotone(x as int, y as int);
        lemma_pow2_pos(1074);
        if rounded_int(x as int) < rounded_int(y as int) {
            lemma_mul_strict_inequality(
                rounded_int(x as int),
                rounded_int(y as int),
                pow2(1074) as int,
            );
        }
    }
}

/// Whether two values are of one type.
pub open spec fn same_type(a: ValueModel, b: ValueModel) -> bool {
    match (a, b) {
        (ValueModel::Null, ValueModel::Null) => true,
        (ValueModel::Bool(_), ValueModel::Bool(_)) => true,
        (ValueModel::Int64(_), ValueModel::Int64(_)) => true,
        (ValueModel::Float64(_), ValueModel::Float64(_)) => true,
        (ValueModel::String(_), ValueModel::String(_)) => true,
        (ValueModel::Other(_), ValueModel::Other(_)) => true,
        _ => false,
    }
}

/// Whether all rows that are not null are of one type.
pub open spec fn of_one_type(rows: Seq<Option<ValueModel>>) -> bool {
    forall|a: ValueModel, b: ValueModel| #[trigger]
        rows.contains(Some(a)) && #[trigger] rows.contains(Some(b)) ==> same_type(a, b)
}

/// Skipping a block whose rows are of one type is safe, whatever the value is:
/// integers beyond the exact doubles and a double, doubles and an integer that is
/// no double, and values of different types among them.
pub proof fn law_skipping_rows_of_one_type_is_safe(
    rows: Seq<Option<ValueModel>>,
    op: CompareOp,
    value: ValueModel,
    i: int,
)
    requires
        of_one_type(rows),
        !might_match_spec(lowest(rows), highest(rows), nulls_in(rows), op, value),
        0 <= i < rows.len(),
    ensures
        rows[i] matches Some(row) ==> !row_matches(row, op, value),
{
    if let Some(row) = rows[i] {
        assert(rows.contains(Some(row)));
        let all = values_of(rows, value);
        assert forall|v: ValueModel| all.contains(v) implies v == value || same_type(v, row) by {}
        if value_order(row, value) is Some {
            if row is Int64 && value is Float64 {
                lemma_skipping_integers_is_safe(rows, op, value, row);
            } else if row is Float64 {
                law_comparisons_agree_for_integers_told_apart(all);
                law_skipping_is_safe(rows, op, value, i);
            } else {
                law_comparisons_agree_without_doubles(all);
                law_skipping_is_safe(rows, op, value, i);
            }
        }
    }
}

/// Where the rows are integers and the value is a double, the bounds enclose the
/// rows exactly, and rounding keeps them enclosed.
proof fn lemma_skipping_integers_is_safe(
    rows: Seq<Option<ValueModel>>,
    op: CompareOp,
    value: ValueModel,
    row: ValueModel,
)
    requires
        of_one_type(rows),
        !might_match_spec(lowest(rows), highest(rows), nulls_in(rows), op, value),
        rows.contains(Some(row)),
        row is Int64,
        value is Float64,
    ensures
        !row_matches(row, op, value),
{
    let among = values_of(rows, row);
    assert forall|v: ValueModel| #[trigger] among.contains(v) implies !(v is Float64) by {
        assert(v == row || same_type(v, row));
    }
    law_comparisons_agree_without_doubles(among);
    lemma_bounds_enclose(rows, row, row);
    let lo = lowest(rows).unwrap();
    let hi = highest(rows).unwrap();
    assert(same_type(lo, row) && same_type(hi, row));
    lemma_rounding_keeps_order(lo->Int64_0, row->Int64_0);
    lemma_rounding_keeps_order(row->Int64_0, hi->Int64_0);
}

/// The number that the two's complement bits of `n` stand for without sign.
pub open spec fn unsigned(n: i64) -> nat {
    if n >= 0 {
        n as nat
    } else {
        (n + 0x1_0000_0000_0000_0000) as nat
    }
}

/// The number whose two's complement bits are those of `n`.
pub open spec fn signed(n: nat) -> int {
    if n < 0x8000_0000_0000_0000 {
        n as int
    } else {
        n - 0x1_0000_0000_0000_0000
    }
}

/// A number below two to the 63 has its own bits as a signed one, and any other those of
/// the number that is two to the 64 less. The two ways undo each other.
pub proof fn law_signed_and_unsigned(n: nat, m: i64)
    ensures
        n < 0x8000_0000_0000_0000 ==> signed(n) == n,
        0x8000_0000_0000_0000 <= n < 0x1_0000_0000_0000_0000 ==> signed(n) == n
            - 0x1_0000_0000_0000_0000,
        signed(unsigned(m)) == m,
{
}

/// What a bound is after it was written and read: integers, truth values and
/// strings of at most `u32::MAX` bytes survive, everything else is absent.
pub open spec fn persisted(v: Option<ValueModel>) -> Option<ValueModel> {
    match v {
        Some(ValueModel::Int64(_)) => v,
        Some(ValueModel::Bool(_)) => v,
        Some(ValueModel::String(s)) => if encode_utf8(s).len() <= u32::MAX {
            v
        } else {
            None
        },
        _ => None,
    }
}

/// The inline form of a bound: a tag and the value.
pub open spec fn inline_bytes(v: Option<ValueModel>) -> Seq<u8> {
    match persisted(v) {
        Some(ValueModel::Int64(n)) => seq![1u8] + le_bytes(unsigned(n), 8),
        Some(ValueModel::Bool(b)) => seq![
            2u8,
            if b {
                1u8
            } else {
                0u8
            },
        ],
        Some(ValueModel::String(s)) => seq![3u8] + le_bytes(encode_utf8(s).len(), 4) + encode_utf8(
            s,
        ),
        _ => seq![0u8],
    }
}

/// A count as it is written: what does not fit is cut to the largest.
pub open spec fn saturated(n: nat) -> nat {
    if n <= u32::MAX {
        n
    } else {
        u32::MAX as nat
    }
}

/// The inline form of a zone map.
pub open spec fn zone_bytes(
    min: Option<ValueModel>,
    max: Option<ValueModel>,
    null_count: nat,
    row_count: nat,
) -> Seq<u8> {
    le_bytes(saturated(null_count), 4) + le_bytes(saturated(row_count), 4) + inline_bytes(min)
        + inline_bytes(max)
}

/// Written down, a bound is a tag and its value: one and eight bytes for an integer, two
/// and one byte for a truth value, three and the length and the bytes of a string, and
/// zero where there is none. Doubles and values of other types are written as none.
pub proof fn law_layout_of_bounds(n: i64, b: bool, s: Seq<char>, bits: u64, v: ValueModel)
    ensures
        inline_bytes(None) == seq![0u8],
        inline_bytes(Some(ValueModel::Int64(n))) == seq![1u8] + le_bytes(
            (if n >= 0 {
                n as int
            } else {
                n + 0x1_0000_0000_0000_0000
            }) as nat,
            8,
        ),
        inline_bytes(Some(ValueModel::Bool(true))) == seq![2u8, 1u8],
        inline_bytes(Some(ValueModel::Bool(false))) == seq![2u8, 0u8],
        encode_utf8(s).len() <= 0xffff_ffff ==> inline_bytes(Some(ValueModel::String(s))) == seq![
            3u8,
        ] + le_bytes(encode_utf8(s).len(), 4) + encode_utf8(s),
        encode_utf8(s).len() > 0xffff_ffff ==> inline_bytes(Some(ValueModel::String(s))) == seq![
            0u8,
        ],
        v is Float64 || v is Null || v is Other ==> inline_bytes(Some(v)) == seq![0u8],
{
}

/// Written down, a zone map is the number of nulls and the number of rows, four bytes
/// each and the largest that these hold where there are more, and then its smallest and
/// its largest value.
pub proof fn law_layout_of_zone_maps(
    min: Option<ValueModel>,
    max: Option<ValueModel>,
    nulls: nat,
    rows: nat,
)
    ensures
        nulls <= 0xffff_ffff ==> zone_bytes(min, max, nulls, rows).subrange(0, 4) == le_bytes(
            nulls,
            4,
        ),
        nulls > 0xffff_ffff ==> zone_bytes(min, max, nulls, rows).subrange(0, 4) == le_bytes(
            0xffff_ffff,
            4,
        ),
        rows <= 0xffff_ffff ==> zone_bytes(min, max, nulls, rows).subrange(4, 8) == le_bytes(
            rows,
            4,
        ),
        rows > 0xffff_ffff ==> zone_bytes(min, max, nulls, rows).subrange(4, 8) == le_bytes(
            0xffff_ffff,
            4,
        ),
        zone_bytes(min, max, nulls, rows).skip(8) == inline_bytes(min) + inline_bytes(max),
{
    let all = zone_bytes(min, max, nulls, rows);
    lemma_le_bytes_len(saturated(nulls), 4);
    lemma_le_bytes_len(saturated(rows), 4);
    assert(all.subrange(0, 4) =~= le_bytes(saturated(nulls), 4));
    assert(all.subrange(4, 8) =~= le_bytes(saturated(rows), 4));
    assert(all.skip(8) =~= inline_bytes(min) + inline_bytes(max));
}

/// Why bytes are no bound, and what is said of them.
pub proof fn law_why_bounds_are_rejected(data: Seq<u8>, pos: int)
    requires
        0 <= pos,
    ensures
        pos >= data.len() ==> value_at(data, pos).0 == Err::<Option<ValueModel>, Seq<char>>(
            "truncated zone map value tag"@,
        ),
        pos < data.len() && data[pos] > 3 ==> value_at(data, pos).0 == Err::<
            Option<ValueModel>,
            Seq<char>,
        >("unknown zone map value tag"@),
        pos < data.len() < pos + 9 && data[pos] == 1 ==> value_at(data, pos).0 == Err::<
            Option<ValueModel>,
            Seq<char>,
        >("truncated zone map Int64"@),
        pos + 1 == data.len() && data[pos] == 2 ==> value_at(data, pos).0 == Err::<
            Option<ValueModel>,
            Seq<char>,
        >("truncated zone map Bool"@),
        pos < data.len() < pos + 5 && data[pos] == 3 ==> value_at(data, pos).0 == Err::<
            Option<ValueModel>,
            Seq<char>,
        >("truncated zone map u32"@),
        pos + 5 <= data.len() && data[pos] == 3 && data.len() < pos + 5 + le_value(
            data.subrange(pos + 1, pos + 5),
        ) ==> value_at(data, pos).0 == Err::<Option<ValueModel>, Seq<char>>(
            "truncated zone map String"@,
        ),
        pos + 5 <= data.len() && data[pos] == 3 && data.len() >= pos + 5 + le_value(
            data.subrange(pos + 1, pos + 5),
        ) && !valid_utf8(
            data.subrange(pos + 5, pos + 5 + le_value(data.subrange(pos + 1, pos + 5))),
        ) ==> value_at(data, pos).0 == Err::<Option<ValueModel>, Seq<char>>(
            "invalid UTF-8 in zone map String"@,
        ),
{
}

/// Reading four bytes at `pos`: the outcome and the position after it.
pub open spec fn u32_at(data: Seq<u8>, pos: int) -> (Result<nat, Seq<char>>, int) {
    if pos + 4 > data.len() {
        (Err("truncated zone map u32"@), pos)
    } else {
        (Ok(le_value(data.subrange(pos, pos + 4))), pos + 4)
    }
}

/// Reading a bound at `pos`: the outcome and the position after it.
pub open spec fn value_at(data: Seq<u8>, pos: int) -> (
    Result<Option<ValueModel>, Seq<char>>,
    int,
) {
    if pos >= data.len() {
        (Err("truncated zone map value tag"@), pos)
    } else if data[pos] == 0 {
        (Ok(None), pos + 1)
    } else if data[pos] == 1 {
        if pos + 9 > data.len() {
            (Err("truncated zone map Int64"@), pos + 1)
        } else {
            let n = signed(le_value(data.subrange(pos + 1, pos + 9)));
            (Ok(Some(ValueModel::Int64(n as i64))), pos + 9)
        }
    } else if data[pos] == 2 {
        if pos + 1 >= data.len() {
            (Err("truncated zone map Bool"@), pos + 1)
        } else {
            (Ok(Some(ValueModel::Bool(data[pos + 1] != 0))), pos + 2)
        }
    } else if data[pos] == 3 {
        match u32_at(data, pos + 1) {
            (Err(e), p) => (Err(e), p),
            (Ok(len), p) => if p + len > data.len() {
                (Err("truncated zone map String"@), p)
            } else if !valid_utf8(data.subrange(p, p + len)) {
                (Err("invalid UTF-8 in zone map String"@), p)
            } else {
                (
                    Ok(Some(ValueModel::String(decode_utf8(data.subrange(p, p + len))))),
                    p + len,
                )
            },
        }
    } else {
        (Err("unknown zone map value tag"@), pos + 1)
    }
}

/// What a zone map holds: its bounds, its nulls and its rows.
#[verifier::ext_equal]
pub struct ZoneModel {
    pub min: Option<ValueModel>,
    pub max: Option<ValueModel>,
    pub null_count: nat,
    pub row_count: nat,
}

/// Reading a zone map at `pos`: the outcome and the position after it.
pub open spec fn zone_at(data: Seq<u8>, pos: int) -> (Result<ZoneModel, Seq<char>>, int) {
    match u32_at(data, pos) {
        (Err(e), p) => (Err(e), p),
        (Ok(null_count), p) => match u32_at(data, p) {
            (Err(e), p) => (Err(e), p),
            (Ok(row_count), p) => match value_at(data, p) {
                (Err(e), p) => (Err(e), p),
                (Ok(min), p) => match value_at(data, p) {
                    (Err(e), p) => (Err(e), p),
                    (Ok(max), p) => (Ok(ZoneModel { min, max, null_count, row_count }), p),
                },
            },
        },
    }
}

proof fn lemma_u32_round_trip(before: Seq<u8>, n: nat, after: Seq<u8>)
    requires
        n <= u32::MAX,
    ensures
        u32_at(before + le_bytes(n, 4) + after, before.len() as int) == (
            Ok::<nat, Seq<char>>(n),
            (before.len() + 4) as int,
        ),
{
    lemma_le_bytes_len(n, 4);
    lemma_pow256();
    lemma_le_value_of_bytes(n, 4);
    let data = before + le_bytes(n, 4) + after;
    let pos = before.len() as int;
    assert(data.subrange(pos, pos + 4) =~= le_bytes(n, 4));
}

/// Reading a bound where it was written gives what survives of it, and leaves the
/// position right after it.
pub proof fn law_bound_round_trip(before: Seq<u8>, v: Option<ValueModel>, after: Seq<u8>)
    ensures
        value_at(before + inline_bytes(v) + after, before.len() as int) == (
            Ok::<Option<ValueModel>, Seq<char>>(persisted(v)),
            (before.len() + inline_bytes(v).len()) as int,
        ),
{
    let data = before + inline_bytes(v) + after;
    let pos = before.len() as int;
    lemma_pow256();
    match persisted(v) {
        Some(ValueModel::Int64(n)) => {
            lemma_le_bytes_len(unsigned(n), 8);
            lemma_le_value_of_bytes(unsigned(n), 8);
            assert(data[pos] == 1);
            assert(data.subrange(pos + 1, pos + 9) =~= le_bytes(unsigned(n), 8));
            assert(signed(unsigned(n)) == n);
        },
        Some(ValueModel::Bool(b)) => {
            assert(data[pos] == 2);
            assert(data[pos + 1] == if b {
                1u8
            } else {
                0u8
            });
        },
        Some(ValueModel::String(s)) => {
            let text = encode_utf8(s);
            lemma_le_bytes_len(text.len(), 4);
            assert(data[pos] == 3);
            assert(data =~= (before + seq![3u8]) + le_bytes(text.len(), 4) + (text + after));
            lemma_u32_round_trip(before + seq![3u8], text.len(), text + after);
            assert(data.subrange(pos + 5, pos + 5 + text.len()) =~= text);
            vstd::utf8::encode_utf8_valid_utf8(s);
            vstd::utf8::encode_utf8_decode_utf8(s);
        },
        _ => {
            assert(data[pos] == 0);
        },
    }
}

/// Reading a zone map where it was written gives what survives of it, and leaves
/// the position right after it, whatever comes before and after.
pub proof fn law_zone_map_round_trip(before: Seq<u8>, zone: ZoneModel, after: Seq<u8>)
    ensures
        zone_at(
            before + zone_bytes(zone.min, zone.max, zone.null_count, zone.row_count) + after,
            before.len() as int,
        ) == (
            Ok::<ZoneModel, Seq<char>>(
                ZoneModel {
                    min: persisted(zone.min),
                    max: persisted(zone.max),
                    null_count: saturated(zone.null_count),
                    row_count: saturated(zone.row_count),
                },
            ),
            (before.len() + zone_bytes(
                zone.min,
                zone.max,
                zone.null_count,
                zone.row_count,
            ).len()) as int,
        ),
{
    let a = le_bytes(saturated(zone.null_count), 4);
    let b = le_bytes(saturated(zone.row_count), 4);
    let c = inline_bytes(zone.min);
    let d = inline_bytes(zone.max);
    let data = before + zone_bytes(zone.min, zone.max, zone.null_count, zone.row_count) + after;
    lemma_le_bytes_len(saturated(zone.null_count), 4);
    lemma_le_bytes_len(saturated(zone.row_count), 4);
    assert(data =~= before + a + (b + c + d + after));
    lemma_u32_round_trip(before, saturated(zone.null_count), b + c + d + after);
    assert(data =~= (before + a) + b + (c + d + after));
    lemma_u32_round_trip(before + a, saturated(zone.row_count), c + d + after);
    assert(data =~= (before + a + b) + c + (d + after));
    law_bound_round_trip(before + a + b, zone.min, d + after);
    assert(data =~= (before + a + b + c) + d + after);
    law_bound_round_trip(before + a + b + c, zone.max, after);
}

proof fn lemma_cut_bound_is_rejected(before: Seq<u8>, v: Option<ValueModel>, k: int)
    requires
        0 <= k < inline_bytes(v).len(),
    ensures
        value_at(before + inline_bytes(v).take(k), before.len() as int).0 is Err,
{
    let cut = inline_bytes(v).take(k);
    let data = before + cut;
    let pos = before.len() as int;
    if k > 0 {
        assert(data[pos] == inline_bytes(v)[0]);
        match persisted(v) {
            Some(ValueModel::Int64(n)) => {
                lemma_le_bytes_len(unsigned(n), 8);
            },
            Some(ValueModel::String(s)) => {
                let text = encode_utf8(s);
                lemma_le_bytes_len(text.len(), 4);
                if k >= 5 {
                    assert(data =~= (before + seq![3u8]) + le_bytes(text.len(), 4) + text.take(
                        k - 5,
                    ));
                    lemma_u32_round_trip(before + seq![3u8], text.len(), text.take(k - 5));
                }
            },
            _ => {},
        }
    }
}

/// A zone map that was cut short is rejected, wherever the cut is and whatever
/// comes before.
pub proof fn law_cut_zone_map_is_rejected(before: Seq<u8>, zone: ZoneModel, k: int)
    requires
        0 <= k < zone_bytes(zone.min, zone.max, zone.null_count, zone.row_count).len(),
    ensures
        zone_at(
            before + zone_bytes(zone.min, zone.max, zone.null_count, zone.row_count).take(k),
            before.len() as int,
        ).0 is Err,
{
    let a = le_bytes(saturated(zone.null_count), 4);
    let b = le_bytes(saturated(zone.row_count), 4);
    let c = inline_bytes(zone.min);
    let d = inline_bytes(zone.max);
    let cut = zone_bytes(zone.min, zone.max, zone.null_count, zone.row_count).take(k);
    let data = before + cut;
    lemma_le_bytes_len(saturated(zone.null_count), 4);
    lemma_le_bytes_len(saturated(zone.row_count), 4);
    if k >= 4 {
        assert(data =~= before + a + cut.skip(4));
        lemma_u32_round_trip(before, saturated(zone.null_count), cut.skip(4));
    }
    if k >= 8 {
        assert(data =~= (before + a) + b + cut.skip(8));
        lemma_u32_round_trip(before + a, saturated(zone.row_count), cut.skip(8));
        if k < 8 + c.len() {
            assert(data =~= (before + a + b) + c.take(k - 8));
            lemma_cut_bound_is_rejected(before + a + b, zone.min, k - 8);
        } else {
            let rest = d.take(k - 8 - c.len());
            assert(data =~= (before + a + b) + c + rest);
            law_bound_round_trip(before + a + b, zone.min, rest);
            assert(data =~= (before + a + b + c) + rest);
            lemma_cut_bound_is_rejected(before + a + b + c, zone.max, k - 8 - c.len());
        }
    }
}

/// Per-column statistics for skip pruning.
///
/// A zone map tracks the range of the values of a column. If
/// [`might_match`](Self::might_match) returns `false`, no row matches the
/// predicate.
pub struct ZoneMap {
    /// Smallest value, or `None` if the column has no value that is not null.
    pub min: Option<Value>,
    /// Largest value, or `None` if the column has no value that is not null.
    pub max: Option<Value>,
    /// Number of nulls.
    pub null_count: usize,
    /// Number of rows.
    pub row_count: usize,
}

impl View for ZoneMap {
    type V = ZoneModel;

    open spec fn view(&self) -> ZoneModel {
        ZoneModel {
            min: option_view(self.min),
            max: option_view(self.max),
            null_count: self.null_count as nat,
            row_count: self.row_count as nat,
        }
    }
}

impl Default for ZoneMap {
    fn default() -> (r: Self)
        ensures
            r@ == (ZoneModel { min: None, max: None, null_count: 0, row_count: 0 }),
    {
        ZoneMap { min: None, max: None, null_count: 0, row_count: 0 }
    }
}

impl Clone for ZoneMap {
    fn clone(&self) -> (r: Self)
        ensures
            r@ == self@,
    {
        ZoneMap {
            min: clone_bound(&self.min),
            max: clone_bound(&self.max),
            null_count: self.null_count,
            row_count: self.row_count,
        }
    }
}

fn clone_bound(v: &Option<Value>) -> (r: Option<Value>)
    ensures
        option_view(r) == option_view(*v),
{
    match v {
        Some(x) => Some(x.clone()),
        None => None,
    }
}

impl ZoneMap {
    /// Creates a zone map without statistics.
    #[must_use]
    pub fn new() -> (r: Self)
        ensures
            r@ == (ZoneModel { min: None, max: None, null_count: 0, row_count: 0 }),
    {
        Self::default()
    }

    /// Whether the predicate `column <op> value` might match any row.
    ///
    /// The answer is cautious: `true` promises nothing, `false` promises that no
    /// row matches. Without bounds, and where the value does not compare with
    /// them, it is `true`.
    #[must_use]
    pub fn might_match(&self, op: CompareOp, value: &Value) -> (r: bool)
        ensures
            r == might_match_spec(self@.min, self@.max, self@.null_count, op, value@),
    {
        let (min, max) = match (&self.min, &self.max) {
            (Some(min), Some(max)) => (min, max),
            _ => return true,
        };
        match op {
            CompareOp::Eq => {
                let below: bool = match compare_values(value, min) {
                    Some(Order::Less) => true,
                    _ => false,
                };
                let above: bool = match compare_values(value, max) {
                    Some(Order::Greater) => true,
                    _ => false,
                };
                !below && !above
            },
            CompareOp::Ne => {
                if self.null_count > 0 {
                    return true;
                }
                let all_same: bool = match compare_values(min, max) {
                    Some(Order::Equal) => true,
                    _ => false,
                };
                !(all_same && *min == *value)
            },
            CompareOp::Lt => match compare_values(min, value) {
                Some(o) => o == Order::Less,
                None => true,
            },
            CompareOp::Le => match compare_values(min, value) {
                Some(o) => o != Order::Greater,
                None => true,
            },
            CompareOp::Gt => match compare_values(max, value) {
                Some(o) => o == Order::Greater,
                None => true,
            },
            CompareOp::Ge => match compare_values(max, value) {
                Some(o) => o != Order::Less,
                None => true,
            },
        }
    }

    /// Appends the inline form: the null count and the row count as four bytes
    /// each, then the two bounds with a tag each. Integers, truth values and
    /// strings are written; other bounds are written as absent.
    pub fn write_inline(&self, buf: &mut Vec<u8>)
        ensures
            final(buf)@ == old(buf)@ + zone_bytes(
                self@.min,
                self@.max,
                self@.null_count,
                self@.row_count,
            ),
    {
        let ghost start = buf@;
        push_u32_le(buf, saturate(self.null_count));
        push_u32_le(buf, saturate(self.row_count));
        write_inline_value(buf, &self.min);
        write_inline_value(buf, &self.max);
        assert(buf@ =~= start + zone_bytes(
            self@.min,
            self@.max,
            self@.null_count,
            self@.row_count,
        ));
    }

    /// Reads the inline form at `pos` and moves `pos` past what was read.
    pub fn read_inline(data: &[u8], pos: &mut usize) -> (r: Result<Self, &'static str>)
        ensures
            match r {
                Ok(zone) => zone_at(data@, *old(pos) as int) == (
                    Ok::<ZoneModel, Seq<char>>(zone@),
                    *final(pos) as int,
                ),
                Err(e) => zone_at(data@, *old(pos) as int) == (
                    Err::<ZoneModel, Seq<char>>(e@),
                    *final(pos) as int,
                ),
            },
    {
        let null_count: u32 = match read_inline_u32(data, pos) {
            Ok(n) => n,
            Err(e) => return Err(e),
        };
        let row_count: u32 = match read_inline_u32(data, pos) {
            Ok(n) => n,
            Err(e) => return Err(e),
        };
        let min: Option<Value> = match read_inline_value(data, pos) {
            Ok(v) => v,
            Err(e) => return Err(e),
        };
        let max: Option<Value> = match read_inline_value(data, pos) {
            Ok(v) => v,
            Err(e) => return Err(e),
        };
        Ok(
            ZoneMap {
                min,
                max,
                null_count: null_count as usize,
                row_count: row_count as usize,
            },
        )
    }
}

/// Cuts a count to what four bytes hold.
fn saturate(n: usize) -> (r: u32)
    ensures
        r == saturated(n as nat),
{
    if n as u64 <= u32::MAX as u64 {
        n as u32
    } else {
        u32::MAX
    }
}

/// Appends the inline form of a bound.
fn write_inline_value(buf: &mut Vec<u8>, v: &Option<Value>)
    ensures
        final(buf)@ == old(buf)@ + inline_bytes(option_view(*v)),
{
    let ghost start = buf@;
    match v {
        None => buf.push(0),
        Some(Value::Int64(n)) => {
            buf.push(1);
            let x: i64 = *n;
            let bits: u64 = x as u64;
            proof {
                assert(x >= 0 ==> bits as int == x as int);
                assert(x < 0 ==> (x as u64) as int == x as int + 0x1_0000_0000_0000_0000)
                    by (bit_vector);
            }
            push_u64_le(buf, bits);
        },
        Some(Value::Bool(b)) => {
            buf.push(2);
            buf.push(
                if *b {
                    1
                } else {
                    0
                },
            );
        },
        Some(Value::String(s)) => {
            let bytes: &[u8] = s.as_str().as_bytes();
            if bytes.len() as u64 <= u32::MAX as u64 {
                buf.push(3);
                push_u32_le(buf, bytes.len() as u32);
                buf.extend_from_slice(bytes);
            } else {
                buf.push(0);
            }
        },
        Some(_) => buf.push(0),
    }
    assert(buf@ =~= start + inline_bytes(option_view(*v)));
}

/// Reads a bound at `pos` and moves `pos` past what was read.
fn read_inline_value(data: &[u8], pos: &mut usize) -> (r: Result<Option<Value>, &'static str>)
    ensures
        match r {
            Ok(v) => value_at(data@, *old(pos) as int) == (
                Ok::<Option<ValueModel>, Seq<char>>(option_view(v)),
                *final(pos) as int,
            ),
            Err(e) => value_at(data@, *old(pos) as int) == (
                Err::<Option<ValueModel>, Seq<char>>(e@),
                *final(pos) as int,
            ),
        },
{
    let start: usize = *pos;
    if start >= data.len() {
        return Err("truncated zone map value tag");
    }
    let tag: u8 = data[start];
    *pos = start + 1;
    match tag {
        0 => Ok(None),
        1 => {
            if data.len() - start < 9 {
                return Err("truncated zone map Int64");
            }
            let bits: u64 = read_u64_le(data, start + 1);
            proof {
                assert(bits >= 0x8000_0000_0000_0000u64 ==> (bits as i64) as int == bits as int
                    - 0x1_0000_0000_0000_0000) by (bit_vector);
                assert(bits < 0x8000_0000_0000_0000u64 ==> (bits as i64) as int == bits as int)
                    by (bit_vector);
            }
            *pos = start + 9;
            Ok(Some(Value::Int64(bits as i64)))
        },
        2 => {
            if start + 1 >= data.len() {
                return Err("truncated zone map Bool");
            }
            let b: u8 = data[start + 1];
            *pos = start + 2;
            Ok(Some(Value::Bool(b != 0)))
        },
        3 => {
            let len: u32 = match read_inline_u32(data, pos) {
                Ok(n) => n,
                Err(e) => return Err(e),
            };
            let text_start: usize = *pos;
            if ((data.len() - text_start) as u64) < (len as u64) {
                return Err("truncated zone map String");
            }
            let text: &[u8] = vstd::slice::slice_subrange(
                data,
                text_start,
                text_start + len as usize,
            );
            match str_from_utf8(text) {
                Some(s) => {
                    *pos = text_start + len as usize;
                    Ok(Some(Value::String(arcstr_from(s))))
                },
                None => Err("invalid UTF-8 in zone map String"),
            }
        },
        _ => Err("unknown zone map value tag"),
    }
}

/// Reads four bytes at `pos` and moves `pos` past them.
fn read_inline_u32(data: &[u8], pos: &mut usize) -> (r: Result<u32, &'static str>)
    ensures
        match r {
            Ok(n) => u32_at(data@, *old(pos) as int) == (
                Ok::<nat, Seq<char>>(n as nat),
                *final(pos) as int,
            ),
            Err(e) => u32_at(data@, *old(pos) as int) == (
                Err::<nat, Seq<char>>(e@),
                *final(pos) as int,
            ),
        },
        r is Ok ==> *final(pos) <= data@.len(),
{
    let start: usize = *pos;
    if start > data.len() || data.len() - start < 4 {
        return Err("truncated zone map u32");
    }
    let n: u32 = read_u32_le(data, start);
    *pos = start + 4;
    Ok(n)
}

/// Computes the zone map of each block of a column: the bounds of the values
/// that have an order, and the numbers of nulls and of rows.
///
/// A column without rows has a single block without rows.
#[must_use]
pub fn compute_block_zone_maps(codec: &ColumnCodec) -> (r: Vec<ZoneMap>)
    ensures
        r@.len() == codec.blocks(),
        forall|i: int| #![trigger r@[i]]
            0 <= i < r@.len() ==> {
                let block = block_of(codec.rows(), codec.rows_per_block(), i);
                &&& r@[i]@.min == lowest(block)
                &&& r@[i]@.max == highest(block)
                &&& r@[i]@.null_count == nulls_in(block)
                &&& r@[i]@.row_count == block.len()
            },
{
    let block_count: usize = codec.block_count();
    let block_rows: usize = codec.block_rows();
    let len: usize = codec.len();
    let mut result: Vec<ZoneMap> = Vec::new();
    let mut i: usize = 0;
    let mut start: usize = 0;
    let ghost rows = codec.rows();
    assert(0 * (block_rows as int) == 0) by (nonlinear_arith);
    while i < block_count
        invariant
            i <= block_count == codec.blocks(),
            rows == codec.rows(),
            block_rows == codec.rows_per_block(),
            block_rows >= 1,
            len == rows.len(),
            i < block_count ==> start == i * block_rows,
            i < block_count ==> start <= len,
            result@.len() == i,
            forall|k: int| #![trigger result@[k]]
                0 <= k < i ==> {
                    let block = block_of(rows, block_rows as nat, k);
                    &&& result@[k]@.min == lowest(block)
                    &&& result@[k]@.max == highest(block)
                    &&& result@[k]@.null_count == nulls_in(block)
                    &&& result@[k]@.row_count == block.len()
                },
        decreases block_count - i,
    {
        let end: usize = if block_rows <= len - start {
            start + block_rows
        } else {
            len
        };
        let ghost block = block_of(rows, block_rows as nat, i as int);
        proof {
            assert((i + 1) * block_rows == i * block_rows + block_rows) by (nonlinear_arith);
            assert(block =~= rows.subrange(start as int, end as int));
        }
        let mut zm = ZoneMap { min: None, max: None, null_count: 0, row_count: end - start };
        let mut j: usize = start;
        assert(block.take(0) =~= Seq::<Option<ValueModel>>::empty());
        while j < end
            invariant
                start <= j <= end <= len == rows.len(),
                rows == codec.rows(),
                block == rows.subrange(start as int, end as int),
                zm@.min == lowest(block.take(j - start)),
                zm@.max == highest(block.take(j - start)),
                zm@.null_count == nulls_in(block.take(j - start)),
                zm@.null_count <= j - start,
                zm@.row_count == end - start,
            decreases end - j,
        {
            proof {
                let next = block.take(j - start + 1);
                assert(next.drop_last() =~= block.take(j - start));
                assert(next.last() == rows[j as int]);
            }
            match codec.get(j) {
                Some(value) => update_block_min_max(&mut zm, &value),
                None => {
                    zm.null_count = zm.null_count + 1;
                },
            }
            j = j + 1;
        }
        assert(block.take(end - start) =~= block);
        result.push(zm);
        proof {
            if i + 1 < block_count {
                let n = rows.len() - 1;
                vstd::arithmetic::div_mod::lemma_fundamental_div_mod(n, block_rows as int);
                assert((i + 1) * block_rows <= n) by (nonlinear_arith)
                    requires
                        n == block_rows * (n / block_rows as int) + n % block_rows as int,
                        n % block_rows as int >= 0,
                        i + 1 <= n / block_rows as int,
                        block_rows >= 1,
                ;
                vstd::arithmetic::div_mod::lemma_mod_bound(n, block_rows as int);
            }
        }
        start = end;
        i = i + 1;
    }
    result
}

/// Widens the bounds so that they take in one more value. Values without an
/// order leave them as they are.
fn update_block_min_max(zm: &mut ZoneMap, value: &Value)
    ensures
        final(zm)@.null_count == old(zm)@.null_count,
        final(zm)@.row_count == old(zm)@.row_count,
        final(zm)@.min == if !orderable(value@) {
            old(zm)@.min
        } else {
            match old(zm)@.min {
                Some(b) => if value_order(value@, b) == Some(Order::Less) {
                    Some(value@)
                } else {
                    old(zm)@.min
                },
                None => Some(value@),
            }
        },
        final(zm)@.max == if !orderable(value@) {
            old(zm)@.max
        } else {
            match old(zm)@.max {
                Some(b) => if value_order(value@, b) == Some(Order::Greater) {
                    Some(value@)
                } else {
                    old(zm)@.max
                },
                None => Some(value@),
            }
        },
{
    if !is_orderable(value) {
        return;
    }
    let smaller: bool = match &zm.min {
        Some(current) => match compare_values(value, current) {
            Some(Order::Less) => true,
            _ => false,
        },
        None => true,
    };
    if smaller {
        zm.min = Some(value.clone());
    }
    let larger: bool = match &zm.max {
        Some(current) => match compare_values(value, current) {
            Some(Order::Greater) => true,
            _ => false,
        },
        None => true,
    };
    if larger {
        zm.max = Some(value.clone());
    }
}

} // verus!
