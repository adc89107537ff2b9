//! Sorting: a pipeline breaker that buffers all rows and hands them out in
//! order once the input has ended.

use vstd::prelude::*;
use vstd::utf8::encode_utf8;

use crate::execution::chunk::{chunk_from_rows, clone_row, DataChunk};
use crate::execution::chunk::{
    columns_of, law_columns_give_the_rows_back, row_of, rows_view, values_view,
};
use crate::execution::spill_state::OperatorSpillState;
use crate::types::order::Order;
use crate::types::value::{compare_values_total, Value};
use crate::types::value::{law_integers_are_ordered_by_size, law_strings_are_ordered_by_bytes};
use crate::types::value::{law_total_order, total_order, ValueModel};

verus! {

/// Sort direction.
#[derive(Debug, Clone, Copy, PartialEq, Eq, Structural)]
#[non_exhaustive]
pub enum SortDirection {
    /// Ascending order.
    Ascending,
    /// Descending order.
    Descending,
}

/// Where nulls go.
#[derive(Debug, Clone, Copy, PartialEq, Eq, Structural)]
#[non_exhaustive]
pub enum NullOrder {
    /// Nulls come first.
    First,
    /// Nulls come last.
    Last,
}

/// One sort key.
#[derive(Debug, Clone, Copy, PartialEq, Eq, Structural)]
pub struct SortKey {
    /// The column to sort by.
    pub column: usize,
    /// The direction.
    pub direction: SortDirection,
    /// Where nulls go, whatever the direction.
    pub null_order: NullOrder,
}

impl SortKey {
    /// A key that sorts upwards, with nulls last.
    pub fn ascending(column: usize) -> (r: Self)
        ensures
            r == (SortKey {
                column,
                direction: SortDirection::Ascending,
                null_order: NullOrder::Last,
            }),
    {
        Self { column, direction: SortDirection::Ascending, null_order: NullOrder::Last }
    }

    /// A key that sorts downwards, with nulls first.
    pub fn descending(column: usize) -> (r: Self)
        ensures
            r == (SortKey {
                column,
                direction: SortDirection::Descending,
                null_order: NullOrder::First,
            }),
    {
        Self { column, direction: SortDirection::Descending, null_order: NullOrder::First }
    }
}

/// How a null stands to what is not null.
pub open spec fn null_side(null_order: NullOrder) -> Order {
    match null_order {
        NullOrder::First => Order::Less,
        NullOrder::Last => Order::Greater,
    }
}

/// How two rows stand to each other by one key. A row without the column is
/// equal to every row whose value is not null.
pub open spec fn key_order(a: Seq<ValueModel>, b: Seq<ValueModel>, key: SortKey) -> Order {
    let c = key.column as int;
    let a_null = c < a.len() && a[c] is Null;
    let b_null = c < b.len() && b[c] is Null;
    if a_null && b_null {
        Order::Equal
    } else if a_null {
        null_side(key.null_order)
    } else if b_null {
        null_side(key.null_order).flipped()
    } else if c < a.len() && c < b.len() {
        match key.direction {
            SortDirection::Ascending => total_order(a[c], b[c]),
            SortDirection::Descending => total_order(a[c], b[c]).flipped(),
        }
    } else {
        Order::Equal
    }
}

/// How two rows stand to each other: the first key that tells them apart decides.
pub open spec fn row_order(a: Seq<ValueModel>, b: Seq<ValueModel>, keys: Seq<SortKey>) -> Order
    decreases keys.len(),
{
    if keys.len() == 0 {
        Order::Equal
    } else if key_order(a, b, keys[0]) != Order::Equal {
        key_order(a, b, keys[0])
    } else {
        row_order(a, b, keys.skip(1))
    }
}

/// Comparing rows the other way round gives the opposite outcome.
pub proof fn law_row_order_flips(a: Seq<ValueModel>, b: Seq<ValueModel>, keys: Seq<SortKey>)
    ensures
        row_order(b, a, keys) == row_order(a, b, keys).flipped(),
    decreases keys.len(),
{
    if keys.len() > 0 {
        let c = keys[0].column as int;
        if c < a.len() && c < b.len() {
            law_total_order(a[c], b[c], a[c]);
        }
        law_row_order_flips(a, b, keys.skip(1));
    }
}

proof fn lemma_key_order_transitive(
    a: Seq<ValueModel>,
    b: Seq<ValueModel>,
    c: Seq<ValueModel>,
    key: SortKey,
)
    requires
        key.column < a.len() <==> key.column < b.len(),
        key.column < b.len() <==> key.column < c.len(),
        key_order(a, b, key) != Order::Greater,
        key_order(b, c, key) != Order::Greater,
    ensures
        key_order(a, c, key) != Order::Greater,
        key_order(a, c, key) == Order::Equal ==> key_order(a, b, key) == Order::Equal && key_order(
            b,
            c,
            key,
        ) == Order::Equal,
        key_order(a, b, key) == Order::Equal && key_order(b, c, key) == Order::Equal ==> key_order(
            a,
            c,
            key,
        ) == Order::Equal,
{
    let k = key.column as int;
    if k < a.len() {
        law_total_order(a[k], b[k], c[k]);
        law_total_order(c[k], b[k], a[k]);
        law_total_order(a[k], c[k], b[k]);
        law_total_order(b[k], c[k], a[k]);
    }
}

/// Whether two rows have the same key columns.
pub open spec fn same_key_columns(
    a: Seq<ValueModel>,
    b: Seq<ValueModel>,
    keys: Seq<SortKey>,
) -> bool {
    forall|k: int| #![trigger keys[k]]
        0 <= k < keys.len() ==> (keys[k].column < a.len() <==> keys[k].column < b.len())
}

/// The order of rows with the same key columns is transitive.
pub proof fn law_row_order_transitive(
    a: Seq<ValueModel>,
    b: Seq<ValueModel>,
    c: Seq<ValueModel>,
    keys: Seq<SortKey>,
)
    requires
        same_key_columns(a, b, keys),
        same_key_columns(b, c, keys),
        row_order(a, b, keys) != Order::Greater,
        row_order(b, c, keys) != Order::Greater,
    ensures
        row_order(a, c, keys) != Order::Greater,
        row_order(a, b, keys) == Order::Less || row_order(b, c, keys) == Order::Less ==> row_order(
            a,
            c,
            keys,
        ) == Order::Less,
        row_order(a, b, keys) == Order::Equal && row_order(b, c, keys) == Order::Equal
            ==> row_order(a, c, keys) == Order::Equal,
    decreases keys.len(),
{
    if keys.len() > 0 {
        lemma_key_order_transitive(a, b, c, keys[0]);
        if key_order(a, b, keys[0]) == Order::Equal && key_order(b, c, keys[0]) == Order::Equal {
            assert forall|k: int| #![trigger keys.skip(1)[k]]
                0 <= k < keys.skip(1).len() implies keys.skip(1)[k] == keys[k + 1] by {}
            law_row_order_transitive(a, b, c, keys.skip(1));
        }
    }
}

/// Row `i` comes before row `j` in a stable sort: it is smaller, or equal and
/// earlier.
pub open spec fn comes_before(
    rows: Seq<Seq<ValueModel>>,
    keys: Seq<SortKey>,
    i: int,
    j: int,
) -> bool {
    row_order(rows[i], rows[j], keys) == Order::Less || (row_order(rows[i], rows[j], keys)
        == Order::Equal && i < j)
}

/// `p` lists each of the positions `0..n` once.
pub open spec fn is_permutation(p: Seq<int>, n: nat) -> bool {
    &&& p.len() == n
    &&& forall|a: int| #![trigger p[a]] 0 <= a < n ==> 0 <= p[a] < n
    &&& forall|a: int, b: int| 0 <= a < b < n ==> p[a] != p[b]
}

/// All rows have the same width.
pub open spec fn same_width(rows: Seq<Seq<ValueModel>>) -> bool {
    forall|i: int, j: int|
        0 <= i < rows.len() && 0 <= j < rows.len() ==> rows[i].len() == rows[j].len()
}

/// Each key column is there in every row or in none.
pub open spec fn evenly_keyed(rows: Seq<Seq<ValueModel>>, keys: Seq<SortKey>) -> bool {
    forall|i: int, j: int| #![trigger rows[i], rows[j]]
        0 <= i < rows.len() && 0 <= j < rows.len() ==> same_key_columns(rows[i], rows[j], keys)
}

/// Rows of one width are evenly keyed, and so are rows in each of which every key
/// column is present.
pub proof fn law_evenly_keyed(rows: Seq<Seq<ValueModel>>, keys: Seq<SortKey>)
    ensures
        same_width(rows) ==> evenly_keyed(rows, keys),
        (forall|i: int, k: int| #![trigger rows[i], keys[k]]
            0 <= i < rows.len() && 0 <= k < keys.len() ==> keys[k].column < rows[i].len())
            ==> evenly_keyed(rows, keys),
{
}

/// `output` is `input` rearranged by `p`; where each key column is there in every
/// row or in none, it is sorted, and equal rows keep their order.
pub open spec fn sorts_to(
    input: Seq<Seq<ValueModel>>,
    output: Seq<Seq<ValueModel>>,
    keys: Seq<SortKey>,
    p: Seq<int>,
) -> bool {
    &&& is_permutation(p, input.len())
    &&& output.len() == input.len()
    &&& forall|a: int| #![trigger output[a]] 0 <= a < output.len() ==> output[a] == input[p[a]]
    &&& evenly_keyed(input, keys) ==> forall|a: int, b: int| #![trigger p[a], p[b]]
        0 <= a < b < p.len() ==> comes_before(input, keys, p[a], p[b])
}

/// `output` is the stable sort of `input`.
pub open spec fn is_stable_sort(
    input: Seq<Seq<ValueModel>>,
    output: Seq<Seq<ValueModel>>,
    keys: Seq<SortKey>,
) -> bool {
    exists|p: Seq<int>| #[trigger] sorts_to(input, output, keys, p)
}

/// In the stable sort of evenly keyed rows no row is greater than a later one.
pub proof fn law_sorted_output(
    input: Seq<Seq<ValueModel>>,
    output: Seq<Seq<ValueModel>>,
    keys: Seq<SortKey>,
    a: int,
    b: int,
)
    requires
        is_stable_sort(input, output, keys),
        evenly_keyed(input, keys),
        0 <= a < b < output.len(),
    ensures
        row_order(output[a], output[b], keys) != Order::Greater,
{
    let p = choose|p: Seq<int>| #[trigger] sorts_to(input, output, keys, p);
    assert(comes_before(input, keys, p[a], p[b]));
    assert(output[a] == input[p[a]] && output[b] == input[p[b]]);
}

/// Evenly keyed rows have one stable sort.
pub proof fn law_stable_sort_is_unique(
    input: Seq<Seq<ValueModel>>,
    first: Seq<Seq<ValueModel>>,
    second: Seq<Seq<ValueModel>>,
    keys: Seq<SortKey>,
)
    requires
        evenly_keyed(input, keys),
        is_stable_sort(input, first, keys),
        is_stable_sort(input, second, keys),
    ensures
        first == second,
{
    let p = choose|p: Seq<int>| #[trigger] sorts_to(input, first, keys, p);
    let q = choose|q: Seq<int>| #[trigger] sorts_to(input, second, keys, q);
    assert forall|k: int| 0 <= k < first.len() implies first[k] == second[k] by {
        lemma_same_positions(input, first, second, keys, p, q, k);
    }
    assert(first =~= second);
}

/// One key orders rows by the values of its column: upwards as the values are sorted,
/// downwards the other way round. A null goes where the key says, whatever the
/// direction.
pub proof fn law_key_orders_by_its_column(a: Seq<ValueModel>, b: Seq<ValueModel>, key: SortKey)
    requires
        key.column < a.len(),
        key.column < b.len(),
    ensures
        ({
            let (x, y) = (a[key.column as int], b[key.column as int]);
            let order = row_order(a, b, seq![key]);
            let before = match key.direction {
                SortDirection::Ascending => Order::Less,
                SortDirection::Descending => Order::Greater,
            };
            &&& !(x is Null) && !(y is Null) && total_order(x, y) == Order::Less ==> order == before
            &&& !(x is Null) && !(y is Null) && total_order(x, y) == Order::Equal ==> order
                == Order::Equal
            &&& x is Null && !(y is Null) && key.null_order is First ==> order == Order::Less
            &&& x is Null && !(y is Null) && key.null_order is Last ==> order == Order::Greater
            &&& x is Null && y is Null ==> order == Order::Equal
        }),
{
    assert(seq![key].skip(1) =~= Seq::<SortKey>::empty());
    assert(row_order(a, b, Seq::<SortKey>::empty()) == Order::Equal);
    assert(seq![key][0] == key);
}

/// The first key that tells two rows apart decides, and later keys decide nothing.
pub proof fn law_first_key_decides(
    a: Seq<ValueModel>,
    b: Seq<ValueModel>,
    keys: Seq<SortKey>,
    k: int,
)
    requires
        0 <= k < keys.len(),
        forall|i: int| #![trigger keys[i]]
            0 <= i < k ==> row_order(a, b, seq![keys[i]]) == Order::Equal,
        row_order(a, b, seq![keys[k]]) != Order::Equal,
    ensures
        row_order(a, b, keys) == row_order(a, b, seq![keys[k]]),
    decreases k,
{
    let first = seq![keys[0]];
    assert(first.skip(1) =~= Seq::<SortKey>::empty());
    assert(first[0] == keys[0]);
    assert(row_order(a, b, Seq::<SortKey>::empty()) == Order::Equal);
    assert(row_order(a, b, first) == key_order(a, b, keys[0]));
    if k > 0 {
        assert(keys.skip(1)[k - 1] == keys[k]);
        assert forall|i: int| #![trigger keys.skip(1)[i]] 0 <= i < k - 1 implies row_order(
            a,
            b,
            seq![keys.skip(1)[i]],
        ) == Order::Equal by {
            assert(keys.skip(1)[i] == keys[i + 1]);
        }
        assert(row_order(a, b, seq![keys[0]]) == Order::Equal);
        law_first_key_decides(a, b, keys.skip(1), k - 1);
    }
}

/// Rows that no key tells apart keep the order in which they came.
pub proof fn law_equal_rows_keep_their_order(
    input: Seq<Seq<ValueModel>>,
    output: Seq<Seq<ValueModel>>,
    keys: Seq<SortKey>,
    p: Seq<int>,
    a: int,
    b: int,
)
    requires
        sorts_to(input, output, keys, p),
        evenly_keyed(input, keys),
        0 <= a < b < output.len(),
        row_order(output[a], output[b], keys) == Order::Equal,
    ensures
        p[a] < p[b],
        output[a] == input[p[a]],
        output[b] == input[p[b]],
{
    assert(comes_before(input, keys, p[a], p[b]));
}

/// Sorting loses no row and makes up none: each row comes out as often as it went in.
pub proof fn law_sorting_keeps_the_rows(
    input: Seq<Seq<ValueModel>>,
    output: Seq<Seq<ValueModel>>,
    keys: Seq<SortKey>,
)
    requires
        is_stable_sort(input, output, keys),
    ensures
        output.to_multiset() == input.to_multiset(),
{
    let p = choose|p: Seq<int>| #[trigger] sorts_to(input, output, keys, p);
    lemma_rearranged(input, output, p);
}

proof fn lemma_rearranged(
    input: Seq<Seq<ValueModel>>,
    output: Seq<Seq<ValueModel>>,
    p: Seq<int>,
)
    requires
        is_permutation(p, input.len()),
        output.len() == input.len(),
        forall|a: int| #![trigger output[a]] 0 <= a < output.len() ==> output[a] == input[p[a]],
    ensures
        output.to_multiset() == input.to_multiset(),
    decreases input.len(),
{
    broadcast use vstd::seq_lib::group_to_multiset_ensures;

    if input.len() == 0 {
        assert(output =~= input);
    } else {
        let n = input.len() - 1;
        lemma_permutation_reaches(p, input.len(), n);
        let k = choose|k: int| 0 <= k < p.len() && #[trigger] p[k] == n;
        let fewer = p.remove(k);
        let rest = output.remove(k);
        assert forall|a: int| #![trigger rest[a]] 0 <= a < rest.len() implies rest[a]
            == input.drop_last()[fewer[a]] by {
            let old_a = if a < k {
                a
            } else {
                a + 1
            };
            assert(fewer[a] == p[old_a]);
            assert(rest[a] == output[old_a]);
            assert(p[old_a] != p[k]);
        }
        assert(is_permutation(fewer, n as nat)) by {
            assert forall|a: int| #![trigger fewer[a]] 0 <= a < n implies 0 <= fewer[a] < n by {
                let old_a = if a < k {
                    a
                } else {
                    a + 1
                };
                assert(fewer[a] == p[old_a]);
                assert(p[old_a] != p[k]);
            }
            assert forall|a: int, b: int| 0 <= a < b < n implies fewer[a] != fewer[b] by {
                let old_a = if a < k {
                    a
                } else {
                    a + 1
                };
                let old_b = if b < k {
                    b
                } else {
                    b + 1
                };
                assert(fewer[a] == p[old_a] && fewer[b] == p[old_b]);
            }
        }
        lemma_rearranged(input.drop_last(), rest, fewer);
        assert(output[k] == input[n]);
        vstd::seq_lib::to_multiset_remove(output, k);
        vstd::seq_lib::to_multiset_remove(input, n);
        assert(input.remove(n) =~= input.drop_last());
        assert(output.to_multiset().contains(output[k]));
        assert(input.to_multiset().contains(input[n]));
        assert(output.to_multiset() =~= rest.to_multiset().insert(output[k]));
        assert(input.to_multiset() =~= input.drop_last().to_multiset().insert(input[n]));
    }
}

/// Sorting by an integer column puts the integers in order of size, upwards or
/// downwards as the key says.
pub proof fn law_integers_come_out_in_order(
    input: Seq<Seq<ValueModel>>,
    output: Seq<Seq<ValueModel>>,
    key: SortKey,
    a: int,
    b: int,
)
    requires
        is_stable_sort(input, output, seq![key]),
        forall|i: int| #![trigger input[i]]
            0 <= i < input.len() ==> key.column < input[i].len() && input[i][key.column as int]
                is Int64,
        0 <= a < b < output.len(),
    ensures
        key.direction is Ascending ==> output[a][key.column as int]->Int64_0
            <= output[b][key.column as int]->Int64_0,
        key.direction is Descending ==> output[a][key.column as int]->Int64_0
            >= output[b][key.column as int]->Int64_0,
{
    let c = key.column as int;
    lemma_keyed_by_one(input, key);
    law_sorted_output(input, output, seq![key], a, b);
    let p = choose|p: Seq<int>| #[trigger] sorts_to(input, output, seq![key], p);
    assert(output[a] == input[p[a]] && output[b] == input[p[b]]);
    let (x, y) = (output[a][c]->Int64_0, output[b][c]->Int64_0);
    law_key_orders_by_its_column(output[a], output[b], key);
    law_key_orders_by_its_column(output[b], output[a], key);
    law_row_order_flips(output[a], output[b], seq![key]);
    if x < y {
        law_integers_are_ordered_by_size(x, y);
    } else if y < x {
        law_integers_are_ordered_by_size(y, x);
    }
}

/// Sorting by a string column upwards never puts a string behind one that is larger
/// at the first byte where the two differ, or that is longer and begins with it.
pub proof fn law_strings_come_out_in_order(
    input: Seq<Seq<ValueModel>>,
    output: Seq<Seq<ValueModel>>,
    key: SortKey,
    a: int,
    b: int,
    n: int,
)
    requires
        is_stable_sort(input, output, seq![key]),
        key.direction is Ascending,
        forall|i: int| #![trigger input[i]]
            0 <= i < input.len() ==> key.column < input[i].len() && input[i][key.column as int]
                is String,
        0 <= a < b < output.len(),
    ensures
        ({
            let x = encode_utf8(output[a][key.column as int]->String_0);
            let y = encode_utf8(output[b][key.column as int]->String_0);
            0 <= n <= y.len() && n < x.len() && x.take(n) == y.take(n) ==> n < y.len() && x[n]
                <= y[n]
        }),
{
    let c = key.column as int;
    lemma_keyed_by_one(input, key);
    law_sorted_output(input, output, seq![key], a, b);
    let p = choose|p: Seq<int>| #[trigger] sorts_to(input, output, seq![key], p);
    assert(output[a] == input[p[a]] && output[b] == input[p[b]]);
    let s = output[a][c]->String_0;
    let t = output[b][c]->String_0;
    let (x, y) = (encode_utf8(s), encode_utf8(t));
    law_key_orders_by_its_column(output[b], output[a], key);
    law_row_order_flips(output[a], output[b], seq![key]);
    if 0 <= n <= y.len() && n < x.len() && x.take(n) == y.take(n) && (n == y.len() || x[n] > y[n]) {
        law_strings_are_ordered_by_bytes(t, s, n);
    }
}

proof fn lemma_keyed_by_one(input: Seq<Seq<ValueModel>>, key: SortKey)
    requires
        forall|i: int| #![trigger input[i]]
            0 <= i < input.len() ==> key.column < input[i].len(),
    ensures
        evenly_keyed(input, seq![key]),
{
    assert forall|i: int, k: int| #![trigger input[i], seq![key][k]]
        0 <= i < input.len() && 0 <= k < seq![key].len() implies seq![key][k].column
        < input[i].len() by {
        assert(seq![key][k] == key);
    }
    law_evenly_keyed(input, seq![key]);
}

/// Two stable sorts take the same row to each place.
proof fn lemma_same_positions(
    input: Seq<Seq<ValueModel>>,
    first: Seq<Seq<ValueModel>>,
    second: Seq<Seq<ValueModel>>,
    keys: Seq<SortKey>,
    p: Seq<int>,
    q: Seq<int>,
    k: int,
)
    requires
        evenly_keyed(input, keys),
        sorts_to(input, first, keys, p),
        sorts_to(input, second, keys, q),
        0 <= k < input.len(),
    ensures
        p[k] == q[k],
    decreases k,
{
    if p[k] != q[k] {
        assert forall|a: int| 0 <= a < k implies p[a] == q[a] by {
            lemma_same_positions(input, first, second, keys, p, q, a);
        }
        lemma_permutation_reaches(p, input.len(), q[k]);
        lemma_permutation_reaches(q, input.len(), p[k]);
        let a = choose|a: int| 0 <= a < p.len() && #[trigger] p[a] == q[k];
        let b = choose|b: int| 0 <= b < q.len() && #[trigger] q[b] == p[k];
        assert(a > k && b > k);
        assert(comes_before(input, keys, p[k], p[a]));
        assert(comes_before(input, keys, q[k], q[b]));
        law_row_order_flips(input[p[k]], input[q[k]], keys);
    }
}

/// A permutation lists every position.
proof fn lemma_permutation_reaches(p: Seq<int>, n: nat, x: int)
    requires
        is_permutation(p, n),
        0 <= x < n,
    ensures
        exists|a: int| 0 <= a < p.len() && #[trigger] p[a] == x,
{
    assert(p.no_duplicates());
    p.unique_seq_to_set();
    vstd::set_lib::lemma_int_range(0, n as int);
    let all = vstd::set_lib::set_int_range(0, n as int);
    assert(p.to_set().subset_of(all));
    vstd::seq_lib::seq_to_set_is_finite(p);
    vstd::set_lib::lemma_subset_equality(p.to_set(), all);
    assert(p.to_set().contains(x));
}

/// Sorting a stretch of the rows first, as a spilled run is, does not change the
/// stable sort of them all.
pub proof fn law_sorting_a_run_first_changes_nothing(
    before: Seq<Seq<ValueModel>>,
    run: Seq<Seq<ValueModel>>,
    sorted_run: Seq<Seq<ValueModel>>,
    after: Seq<Seq<ValueModel>>,
    output: Seq<Seq<ValueModel>>,
    keys: Seq<SortKey>,
)
    requires
        is_stable_sort(run, sorted_run, keys),
        is_stable_sort(before + sorted_run + after, output, keys),
        evenly_keyed(before + run + after, keys),
    ensures
        is_stable_sort(before + run + after, output, keys),
{
    let p = choose|p: Seq<int>| #[trigger] sorts_to(run, sorted_run, keys, p);
    let input = before + run + after;
    let half = before + sorted_run + after;
    let q = choose|q: Seq<int>| #[trigger] sorts_to(half, output, keys, q);
    let lo = before.len() as int;
    let hi = (before.len() + run.len()) as int;
    let r = Seq::new(
        q.len(),
        |i: int|
            if lo <= q[i] < hi {
                lo + p[q[i] - lo]
            } else {
                q[i]
            },
    );
    assert forall|i: int| 0 <= i < half.len() implies half[i] == input[if lo <= i < hi {
        lo + p[i - lo]
    } else {
        i
    }] by {
        if lo <= i < hi {
            assert(half[i] == sorted_run[i - lo]);
            assert(sorted_run[i - lo] == run[p[i - lo]]);
        }
    }
    assert(evenly_keyed(run, keys)) by {
        assert forall|i: int, j: int| #![trigger run[i], run[j]]
            0 <= i < run.len() && 0 <= j < run.len() implies same_key_columns(
            run[i],
            run[j],
            keys,
        ) by {
            assert(run[i] == input[lo + i] && run[j] == input[lo + j]);
        }
    }
    assert(evenly_keyed(half, keys)) by {
        assert forall|i: int, j: int| #![trigger half[i], half[j]]
            0 <= i < half.len() && 0 <= j < half.len() implies same_key_columns(
            half[i],
            half[j],
            keys,
        ) by {
            let x = if lo <= i < hi {
                lo + p[i - lo]
            } else {
                i
            };
            let y = if lo <= j < hi {
                lo + p[j - lo]
            } else {
                j
            };
            assert(half[i] == input[x] && half[j] == input[y]);
            assert(same_key_columns(input[x], input[y], keys));
        }
    }
    assert(is_permutation(r, input.len())) by {
        assert forall|a: int, b: int| 0 <= a < b < r.len() implies r[a] != r[b] by {
            assert(q[a] != q[b]);
            if lo <= q[a] < hi && lo <= q[b] < hi {
                let (u, v) = (q[a] - lo, q[b] - lo);
                if u < v {
                    assert(p[u] != p[v]);
                } else {
                    assert(p[v] != p[u]);
                }
            }
        }
    }
    assert forall|a: int| #![trigger output[a]] 0 <= a < output.len() implies output[a]
        == input[r[a]] by {
        assert(output[a] == half[q[a]]);
    }
    assert forall|a: int, b: int| #![trigger r[a], r[b]] 0 <= a < b < r.len() implies comes_before(
        input,
        keys,
        r[a],
        r[b],
    ) by {
        assert(comes_before(half, keys, q[a], q[b]));
        assert(half[q[a]] == input[r[a]] && half[q[b]] == input[r[b]]);
        if lo <= q[a] < hi && lo <= q[b] < hi && row_order(half[q[a]], half[q[b]], keys)
            == Order::Equal {
            let (u, v) = (q[a] - lo, q[b] - lo);
            assert(comes_before(run, keys, p[u], p[v]));
            assert(half[q[a]] == run[p[u]] && half[q[b]] == run[p[v]]);
        }
    }
    assert(sorts_to(input, output, keys, r));
}

/// Compares two rows by sort keys.
pub fn compare_rows(a: &Vec<Value>, b: &Vec<Value>, keys: &Vec<SortKey>) -> (r: Order)
    ensures
        r == row_order(values_view(a@), values_view(b@), keys@),
{
    let ghost x = values_view(a@);
    let ghost y = values_view(b@);
    let mut i: usize = 0;
    assert(keys@.skip(0) =~= keys@);
    while i < keys.len()
        invariant
            i <= keys@.len(),
            x == values_view(a@),
            y == values_view(b@),
            row_order(x, y, keys@) == row_order(x, y, keys@.skip(i as int)),
        decreases keys.len() - i,
    {
        let key: SortKey = keys[i];
        let order: Order = compare_by_key(a, b, key);
        proof {
            assert(keys@.skip(i as int)[0] == key);
            assert(keys@.skip(i as int).skip(1) =~= keys@.skip(i + 1));
        }
        if order != Order::Equal {
            return order;
        }
        i = i + 1;
    }
    Order::Equal
}

/// Compares two rows by one key.
fn compare_by_key(a: &Vec<Value>, b: &Vec<Value>, key: SortKey) -> (r: Order)
    ensures
        r == key_order(values_view(a@), values_view(b@), key),
{
    let a_here: bool = key.column < a.len();
    let b_here: bool = key.column < b.len();
    let a_null: bool = a_here && matches!(&a[key.column], Value::Null);
    let b_null: bool = b_here && matches!(&b[key.column], Value::Null);
    if a_null && b_null {
        return Order::Equal;
    }
    let side: Order = match key.null_order {
        NullOrder::First => Order::Less,
        NullOrder::Last => Order::Greater,
    };
    if a_null {
        return side;
    }
    if b_null {
        return side.reverse();
    }
    if a_here && b_here {
        let order: Order = compare_values_total(&a[key.column], &b[key.column]);
        match key.direction {
            SortDirection::Ascending => order,
            SortDirection::Descending => order.reverse(),
        }
    } else {
        Order::Equal
    }
}

/// `p` lists each of the positions `lo..hi` once.
spec fn lists_range(p: Seq<usize>, lo: int, hi: int) -> bool {
    &&& p.len() == hi - lo
    &&& forall|a: int| #![trigger p[a]] 0 <= a < p.len() ==> lo <= p[a] < hi
    &&& forall|a: int, b: int| 0 <= a < b < p.len() ==> p[a] != p[b]
}

/// `p` lists positions in the order of a stable sort.
spec fn in_order(rows: Seq<Seq<ValueModel>>, keys: Seq<SortKey>, p: Seq<usize>) -> bool {
    forall|a: int, b: int| #![trigger p[a], p[b]]
        0 <= a < b < p.len() ==> comes_before(rows, keys, p[a] as int, p[b] as int)
}

/// All positions of `p` come before position `x`.
spec fn all_before(rows: Seq<Seq<ValueModel>>, keys: Seq<SortKey>, p: Seq<usize>, x: int) -> bool {
    forall|a: int| #![trigger p[a]] 0 <= a < p.len() ==> comes_before(rows, keys, p[a] as int, x)
}

proof fn lemma_before_transitive(
    rows: Seq<Seq<ValueModel>>,
    keys: Seq<SortKey>,
    i: int,
    j: int,
    k: int,
)
    requires
        evenly_keyed(rows, keys),
        0 <= i < rows.len(),
        0 <= j < rows.len(),
        0 <= k < rows.len(),
        comes_before(rows, keys, i, j),
        comes_before(rows, keys, j, k),
    ensures
        comes_before(rows, keys, i, k),
{
    law_row_order_transitive(rows[i], rows[j], rows[k], keys);
}

/// Merges the sorted positions of two neighbouring stretches.
fn merge_positions(
    rows: &Vec<Vec<Value>>,
    keys: &Vec<SortKey>,
    left: Vec<usize>,
    right: Vec<usize>,
    Ghost(lo): Ghost<int>,
    Ghost(mid): Ghost<int>,
    Ghost(hi): Ghost<int>,
) -> (r: Vec<usize>)
    requires
        0 <= lo <= mid <= hi <= rows@.len(),
        lists_range(left@, lo, mid),
        lists_range(right@, mid, hi),
        evenly_keyed(rows_view(rows@), keys@) ==> in_order(rows_view(rows@), keys@, left@),
        evenly_keyed(rows_view(rows@), keys@) ==> in_order(rows_view(rows@), keys@, right@),
    ensures
        lists_range(r@, lo, hi),
        evenly_keyed(rows_view(rows@), keys@) ==> in_order(rows_view(rows@), keys@, r@),
{
    let ghost model = rows_view(rows@);
    let mut out: Vec<usize> = Vec::new();
    let mut i: usize = 0;
    let mut j: usize = 0;
    while i < left.len() || j < right.len()
        invariant
            model == rows_view(rows@),
            0 <= lo <= mid <= hi <= rows@.len(),
            lists_range(left@, lo, mid),
            lists_range(right@, mid, hi),
            i <= left@.len(),
            j <= right@.len(),
            out@.len() == i + j,
            forall|a: int| #![trigger out@[a]]
                0 <= a < out@.len() ==> {
                    ||| exists|u: int| #![trigger left@[u]] 0 <= u < i && left@[u] == out@[a]
                    ||| exists|u: int| #![trigger right@[u]] 0 <= u < j && right@[u] == out@[a]
                },
            forall|a: int, b: int| 0 <= a < b < out@.len() ==> out@[a] != out@[b],
            evenly_keyed(model, keys@) ==> {
                &&& in_order(model, keys@, left@)
                &&& in_order(model, keys@, right@)
                &&& in_order(model, keys@, out@)
                &&& i < left@.len() ==> all_before(model, keys@, out@, left@[i as int] as int)
                &&& j < right@.len() ==> all_before(model, keys@, out@, right@[j as int] as int)
            },
        decreases left.len() - i + (right.len() - j),
    {
        let take_left: bool = if i >= left.len() {
            false
        } else if j >= right.len() {
            true
        } else {
            let order: Order = compare_rows(&rows[left[i]], &rows[right[j]], keys);
            assert(order == row_order(
                model[left@[i as int] as int],
                model[right@[j as int] as int],
                keys@,
            ));
            order != Order::Greater
        };
        let ghost before = out@;
        let next: usize = if take_left {
            left[i]
        } else {
            right[j]
        };
        proof {
            if evenly_keyed(model, keys@) {
                if i < left@.len() && j < right@.len() {
                    let l = left@[i as int] as int;
                    let r = right@[j as int] as int;
                    law_row_order_flips(model[l], model[r], keys@);
                    if take_left {
                        assert(comes_before(model, keys@, l, r));
                    } else {
                        assert(comes_before(model, keys@, r, l));
                    }
                }
                if take_left && i + 1 < left@.len() {
                    assert(comes_before(model, keys@, left@[i as int] as int, left@[i + 1] as int));
                }
                if !take_left && j + 1 < right@.len() {
                    assert(comes_before(
                        model,
                        keys@,
                        right@[j as int] as int,
                        right@[j + 1] as int,
                    ));
                }
            }
        }
        out.push(next);
        proof {
            assert forall|a: int, b: int| 0 <= a < b < out@.len() implies out@[a] != out@[b] by {
                if b == before.len() {
                    assert(out@[a] == before[a]);
                }
            }
            if evenly_keyed(model, keys@) {
                // Whatever comes before the position just taken comes before all
                // that are still to be taken.
                if take_left {
                    if i + 1 < left@.len() {
                        let x = left@[i + 1] as int;
                        assert forall|a: int| #![trigger out@[a]]
                            0 <= a < out@.len() implies comes_before(
                            model,
                            keys@,
                            out@[a] as int,
                            x,
                        ) by {
                            if a < before.len() {
                                assert(out@[a] == before[a]);
                                lemma_before_transitive(
                                    model,
                                    keys@,
                                    out@[a] as int,
                                    left@[i as int] as int,
                                    x,
                                );
                            }
                        }
                    }
                } else {
                    if j + 1 < right@.len() {
                        let x = right@[j + 1] as int;
                        assert forall|a: int| #![trigger out@[a]]
                            0 <= a < out@.len() implies comes_before(
                            model,
                            keys@,
                            out@[a] as int,
                            x,
                        ) by {
                            if a < before.len() {
                                assert(out@[a] == before[a]);
                                lemma_before_transitive(
                                    model,
                                    keys@,
                                    out@[a] as int,
                                    right@[j as int] as int,
                                    x,
                                );
                            }
                        }
                    }
                }
            }
        }
        if take_left {
            i = i + 1;
        } else {
            j = j + 1;
        }
    }
    out
}

/// The positions `lo..hi` of `rows` in the order of a stable sort.
fn sorted_positions(rows: &Vec<Vec<Value>>, keys: &Vec<SortKey>, lo: usize, hi: usize) -> (r: Vec<
    usize,
>)
    requires
        lo <= hi <= rows@.len(),
    ensures
        lists_range(r@, lo as int, hi as int),
        evenly_keyed(rows_view(rows@), keys@) ==> in_order(rows_view(rows@), keys@, r@),
    decreases hi - lo,
{
    let mut out: Vec<usize> = Vec::new();
    if hi - lo == 0 {
        return out;
    }
    if hi - lo == 1 {
        out.push(lo);
        return out;
    }
    let mid: usize = lo + (hi - lo) / 2;
    let left: Vec<usize> = sorted_positions(rows, keys, lo, mid);
    let right: Vec<usize> = sorted_positions(rows, keys, mid, hi);
    merge_positions(
        rows,
        keys,
        left,
        right,
        Ghost(lo as int),
        Ghost(mid as int),
        Ghost(hi as int),
    )
}

/// The rows in the order of a stable sort.
pub fn sort_rows(rows: &Vec<Vec<Value>>, keys: &Vec<SortKey>) -> (r: Vec<Vec<Value>>)
    ensures
        is_stable_sort(rows_view(rows@), rows_view(r@), keys@),
{
    let ghost model = rows_view(rows@);
    let positions: Vec<usize> = sorted_positions(rows, keys, 0, rows.len());
    let mut out: Vec<Vec<Value>> = Vec::new();
    let mut i: usize = 0;
    while i < positions.len()
        invariant
            model == rows_view(rows@),
            lists_range(positions@, 0, rows@.len() as int),
            i <= positions@.len(),
            out@.len() == i,
            forall|k: int| #![trigger out@[k]]
                0 <= k < i ==> values_view(out@[k]@) == model[positions@[k] as int],
        decreases positions.len() - i,
    {
        out.push(clone_row(&rows[positions[i]]));
        i = i + 1;
    }
    proof {
        let p = positions@.map_values(|x: usize| x as int);
        let result = rows_view(out@);
        assert forall|a: int| #![trigger result[a]] 0 <= a < result.len() implies result[a]
            == model[p[a]] by {
            assert(result[a] == values_view(out@[a]@));
        }
        assert(is_permutation(p, model.len())) by {
            assert forall|a: int, b: int| 0 <= a < b < p.len() implies p[a] != p[b] by {
                assert(positions@[a] != positions@[b]);
            }
        }
        if evenly_keyed(model, keys@) {
            assert forall|a: int, b: int| #![trigger p[a], p[b]]
                0 <= a < b < p.len() implies comes_before(model, keys@, p[a], p[b]) by {
                assert(comes_before(model, keys@, positions@[a] as int, positions@[b] as int));
            }
        }
        assert(sorts_to(model, result, keys@, p));
    }
    out
}

/// The chunk that sorted rows make, or `None` where there is nothing to hand on.
pub open spec fn emitted(
    rows: Seq<Seq<ValueModel>>,
    width: Option<usize>,
) -> Option<Seq<Seq<ValueModel>>> {
    match width {
        Some(n) => if rows.len() == 0 || n == 0 {
            None
        } else {
            Some(columns_of(rows, n as nat))
        },
        None => None,
    }
}

/// Nothing is handed on where there are no rows or no columns, or where nothing is known
/// of the columns. Otherwise the columns hold the rows in their order.
pub proof fn law_what_is_handed_on(rows: Seq<Seq<ValueModel>>, n: usize, i: int)
    ensures
        emitted(rows, None) is None,
        rows.len() == 0 || n == 0 ==> emitted(rows, Some(n)) is None,
        rows.len() > 0 && n > 0 ==> emitted(rows, Some(n)) is Some && emitted(
            rows,
            Some(n),
        )->0.len() == n,
        rows.len() > 0 && n > 0 && 0 <= i < rows.len() && rows[i].len() == n ==> row_of(
            emitted(rows, Some(n))->0,
            i,
        ) == rows[i],
{
    if rows.len() > 0 && n > 0 && 0 <= i < rows.len() {
        law_columns_give_the_rows_back(rows, n as nat, i);
    }
}

/// Appends the rows of a chunk.
fn buffer_chunk(buffer: &mut Vec<Vec<Value>>, chunk: &DataChunk)
    ensures
        rows_view(final(buffer)@) == rows_view(old(buffer)@) + chunk.rows(),
{
    let ghost start = rows_view(buffer@);
    let mut i: usize = 0;
    let n: usize = chunk.len();
    assert(chunk.rows().take(0) =~= Seq::<Seq<ValueModel>>::empty());
    while i < n
        invariant
            i <= n == chunk.selected().len(),
            rows_view(buffer@) == start + chunk.rows().take(i as int),
        decreases n - i,
    {
        let ghost before = buffer@;
        let row: Vec<Value> = chunk.row(i);
        buffer.push(row);
        i = i + 1;
        proof {
            assert(rows_view(buffer@) =~= rows_view(before).push(values_view(row@)));
            assert(rows_view(buffer@) =~= start + chunk.rows().take(i as int));
        }
    }
    assert(chunk.rows().take(n as int) =~= chunk.rows());
}

/// Copies sort keys.
fn copy_keys(keys: &Vec<SortKey>) -> (r: Vec<SortKey>)
    ensures
        r@ == keys@,
{
    let mut out: Vec<SortKey> = Vec::new();
    let mut i: usize = 0;
    while i < keys.len()
        invariant
            i <= keys@.len(),
            out@ == keys@.take(i as int),
        decreases keys.len() - i,
    {
        out.push(keys[i]);
        i = i + 1;
        assert(out@ =~= keys@.take(i as int));
    }
    assert(keys@.take(i as int) =~= keys@);
    out
}

/// Sorts rows in memory.
///
/// All input is buffered; [`finalize`](Self::finalize) makes one sorted chunk of
/// it.
pub struct SortPushOperator {
    keys: Vec<SortKey>,
    buffer: Vec<Vec<Value>>,
    num_columns: Option<usize>,
}

impl SortPushOperator {
    /// The sort keys.
    pub closed spec fn sort_keys(&self) -> Seq<SortKey> {
        self.keys@
    }

    /// The rows that are buffered.
    pub closed spec fn buffered(&self) -> Seq<Seq<ValueModel>> {
        rows_view(self.buffer@)
    }

    /// The width of the output: that of the first chunk with rows.
    pub closed spec fn width(&self) -> Option<usize> {
        self.num_columns
    }

    /// Creates a sort by the given keys.
    pub fn new(keys: Vec<SortKey>) -> (r: Self)
        ensures
            r.sort_keys() == keys@,
            r.buffered() == Seq::<Seq<ValueModel>>::empty(),
            r.width() is None,
    {
        let r = Self { keys, buffer: Vec::new(), num_columns: None };
        assert(r.buffered() =~= Seq::<Seq<ValueModel>>::empty());
        r
    }

    /// Creates a sort by a single ascending key.
    pub fn ascending(column: usize) -> (r: Self)
        ensures
            r.sort_keys() == seq![
                SortKey {
                    column,
                    direction: SortDirection::Ascending,
                    null_order: NullOrder::Last,
                },
            ],
            r.buffered() == Seq::<Seq<ValueModel>>::empty(),
            r.width() is None,
    {
        let keys: Vec<SortKey> = vec![SortKey::ascending(column)];
        assert(keys@ =~= seq![keys@[0]]);
        Self::new(keys)
    }

    /// Creates a sort by a single descending key.
    pub fn descending(column: usize) -> (r: Self)
        ensures
            r.sort_keys() == seq![
                SortKey {
                    column,
                    direction: SortDirection::Descending,
                    null_order: NullOrder::First,
                },
            ],
            r.buffered() == Seq::<Seq<ValueModel>>::empty(),
            r.width() is None,
    {
        let keys: Vec<SortKey> = vec![SortKey::descending(column)];
        assert(keys@ =~= seq![keys@[0]]);
        Self::new(keys)
    }

    /// Buffers the rows of a chunk. The result says whether more input is wanted,
    /// which it always is.
    pub fn push(&mut self, chunk: &DataChunk) -> (r: bool)
        ensures
            r,
            final(self).sort_keys() == old(self).sort_keys(),
            final(self).buffered() == old(self).buffered() + chunk.rows(),
            final(self).width() == if chunk.rows().len() == 0 || old(self).width() is Some {
                old(self).width()
            } else {
                Some(chunk.columns().len() as usize)
            },
    {
        if chunk.is_empty() {
            assert(self.buffered() =~= old(self).buffered() + chunk.rows());
            return true;
        }
        if self.num_columns.is_none() {
            self.num_columns = Some(chunk.column_count());
        }
        buffer_chunk(&mut self.buffer, chunk);
        true
    }

    /// Sorts what is buffered and makes a chunk of it, with as many columns as
    /// the first chunk had. `None` where there are no rows or no columns.
    pub fn finalize(&mut self) -> (r: Option<DataChunk>)
        ensures
            is_stable_sort(old(self).buffered(), final(self).buffered(), old(self).sort_keys()),
            final(self).sort_keys() == old(self).sort_keys(),
            final(self).width() == old(self).width(),
            match r {
                Some(chunk) => emitted(final(self).buffered(), old(self).width()) == Some(
                    chunk.columns(),
                ) && chunk.selected() == Seq::new(final(self).buffered().len(), |i: int| i),
                None => emitted(final(self).buffered(), old(self).width()) is None,
            },
    {
        self.buffer = sort_rows(&self.buffer, &self.keys);
        if self.buffer.len() == 0 {
            return None;
        }
        match self.num_columns {
            Some(n) => {
                if n == 0 {
                    None
                } else {
                    Some(chunk_from_rows(&self.buffer, n))
                }
            },
            None => None,
        }
    }

    /// The operator's name.
    pub fn name(&self) -> (r: &'static str)
        ensures
            r@ == "SortPush"@,
    {
        "SortPush"
    }
}

/// The sum of sizes.
pub open spec fn total_size(sizes: Seq<usize>) -> nat
    decreases sizes.len(),
{
    if sizes.len() == 0 {
        0
    } else {
        total_size(sizes.drop_last()) + sizes.last() as nat
    }
}

/// The estimated memory of a row: what its values take, and a slot for each column.
pub open spec fn row_memory(sizes: Seq<usize>, width: usize, value_size: usize) -> nat {
    total_size(sizes) + (width * value_size) as nat
}

/// The estimated memory of rows, given what the values of each row take.
pub open spec fn rows_memory(rows: Seq<Vec<usize>>, width: usize, value_size: usize) -> nat
    decreases rows.len(),
{
    if rows.len() == 0 {
        0
    } else {
        rows_memory(rows.drop_last(), width, value_size) + row_memory(
            rows.last()@,
            width,
            value_size,
        )
    }
}

proof fn lemma_total_size_of_prefix(sizes: Seq<usize>, n: int)
    requires
        0 <= n <= sizes.len(),
    ensures
        total_size(sizes.take(n)) <= total_size(sizes),
    decreases sizes.len() - n,
{
    if n < sizes.len() {
        lemma_total_size_of_prefix(sizes, n + 1);
        assert(sizes.take(n + 1).drop_last() =~= sizes.take(n));
    } else {
        assert(sizes.take(n) =~= sizes);
    }
}

proof fn lemma_rows_memory_of_prefix(
    rows: Seq<Vec<usize>>,
    width: usize,
    value_size: usize,
    n: int,
)
    requires
        0 <= n <= rows.len(),
    ensures
        rows_memory(rows.take(n), width, value_size) <= rows_memory(rows, width, value_size),
    decreases rows.len() - n,
{
    if n < rows.len() {
        lemma_rows_memory_of_prefix(rows, width, value_size, n + 1);
        assert(rows.take(n + 1).drop_last() =~= rows.take(n));
    } else {
        assert(rows.take(n) =~= rows);
    }
}

/// The estimate of rows is that of its parts together, and one row takes what its
/// values take and a slot for each column.
pub proof fn law_memory_adds_up(
    front: Seq<Vec<usize>>,
    back: Seq<Vec<usize>>,
    row: Vec<usize>,
    sizes: Seq<usize>,
    more: Seq<usize>,
    size: usize,
    width: usize,
    value_size: usize,
)
    ensures
        rows_memory(front + back, width, value_size) == rows_memory(front, width, value_size)
            + rows_memory(back, width, value_size),
        rows_memory(seq![row], width, value_size) == total_size(row@) + width * value_size,
        total_size(sizes + more) == total_size(sizes) + total_size(more),
        total_size(seq![size]) == size,
    decreases back.len() + more.len(),
{
    assert(seq![row].drop_last() =~= Seq::<Vec<usize>>::empty());
    assert(seq![size].drop_last() =~= Seq::<usize>::empty());
    assert(rows_memory(Seq::<Vec<usize>>::empty(), width, value_size) == 0);
    assert(total_size(Seq::<usize>::empty()) == 0);
    assert(0 <= width * value_size) by (nonlinear_arith);
    if back.len() > 0 {
        law_memory_adds_up(front, back.drop_last(), row, sizes, more, size, width, value_size);
        assert((front + back).drop_last() =~= front + back.drop_last());
        assert((front + back).last() == back.last());
    } else if more.len() > 0 {
        assert(front + back =~= front);
        law_memory_adds_up(front, back, row, sizes, more.drop_last(), size, width, value_size);
        assert((sizes + more).drop_last() =~= sizes + more.drop_last());
        assert((sizes + more).last() == more.last());
    } else {
        assert(front + back =~= front);
        assert(sizes + more =~= sizes);
    }
}

/// The sum of sizes, if it fits.
fn sum_sizes(sizes: &Vec<usize>) -> (r: Option<usize>)
    ensures
        match r {
            Some(n) => n == total_size(sizes@),
            None => total_size(sizes@) > usize::MAX,
        },
{
    let mut sum: usize = 0;
    let mut i: usize = 0;
    assert(sizes@.take(0) =~= Seq::<usize>::empty());
    while i < sizes.len()
        invariant
            i <= sizes@.len(),
            sum == total_size(sizes@.take(i as int)),
        decreases sizes.len() - i,
    {
        proof {
            assert(sizes@.take(i + 1).drop_last() =~= sizes@.take(i as int));
            lemma_total_size_of_prefix(sizes@, i + 1);
        }
        sum = match sum.checked_add(sizes[i]) {
            Some(n) => n,
            None => {
                return None;
            },
        };
        i = i + 1;
    }
    assert(sizes@.take(i as int) =~= sizes@);
    Some(sum)
}

/// The estimated memory of the rows of a chunk with `width` columns: for each row
/// what its values take, and a slot of `value_size` bytes for each column. `None`
/// where the estimate does not fit.
#[must_use]
pub fn estimate_rows_memory(rows: &Vec<Vec<usize>>, width: usize, value_size: usize) -> (r: Option<
    usize,
>)
    ensures
        match r {
            Some(n) => n == rows_memory(rows@, width, value_size),
            None => rows_memory(rows@, width, value_size) > usize::MAX,
        },
{
    let mut total: usize = 0;
    let mut i: usize = 0;
    assert(rows@.take(0) =~= Seq::<Vec<usize>>::empty());
    while i < rows.len()
        invariant
            i <= rows@.len(),
            total == rows_memory(rows@.take(i as int), width, value_size),
        decreases rows.len() - i,
    {
        proof {
            assert(rows@.take(i + 1).drop_last() =~= rows@.take(i as int));
            lemma_rows_memory_of_prefix(rows@, width, value_size, i + 1);
            assert(0 <= width * value_size) by (nonlinear_arith);
        }
        let values: usize = match sum_sizes(&rows[i]) {
            Some(n) => n,
            None => {
                return None;
            },
        };
        let slots: usize = match width.checked_mul(value_size) {
            Some(n) => n,
            None => {
                return None;
            },
        };
        let row: usize = match values.checked_add(slots) {
            Some(n) => n,
            None => {
                return None;
            },
        };
        total = match total.checked_add(row) {
            Some(n) => n,
            None => {
                return None;
            },
        };
        i = i + 1;
    }
    assert(rows@.take(i as int) =~= rows@);
    Some(total)
}

/// How many rows are buffered before they spill, unless told otherwise.
pub const DEFAULT_SPILL_THRESHOLD: usize = 100_000;

/// How many rows there must be before memory pressure makes them spill, so that a
/// small buffer does not spill for what others have used.
pub const SORT_MIN_BUFFER_ROWS: usize = 1000;

/// Where runs are spilled to.
#[derive(Debug)]
pub struct SpillManager {
    /// The directory of the spill files.
    pub directory: String,
}

/// What an operator knows of the memory it shares with others.
#[derive(Debug)]
pub struct OperatorMemoryContext {
    /// Where runs are spilled to.
    pub spill_manager: SpillManager,
}

/// A sorted run to be written out.
pub struct SpillRun {
    /// The rows, in order.
    pub rows: Vec<Vec<Value>>,
    /// The number of columns.
    pub num_columns: usize,
    /// The keys by which the rows are sorted.
    pub keys: Vec<SortKey>,
}

/// What is left to do at the end of the input.
pub struct Finished {
    /// The consumer to unregister from the buffer manager.
    pub unregister: Option<String>,
    /// The sorted rows, if there are any.
    pub chunk: Option<DataChunk>,
}

/// Sorts rows that may not fit into memory.
///
/// Rows are buffered. When they have to go, the buffer is sorted and handed out as
/// a run to be written; at the end the runs are handed back and merged with what
/// is still buffered. With a memory context, an eviction request or memory
/// pressure makes the buffer spill; without one, its number of rows does.
pub struct SpillableSortPushOperator {
    keys: Vec<SortKey>,
    buffer: Vec<Vec<Value>>,
    num_columns: Option<usize>,
    spill_manager: Option<SpillManager>,
    runs_spilled: usize,
    spill_threshold: usize,
    memory_ctx: Option<OperatorMemoryContext>,
    spill_state: Option<OperatorSpillState>,
    estimated_bytes: usize,
}

/// Whether the buffer has to spill.
pub open spec fn should_spill(
    rows: nat,
    threshold: usize,
    state: Option<OperatorSpillState>,
    pressure: bool,
) -> bool {
    match state {
        Some(s) => (s.pending() is Some || pressure) && rows >= SORT_MIN_BUFFER_ROWS,
        None => rows >= threshold,
    }
}

/// When the buffer spills. Without a memory context it does when it holds as many rows
/// as the threshold says, and nothing else counts. With one it takes a request or
/// memory pressure, and at least a thousand rows.
pub proof fn law_when_the_buffer_spills(
    rows: nat,
    threshold: usize,
    state: Option<OperatorSpillState>,
    pressure: bool,
)
    ensures
        state is None && rows >= threshold ==> should_spill(rows, threshold, state, pressure),
        state is None && rows < threshold ==> !should_spill(rows, threshold, state, pressure),
        state is Some && rows < 1000 ==> !should_spill(rows, threshold, state, pressure),
        state is Some && rows >= 1000 && pressure ==> should_spill(
            rows,
            threshold,
            state,
            pressure,
        ),
        state matches Some(s) && rows >= 1000 && s.pending() is Some ==> should_spill(
            rows,
            threshold,
            state,
            pressure,
        ),
        state matches Some(s) && s.pending() is None && !pressure ==> !should_spill(
            rows,
            threshold,
            state,
            pressure,
        ),
        DEFAULT_SPILL_THRESHOLD == 100_000,
{
}

impl SpillableSortPushOperator {
    /// The sort keys.
    pub closed spec fn sort_keys(&self) -> Seq<SortKey> {
        self.keys@
    }

    /// The rows that are buffered.
    pub closed spec fn buffered(&self) -> Seq<Seq<ValueModel>> {
        rows_view(self.buffer@)
    }

    /// The width of the output: that of the first chunk with rows.
    pub closed spec fn width(&self) -> Option<usize> {
        self.num_columns
    }

    /// Whether there is anywhere to spill to.
    pub closed spec fn can_spill(&self) -> bool {
        self.memory_ctx is Some || self.spill_manager is Some
    }

    /// How many runs were handed out.
    pub closed spec fn runs(&self) -> usize {
        self.runs_spilled
    }

    /// The number of rows at which the buffer spills without a memory context.
    pub closed spec fn threshold(&self) -> usize {
        self.spill_threshold
    }

    /// What is shared with the buffer manager, with a memory context.
    pub closed spec fn state(&self) -> Option<OperatorSpillState> {
        self.spill_state
    }

    /// The estimated memory of the buffer.
    pub closed spec fn memory(&self) -> usize {
        self.estimated_bytes
    }

    /// A sort as it is created.
    pub open spec fn is_fresh(&self, keys: Seq<SortKey>, threshold: usize) -> bool {
        &&& self.sort_keys() == keys
        &&& self.buffered() == Seq::<Seq<ValueModel>>::empty()
        &&& self.width() is None
        &&& self.runs() == 0
        &&& self.threshold() == threshold
        &&& self.memory() == 0
    }

    /// A fresh sort has its keys and its threshold, no rows, no runs and no memory.
    pub proof fn law_fresh_sorts_are_empty(&self, keys: Seq<SortKey>, threshold: usize)
        requires
            self.is_fresh(keys, threshold),
        ensures
            self.sort_keys() == keys,
            self.threshold() == threshold,
            self.buffered().len() == 0,
            self.width() is None,
            self.runs() == 0,
            self.memory() == 0,
    {
    }

    /// Creates a sort that has nowhere to spill to.
    pub fn new(keys: Vec<SortKey>) -> (r: Self)
        ensures
            r.is_fresh(keys@, DEFAULT_SPILL_THRESHOLD),
            !r.can_spill(),
            r.state() is None,
    {
        let r = Self {
            keys,
            buffer: Vec::new(),
            num_columns: None,
            spill_manager: None,
            runs_spilled: 0,
            spill_threshold: DEFAULT_SPILL_THRESHOLD,
            memory_ctx: None,
            spill_state: None,
            estimated_bytes: 0,
        };
        assert(r.buffered() =~= Seq::<Seq<ValueModel>>::empty());
        r
    }

    /// Creates a sort that spills when it has buffered `threshold` rows.
    pub fn with_spilling(keys: Vec<SortKey>, manager: SpillManager, threshold: usize) -> (r: Self)
        ensures
            r.is_fresh(keys@, threshold),
            r.can_spill(),
            r.state() is None,
    {
        let r = Self {
            keys,
            buffer: Vec::new(),
            num_columns: None,
            spill_manager: Some(manager),
            runs_spilled: 0,
            spill_threshold: threshold,
            memory_ctx: None,
            spill_state: None,
            estimated_bytes: 0,
        };
        assert(r.buffered() =~= Seq::<Seq<ValueModel>>::empty());
        r
    }

    /// Creates a sort that spills under memory pressure. It is a consumer named
    /// "SpillableSortPush", which the caller registers with the buffer manager.
    pub fn with_memory_context(keys: Vec<SortKey>, ctx: OperatorMemoryContext) -> (r: Self)
        ensures
            r.is_fresh(keys@, DEFAULT_SPILL_THRESHOLD),
            r.can_spill(),
            r.state() matches Some(s) && s.consumer() == "SpillableSortPush"@ && s.used() == 0
                && s.pending() is None,
    {
        let state = OperatorSpillState::new("SpillableSortPush".to_owned());
        let r = Self {
            keys,
            buffer: Vec::new(),
            num_columns: None,
            spill_manager: None,
            runs_spilled: 0,
            spill_threshold: DEFAULT_SPILL_THRESHOLD,
            memory_ctx: Some(ctx),
            spill_state: Some(state),
            estimated_bytes: 0,
        };
        assert(r.buffered() =~= Seq::<Seq<ValueModel>>::empty());
        r
    }

    /// Creates a spilling sort by a single ascending key.
    pub fn ascending_with_spilling(column: usize, manager: SpillManager, threshold: usize) -> (r:
        Self)
        ensures
            r.is_fresh(
                seq![
                    SortKey {
                        column,
                        direction: SortDirection::Ascending,
                        null_order: NullOrder::Last,
                    },
                ],
                threshold,
            ),
            r.can_spill(),
            r.state() is None,
    {
        let keys: Vec<SortKey> = vec![SortKey::ascending(column)];
        assert(keys@ =~= seq![keys@[0]]);
        Self::with_spilling(keys, manager, threshold)
    }

    /// Creates a spilling sort by a single descending key.
    pub fn descending_with_spilling(column: usize, manager: SpillManager, threshold: usize) -> (r:
        Self)
        ensures
            r.is_fresh(
                seq![
                    SortKey {
                        column,
                        direction: SortDirection::Descending,
                        null_order: NullOrder::First,
                    },
                ],
                threshold,
            ),
            r.can_spill(),
            r.state() is None,
    {
        let keys: Vec<SortKey> = vec![SortKey::descending(column)];
        assert(keys@ =~= seq![keys@[0]]);
        Self::with_spilling(keys, manager, threshold)
    }

    /// Sets the number of rows at which the buffer spills.
    pub fn with_threshold(self, threshold: usize) -> (r: Self)
        ensures
            r.sort_keys() == self.sort_keys(),
            r.buffered() == self.buffered(),
            r.width() == self.width(),
            r.can_spill() == self.can_spill(),
            r.runs() == self.runs(),
            r.threshold() == threshold,
            r.state() == self.state(),
            r.memory() == self.memory(),
    {
        let mut r = self;
        r.spill_threshold = threshold;
        r
    }

    /// What is shared with the buffer manager, for its side.
    pub fn spill_state_mut(&mut self) -> (r: Option<&mut OperatorSpillState>)
        ensures
            match r {
                Some(s) => old(self).state() == Some(*s) && final(self).state() == Some(*final(s)),
                None => old(self).state() is None && final(self).state() is None,
            },
            final(self).sort_keys() == old(self).sort_keys(),
            final(self).buffered() == old(self).buffered(),
            final(self).width() == old(self).width(),
            final(self).can_spill() == old(self).can_spill(),
            final(self).runs() == old(self).runs(),
            final(self).threshold() == old(self).threshold(),
            final(self).memory() == old(self).memory(),
    {
        self.spill_state.as_mut()
    }

    /// Hands out the buffer as a sorted run where it has to spill. `pressure`
    /// says whether memory is short. Any eviction request is taken.
    fn maybe_spill(&mut self, pressure: bool) -> (r: Option<SpillRun>)
        requires
            old(self).runs() < usize::MAX,
        ensures
            final(self).sort_keys() == old(self).sort_keys(),
            final(self).width() == old(self).width(),
            final(self).can_spill() == old(self).can_spill(),
            final(self).threshold() == old(self).threshold(),
            final(self).state() is Some <==> old(self).state() is Some,
            old(self).state() matches Some(s) ==> {
                &&& final(self).state()->Some_0.pending() is None
                &&& final(self).state()->Some_0.consumer() == s.consumer()
                &&& final(self).state()->Some_0.used() == if r is Some {
                    0
                } else {
                    s.used()
                }
            },
            r is Some <==> old(self).can_spill() && should_spill(
                old(self).buffered().len(),
                old(self).threshold(),
                old(self).state(),
                pressure,
            ),
            match r {
                Some(run) => {
                    &&& is_stable_sort(
                        old(self).buffered(),
                        rows_view(run.rows@),
                        old(self).sort_keys(),
                    )
                    &&& run.keys@ == old(self).sort_keys()
                    &&& run.num_columns == match old(self).width() {
                        Some(n) => n,
                        None => 0,
                    }
                    &&& final(self).buffered() == Seq::<Seq<ValueModel>>::empty()
                    &&& final(self).runs() == old(self).runs() + 1
                    &&& final(self).memory() == 0
                },
                None => {
                    &&& final(self).buffered() == old(self).buffered()
                    &&& final(self).runs() == old(self).runs()
                    &&& final(self).memory() == old(self).memory()
                },
            },
    {
        let should: bool = match &mut self.spill_state {
            Some(state) => {
                let eviction: bool = state.take_eviction_request().is_some();
                (eviction || pressure) && self.buffer.len() >= SORT_MIN_BUFFER_ROWS
            },
            None => self.buffer.len() >= self.spill_threshold,
        };
        if !should {
            return None;
        }
        if self.memory_ctx.is_none() && self.spill_manager.is_none() {
            return None;
        }
        let rows: Vec<Vec<Value>> = sort_rows(&self.buffer, &self.keys);
        let num_columns: usize = match self.num_columns {
            Some(n) => n,
            None => 0,
        };
        self.buffer = Vec::new();
        self.runs_spilled = self.runs_spilled + 1;
        self.estimated_bytes = 0;
        match &mut self.spill_state {
            Some(state) => state.set_usage(0),
            None => {},
        }
        assert(self.buffered() =~= Seq::<Seq<ValueModel>>::empty());
        Some(SpillRun { rows, num_columns, keys: copy_keys(&self.keys) })
    }

    /// Buffers the rows of a chunk, whose memory is estimated at `chunk_bytes`,
    /// and hands out a sorted run where the buffer then has to spill. `pressure`
    /// says whether memory is short.
    pub fn push(&mut self, chunk: &DataChunk, chunk_bytes: usize, pressure: bool) -> (r: Option<
        SpillRun,
    >)
        requires
            old(self).runs() < usize::MAX,
            old(self).memory() + chunk_bytes <= usize::MAX,
        ensures
            final(self).sort_keys() == old(self).sort_keys(),
            final(self).can_spill() == old(self).can_spill(),
            final(self).threshold() == old(self).threshold(),
            final(self).state() is Some <==> old(self).state() is Some,
            old(self).state() matches Some(s) ==> final(self).state()->Some_0.consumer()
                == s.consumer(),
            chunk.rows().len() == 0 ==> {
                &&& r is None
                &&& final(self).buffered() == old(self).buffered()
                &&& final(self).width() == old(self).width()
                &&& final(self).runs() == old(self).runs()
                &&& final(self).memory() == old(self).memory()
                &&& final(self).state() == old(self).state()
            },
            chunk.rows().len() > 0 ==> {
                &&& final(self).width() == if old(self).width() is Some {
                    old(self).width()
                } else {
                    Some(chunk.columns().len() as usize)
                }
                &&& r is Some <==> old(self).can_spill() && should_spill(
                    (old(self).buffered() + chunk.rows()).len(),
                    old(self).threshold(),
                    old(self).state(),
                    pressure,
                )
                &&& final(self).state() matches Some(s) ==> s.pending() is None
                &&& final(self).state() matches Some(s) ==> s.used() == final(self).memory()
            },
            match r {
                Some(run) => {
                    &&& is_stable_sort(
                        old(self).buffered() + chunk.rows(),
                        rows_view(run.rows@),
                        old(self).sort_keys(),
                    )
                    &&& run.keys@ == old(self).sort_keys()
                    &&& Some(run.num_columns) == final(self).width()
                    &&& final(self).buffered() == Seq::<Seq<ValueModel>>::empty()
                    &&& final(self).runs() == old(self).runs() + 1
                    &&& final(self).memory() == 0
                },
                None => {
                    &&& final(self).buffered() == old(self).buffered() + chunk.rows()
                    &&& final(self).runs() == old(self).runs()
                    &&& final(self).memory() == if chunk.rows().len() == 0 {
                        old(self).memory() as int
                    } else {
                        old(self).memory() + chunk_bytes
                    }
                },
            },
    {
        if chunk.is_empty() {
            assert(self.buffered() =~= old(self).buffered() + chunk.rows());
            return None;
        }
        if self.num_columns.is_none() {
            self.num_columns = Some(chunk.column_count());
        }
        buffer_chunk(&mut self.buffer, chunk);
        self.estimated_bytes = self.estimated_bytes + chunk_bytes;
        match &mut self.spill_state {
            Some(state) => state.set_usage(self.estimated_bytes),
            None => {},
        }
        self.maybe_spill(pressure)
    }

    /// The name under which the consumer was registered.
    fn unregister_consumer(&self) -> (r: Option<String>)
        ensures
            match r {
                Some(name) => self.state() matches Some(s) && name@ == s.consumer(),
                None => self.state() is None,
            },
    {
        match &self.spill_state {
            Some(state) => Some(state.name().to_owned()),
            None => None,
        }
    }

    /// Ends the input. `runs` are the runs that were handed out, in that order;
    /// they are merged with what is still buffered.
    pub fn finalize(&mut self, runs: Vec<Vec<Vec<Value>>>) -> (r: Finished)
        requires
            runs@.len() == old(self).runs(),
        ensures
            final(self).buffered() == Seq::<Seq<ValueModel>>::empty(),
            final(self).sort_keys() == old(self).sort_keys(),
            final(self).width() == old(self).width(),
            final(self).can_spill() == old(self).can_spill(),
            final(self).runs() == old(self).runs(),
            final(self).threshold() == old(self).threshold(),
            final(self).state() == old(self).state(),
            final(self).memory() == old(self).memory(),
            match r.unregister {
                Some(name) => old(self).state() matches Some(s) && name@ == s.consumer(),
                None => old(self).state() is None,
            },
            exists|sorted: Seq<Seq<ValueModel>>| #[trigger]
                is_stable_sort(
                    all_rows(runs@) + old(self).buffered(),
                    sorted,
                    old(self).sort_keys(),
                ) && match r.chunk {
                    Some(chunk) => {
                        &&& emitted_wide(sorted, old(self).width(), old(self).buffered().len())
                            == Some(chunk.columns())
                        &&& chunk.columns().len() > 0 ==> chunk.selected() == Seq::new(
                            sorted.len(),
                            |i: int| i,
                        )
                    },
                    None => emitted_wide(
                        sorted,
                        old(self).width(),
                        old(self).buffered().len(),
                    ) is None,
                },
    {
        let unregister: Option<String> = self.unregister_consumer();
        let ghost input = all_rows(runs@) + self.buffered();
        let nothing_buffered: bool = self.buffer.len() == 0;
        let rows: Vec<Vec<Value>> = concat_runs(runs, &self.buffer);
        let sorted: Vec<Vec<Value>> = sort_rows(&rows, &self.keys);
        self.buffer = Vec::new();
        assert(self.buffered() =~= Seq::<Seq<ValueModel>>::empty());
        let num_columns: usize = match self.num_columns {
            Some(n) => n,
            None => 0,
        };
        assert(input == all_rows(runs@) + old(self).buffered());
        assert(is_stable_sort(
            all_rows(runs@) + old(self).buffered(),
            rows_view(sorted@),
            old(self).sort_keys(),
        ));
        if sorted.len() == 0 || (num_columns == 0 && nothing_buffered) {
            return Finished { unregister, chunk: None };
        }
        let chunk: DataChunk = chunk_from_rows(&sorted, num_columns);
        Finished { unregister, chunk: Some(chunk) }
    }

    /// The operator's name.
    pub fn name(&self) -> (r: &'static str)
        ensures
            r@ == "SpillableSortPush"@,
    {
        "SpillableSortPush"
    }
}

/// The chunk that merged rows make, or `None` where there are no rows, or neither
/// columns nor rows that are still buffered.
pub open spec fn emitted_wide(
    rows: Seq<Seq<ValueModel>>,
    width: Option<usize>,
    buffered: nat,
) -> Option<Seq<Seq<ValueModel>>> {
    if rows.len() == 0 || (buffered == 0 && (width matches Some(n) ==> n == 0)) {
        None
    } else {
        Some(
            columns_of(
                rows,
                match width {
                    Some(n) => n as nat,
                    None => 0,
                },
            ),
        )
    }
}

/// The rows of all runs, one run after the other.
pub open spec fn all_rows(runs: Seq<Vec<Vec<Value>>>) -> Seq<Seq<ValueModel>>
    decreases runs.len(),
{
    if runs.len() == 0 {
        Seq::empty()
    } else {
        all_rows(runs.drop_last()) + rows_view(runs.last()@)
    }
}

/// Stretches of rows, one after the other.
pub open spec fn stretches(groups: Seq<Seq<Seq<ValueModel>>>) -> Seq<Seq<ValueModel>>
    decreases groups.len(),
{
    if groups.len() == 0 {
        Seq::empty()
    } else {
        stretches(groups.drop_last()) + groups.last()
    }
}

/// Merged rows are handed on unless there are none, or unless there are no columns and
/// no row is still buffered.
pub proof fn law_what_is_handed_on_after_merging(
    rows: Seq<Seq<ValueModel>>,
    n: usize,
    buffered: nat,
    i: int,
)
    ensures
        rows.len() == 0 ==> emitted_wide(rows, Some(n), buffered) is None,
        buffered == 0 ==> emitted_wide(rows, Some(0), buffered) is None && emitted_wide(
            rows,
            None,
            buffered,
        ) is None,
        rows.len() > 0 && (n > 0 || buffered > 0) ==> emitted_wide(rows, Some(n), buffered) is Some
            && emitted_wide(rows, Some(n), buffered)->0.len() == n,
        rows.len() > 0 && buffered > 0 ==> emitted_wide(rows, None, buffered) is Some
            && emitted_wide(rows, None, buffered)->0.len() == 0,
        0 <= i < rows.len() && (n > 0 || buffered > 0) && rows[i].len() == n ==> row_of(
            emitted_wide(rows, Some(n), buffered)->0,
            i,
        ) == rows[i],
{
    if 0 <= i < rows.len() {
        law_columns_give_the_rows_back(rows, n as nat, i);
    }
}

/// Runs give their rows one run after the other, and so do stretches.
pub proof fn law_runs_follow_each_other(
    runs: Seq<Vec<Vec<Value>>>,
    run: Vec<Vec<Value>>,
    groups: Seq<Seq<Seq<ValueModel>>>,
    group: Seq<Seq<ValueModel>>,
)
    ensures
        all_rows(Seq::empty()).len() == 0,
        all_rows(runs.push(run)) == all_rows(runs) + rows_view(run@),
        stretches(Seq::empty()).len() == 0,
        stretches(groups.push(group)) == stretches(groups) + group,
{
    assert(runs.push(run).drop_last() =~= runs);
    assert(groups.push(group).drop_last() =~= groups);
}

/// Spilling changes nothing: where each run is the stable sort of a stretch of the
/// rows, the stable sort of the runs and of what was not spilled is the stable sort of
/// all the rows.
pub proof fn law_spilling_changes_nothing(
    groups: Seq<Seq<Seq<ValueModel>>>,
    runs: Seq<Vec<Vec<Value>>>,
    rest: Seq<Seq<ValueModel>>,
    output: Seq<Seq<ValueModel>>,
    keys: Seq<SortKey>,
)
    requires
        groups.len() == runs.len(),
        forall|i: int| #![trigger groups[i]]
            0 <= i < groups.len() ==> is_stable_sort(groups[i], rows_view(runs[i]@), keys),
        is_stable_sort(all_rows(runs) + rest, output, keys),
        evenly_keyed(stretches(groups) + rest, keys),
    ensures
        is_stable_sort(stretches(groups) + rest, output, keys),
    decreases groups.len(),
{
    if groups.len() == 0 {
        assert(all_rows(runs) + rest =~= stretches(groups) + rest);
    } else {
        let before = all_rows(runs.drop_last());
        let run = groups.last();
        let sorted_run = rows_view(runs.last()@);
        assert(is_stable_sort(groups[groups.len() - 1], sorted_run, keys));
        assert(all_rows(runs) + rest =~= before + sorted_run + rest);
        assert forall|i: int| #![trigger groups.drop_last()[i]]
            0 <= i < groups.len() - 1 implies is_stable_sort(
            groups.drop_last()[i],
            rows_view(runs.drop_last()[i]@),
            keys,
        ) by {
            assert(groups[i] == groups.drop_last()[i]);
            assert(runs[i] == runs.drop_last()[i]);
        }
        let all = stretches(groups) + rest;
        let half = before + run + rest;
        assert(all =~= stretches(groups.drop_last()) + (run + rest));
        assert(half =~= before + (run + rest));
        assert forall|i: int| 0 <= i < half.len() implies all.contains(#[trigger] half[i]) by {
            if i < before.len() {
                lemma_runs_hold_rows(groups.drop_last(), runs.drop_last(), keys, i);
                let k = stretches(groups.drop_last()).index_of(before[i]);
                assert(all[k] == half[i]);
            } else {
                let k = stretches(groups.drop_last()).len() + i - before.len();
                assert(all[k] == half[i]);
            }
        }
        assert forall|i: int, j: int| #![trigger half[i], half[j]]
            0 <= i < half.len() && 0 <= j < half.len() implies same_key_columns(
            half[i],
            half[j],
            keys,
        ) by {
            let (k, l) = (all.index_of(half[i]), all.index_of(half[j]));
            assert(all[k] == half[i] && all[l] == half[j]);
        }
        law_sorting_a_run_first_changes_nothing(before, run, sorted_run, rest, output, keys);
        law_spilling_changes_nothing(
            groups.drop_last(),
            runs.drop_last(),
            run + rest,
            output,
            keys,
        );
    }
}

/// The rows of the runs are rows of the stretches.
proof fn lemma_runs_hold_rows(
    groups: Seq<Seq<Seq<ValueModel>>>,
    runs: Seq<Vec<Vec<Value>>>,
    keys: Seq<SortKey>,
    i: int,
)
    requires
        groups.len() == runs.len(),
        forall|k: int| #![trigger groups[k]]
            0 <= k < groups.len() ==> is_stable_sort(groups[k], rows_view(runs[k]@), keys),
        0 <= i < all_rows(runs).len(),
    ensures
        stretches(groups).contains(all_rows(runs)[i]),
    decreases groups.len(),
{
    if groups.len() > 0 {
        let before = all_rows(runs.drop_last());
        let front = stretches(groups.drop_last());
        assert forall|k: int| #![trigger groups.drop_last()[k]]
            0 <= k < groups.len() - 1 implies is_stable_sort(
            groups.drop_last()[k],
            rows_view(runs.drop_last()[k]@),
            keys,
        ) by {
            assert(groups[k] == groups.drop_last()[k]);
            assert(runs[k] == runs.drop_last()[k]);
        }
        if i < before.len() {
            lemma_runs_hold_rows(groups.drop_last(), runs.drop_last(), keys, i);
            let k = front.index_of(before[i]);
            assert(stretches(groups)[k] == all_rows(runs)[i]);
        } else {
            let run = groups[groups.len() - 1];
            let sorted = rows_view(runs[runs.len() - 1]@);
            assert(is_stable_sort(run, sorted, keys));
            let p = choose|p: Seq<int>| #[trigger] sorts_to(run, sorted, keys, p);
            let a = i - before.len();
            assert(sorted[a] == run[p[a]]);
            assert(stretches(groups)[front.len() + p[a]] == all_rows(runs)[i]);
        }
    }
}

/// Appends copies of rows.
fn append_rows(out: &mut Vec<Vec<Value>>, rows: &Vec<Vec<Value>>)
    ensures
        rows_view(final(out)@) == rows_view(old(out)@) + rows_view(rows@),
{
    let ghost start = rows_view(out@);
    let mut i: usize = 0;
    assert(rows_view(rows@).take(0) =~= Seq::<Seq<ValueModel>>::empty());
    while i < rows.len()
        invariant
            i <= rows@.len(),
            rows_view(out@) == start + rows_view(rows@).take(i as int),
        decreases rows.len() - i,
    {
        let ghost before = out@;
        let row: Vec<Value> = clone_row(&rows[i]);
        out.push(row);
        i = i + 1;
        proof {
            assert(rows_view(out@) =~= rows_view(before).push(values_view(row@)));
            assert(rows_view(out@) =~= start + rows_view(rows@).take(i as int));
        }
    }
    assert(rows_view(rows@).take(i as int) =~= rows_view(rows@));
}

/// The rows of all runs and then of the buffer.
fn concat_runs(runs: Vec<Vec<Vec<Value>>>, buffer: &Vec<Vec<Value>>) -> (r: Vec<Vec<Value>>)
    ensures
        rows_view(r@) == all_rows(runs@) + rows_view(buffer@),
{
    let mut out: Vec<Vec<Value>> = Vec::new();
    let mut i: usize = 0;
    assert(rows_view(out@) =~= all_rows(runs@.take(0)));
    while i < runs.len()
        invariant
            i <= runs@.len(),
            rows_view(out@) == all_rows(runs@.take(i as int)),
        decreases runs.len() - i,
    {
        append_rows(&mut out, &runs[i]);
        i = i + 1;
        assert(runs@.take(i as int).drop_last() =~= runs@.take(i - 1));
    }
    assert(runs@.take(i as int) =~= runs@);
    append_rows(&mut out, buffer);
    out
}

} // verus!
