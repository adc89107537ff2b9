//! Rows on their way through a query, column by column.

use vstd::prelude::*;

use crate::types::value::Value;
use crate::types::value::ValueModel;

verus! {

/// What the values are.
pub open spec fn values_view(values: Seq<Value>) -> Seq<ValueModel> {
    values.map_values(|v: Value| v@)
}

/// What the rows are.
pub open spec fn rows_view(rows: Seq<Vec<Value>>) -> Seq<Seq<ValueModel>> {
    rows.map_values(|r: Vec<Value>| values_view(r@))
}

/// Copies a row.
pub fn clone_row(row: &Vec<Value>) -> (r: Vec<Value>)
    ensures
        values_view(r@) == values_view(row@),
{
    let mut out: Vec<Value> = Vec::new();
    let mut i: usize = 0;
    while i < row.len()
        invariant
            i <= row@.len(),
            values_view(out@) == values_view(row@).take(i as int),
        decreases row.len() - i,
    {
        let ghost before = out@;
        let value: Value = row[i].clone();
        out.push(value);
        i = i + 1;
        assert(values_view(out@) =~= values_view(before).push(value@));
        assert(values_view(out@) =~= values_view(row@).take(i as int));
    }
    assert(values_view(row@).take(i as int) =~= values_view(row@));
    out
}

/// One column of a chunk.
#[derive(Debug)]
pub struct ValueVector {
    values: Vec<Value>,
}

impl View for ValueVector {
    type V = Seq<ValueModel>;

    closed spec fn view(&self) -> Seq<ValueModel> {
        values_view(self.values@)
    }
}

impl ValueVector {
    /// Creates an empty column.
    #[must_use]
    pub fn new() -> (r: Self)
        ensures
            r@ == Seq::<ValueModel>::empty(),
    {
        let r = Self { values: Vec::new() };
        assert(r@ =~= Seq::<ValueModel>::empty());
        r
    }

    /// Creates a column with copies of the given values.
    #[must_use]
    pub fn from_values(values: &Vec<Value>) -> (r: Self)
        ensures
            r@ == values_view(values@),
    {
        Self { values: clone_row(values) }
    }

    /// Appends a value.
    pub fn push(&mut self, value: Value)
        ensures
            final(self)@ == old(self)@.push(value@),
    {
        self.values.push(value);
        assert(self@ =~= old(self)@.push(value@));
    }

    /// The value of a row, or `None` past the end.
    #[must_use]
    pub fn get_value(&self, row: usize) -> (r: Option<Value>)
        ensures
            match r {
                Some(v) => row < self@.len() && v@ == self@[row as int],
                None => row >= self@.len(),
            },
    {
        if row < self.values.len() {
            Some(self.values[row].clone())
        } else {
            None
        }
    }

    /// The number of values.
    #[must_use]
    pub fn len(&self) -> (r: usize)
        ensures
            r == self@.len(),
    {
        self.values.len()
    }

    /// Whether there are no values.
    #[must_use]
    pub fn is_empty(&self) -> (r: bool)
        ensures
            r == (self@.len() == 0),
    {
        self.values.len() == 0
    }
}

/// What the columns hold.
pub open spec fn columns_view(columns: Seq<ValueVector>) -> Seq<Seq<ValueModel>> {
    columns.map_values(|c: ValueVector| c@)
}

/// A batch of rows: columns, and which of their rows are selected. Without a
/// selection, all rows of the first column are.
#[derive(Debug)]
pub struct DataChunk {
    columns: Vec<ValueVector>,
    selection: Option<Vec<usize>>,
}

/// The row `i` of columns; what a column is too short for is null.
pub open spec fn row_of(columns: Seq<Seq<ValueModel>>, i: int) -> Seq<ValueModel> {
    Seq::new(
        columns.len(),
        |c: int|
            if i < columns[c].len() {
                columns[c][i]
            } else {
                ValueModel::Null
            },
    )
}

impl DataChunk {
    /// What the columns hold.
    pub closed spec fn columns(&self) -> Seq<Seq<ValueModel>> {
        columns_view(self.columns@)
    }

    /// The positions of the selected rows.
    pub closed spec fn selected(&self) -> Seq<int> {
        match self.selection {
            Some(s) => s@.map_values(|i: usize| i as int),
            None => Seq::new(
                if self.columns@.len() == 0 {
                    0
                } else {
                    self.columns@[0]@.len()
                },
                |i: int| i,
            ),
        }
    }

    /// The selected rows.
    pub open spec fn rows(&self) -> Seq<Seq<ValueModel>> {
        Seq::new(self.selected().len(), |k: int| row_of(self.columns(), self.selected()[k]))
    }

    /// The rows of a chunk are those that are selected, in that order. Each has a value
    /// from every column, and null where the column is too short.
    pub proof fn law_rows_come_from_columns(&self, k: int, c: int)
        requires
            0 <= k < self.selected().len(),
            0 <= c < self.columns().len(),
            0 <= self.selected()[k],
        ensures
            self.rows().len() == self.selected().len(),
            self.rows()[k].len() == self.columns().len(),
            self.selected()[k] < self.columns()[c].len() ==> self.rows()[k][c]
                == self.columns()[c][self.selected()[k]],
            self.selected()[k] >= self.columns()[c].len() ==> self.rows()[k][c] is Null,
    {
    }

    /// Creates a chunk from its columns, with all rows selected.
    #[must_use]
    pub fn new(columns: Vec<ValueVector>) -> (r: Self)
        ensures
            r.columns() == columns_view(columns@),
            r.selected() == Seq::new(
                if columns@.len() == 0 {
                    0
                } else {
                    columns@[0]@.len()
                },
                |i: int| i,
            ),
    {
        Self { columns, selection: None }
    }

    /// Replaces the selection.
    #[must_use]
    pub fn with_selection(self, selection: Vec<usize>) -> (r: Self)
        ensures
            r.columns() == self.columns(),
            r.selected() == selection@.map_values(|i: usize| i as int),
    {
        Self { columns: self.columns, selection: Some(selection) }
    }

    /// The number of selected rows.
    #[must_use]
    pub fn len(&self) -> (r: usize)
        ensures
            r == self.selected().len(),
    {
        match &self.selection {
            Some(s) => s.len(),
            None => {
                if self.columns.len() == 0 {
                    0
                } else {
                    self.columns[0].len()
                }
            },
        }
    }

    /// Whether no row is selected.
    #[must_use]
    pub fn is_empty(&self) -> (r: bool)
        ensures
            r == (self.selected().len() == 0),
    {
        self.len() == 0
    }

    /// The number of columns.
    #[must_use]
    pub fn column_count(&self) -> (r: usize)
        ensures
            r == self.columns().len(),
    {
        self.columns.len()
    }

    /// A column, or `None` past the last.
    #[must_use]
    pub fn column(&self, index: usize) -> (r: Option<&ValueVector>)
        ensures
            match r {
                Some(c) => index < self.columns().len() && c@ == self.columns()[index as int],
                None => index >= self.columns().len(),
            },
    {
        if index < self.columns.len() {
            Some(&self.columns[index])
        } else {
            None
        }
    }

    /// The selected row at position `k`, with null where a column is too short.
    #[must_use]
    pub fn row(&self, k: usize) -> (r: Vec<Value>)
        requires
            k < self.selected().len(),
        ensures
            values_view(r@) == self.rows()[k as int],
    {
        let i: usize = match &self.selection {
            Some(s) => s[k],
            None => k,
        };
        assert(i == self.selected()[k as int]);
        let mut out: Vec<Value> = Vec::new();
        let mut c: usize = 0;
        while c < self.columns.len()
            invariant
                c <= self.columns@.len(),
                k < self.selected().len(),
                i == self.selected()[k as int],
                values_view(out@) == self.rows()[k as int].take(c as int),
            decreases self.columns.len() - c,
        {
            let value: Value = match self.columns[c].get_value(i) {
                Some(v) => v,
                None => Value::Null,
            };
            let ghost before = out@;
            out.push(value);
            c = c + 1;
            assert(values_view(out@) =~= values_view(before).push(value@));
            assert(self.columns()[c - 1] == self.columns@[c - 1]@);
            assert(values_view(out@) =~= self.rows()[k as int].take(c as int));
        }
        assert(self.rows()[k as int].take(c as int) =~= self.rows()[k as int]);
        out
    }
}

/// The columns that rows make: column `c` has the value `c` of each row, null
/// where a row is too short.
pub open spec fn columns_of(rows: Seq<Seq<ValueModel>>, count: nat) -> Seq<Seq<ValueModel>> {
    Seq::new(
        count,
        |c: int|
            Seq::new(
                rows.len(),
                |i: int|
                    if c < rows[i].len() {
                        rows[i][c]
                    } else {
                        ValueModel::Null
                    },
            ),
    )
}

/// The columns that rows make give the rows back: each row of the right width comes
/// out as it went in, at its place.
pub proof fn law_columns_give_the_rows_back(rows: Seq<Seq<ValueModel>>, count: nat, i: int)
    requires
        0 <= i < rows.len(),
    ensures
        columns_of(rows, count).len() == count,
        rows[i].len() == count ==> row_of(columns_of(rows, count), i) == rows[i],
        forall|c: int| 0 <= c < count ==> (#[trigger] columns_of(rows, count)[c]).len()
            == rows.len(),
        forall|c: int| rows[i].len() <= c < count ==> #[trigger] columns_of(rows, count)[c][i]
            is Null,
{
    if rows[i].len() == count {
        assert(row_of(columns_of(rows, count), i) =~= rows[i]);
    }
}

/// Builds a chunk of `count` columns from rows, with null where a row is too
/// short.
pub fn chunk_from_rows(rows: &Vec<Vec<Value>>, count: usize) -> (r: DataChunk)
    ensures
        r.columns() == columns_of(rows_view(rows@), count as nat),
        count > 0 ==> r.selected() == Seq::new(rows@.len(), |i: int| i),
{
    let ghost model = rows_view(rows@);
    let mut columns: Vec<ValueVector> = Vec::new();
    let mut c: usize = 0;
    while c < count
        invariant
            c <= count,
            model == rows_view(rows@),
            columns_view(columns@) == columns_of(model, count as nat).take(c as int),
        decreases count - c,
    {
        let mut column = ValueVector::new();
        let mut i: usize = 0;
        while i < rows.len()
            invariant
                i <= rows@.len(),
                c < count,
                model == rows_view(rows@),
                column@ == columns_of(model, count as nat)[c as int].take(i as int),
            decreases rows.len() - i,
        {
            let row: &Vec<Value> = &rows[i];
            let value: Value = if c < row.len() {
                row[c].clone()
            } else {
                Value::Null
            };
            proof {
                assert(model[i as int] == values_view(row@));
            }
            column.push(value);
            i = i + 1;
            assert(column@ =~= columns_of(model, count as nat)[c as int].take(i as int));
        }
        assert(column@ =~= columns_of(model, count as nat)[c as int]);
        let ghost before = columns@;
        columns.push(column);
        c = c + 1;
        assert(columns_view(columns@) =~= columns_view(before).push(column@));
        assert(columns_view(columns@) =~= columns_of(model, count as nat).take(c as int));
    }
    assert(columns_view(columns@) =~= columns_of(model, count as nat));
    proof {
        if count > 0 {
            assert(columns_view(columns@).len() == columns@.len());
            assert(columns@[0]@ == columns_view(columns@)[0]);
        }
    }
    DataChunk::new(columns)
}

} // verus!
