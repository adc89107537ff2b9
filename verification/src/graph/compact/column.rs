//! A column as its readers see it: rows that may be null, in blocks of equal
//! size.

use vstd::arithmetic::div_mod::lemma_fundamental_div_mod;
use vstd::prelude::*;

use crate::types::value::Value;
use crate::types::value::ValueModel;

verus! {

/// What the rows hold.
pub open spec fn rows_view(rows: Seq<Option<Value>>) -> Seq<Option<ValueModel>> {
    rows.map_values(
        |r: Option<Value>|
            match r {
                Some(v) => Some(v@),
                None => None,
            },
    )
}

/// A column of values, cut into blocks of `block_rows` rows.
pub struct ColumnCodec {
    rows: Vec<Option<Value>>,
    block_rows: usize,
}

impl ColumnCodec {
    #[verifier::type_invariant]
    spec fn well_formed(&self) -> bool {
        self.block_rows >= 1
    }

    /// What the rows hold.
    pub closed spec fn rows(&self) -> Seq<Option<ValueModel>> {
        rows_view(self.rows@)
    }

    /// How many rows a full block has.
    pub closed spec fn rows_per_block(&self) -> nat {
        self.block_rows as nat
    }

    /// The number of blocks: one at least, also for a column without rows.
    pub open spec fn blocks(&self) -> int {
        if self.rows().len() == 0 {
            1
        } else {
            (self.rows().len() - 1) / self.rows_per_block() as int + 1
        }
    }

    /// The blocks hold all rows: each but the last is full, and the last has a row unless
    /// there are none at all.
    pub proof fn law_blocks_hold_all_rows(&self)
        requires
            self.rows_per_block() >= 1,
        ensures
            self.rows().len() == 0 ==> self.blocks() == 1,
            self.rows().len() > 0 ==> (self.blocks() - 1) * self.rows_per_block()
                < self.rows().len() <= self.blocks() * self.rows_per_block(),
    {
        if self.rows().len() > 0 {
            let (m, b) = (self.rows().len() - 1, self.rows_per_block() as int);
            lemma_fundamental_div_mod(m, b);
            let q = m / b;
            assert(q * b <= m < (q + 1) * b) by (nonlinear_arith)
                requires
                    m == b * q + m % b,
                    0 <= m % b < b,
            ;
        }
    }

    /// Creates a column. A block has at least one row.
    #[must_use]
    pub fn new(rows: Vec<Option<Value>>, block_rows: usize) -> (r: Self)
        requires
            block_rows >= 1,
        ensures
            r.rows() == rows_view(rows@),
            r.rows_per_block() == block_rows,
    {
        Self { rows, block_rows }
    }

    /// The number of rows.
    #[must_use]
    pub fn len(&self) -> (r: usize)
        ensures
            r == self.rows().len(),
    {
        self.rows.len()
    }

    /// Whether there are no rows.
    #[must_use]
    pub fn is_empty(&self) -> (r: bool)
        ensures
            r == (self.rows().len() == 0),
    {
        self.rows.len() == 0
    }

    /// The value of a row, or `None` for a null or past the end.
    #[must_use]
    pub fn get(&self, index: usize) -> (r: Option<Value>)
        ensures
            match r {
                Some(v) => index < self.rows().len() && self.rows()[index as int] == Some(v@),
                None => index >= self.rows().len() || self.rows()[index as int] is None,
            },
    {
        if index < self.rows.len() {
            match &self.rows[index] {
                Some(v) => Some(v.clone()),
                None => None,
            }
        } else {
            None
        }
    }

    /// The number of rows of a full block.
    #[must_use]
    pub fn block_rows(&self) -> (r: usize)
        ensures
            r == self.rows_per_block(),
            r >= 1,
    {
        proof {
            use_type_invariant(self);
        }
        self.block_rows
    }

    /// The number of blocks.
    #[must_use]
    pub fn block_count(&self) -> (r: usize)
        ensures
            r == self.blocks(),
            r >= 1,
    {
        proof {
            use_type_invariant(self);
        }
        if self.rows.len() == 0 {
            1
        } else {
            proof {
                let n = self.rows@.len() - 1;
                let b = self.block_rows as int;
                vstd::arithmetic::div_mod::lemma_div_pos_is_pos(n, b);
                vstd::arithmetic::div_mod::lemma_div_is_ordered_by_denominator(n, 1, b);
                assert(n / 1 == n);
            }
            (self.rows.len() - 1) / self.block_rows + 1
        }
    }
}

} // verus!
