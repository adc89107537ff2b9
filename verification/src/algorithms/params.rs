//! What algorithms are given and what they give back.

use vstd::hash_map::StringHashMap;
use vstd::prelude::*;

use crate::types::value::Value;

verus! {

/// The type of a parameter.
#[derive(Debug, Clone, Copy, PartialEq, Eq, Structural)]
pub enum ParameterType {
    /// A whole number.
    Integer,
    /// A text.
    String,
}

/// A parameter that an algorithm takes.
#[derive(Debug)]
pub struct ParameterDef {
    /// The name.
    pub name: String,
    /// What it means.
    pub description: String,
    /// The type.
    pub param_type: ParameterType,
    /// Whether it has to be given.
    pub required: bool,
    /// The value when it is not given.
    pub default: Option<String>,
}

/// The parameters of one run.
pub struct Parameters {
    strings: StringHashMap<String>,
    ints: StringHashMap<i64>,
}

impl Parameters {
    /// The texts by name.
    pub closed spec fn texts(&self) -> Map<Seq<char>, Seq<char>> {
        self.strings@.map_values(|s: String| s@)
    }

    /// The numbers by name.
    pub closed spec fn numbers(&self) -> Map<Seq<char>, i64> {
        self.ints@
    }

    /// No parameters.
    #[must_use]
    pub fn new() -> (r: Self)
        ensures
            r.texts() == Map::<Seq<char>, Seq<char>>::empty(),
            r.numbers() == Map::<Seq<char>, i64>::empty(),
    {
        let r = Self { strings: StringHashMap::new(), ints: StringHashMap::new() };
        assert(r.texts() =~= Map::<Seq<char>, Seq<char>>::empty());
        r
    }

    /// Sets a text.
    pub fn set_string(&mut self, name: &str, value: &str)
        ensures
            final(self).texts() == old(self).texts().insert(name@, value@),
            final(self).numbers() == old(self).numbers(),
    {
        self.strings.insert(name.to_owned(), value.to_owned());
        assert(self.texts() =~= old(self).texts().insert(name@, value@));
    }

    /// Sets a number.
    pub fn set_int(&mut self, name: &str, value: i64)
        ensures
            final(self).texts() == old(self).texts(),
            final(self).numbers() == old(self).numbers().insert(name@, value),
    {
        self.ints.insert(name.to_owned(), value);
    }

    /// A text, if it is set.
    #[must_use]
    pub fn get_string(&self, name: &str) -> (r: Option<&str>)
        ensures
            match r {
                Some(s) => self.texts().contains_pair(name@, s@),
                None => !self.texts().dom().contains(name@),
            },
    {
        match self.strings.get(name) {
            Some(s) => {
                assert(self.strings@.dom().contains(name@));
                Some(s.as_str())
            },
            None => None,
        }
    }

    /// A number, if it is set.
    #[must_use]
    pub fn get_int(&self, name: &str) -> (r: Option<i64>)
        ensures
            match r {
                Some(n) => self.numbers().contains_pair(name@, n),
                None => !self.numbers().dom().contains(name@),
            },
    {
        match self.ints.get(name) {
            Some(n) => Some(*n),
            None => None,
        }
    }
}

/// What an algorithm gives back: named columns, and rows.
#[derive(Debug)]
pub struct AlgorithmResult {
    /// The names of the columns.
    pub columns: Vec<String>,
    /// The rows.
    pub rows: Vec<Vec<Value>>,
}

impl AlgorithmResult {
    /// No rows yet.
    #[must_use]
    pub fn new(columns: Vec<String>) -> (r: Self)
        ensures
            r.columns == columns,
            r.rows@.len() == 0,
    {
        Self { columns, rows: Vec::new() }
    }

    /// Appends a row.
    pub fn add_row(&mut self, row: Vec<Value>)
        ensures
            final(self).columns == old(self).columns,
            final(self).rows@ == old(self).rows@.push(row),
    {
        self.rows.push(row);
    }

    /// The number of rows.
    #[must_use]
    pub fn row_count(&self) -> (r: usize)
        ensures
            r == self.rows@.len(),
    {
        self.rows.len()
    }
}

} // verus!
