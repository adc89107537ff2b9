//! The result of a query: its rows, and its triples as text.

use vstd::hash_map::StringHashMap;
use vstd::prelude::*;
use vstd::string::StringExecFns;

use crate::bindings::stream::{bool_str, pair_up, push_shown_list};
use crate::bindings::stream::{bool_text, paired, pairs_view, shown_list};
use crate::cli::data::texts;
use crate::text::{chars_of, decimal_i64};
use crate::text::{decimal, decimal_int};
use crate::text::push_decimal;
use crate::trusted::text::lowercase_of;
use crate::trusted::text::{lowercase_str, str_eq, string_push};

verus! {

/// A value of a result. Doubles, and values of other types, are held as they are
/// shown.
#[derive(Debug)]
pub enum Cell {
    /// The absent value.
    Null,
    /// A truth value.
    Bool(bool),
    /// A signed integer.
    Int64(i64),
    /// A double, as it is shown.
    Double(String),
    /// A string.
    Text(String),
    /// A value of any other type, as it is shown.
    Other(String),
}

/// What a cell is.
#[verifier::ext_equal]
pub ghost enum CellModel {
    /// The absent value.
    Null,
    /// A truth value.
    Bool(bool),
    /// A signed integer.
    Int64(i64),
    /// A double, as it is shown.
    Double(Seq<char>),
    /// A string.
    Text(Seq<char>),
    /// A value of any other type, as it is shown.
    Other(Seq<char>),
}

impl View for Cell {
    type V = CellModel;

    open spec fn view(&self) -> CellModel {
        match self {
            Cell::Null => CellModel::Null,
            Cell::Bool(b) => CellModel::Bool(*b),
            Cell::Int64(n) => CellModel::Int64(*n),
            Cell::Double(s) => CellModel::Double(s@),
            Cell::Text(s) => CellModel::Text(s@),
            Cell::Other(s) => CellModel::Other(s@),
        }
    }
}

impl Clone for Cell {
    fn clone(&self) -> (r: Self)
        ensures
            r@ == self@,
    {
        match self {
            Cell::Null => Cell::Null,
            Cell::Bool(b) => Cell::Bool(*b),
            Cell::Int64(n) => Cell::Int64(*n),
            Cell::Double(s) => Cell::Double(s.clone()),
            Cell::Text(s) => Cell::Text(s.clone()),
            Cell::Other(s) => Cell::Other(s.clone()),
        }
    }
}

/// What cells are.
pub open spec fn cells_view(row: Seq<Cell>) -> Seq<CellModel> {
    row.map_values(|c: Cell| c@)
}

/// What rows are.
pub open spec fn result_rows(rows: Seq<Vec<Cell>>) -> Seq<Seq<CellModel>> {
    rows.map_values(|row: Vec<Cell>| cells_view(row@))
}

/// What pairs of names and cells are.
pub open spec fn row_view(pairs: Seq<(String, Cell)>) -> Seq<(Seq<char>, CellModel)> {
    pairs.map_values(|p: (String, Cell)| (p.0@, p.1@))
}

/// Whether a text begins with another.
pub open spec fn begins_with(s: Seq<char>, start: Seq<char>) -> bool {
    s.len() >= start.len() && s.subrange(0, start.len() as int) == start
}

/// Whether a text looks like an IRI.
pub open spec fn looks_like_iri(s: Seq<char>) -> bool {
    begins_with(s, "http://"@) || begins_with(s, "https://"@) || begins_with(s, "urn:"@)
}

/// A character as it stands in a literal.
pub open spec fn escaped_char(c: char) -> Seq<char> {
    if c == '\\' {
        seq!['\\', '\\']
    } else if c == '"' {
        seq!['\\', '"']
    } else if c == '\n' {
        seq!['\\', 'n']
    } else if c == '\r' {
        seq!['\\', 'r']
    } else if c == '\t' {
        seq!['\\', 't']
    } else {
        seq![c]
    }
}

/// A text as it stands in a literal.
pub open spec fn escaped_literal(s: Seq<char>) -> Seq<char>
    decreases s.len(),
{
    if s.len() == 0 {
        Seq::empty()
    } else {
        escaped_literal(s.drop_last()) + escaped_char(s.last())
    }
}

/// A literal has no line breaks and no tabs.
pub proof fn law_literal_is_one_line(s: Seq<char>, i: int)
    requires
        0 <= i < escaped_literal(s).len(),
    ensures
        escaped_literal(s)[i] != '\n',
        escaped_literal(s)[i] != '\r',
        escaped_literal(s)[i] != '\t',
    decreases s.len(),
{
    if s.len() > 0 {
        let rest = escaped_literal(s.drop_last());
        if i < rest.len() {
            law_literal_is_one_line(s.drop_last(), i);
        } else {
            assert(escaped_literal(s)[i] == escaped_char(s.last())[i - rest.len()]);
        }
    }
}

/// What an escaped text was before: a backslash and the character after it stand for
/// one character.
pub open spec fn unescaped(s: Seq<char>) -> Seq<char>
    decreases s.len(),
{
    if s.len() == 0 {
        Seq::empty()
    } else if s[0] == '\\' && s.len() > 1 {
        let c = if s[1] == 'n' {
            '\n'
        } else if s[1] == 'r' {
            '\r'
        } else if s[1] == 't' {
            '\t'
        } else {
            s[1]
        };
        seq![c] + unescaped(s.skip(2))
    } else {
        seq![s[0]] + unescaped(s.skip(1))
    }
}

/// A literal says what it was made from: taking the escapes out gives the text back.
pub proof fn law_literal_keeps_text(s: Seq<char>)
    ensures
        unescaped(escaped_literal(s)) == s,
    decreases s.len(),
{
    lemma_unescape_front(s, Seq::empty());
    assert(escaped_literal(s) + Seq::<char>::empty() =~= escaped_literal(s));
    assert(s + unescaped(Seq::<char>::empty()) =~= s);
}

proof fn lemma_unescape_front(s: Seq<char>, rest: Seq<char>)
    ensures
        unescaped(escaped_literal(s) + rest) == s + unescaped(rest),
    decreases s.len(),
{
    if s.len() == 0 {
        assert(escaped_literal(s) + rest =~= rest);
        assert(s + unescaped(rest) =~= unescaped(rest));
    } else {
        let front = s.drop_last();
        let c = s.last();
        let e = escaped_char(c);
        lemma_unescape_front(front, e + rest);
        assert(escaped_literal(s) + rest =~= escaped_literal(front) + (e + rest));
        assert(unescaped(e + rest) == seq![c] + unescaped(rest)) by {
            let t = e + rest;
            if e.len() == 2 {
                assert(t.skip(2) =~= rest);
                assert(t[0] == '\\' && t[1] == e[1]);
            } else {
                assert(t.skip(1) =~= rest);
                assert(t[0] == c);
            }
        }
        assert(front + (seq![c] + unescaped(rest)) =~= s + unescaped(rest));
    }
}

/// A value with a datatype.
pub open spec fn typed(value: Seq<char>, datatype: Seq<char>) -> Seq<char> {
    "\""@ + value + "\"^^<http://www.w3.org/2001/XMLSchema#"@ + datatype + ">"@
}

/// A cell as a term.
pub open spec fn term_text(cell: CellModel) -> Seq<char> {
    match cell {
        CellModel::Text(s) => if looks_like_iri(s) {
            "<"@ + s + ">"@
        } else if begins_with(s, "_:"@) {
            s
        } else {
            "\""@ + escaped_literal(s) + "\""@
        },
        CellModel::Int64(n) => typed(decimal_int(n as int), "integer"@),
        CellModel::Double(s) => typed(s, "double"@),
        CellModel::Bool(b) => typed(bool_text(b), "boolean"@),
        CellModel::Null => "\"\""@,
        CellModel::Other(s) => "\""@ + s + "\""@,
    }
}

/// What comes before a text is where the whole begins, and nothing else is.
pub proof fn law_beginning_is_a_prefix(s: Seq<char>, start: Seq<char>, rest: Seq<char>)
    ensures
        begins_with(start + rest, start),
        begins_with(s, start) ==> s == start + s.skip(start.len() as int),
{
    assert((start + rest).subrange(0, start.len() as int) =~= start);
    if begins_with(s, start) {
        assert(s =~= s.subrange(0, start.len() as int) + s.skip(start.len() as int));
    }
}

/// A text that begins like an address stands in angle brackets, a blank node as it is,
/// and every other text in quotes.
pub proof fn law_texts_as_terms(s: Seq<char>, rest: Seq<char>)
    ensures
        term_text(CellModel::Text("http://"@ + rest)) == "<"@ + ("http://"@ + rest) + ">"@,
        term_text(CellModel::Text("https://"@ + rest)) == "<"@ + ("https://"@ + rest) + ">"@,
        term_text(CellModel::Text("urn:"@ + rest)) == "<"@ + ("urn:"@ + rest) + ">"@,
        term_text(CellModel::Text("_:"@ + rest)) == "_:"@ + rest,
        !begins_with(s, "http://"@) && !begins_with(s, "https://"@) && !begins_with(s, "urn:"@)
            && !begins_with(s, "_:"@) ==> term_text(CellModel::Text(s)) == "\""@ + escaped_literal(s)
            + "\""@,
{
    law_beginning_is_a_prefix(s, "http://"@, rest);
    law_beginning_is_a_prefix(s, "https://"@, rest);
    law_beginning_is_a_prefix(s, "urn:"@, rest);
    law_beginning_is_a_prefix(s, "_:"@, rest);
    reveal_strlit("http://");
    reveal_strlit("https://");
    reveal_strlit("urn:");
    reveal_strlit("_:");
    let blank = "_:"@ + rest;
    assert(blank[0] == '_');
    assert(!begins_with(blank, "http://"@)) by {
        if begins_with(blank, "http://"@) {
            assert(blank.subrange(0, 7)[0] == 'h');
        }
    }
    assert(!begins_with(blank, "https://"@)) by {
        if begins_with(blank, "https://"@) {
            assert(blank.subrange(0, 8)[0] == 'h');
        }
    }
    assert(!begins_with(blank, "urn:"@)) by {
        if begins_with(blank, "urn:"@) {
            assert(blank.subrange(0, 4)[0] == 'u');
        }
    }
}

/// Numbers and truth values are literals with the datatype of their kind, null is the
/// empty literal, and anything else stands in quotes.
pub proof fn law_values_as_terms(n: i64, b: bool, s: Seq<char>)
    ensures
        term_text(CellModel::Int64(n)) == "\""@ + decimal_int(n as int)
            + "\"^^<http://www.w3.org/2001/XMLSchema#"@ + "integer"@ + ">"@,
        term_text(CellModel::Double(s)) == "\""@ + s + "\"^^<http://www.w3.org/2001/XMLSchema#"@
            + "double"@ + ">"@,
        term_text(CellModel::Bool(b)) == "\""@ + (if b {
            "true"@
        } else {
            "false"@
        }) + "\"^^<http://www.w3.org/2001/XMLSchema#"@ + "boolean"@ + ">"@,
        term_text(CellModel::Null) == "\"\""@,
        term_text(CellModel::Other(s)) == "\""@ + s + "\""@,
{
}

/// In a literal a backslash stands before backslashes and quotes, line breaks and tabs
/// are written with their letters, every other character stands for itself, and each
/// character is written without regard to the others.
pub proof fn law_what_is_escaped(a: Seq<char>, b: Seq<char>, c: char)
    ensures
        escaped_literal(a + b) == escaped_literal(a) + escaped_literal(b),
        escaped_literal(seq!['\\']) == seq!['\\', '\\'],
        escaped_literal(seq!['"']) == seq!['\\', '"'],
        escaped_literal(seq!['\n']) == seq!['\\', 'n'],
        escaped_literal(seq!['\r']) == seq!['\\', 'r'],
        escaped_literal(seq!['\t']) == seq!['\\', 't'],
        c != '\\' && c != '"' && c != '\n' && c != '\r' && c != '\t' ==> escaped_literal(seq![c])
            == seq![c],
    decreases b.len(),
{
    assert(escaped_literal(Seq::empty()) == Seq::<char>::empty());
    lemma_one_escaped('\\');
    lemma_one_escaped('"');
    lemma_one_escaped('\n');
    lemma_one_escaped('\r');
    lemma_one_escaped('\t');
    lemma_one_escaped(c);
    if b.len() > 0 {
        law_what_is_escaped(a, b.drop_last(), c);
        assert((a + b).drop_last() =~= a + b.drop_last());
        assert(escaped_literal(a + b) =~= escaped_literal(a) + escaped_literal(b));
    } else {
        assert(a + b =~= a);
        assert(escaped_literal(a) + escaped_literal(b) =~= escaped_literal(a));
    }
}

proof fn lemma_one_escaped(c: char)
    ensures
        escaped_literal(seq![c]) == escaped_char(c),
{
    assert(seq![c].drop_last() =~= Seq::<char>::empty());
    assert(escaped_literal(Seq::empty()) == Seq::<char>::empty());
    assert(escaped_literal(seq![c]) =~= escaped_char(c));
}

/// Whether a text begins with another.
fn starts_with(s: &Vec<char>, start: &str) -> (r: bool)
    ensures
        r == begins_with(s@, start@),
{
    let head: Vec<char> = chars_of(start);
    if s.len() < head.len() {
        return false;
    }
    let mut i: usize = 0;
    while i < head.len()
        invariant
            i <= head@.len() <= s@.len(),
            head@ == start@,
            forall|k: int| 0 <= k < i ==> s@[k] == head@[k],
        decreases head.len() - i,
    {
        if s[i] != head[i] {
            assert(s@.subrange(0, start@.len() as int)[i as int] != start@[i as int]);
            return false;
        }
        i = i + 1;
    }
    assert(s@.subrange(0, start@.len() as int) =~= start@);
    true
}

/// A text as it stands in a literal.
fn escape_literal(s: &Vec<char>) -> (r: String)
    ensures
        r@ == escaped_literal(s@),
{
    let mut out: String = String::new();
    let mut i: usize = 0;
    assert(s@.take(0) =~= Seq::<char>::empty());
    while i < s.len()
        invariant
            i <= s@.len(),
            out@ == escaped_literal(s@.take(i as int)),
        decreases s.len() - i,
    {
        let c: char = s[i];
        let ghost before = out@;
        if c == '\\' {
            string_push(&mut out, '\\');
            string_push(&mut out, '\\');
        } else if c == '"' {
            string_push(&mut out, '\\');
            string_push(&mut out, '"');
        } else if c == '\n' {
            string_push(&mut out, '\\');
            string_push(&mut out, 'n');
        } else if c == '\r' {
            string_push(&mut out, '\\');
            string_push(&mut out, 'r');
        } else if c == '\t' {
            string_push(&mut out, '\\');
            string_push(&mut out, 't');
        } else {
            string_push(&mut out, c);
        }
        proof {
            assert(out@ =~= before + escaped_char(c));
            assert(s@.take(i + 1).drop_last() =~= s@.take(i as int));
            assert(s@.take(i + 1).last() == c);
        }
        i = i + 1;
    }
    assert(s@.take(i as int) =~= s@);
    out
}

/// A text between two others.
fn between(front: &str, s: &str, back: &str) -> (r: String)
    ensures
        r@ == front@ + s@ + back@,
{
    let mut out: String = String::new();
    out.append(front);
    out.append(s);
    out.append(back);
    assert(out@ =~= front@ + s@ + back@);
    out
}

/// A value with a datatype.
fn typed_term(value: &str, datatype: &str) -> (r: String)
    ensures
        r@ == typed(value@, datatype@),
{
    let mut out: String = String::new();
    out.append("\"");
    out.append(value);
    out.append("\"^^<http://www.w3.org/2001/XMLSchema#");
    out.append(datatype);
    out.append(">");
    assert(out@ =~= typed(value@, datatype@));
    out
}

/// A cell as a term: an IRI in angle brackets, a blank node as it is, and anything
/// else as a literal.
#[must_use]
pub fn value_to_ntriples_term(cell: &Cell) -> (r: String)
    ensures
        r@ == term_text(cell@),
{
    match cell {
        Cell::Text(s) => {
            let chars: Vec<char> = chars_of(s.as_str());
            if starts_with(&chars, "http://") || starts_with(&chars, "https://") || starts_with(
                &chars,
                "urn:",
            ) {
                between("<", s.as_str(), ">")
            } else if starts_with(&chars, "_:") {
                s.clone()
            } else {
                between("\"", escape_literal(&chars).as_str(), "\"")
            }
        },
        Cell::Int64(n) => typed_term(decimal_i64(*n).as_str(), "integer"),
        Cell::Double(s) => typed_term(s.as_str(), "double"),
        Cell::Bool(b) => typed_term(bool_str(*b), "boolean"),
        Cell::Null => "\"\"".to_owned(),
        Cell::Other(s) => between("\"", s.as_str(), "\""),
    }
}

/// The first column whose name in lower case is one of two.
pub open spec fn column_named(names: Seq<Seq<char>>, long: Seq<char>, short: Seq<char>) -> Option<
    nat,
>
    decreases names.len(),
{
    if names.len() == 0 {
        None
    } else {
        match column_named(names.drop_last(), long, short) {
            Some(i) => Some(i),
            None => if names.last() == long || names.last() == short {
                Some((names.len() - 1) as nat)
            } else {
                None
            },
        }
    }
}

/// The columns of subject, predicate and object, by names in lower case.
pub open spec fn triple_columns(names: Seq<Seq<char>>) -> Option<(nat, nat, nat)> {
    match (
        column_named(names, "subject"@, "s"@),
        column_named(names, "predicate"@, "p"@),
        column_named(names, "object"@, "o"@),
    ) {
        (Some(s), Some(p), Some(o)) => Some((s, p, o)),
        _ => None,
    }
}

/// Names in lower case.
pub open spec fn lower_names(names: Seq<Seq<char>>) -> Seq<Seq<char>> {
    names.map_values(|s: Seq<char>| lowercase_of(s))
}

/// The column that is found is the first with either name, and one is found exactly if
/// there is one.
proof fn lemma_column_named(names: Seq<Seq<char>>, long: Seq<char>, short: Seq<char>)
    ensures
        match column_named(names, long, short) {
            Some(i) => i < names.len() && (names[i as int] == long || names[i as int] == short)
                && forall|j: int|
                0 <= j < i ==> (#[trigger] names[j]) != long && names[j] != short,
            None => forall|j: int|
                0 <= j < names.len() ==> (#[trigger] names[j]) != long && names[j] != short,
        },
    decreases names.len(),
{
    if names.len() > 0 {
        let front = names.drop_last();
        lemma_column_named(front, long, short);
        assert forall|j: int| 0 <= j < front.len() implies front[j] == #[trigger] names[j] by {}
    }
}

/// Whether `c` is the first of the names that is, in lower case, one of two.
pub open spec fn is_first_named(names: Seq<Seq<char>>, long: Seq<char>, short: Seq<char>, c: int) -> bool {
    &&& 0 <= c < names.len()
    &&& lowercase_of(names[c]) == long || lowercase_of(names[c]) == short
    &&& forall|j: int|
        0 <= j < c ==> lowercase_of(#[trigger] names[j]) != long && lowercase_of(names[j]) != short
}

/// The parts of a triple are found by name: the subject in the first column that is
/// called subject or s, the predicate in the first called predicate or p, and the
/// object in the first called object or o, whatever the case of the letters.
pub proof fn law_triples_are_found_by_name(names: Seq<Seq<char>>, s: nat, p: nat, o: nat)
    ensures
        triple_columns(lower_names(names)) == Some((s, p, o)) <==> is_first_named(
            names,
            "subject"@,
            "s"@,
            s as int,
        ) && is_first_named(names, "predicate"@, "p"@, p as int) && is_first_named(
            names,
            "object"@,
            "o"@,
            o as int,
        ),
        triple_columns(lower_names(names)) is None <==> (forall|c: int|
            !#[trigger] is_first_named(names, "subject"@, "s"@, c)) || (forall|c: int|
            !#[trigger] is_first_named(names, "predicate"@, "p"@, c)) || (forall|c: int|
            !#[trigger] is_first_named(names, "object"@, "o"@, c)),
{
    lemma_first_named(names, "subject"@, "s"@);
    lemma_first_named(names, "predicate"@, "p"@);
    lemma_first_named(names, "object"@, "o"@);
}

proof fn lemma_first_named(names: Seq<Seq<char>>, long: Seq<char>, short: Seq<char>)
    ensures
        forall|c: int| #[trigger]
            is_first_named(names, long, short, c) <==> column_named(
                lower_names(names),
                long,
                short,
            ) == Some(c as nat) && c >= 0,
        column_named(lower_names(names), long, short) matches Some(i) ==> is_first_named(
            names,
            long,
            short,
            i as int,
        ),
{
    let low = lower_names(names);
    lemma_column_named(low, long, short);
    assert forall|j: int| 0 <= j < names.len() implies lowercase_of(#[trigger] names[j]) == low[j] by {}
    assert forall|c: int| #[trigger]
        is_first_named(names, long, short, c) implies column_named(low, long, short) == Some(
        c as nat,
    ) by {
        match column_named(low, long, short) {
            Some(i) => {
                if i < c {
                    assert(lowercase_of(names[i as int]) == low[i as int]);
                }
                if c < i {
                    assert(low[c] == lowercase_of(names[c]));
                }
            },
            None => {
                assert(low[c] == lowercase_of(names[c]));
            },
        }
    }
}

/// The first column whose name is one of two.
fn find_column(names: &Vec<String>, long: &str, short: &str) -> (r: Option<usize>)
    ensures
        match r {
            Some(i) => column_named(texts(names@), long@, short@) == Some(i as nat) && i
                < names@.len(),
            None => column_named(texts(names@), long@, short@) is None,
        },
{
    let ghost all = texts(names@);
    let mut i: usize = 0;
    assert(all.take(0) =~= Seq::<Seq<char>>::empty());
    while i < names.len()
        invariant
            i <= names@.len(),
            all == texts(names@),
            column_named(all.take(i as int), long@, short@) is None,
        decreases names.len() - i,
    {
        proof {
            assert(all.take(i + 1).drop_last() =~= all.take(i as int));
            assert(all.take(i + 1).last() == names@[i as int]@);
        }
        if str_eq(names[i].as_str(), long) || str_eq(names[i].as_str(), short) {
            proof {
                lemma_column_stays(all, long@, short@, i + 1);
            }
            return Some(i);
        }
        i = i + 1;
    }
    assert(all.take(i as int) =~= all);
    None
}

proof fn lemma_column_stays(names: Seq<Seq<char>>, long: Seq<char>, short: Seq<char>, k: int)
    requires
        0 <= k <= names.len(),
        column_named(names.take(k), long, short) is Some,
    ensures
        column_named(names, long, short) == column_named(names.take(k), long, short),
    decreases names.len(),
{
    if k < names.len() {
        assert(names.drop_last().take(k) =~= names.take(k));
        lemma_column_stays(names.drop_last(), long, short, k);
    } else {
        assert(names.take(k) =~= names);
    }
}

/// The columns of subject, predicate and object, by names in lower case.
#[must_use]
pub fn triple_column_indices(names: &Vec<String>) -> (r: Option<(usize, usize, usize)>)
    ensures
        match r {
            Some((s, p, o)) => triple_columns(texts(names@)) == Some(
                (s as nat, p as nat, o as nat),
            ) && s < names@.len() && p < names@.len() && o < names@.len(),
            None => triple_columns(texts(names@)) is None,
        },
{
    let s: usize = match find_column(names, "subject", "s") {
        Some(i) => i,
        None => {
            return None;
        },
    };
    let p: usize = match find_column(names, "predicate", "p") {
        Some(i) => i,
        None => {
            return None;
        },
    };
    match find_column(names, "object", "o") {
        Some(o) => Some((s, p, o)),
        None => None,
    }
}

/// A triple of terms as text.
#[verifier::ext_equal]
pub ghost struct TermTriple {
    /// The subject.
    pub subject: Seq<char>,
    /// The predicate.
    pub predicate: Seq<char>,
    /// The object.
    pub object: Seq<char>,
}

/// Whether every row has a cell in each of three columns.
pub open spec fn all_reach(rows: Seq<Seq<CellModel>>, columns: (nat, nat, nat)) -> bool {
    forall|i: int| #![trigger rows[i]]
        0 <= i < rows.len() ==> columns.0 < rows[i].len() && columns.1 < rows[i].len() && columns.2
            < rows[i].len()
}

/// Rows hold triples exactly if none is too short for one of the three columns.
pub proof fn law_which_rows_hold_triples(rows: Seq<Seq<CellModel>>, columns: (nat, nat, nat))
    ensures
        all_reach(rows, columns) <==> !(exists|i: int| #![trigger rows[i]]
            0 <= i < rows.len() && (rows[i].len() <= columns.0 || rows[i].len() <= columns.1
                || rows[i].len() <= columns.2)),
{
}

/// Whether every row has a cell in each of three columns.
fn rows_reach(rows: &Vec<Vec<Cell>>, columns: (usize, usize, usize)) -> (r: bool)
    ensures
        r == all_reach(
            result_rows(rows@),
            (columns.0 as nat, columns.1 as nat, columns.2 as nat),
        ),
{
    let mut i: usize = 0;
    while i < rows.len()
        invariant
            i <= rows@.len(),
            forall|k: int| #![trigger rows@[k]]
                0 <= k < i ==> columns.0 < rows@[k]@.len() && columns.1 < rows@[k]@.len()
                    && columns.2 < rows@[k]@.len(),
        decreases rows.len() - i,
    {
        let n: usize = rows[i].len();
        if columns.0 >= n || columns.1 >= n || columns.2 >= n {
            assert(result_rows(rows@)[i as int].len() == n);
            return false;
        }
        i = i + 1;
    }
    true
}

/// The triple in a row.
pub open spec fn row_triple(row: Seq<CellModel>, columns: (nat, nat, nat)) -> TermTriple {
    TermTriple {
        subject: term_text(row[columns.0 as int]),
        predicate: term_text(row[columns.1 as int]),
        object: term_text(row[columns.2 as int]),
    }
}

/// The triples in rows.
pub open spec fn row_triples(rows: Seq<Seq<CellModel>>, columns: (nat, nat, nat)) -> Seq<
    TermTriple,
> {
    rows.map_values(|row: Seq<CellModel>| row_triple(row, columns))
}

/// A triple on a line of its own.
pub open spec fn triple_line(t: TermTriple) -> Seq<char> {
    t.subject + " "@ + t.predicate + " "@ + t.object + " .\n"@
}

/// Triples, each on a line of its own.
pub open spec fn triple_lines(triples: Seq<TermTriple>) -> Seq<char>
    decreases triples.len(),
{
    if triples.len() == 0 {
        Seq::empty()
    } else {
        triple_lines(triples.drop_last()) + triple_line(triples.last())
    }
}

/// Rows are told one after the other, each on a line: the cell of the first column, that
/// of the second and that of the third, with spaces between them and a full stop.
pub proof fn law_each_row_is_a_line(
    rows: Seq<Seq<CellModel>>,
    row: Seq<CellModel>,
    s: nat,
    p: nat,
    o: nat,
)
    ensures
        triple_lines(row_triples(Seq::empty(), (s, p, o))) == Seq::<char>::empty(),
        triple_lines(row_triples(rows.push(row), (s, p, o))) == triple_lines(
            row_triples(rows, (s, p, o)),
        ) + (term_text(row[s as int]) + " "@ + term_text(row[p as int]) + " "@ + term_text(
            row[o as int],
        ) + " .\n"@),
{
    let columns = (s, p, o);
    let all = row_triples(rows.push(row), columns);
    assert(row_triples(Seq::<Seq<CellModel>>::empty(), columns).len() == 0);
    assert(all.drop_last() =~= row_triples(rows, columns));
    assert(all.last() == row_triple(row, columns));
}

/// What is said of one subject: predicates and objects.
#[verifier::ext_equal]
pub ghost struct SubjectGroup {
    /// The subject.
    pub subject: Seq<char>,
    /// Its predicates and objects.
    pub pairs: Seq<(Seq<char>, Seq<char>)>,
}

/// The position of a subject among groups, or their number if it is not there.
pub open spec fn group_index(groups: Seq<SubjectGroup>, subject: Seq<char>) -> int
    decreases groups.len(),
{
    if groups.len() == 0 {
        0
    } else if group_index(groups.drop_last(), subject) < groups.len() - 1 {
        group_index(groups.drop_last(), subject)
    } else if groups.last().subject == subject {
        groups.len() - 1
    } else {
        groups.len() as int
    }
}

/// Groups with one more triple.
pub open spec fn with_triple(groups: Seq<SubjectGroup>, t: TermTriple) -> Seq<SubjectGroup> {
    let i = group_index(groups, t.subject);
    let pair = (t.predicate, t.object);
    if i < groups.len() {
        groups.update(
            i,
            SubjectGroup { subject: t.subject, pairs: groups[i].pairs.push(pair) },
        )
    } else {
        groups.push(SubjectGroup { subject: t.subject, pairs: seq![pair] })
    }
}

/// Triples grouped by subject, subjects in the order in which they first occur.
pub open spec fn grouped(triples: Seq<TermTriple>) -> Seq<SubjectGroup>
    decreases triples.len(),
{
    if triples.len() == 0 {
        Seq::empty()
    } else {
        with_triple(grouped(triples.drop_last()), triples.last())
    }
}

/// The predicates and objects that triples give for a subject, in order.
pub open spec fn pairs_for(triples: Seq<TermTriple>, subject: Seq<char>) -> Seq<
    (Seq<char>, Seq<char>),
>
    decreases triples.len(),
{
    if triples.len() == 0 {
        Seq::empty()
    } else {
        let rest = pairs_for(triples.drop_last(), subject);
        if triples.last().subject == subject {
            rest.push((triples.last().predicate, triples.last().object))
        } else {
            rest
        }
    }
}

/// A group is found at its position.
proof fn lemma_group_index(groups: Seq<SubjectGroup>, subject: Seq<char>)
    ensures
        0 <= group_index(groups, subject) <= groups.len(),
        group_index(groups, subject) < groups.len() ==> groups[group_index(
            groups,
            subject,
        )].subject == subject,
        forall|i: int| #![trigger groups[i]]
            0 <= i < group_index(groups, subject) && i < groups.len() ==> groups[i].subject
                != subject,
    decreases groups.len(),
{
    if groups.len() > 0 {
        let front = groups.drop_last();
        lemma_group_index(front, subject);
        assert forall|i: int| #![trigger groups[i]]
            0 <= i < group_index(groups, subject) && i < groups.len() implies groups[i].subject
            != subject by {
            if i < front.len() {
                assert(front[i] == groups[i]);
            }
        }
    }
}

/// Grouping loses no triple, adds none and keeps their order: each subject has one
/// group, which holds what the triples say of it, in their order.
pub proof fn law_grouping_keeps_triples(triples: Seq<TermTriple>)
    ensures
        forall|i: int, j: int|
            0 <= i < j < grouped(triples).len() ==> (#[trigger] grouped(triples)[i]).subject != (
            #[trigger] grouped(triples)[j]).subject,
        forall|i: int| #![trigger grouped(triples)[i]]
            0 <= i < grouped(triples).len() ==> grouped(triples)[i].pairs == pairs_for(
                triples,
                grouped(triples)[i].subject,
            ) && grouped(triples)[i].pairs.len() > 0,
        forall|k: int| #![trigger triples[k]]
            0 <= k < triples.len() ==> group_index(grouped(triples), triples[k].subject) < grouped(
                triples,
            ).len(),
    decreases triples.len(),
{
    if triples.len() > 0 {
        let front = triples.drop_last();
        let t = triples.last();
        let g = grouped(front);
        let h = grouped(triples);
        law_grouping_keeps_triples(front);
        lemma_group_index(g, t.subject);
        let at = group_index(g, t.subject);
        assert forall|i: int| #![trigger h[i]] 0 <= i < h.len() implies h[i].pairs == pairs_for(
            triples,
            h[i].subject,
        ) && h[i].pairs.len() > 0 by {
            if i < g.len() && i != at {
                assert(h[i] == g[i]);
                if at < g.len() {
                    if i < at {
                        assert(g[i].subject != g[at].subject);
                    } else {
                        assert(g[at].subject != g[i].subject);
                    }
                }
                assert(g[i].subject != t.subject);
            } else if i == at && at < g.len() {
                assert(g[i].pairs == pairs_for(front, t.subject));
            } else {
                lemma_no_pairs(front, t.subject);
                assert(pairs_for(triples, t.subject) =~= seq![(t.predicate, t.object)]);
            }
        }
        assert forall|i: int, j: int| 0 <= i < j < h.len() implies (#[trigger] h[i]).subject != (
        #[trigger] h[j]).subject by {
            if j < g.len() {
                assert(g[i].subject != g[j].subject);
            } else {
                assert(g[i].subject != t.subject);
            }
        }
        assert forall|k: int| #![trigger triples[k]] 0 <= k < triples.len() implies group_index(
            h,
            triples[k].subject,
        ) < h.len() by {
            lemma_group_index(h, triples[k].subject);
            if k < front.len() {
                assert(front[k] == triples[k]);
                lemma_group_index(g, triples[k].subject);
                let i = group_index(g, triples[k].subject);
                assert(h[i].subject == g[i].subject);
            } else {
                assert(h[at].subject == t.subject);
            }
        }
    }
}

/// A subject without a group has no triples.
proof fn lemma_no_pairs(triples: Seq<TermTriple>, subject: Seq<char>)
    requires
        group_index(grouped(triples), subject) >= grouped(triples).len(),
        forall|k: int| #![trigger triples[k]]
            0 <= k < triples.len() ==> group_index(grouped(triples), triples[k].subject) < grouped(
                triples,
            ).len(),
    ensures
        pairs_for(triples, subject).len() == 0,
{
    lemma_pairs_need_triple(triples, subject);
}

/// A subject of no triple has no pairs.
proof fn lemma_pairs_need_triple(triples: Seq<TermTriple>, subject: Seq<char>)
    ensures
        (forall|k: int| #![trigger triples[k]]
            0 <= k < triples.len() ==> triples[k].subject != subject) ==> pairs_for(
            triples,
            subject,
        ).len() == 0,
    decreases triples.len(),
{
    if triples.len() > 0 {
        let front = triples.drop_last();
        lemma_pairs_need_triple(front, subject);
        if (forall|k: int| #![trigger triples[k]]
            0 <= k < triples.len() ==> triples[k].subject != subject) {
            assert forall|k: int| #![trigger front[k]] 0 <= k < front.len() implies front[k].subject
                != subject by {
                assert(front[k] == triples[k]);
            }
            assert(triples[triples.len() - 1].subject != subject);
        }
    }
}

/// The predicates and objects of a subject, with semicolons between them.
pub open spec fn pairs_text(pairs: Seq<(Seq<char>, Seq<char>)>) -> Seq<char>
    decreases pairs.len(),
{
    if pairs.len() == 0 {
        Seq::empty()
    } else {
        let lead = if pairs.len() == 1 {
            " "@
        } else {
            " ;\n    "@
        };
        pairs_text(pairs.drop_last()) + lead + pairs.last().0 + " "@ + pairs.last().1
    }
}

/// A group as text.
pub open spec fn group_text(g: SubjectGroup) -> Seq<char> {
    g.subject + pairs_text(g.pairs) + " .\n\n"@
}

/// Groups as text.
pub open spec fn groups_text(groups: Seq<SubjectGroup>) -> Seq<char>
    decreases groups.len(),
{
    if groups.len() == 0 {
        Seq::empty()
    } else {
        groups_text(groups.drop_last()) + group_text(groups.last())
    }
}

/// A subject that no triple had before gets a group of its own after the others; what is
/// said of one that had is added to its group, and the groups keep their places.
pub proof fn law_groups_keep_their_places(triples: Seq<TermTriple>, t: TermTriple)
    ensures
        grouped(Seq::empty()).len() == 0,
        (exists|k: int| 0 <= k < triples.len() && (#[trigger] triples[k]).subject == t.subject)
            ==> grouped(triples.push(t)).len() == grouped(triples).len(),
        (forall|k: int| 0 <= k < triples.len() ==> (#[trigger] triples[k]).subject != t.subject)
            ==> grouped(triples.push(t)) == grouped(triples).push(
            SubjectGroup { subject: t.subject, pairs: seq![(t.predicate, t.object)] },
        ),
        forall|i: int| #![trigger grouped(triples)[i]]
            0 <= i < grouped(triples).len() ==> grouped(triples.push(t))[i].subject == grouped(
                triples,
            )[i].subject && grouped(triples.push(t))[i].pairs == if grouped(triples)[i].subject
                == t.subject {
                grouped(triples)[i].pairs.push((t.predicate, t.object))
            } else {
                grouped(triples)[i].pairs
            },
{
    let old_groups = grouped(triples);
    assert(triples.push(t).drop_last() =~= triples);
    assert(triples.push(t).last() == t);
    law_grouping_keeps_triples(triples);
    lemma_group_found(old_groups, t.subject);
    lemma_subjects_come_from_triples(triples);
    if exists|k: int| 0 <= k < triples.len() && (#[trigger] triples[k]).subject == t.subject {
        let k = choose|k: int| 0 <= k < triples.len() && (#[trigger] triples[k]).subject
            == t.subject;
        assert(group_index(old_groups, triples[k].subject) < old_groups.len());
    }
}

/// The position of a subject among groups is that of the first group with it.
proof fn lemma_group_found(groups: Seq<SubjectGroup>, subject: Seq<char>)
    ensures
        0 <= group_index(groups, subject) <= groups.len(),
        group_index(groups, subject) < groups.len() ==> groups[group_index(
            groups,
            subject,
        )].subject == subject,
        forall|i: int|
            0 <= i < group_index(groups, subject) ==> (#[trigger] groups[i]).subject != subject,
    decreases groups.len(),
{
    if groups.len() > 0 {
        let front = groups.drop_last();
        lemma_group_found(front, subject);
        assert forall|i: int| 0 <= i < front.len() implies front[i] == #[trigger] groups[i] by {}
    }
}

/// Every group has the subject of some triple.
proof fn lemma_subjects_come_from_triples(triples: Seq<TermTriple>)
    ensures
        forall|i: int| #![trigger grouped(triples)[i]]
            0 <= i < grouped(triples).len() ==> exists|k: int|
                0 <= k < triples.len() && (#[trigger] triples[k]).subject == grouped(
                    triples,
                )[i].subject,
    decreases triples.len(),
{
    if triples.len() > 0 {
        let front = triples.drop_last();
        lemma_subjects_come_from_triples(front);
        lemma_group_found(grouped(front), triples.last().subject);
        assert forall|i: int| #![trigger grouped(triples)[i]]
            0 <= i < grouped(triples).len() implies exists|k: int|
            0 <= k < triples.len() && (#[trigger] triples[k]).subject == grouped(
                triples,
            )[i].subject by {
            if i < grouped(front).len() {
                assert(grouped(front)[i].subject == grouped(triples)[i].subject);
                let k = choose|k: int|
                    0 <= k < front.len() && (#[trigger] front[k]).subject == grouped(
                        front,
                    )[i].subject;
                assert(triples[k].subject == grouped(triples)[i].subject);
            } else {
                assert(triples[triples.len() - 1].subject == grouped(triples)[i].subject);
            }
        }
    }
}

/// Groups are told one after the other. Each begins with its subject; the first
/// predicate and its object follow after a space, every other after a semicolon on a
/// line of its own; and the last is followed by a full stop and an empty line.
pub proof fn law_how_groups_are_told(
    groups: Seq<SubjectGroup>,
    subject: Seq<char>,
    pairs: Seq<(Seq<char>, Seq<char>)>,
    predicate: Seq<char>,
    object: Seq<char>,
)
    ensures
        groups_text(Seq::empty()) == Seq::<char>::empty(),
        groups_text(groups.push(SubjectGroup { subject, pairs })) == groups_text(groups) + (subject
            + pairs_text(pairs) + " .\n\n"@),
        pairs_text(seq![(predicate, object)]) == " "@ + predicate + " "@ + object,
        pairs.len() > 0 ==> pairs_text(pairs.push((predicate, object))) == pairs_text(pairs)
            + " ;\n    "@ + predicate + " "@ + object,
{
    let g = SubjectGroup { subject, pairs };
    assert(groups.push(g).drop_last() =~= groups);
    let one = seq![(predicate, object)];
    assert(one.drop_last() =~= Seq::<(Seq<char>, Seq<char>)>::empty());
    assert(pairs_text(Seq::empty()) == Seq::<char>::empty());
    assert(pairs_text(one) == pairs_text(one.drop_last()) + " "@ + predicate + " "@ + object);
    assert(Seq::<char>::empty() + " "@ =~= " "@);
    assert(pairs.push((predicate, object)).drop_last() =~= pairs);
}

/// What is said where the columns are no triple.
pub open spec fn columns_error(names: Seq<Seq<char>>) -> Seq<char> {
    "to_ntriples()/to_turtle() requires columns named [subject, predicate, object] (or [s, p, o]). Got: "@
        + shown_list(names)
}

/// The rows of a query, with a position for walking through them.
#[derive(Debug)]
pub struct PyQueryResult {
    /// The names of the columns.
    pub columns: Vec<String>,
    /// The rows.
    pub rows: Vec<Vec<Cell>>,
    /// How many rows the walk has passed.
    pub current_row: usize,
    /// How long the query took, as it is shown, if that is known.
    pub execution_time: Option<String>,
    /// How many rows the query read, if that is known.
    pub rows_scanned: Option<u64>,
}

/// The row that an index means: one below zero counts from the end.
pub open spec fn resolved_index(idx: int, len: nat) -> Option<int> {
    let i = if idx < 0 {
        len + idx
    } else {
        idx
    };
    if 0 <= i < len {
        Some(i)
    } else {
        None
    }
}

/// An index below zero counts from the end: minus one is the last row, and each index
/// below zero means what the number of rows added to it means. An index that is not
/// below zero means itself, if there are so many rows.
pub proof fn law_indices_count_from_either_end(idx: int, len: nat)
    ensures
        len > 0 ==> resolved_index(-1, len) == Some(len - 1),
        0 <= idx < len ==> resolved_index(idx, len) == Some(idx) && resolved_index(
            idx - len,
            len,
        ) == Some(idx),
        idx >= len ==> resolved_index(idx, len) is None,
        idx < -(len as int) ==> resolved_index(idx, len) is None,
{
}

/// A copy of a row.
fn copy_row(row: &Vec<Cell>) -> (r: Vec<Cell>)
    ensures
        cells_view(r@) == cells_view(row@),
{
    let mut out: Vec<Cell> = Vec::new();
    let mut i: usize = 0;
    while i < row.len()
        invariant
            i <= row@.len(),
            out@.len() == i,
            forall|k: int| #![trigger out@[k]] 0 <= k < i ==> out@[k]@ == row@[k]@,
        decreases row.len() - i,
    {
        let c: Cell = row[i].clone();
        out.push(c);
        i = i + 1;
    }
    assert(cells_view(out@) =~= cells_view(row@));
    out
}

/// Names with the cells of a row.
fn named_row(columns: &Vec<String>, row: &Vec<Cell>) -> (r: Vec<(String, Cell)>)
    ensures
        row_view(r@) == paired(texts(columns@), cells_view(row@)),
{
    let copy: Vec<Cell> = copy_row(row);
    let r: Vec<(String, Cell)> = pair_up(columns, copy);
    proof {
        let pairs = pairs_view(r@);
        assert(pairs == paired(texts(columns@), copy@));
        assert(row_view(r@) =~= paired(texts(columns@), cells_view(row@))) by {
            assert(r@.len() == pairs.len());
            assert forall|i: int| 0 <= i < r@.len() implies row_view(r@)[i] == paired(
                texts(columns@),
                cells_view(row@),
            )[i] by {
                assert(pairs[i] == (r@[i].0@, r@[i].1));
                assert(cells_view(copy@)[i] == copy@[i]@);
            }
        }
    }
    r
}

impl PyQueryResult {
    /// What the rows are.
    pub open spec fn row_cells(&self) -> Seq<Seq<CellModel>> {
        result_rows(self.rows@)
    }

    /// The names of the columns.
    pub open spec fn names(&self) -> Seq<Seq<char>> {
        texts(self.columns@)
    }

    /// Whether every row has a cell for each part of its triple, if the columns are
    /// those of triples.
    pub open spec fn has_triples(&self) -> bool {
        match triple_columns(lower_names(self.names())) {
            Some(columns) => all_reach(self.row_cells(), columns),
            None => true,
        }
    }

    /// A result with the given rows.
    #[must_use]
    pub fn new(columns: Vec<String>, rows: Vec<Vec<Cell>>) -> (r: Self)
        ensures
            r.columns == columns,
            r.rows == rows,
            r.current_row == 0,
            r.execution_time is None,
            r.rows_scanned is None,
    {
        Self { columns, rows, current_row: 0, execution_time: None, rows_scanned: None }
    }

    /// A result with the given rows, and what is known of how it came about.
    #[must_use]
    pub fn with_metrics(
        columns: Vec<String>,
        rows: Vec<Vec<Cell>>,
        execution_time: Option<String>,
        rows_scanned: Option<u64>,
    ) -> (r: Self)
        ensures
            r.columns == columns,
            r.rows == rows,
            r.current_row == 0,
            r.execution_time == execution_time,
            r.rows_scanned == rows_scanned,
    {
        Self { columns, rows, current_row: 0, execution_time, rows_scanned }
    }

    /// A result without rows and columns.
    #[must_use]
    pub fn empty() -> (r: Self)
        ensures
            r.columns@.len() == 0,
            r.rows@.len() == 0,
            r.current_row == 0,
            r.execution_time is None,
            r.rows_scanned is None,
    {
        Self {
            columns: Vec::new(),
            rows: Vec::new(),
            current_row: 0,
            execution_time: None,
            rows_scanned: None,
        }
    }

    /// The number of rows.
    #[must_use]
    pub fn len(&self) -> (r: usize)
        ensures
            r == self.rows@.len(),
    {
        self.rows.len()
    }

    /// A row by its index. One below zero counts from the end.
    pub fn get_item(&self, idx: isize) -> (r: Result<Vec<(String, Cell)>, &'static str>)
        ensures
            match r {
                Ok(pairs) => resolved_index(idx as int, self.rows@.len()) matches Some(i)
                    && row_view(pairs@) == paired(self.names(), self.row_cells()[i]),
                Err(e) => resolved_index(idx as int, self.rows@.len()) is None && e@
                    == "Row index out of range"@,
            },
    {
        let n: i128 = self.rows.len() as i128;
        let at: i128 = if idx < 0 {
            n + idx as i128
        } else {
            idx as i128
        };
        if at < 0 || at >= n {
            return Err("Row index out of range");
        }
        let i: usize = at as usize;
        Ok(named_row(&self.columns, &self.rows[i]))
    }

    /// The next row of the walk, or `None` at its end.
    pub fn next_row(&mut self) -> (r: Option<Vec<(String, Cell)>>)
        ensures
            r is Some <==> old(self).current_row < old(self).rows@.len(),
            r matches Some(pairs) ==> row_view(pairs@) == paired(
                old(self).names(),
                old(self).row_cells()[old(self).current_row as int],
            ),
            final(self).current_row == if old(self).current_row < old(self).rows@.len() {
                old(self).current_row + 1
            } else {
                old(self).current_row as int
            },
            final(self).columns == old(self).columns,
            final(self).rows == old(self).rows,
            final(self).execution_time == old(self).execution_time,
            final(self).rows_scanned == old(self).rows_scanned,
    {
        if self.current_row >= self.rows.len() {
            return None;
        }
        let idx: usize = self.current_row;
        self.current_row = idx + 1;
        Some(named_row(&self.columns, &self.rows[idx]))
    }

    /// Every row, its cells under the names of their columns.
    pub fn to_list(&self) -> (r: Vec<Vec<(String, Cell)>>)
        ensures
            r@.map_values(|row: Vec<(String, Cell)>| row_view(row@)) == self.row_cells().map_values(
                |cells: Seq<CellModel>| paired(self.names(), cells),
            ),
    {
        let mut out: Vec<Vec<(String, Cell)>> = Vec::new();
        let ghost goal = self.row_cells().map_values(
            |cells: Seq<CellModel>| paired(self.names(), cells),
        );
        let mut i: usize = 0;
        while i < self.rows.len()
            invariant
                i <= self.rows@.len(),
                goal == self.row_cells().map_values(
                    |cells: Seq<CellModel>| paired(self.names(), cells),
                ),
                out@.len() == i,
                forall|k: int| #![trigger out@[k]] 0 <= k < i ==> row_view(out@[k]@) == goal[k],
            decreases self.rows.len() - i,
        {
            let row: Vec<(String, Cell)> = named_row(&self.columns, &self.rows[i]);
            out.push(row);
            i = i + 1;
        }
        assert(out@.map_values(|row: Vec<(String, Cell)>| row_view(row@)) =~= goal);
        out
    }

    /// The first cell of the first row. A row has a cell if there is a column.
    pub fn scalar(&self) -> (r: Result<&Cell, &'static str>)
        requires
            self.rows@.len() > 0 && self.columns@.len() > 0 ==> self.rows@[0]@.len() > 0,
        ensures
            match r {
                Ok(cell) => self.rows@.len() > 0 && self.columns@.len() > 0 && *cell
                    == self.rows@[0]@[0],
                Err(e) => if self.rows@.len() == 0 {
                    e@ == "No rows in result"@
                } else {
                    self.columns@.len() == 0 && e@ == "No columns in result"@
                },
            },
    {
        if self.rows.len() == 0 {
            return Err("No rows in result");
        }
        if self.columns.len() == 0 {
            return Err("No columns in result");
        }
        Ok(&self.rows[0][0])
    }

    /// The cells of a column, row by row. A row that is too short has null there.
    #[must_use]
    pub fn column(&self, index: usize) -> (r: Vec<Cell>)
        ensures
            cells_view(r@) == self.row_cells().map_values(
                |row: Seq<CellModel>|
                    if index < row.len() {
                        row[index as int]
                    } else {
                        CellModel::Null
                    },
            ),
    {
        let mut out: Vec<Cell> = Vec::new();
        let ghost goal = self.row_cells().map_values(
            |row: Seq<CellModel>|
                if index < row.len() {
                    row[index as int]
                } else {
                    CellModel::Null
                },
        );
        let mut i: usize = 0;
        while i < self.rows.len()
            invariant
                i <= self.rows@.len(),
                goal == self.row_cells().map_values(
                    |row: Seq<CellModel>|
                        if index < row.len() {
                            row[index as int]
                        } else {
                            CellModel::Null
                        },
                ),
                out@.len() == i,
                forall|k: int| #![trigger out@[k]] 0 <= k < i ==> out@[k]@ == goal[k],
            decreases self.rows.len() - i,
        {
            let row: &Vec<Cell> = &self.rows[i];
            let c: Cell = if index < row.len() {
                row[index].clone()
            } else {
                Cell::Null
            };
            out.push(c);
            i = i + 1;
        }
        assert(cells_view(out@) =~= goal);
        out
    }

    /// The names of the columns in lower case.
    fn lower(&self) -> (r: Vec<String>)
        ensures
            texts(r@) == lower_names(self.names()),
    {
        let mut out: Vec<String> = Vec::new();
        let mut i: usize = 0;
        while i < self.columns.len()
            invariant
                i <= self.columns@.len(),
                out@.len() == i,
                forall|k: int| #![trigger out@[k]]
                    0 <= k < i ==> out@[k]@ == lowercase_of(self.columns@[k]@),
            decreases self.columns.len() - i,
        {
            let name: String = lowercase_str(self.columns[i].as_str());
            out.push(name);
            i = i + 1;
        }
        assert(texts(out@) =~= lower_names(self.names()));
        out
    }

    /// The columns of subject, predicate and object, or what to say if there are
    /// none.
    pub fn validate_triple_columns(&self) -> (r: Result<(usize, usize, usize), String>)
        ensures
            match r {
                Ok((s, p, o)) => triple_columns(lower_names(self.names())) == Some(
                    (s as nat, p as nat, o as nat),
                ) && s < self.columns@.len() && p < self.columns@.len() && o < self.columns@.len(),
                Err(e) => triple_columns(lower_names(self.names())) is None && e@ == columns_error(
                    self.names(),
                ),
            },
    {
        let lower: Vec<String> = self.lower();
        match triple_column_indices(&lower) {
            Some((s, p, o)) => {
                assert(texts(lower@).len() == self.columns@.len());
                Ok((s, p, o))
            },
            None => {
                let mut out: String = String::new();
                out.append(
                    "to_ntriples()/to_turtle() requires columns named [subject, predicate, object] (or [s, p, o]). Got: ",
                );
                push_shown_list(&mut out, &self.columns);
                assert(out@ =~= columns_error(self.names()));
                Err(out)
            },
        }
    }

    /// The triples, each on a line of its own. Where the columns are those of triples,
    /// every row has a cell for each of the three.
    pub fn to_ntriples(&self) -> (r: Result<String, String>)
        requires
            self.has_triples(),
        ensures
            match r {
                Ok(text) => triple_columns(lower_names(self.names())) matches Some(columns) && text@
                    == triple_lines(row_triples(self.row_cells(), columns)),
                Err(e) => triple_columns(lower_names(self.names())) is None && e@ == columns_error(
                    self.names(),
                ),
            },
    {
        match self.validate_triple_columns() {
            Ok(columns) => {
                assert forall|i: int| #![trigger self.rows@[i]] 0 <= i < self.rows@.len() implies
                    columns.0 < self.rows@[i]@.len() && columns.1 < self.rows@[i]@.len()
                    && columns.2 < self.rows@[i]@.len() by {
                    assert(self.row_cells()[i].len() == self.rows@[i]@.len());
                }
                Ok(ntriples_of(&self.rows, columns))
            },
            Err(e) => Err(e),
        }
    }

    /// The triples, grouped by subject. Where the columns are those of triples, every
    /// row has a cell for each of the three.
    pub fn to_turtle(&self) -> (r: Result<String, String>)
        requires
            self.has_triples(),
        ensures
            match r {
                Ok(text) => triple_columns(lower_names(self.names())) matches Some(columns) && text@
                    == groups_text(grouped(row_triples(self.row_cells(), columns))),
                Err(e) => triple_columns(lower_names(self.names())) is None && e@ == columns_error(
                    self.names(),
                ),
            },
    {
        match self.validate_triple_columns() {
            Ok(columns) => {
                assert forall|i: int| #![trigger self.rows@[i]] 0 <= i < self.rows@.len() implies
                    columns.0 < self.rows@[i]@.len() && columns.1 < self.rows@[i]@.len()
                    && columns.2 < self.rows@[i]@.len() by {
                    assert(self.row_cells()[i].len() == self.rows@[i]@.len());
                }
                Ok(turtle_of(&self.rows, columns))
            },
            Err(e) => Err(e),
        }
    }

    /// The triples, each on a line of its own, or `None` if a row lacks a cell of its
    /// triple.
    pub fn try_ntriples(&self) -> (r: Option<Result<String, String>>)
        ensures
            r is Some <==> self.has_triples(),
            match r {
                Some(Ok(text)) => triple_columns(lower_names(self.names())) matches Some(columns)
                    && text@ == triple_lines(row_triples(self.row_cells(), columns)),
                Some(Err(e)) => triple_columns(lower_names(self.names())) is None && e@
                    == columns_error(self.names()),
                None => true,
            },
    {
        if self.rows_hold_triples() {
            Some(self.to_ntriples())
        } else {
            None
        }
    }

    /// The triples, grouped by subject, or `None` if a row lacks a cell of its triple.
    pub fn try_turtle(&self) -> (r: Option<Result<String, String>>)
        ensures
            r is Some <==> self.has_triples(),
            match r {
                Some(Ok(text)) => triple_columns(lower_names(self.names())) matches Some(columns)
                    && text@ == groups_text(grouped(row_triples(self.row_cells(), columns))),
                Some(Err(e)) => triple_columns(lower_names(self.names())) is None && e@
                    == columns_error(self.names()),
                None => true,
            },
    {
        if self.rows_hold_triples() {
            Some(self.to_turtle())
        } else {
            None
        }
    }

    fn rows_hold_triples(&self) -> (r: bool)
        ensures
            r == self.has_triples(),
    {
        match self.validate_triple_columns() {
            Ok(columns) => rows_reach(&self.rows, columns),
            Err(_) => true,
        }
    }

    /// How the result shows itself.
    #[must_use]
    pub fn repr(&self) -> (r: String)
        ensures
            r@ == result_repr(self.names(), self.rows@.len(), self.execution_time),
    {
        let mut out: String = String::new();
        out.append("QueryResult(columns=");
        push_shown_list(&mut out, &self.columns);
        out.append(", rows=");
        push_decimal(&mut out, self.rows.len() as u64);
        if let Some(t) = &self.execution_time {
            out.append(", time=");
            out.append(t.as_str());
            out.append("ms");
        }
        out.append(")");
        assert(out@ =~= result_repr(self.names(), self.rows@.len(), self.execution_time));
        out
    }
}

/// How a result shows itself.
pub open spec fn result_repr(names: Seq<Seq<char>>, rows: nat, time: Option<String>) -> Seq<char> {
    "QueryResult(columns="@ + shown_list(names) + ", rows="@ + decimal(rows) + (match time {
        Some(t) => ", time="@ + t@ + "ms"@,
        None => Seq::empty(),
    }) + ")"@
}

/// A result shows the names of its columns, how many rows it has and, where that is
/// known, how long the query took.
pub proof fn law_result_shows_itself(names: Seq<Seq<char>>, rows: nat, time: String)
    ensures
        result_repr(names, rows, None) == "QueryResult(columns="@ + shown_list(names) + ", rows="@
            + decimal(rows) + ")"@,
        result_repr(names, rows, Some(time)) == "QueryResult(columns="@ + shown_list(names)
            + ", rows="@ + decimal(rows) + ", time="@ + time@ + "ms"@ + ")"@,
        columns_error(names)
            == "to_ntriples()/to_turtle() requires columns named [subject, predicate, object] (or [s, p, o]). Got: "@
            + shown_list(names),
{
    let front = "QueryResult(columns="@ + shown_list(names) + ", rows="@ + decimal(rows);
    assert(front + Seq::<char>::empty() =~= front);
    assert(front + (", time="@ + time@ + "ms"@) =~= front + ", time="@ + time@ + "ms"@);
}

/// The triples in rows, each on a line of its own.
#[must_use]
pub fn ntriples_of(rows: &Vec<Vec<Cell>>, columns: (usize, usize, usize)) -> (r: String)
    requires
        forall|i: int| #![trigger rows@[i]]
            0 <= i < rows@.len() ==> columns.0 < rows@[i]@.len() && columns.1 < rows@[i]@.len()
                && columns.2 < rows@[i]@.len(),
    ensures
        r@ == triple_lines(
            row_triples(
                result_rows(rows@),
                (columns.0 as nat, columns.1 as nat, columns.2 as nat),
            ),
        ),
{
    let ghost triples = row_triples(
        result_rows(rows@),
        (columns.0 as nat, columns.1 as nat, columns.2 as nat),
    );
    let mut out: String = String::new();
    let mut i: usize = 0;
    assert(triples.take(0) =~= Seq::<TermTriple>::empty());
    while i < rows.len()
        invariant
            i <= rows@.len(),
            forall|k: int| #![trigger rows@[k]]
                0 <= k < rows@.len() ==> columns.0 < rows@[k]@.len() && columns.1
                    < rows@[k]@.len() && columns.2 < rows@[k]@.len(),
            triples == row_triples(
                result_rows(rows@),
                (columns.0 as nat, columns.1 as nat, columns.2 as nat),
            ),
            out@ == triple_lines(triples.take(i as int)),
        decreases rows.len() - i,
    {
        let row: &Vec<Cell> = &rows[i];
        let ghost before = out@;
        out.append(value_to_ntriples_term(&row[columns.0]).as_str());
        out.append(" ");
        out.append(value_to_ntriples_term(&row[columns.1]).as_str());
        out.append(" ");
        out.append(value_to_ntriples_term(&row[columns.2]).as_str());
        out.append(" .\n");
        proof {
            assert(triples.take(i + 1).drop_last() =~= triples.take(i as int));
            let t = triples[i as int];
            assert(triples.take(i + 1).last() == t);
            assert(result_rows(rows@)[i as int] == cells_view(row@));
            assert(out@ =~= before + triple_line(t));
        }
        i = i + 1;
    }
    assert(triples.take(i as int) =~= triples);
    out
}

/// What is said of one subject.
struct Group {
    subject: String,
    pairs: Vec<(String, String)>,
}

/// What pairs of terms are.
spec fn terms_view(pairs: Seq<(String, String)>) -> Seq<(Seq<char>, Seq<char>)> {
    pairs.map_values(|p: (String, String)| (p.0@, p.1@))
}

/// What a group is.
spec fn group_view(g: Group) -> SubjectGroup {
    SubjectGroup { subject: g.subject@, pairs: terms_view(g.pairs@) }
}

/// What groups are.
spec fn groups_view(groups: Seq<Group>) -> Seq<SubjectGroup> {
    groups.map_values(|g: Group| group_view(g))
}

/// The table of subjects leads to their groups.
spec fn index_matches(index: Map<Seq<char>, usize>, groups: Seq<SubjectGroup>) -> bool {
    &&& forall|s: Seq<char>| #[trigger]
        index.dom().contains(s) ==> index[s] < groups.len() && groups[index[s] as int].subject == s
    &&& forall|i: int| #![trigger groups[i]]
        0 <= i < groups.len() ==> index.dom().contains(groups[i].subject)
            && index[groups[i].subject] == i
}

/// Adds a triple to groups.
fn add_triple(
    groups: &mut Vec<Group>,
    index: &mut StringHashMap<usize>,
    subject: String,
    predicate: String,
    object: String,
)
    requires
        index_matches(old(index)@, groups_view(old(groups)@)),
    ensures
        groups_view(final(groups)@) == with_triple(
            groups_view(old(groups)@),
            TermTriple { subject: subject@, predicate: predicate@, object: object@ },
        ),
        index_matches(final(index)@, groups_view(final(groups)@)),
{
    let ghost before = groups_view(groups@);
    let ghost t = TermTriple { subject: subject@, predicate: predicate@, object: object@ };
    let ghost wanted = with_triple(before, t);
    proof {
        lemma_group_index(before, subject@);
    }
    let found: Option<usize> = match index.get(subject.as_str()) {
        Some(i) => Some(*i),
        None => None,
    };
    match found {
        Some(i) => {
            proof {
                let at = group_index(before, subject@);
                assert(before[i as int].subject == subject@);
                if at < before.len() {
                    assert(index@[before[at].subject] == at);
                }
                assert(at == i);
            }
            let ghost old_pairs = groups@[i as int].pairs@;
            groups[i].pairs.push((predicate, object));
            proof {
                let g = groups@[i as int];
                assert(terms_view(g.pairs@) =~= terms_view(old_pairs).push(
                    (t.predicate, t.object),
                ));
                assert(groups_view(groups@) =~= wanted);
            }
        },
        None => {
            proof {
                let at = group_index(before, subject@);
                if at < before.len() {
                    assert(index@.dom().contains(before[at].subject));
                }
            }
            let i: usize = groups.len();
            let mut pairs: Vec<(String, String)> = Vec::new();
            pairs.push((predicate, object));
            assert(terms_view(pairs@) =~= seq![(t.predicate, t.object)]);
            let ghost old_index = index@;
            index.insert(subject.clone(), i);
            groups.push(Group { subject, pairs });
            proof {
                let after = groups_view(groups@);
                assert(after =~= wanted);
                assert forall|s: Seq<char>| #[trigger]
                    index@.dom().contains(s) implies index@[s] < after.len()
                    && after[index@[s] as int].subject == s by {
                    if s != t.subject {
                        assert(old_index.dom().contains(s));
                        assert(after[old_index[s] as int] == before[old_index[s] as int]);
                    }
                }
                assert forall|k: int| #![trigger after[k]]
                    0 <= k < after.len() implies index@.dom().contains(after[k].subject)
                    && index@[after[k].subject] == k by {
                    if k < before.len() {
                        assert(after[k] == before[k]);
                        assert(before[k].subject != t.subject);
                    }
                }
            }
        },
    }
}

/// A group as text.
fn push_group(out: &mut String, g: &Group)
    ensures
        final(out)@ == old(out)@ + group_text(group_view(*g)),
{
    let ghost before = out@;
    let ghost all = terms_view(g.pairs@);
    out.append(g.subject.as_str());
    let ghost head = before + g.subject@;
    let mut i: usize = 0;
    assert(all.take(0) =~= Seq::<(Seq<char>, Seq<char>)>::empty());
    assert(out@ =~= head + pairs_text(all.take(0)));
    while i < g.pairs.len()
        invariant
            i <= g.pairs@.len(),
            all == terms_view(g.pairs@),
            out@ == head + pairs_text(all.take(i as int)),
        decreases g.pairs.len() - i,
    {
        let ghost so_far = out@;
        if i == 0 {
            out.append(" ");
        } else {
            out.append(" ;\n    ");
        }
        out.append(g.pairs[i].0.as_str());
        out.append(" ");
        out.append(g.pairs[i].1.as_str());
        proof {
            assert(all.take(i + 1).drop_last() =~= all.take(i as int));
            assert(all.take(i + 1).last() == (g.pairs@[i as int].0@, g.pairs@[i as int].1@));
            assert(out@ =~= head + pairs_text(all.take(i + 1)));
        }
        i = i + 1;
    }
    assert(all.take(i as int) =~= all);
    out.append(" .\n\n");
    assert(out@ =~= before + group_text(group_view(*g)));
}

/// The triples in rows, grouped by subject.
#[must_use]
pub fn turtle_of(rows: &Vec<Vec<Cell>>, columns: (usize, usize, usize)) -> (r: String)
    requires
        forall|i: int| #![trigger rows@[i]]
            0 <= i < rows@.len() ==> columns.0 < rows@[i]@.len() && columns.1 < rows@[i]@.len()
                && columns.2 < rows@[i]@.len(),
    ensures
        r@ == groups_text(
            grouped(
                row_triples(
                    result_rows(rows@),
                    (columns.0 as nat, columns.1 as nat, columns.2 as nat),
                ),
            ),
        ),
{
    let ghost triples = row_triples(
        result_rows(rows@),
        (columns.0 as nat, columns.1 as nat, columns.2 as nat),
    );
    let mut groups: Vec<Group> = Vec::new();
    let mut index: StringHashMap<usize> = StringHashMap::new();
    let mut i: usize = 0;
    assert(triples.take(0) =~= Seq::<TermTriple>::empty());
    assert(groups_view(groups@) =~= Seq::<SubjectGroup>::empty());
    while i < rows.len()
        invariant
            i <= rows@.len(),
            forall|k: int| #![trigger rows@[k]]
                0 <= k < rows@.len() ==> columns.0 < rows@[k]@.len() && columns.1
                    < rows@[k]@.len() && columns.2 < rows@[k]@.len(),
            triples == row_triples(
                result_rows(rows@),
                (columns.0 as nat, columns.1 as nat, columns.2 as nat),
            ),
            groups_view(groups@) == grouped(triples.take(i as int)),
            index_matches(index@, groups_view(groups@)),
        decreases rows.len() - i,
    {
        let row: &Vec<Cell> = &rows[i];
        let subject: String = value_to_ntriples_term(&row[columns.0]);
        let predicate: String = value_to_ntriples_term(&row[columns.1]);
        let object: String = value_to_ntriples_term(&row[columns.2]);
        proof {
            assert(triples.take(i + 1).drop_last() =~= triples.take(i as int));
            let t = triples[i as int];
            assert(triples.take(i + 1).last() == t);
            assert(result_rows(rows@)[i as int] == cells_view(row@));
            assert(t == TermTriple { subject: subject@, predicate: predicate@, object: object@ });
        }
        add_triple(&mut groups, &mut index, subject, predicate, object);
        i = i + 1;
    }
    assert(triples.take(i as int) =~= triples);
    let ghost all = groups_view(groups@);
    let mut out: String = String::new();
    let mut j: usize = 0;
    assert(all.take(0) =~= Seq::<SubjectGroup>::empty());
    while j < groups.len()
        invariant
            j <= groups@.len(),
            all == groups_view(groups@),
            out@ == groups_text(all.take(j as int)),
        decreases groups.len() - j,
    {
        push_group(&mut out, &groups[j]);
        proof {
            assert(all.take(j + 1).drop_last() =~= all.take(j as int));
            assert(all.take(j + 1).last() == group_view(groups@[j as int]));
        }
        j = j + 1;
    }
    assert(all.take(j as int) =~= all);
    out
}

} // verus!
