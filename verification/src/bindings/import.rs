//! Import of files: the query that loads a file, and what it takes to write it.

use vstd::prelude::*;
use vstd::string::StringExecFns;
use vstd::utf8::encode_utf8;

use crate::cli::arrow::join_strings;
use crate::cli::arrow::{differ_first, joined_texts, lemma_columns_ascend, texts_ascend};
use crate::cli::data::texts;
use crate::json::Json;
use crate::json::{ascending, has_member, law_last_entry_counts, table_of};
use crate::text::{chars_of, split_chars, string_of, strip_chars, trim_text};
use crate::text::{fields_view, is_digit, split_at_char, stripped, trimmed, Strip};
use crate::text::{law_fields_make_the_text, with_separator};
use crate::trusted::json::{json_entries, json_parsed, json_result};
use crate::trusted::json::{json_members, json_parse};
use crate::trusted::text::alphanumeric;
use crate::trusted::text::{is_alphanumeric, string_push};
use crate::types::order::{bytes_order, Order};
use crate::types::value::Value;
use crate::types::value::ValueModel;
use serde_json::Value as JsonTree;

verus! {

/// A text with a backslash before each single quote.
pub open spec fn escaped(s: Seq<char>) -> Seq<char>
    decreases s.len(),
{
    if s.len() == 0 {
        Seq::empty()
    } else if s.last() == '\'' {
        escaped(s.drop_last()).push('\\').push('\'')
    } else {
        escaped(s.drop_last()).push(s.last())
    }
}

/// In an escaped text there is a backslash before each single quote.
pub proof fn law_no_bare_quote(s: Seq<char>, i: int)
    requires
        0 <= i < escaped(s).len(),
        escaped(s)[i] == '\'',
    ensures
        i > 0,
        escaped(s)[i - 1] == '\\',
    decreases s.len(),
{
    if s.len() > 0 {
        let rest = escaped(s.drop_last());
        if i < rest.len() {
            law_no_bare_quote(s.drop_last(), i);
        }
    }
}

/// Only single quotes get a backslash before them, and each character is written without
/// regard to the others.
pub proof fn law_only_quotes_are_escaped(a: Seq<char>, b: Seq<char>, c: char)
    ensures
        escaped(a + b) == escaped(a) + escaped(b),
        escaped(seq!['\'']) == seq!['\\', '\''],
        c != '\'' ==> escaped(seq![c]) == seq![c],
    decreases b.len(),
{
    assert(escaped(Seq::empty()) == Seq::<char>::empty());
    assert(seq!['\''].drop_last() =~= Seq::<char>::empty());
    assert(seq![c].drop_last() =~= Seq::<char>::empty());
    assert(escaped(seq!['\'']) =~= seq!['\\', '\'']);
    if c != '\'' {
        assert(escaped(seq![c]) =~= seq![c]);
    }
    if b.len() > 0 {
        law_only_quotes_are_escaped(a, b.drop_last(), c);
        assert((a + b).drop_last() =~= a + b.drop_last());
        assert(escaped(a + b) =~= escaped(a) + escaped(b));
    } else {
        assert(a + b =~= a);
        assert(escaped(a) + escaped(b) =~= escaped(a));
    }
}

/// Slashes stand where there were backslashes, and everything else stays.
pub proof fn law_slashes_for_backslashes(s: Seq<char>, i: int)
    ensures
        with_slashes(s).len() == s.len(),
        0 <= i < s.len() && s[i] == '\\' ==> with_slashes(s)[i] == '/',
        0 <= i < s.len() && s[i] != '\\' ==> with_slashes(s)[i] == s[i],
{
}

/// Puts a backslash before each single quote, so that a text can stand in a string
/// literal.
#[must_use]
pub fn escape_gql_string(s: &str) -> (r: String)
    ensures
        r@ == escaped(s@),
{
    let chars: Vec<char> = chars_of(s);
    let mut out: String = String::new();
    let mut i: usize = 0;
    assert(chars@.take(0) =~= Seq::<char>::empty());
    while i < chars.len()
        invariant
            i <= chars@.len(),
            out@ == escaped(chars@.take(i as int)),
        decreases chars.len() - i,
    {
        let c: char = chars[i];
        if c == '\'' {
            string_push(&mut out, '\\');
        }
        string_push(&mut out, c);
        proof {
            assert(chars@.take(i + 1).drop_last() =~= chars@.take(i as int));
            assert(chars@.take(i + 1).last() == c);
        }
        i = i + 1;
    }
    assert(chars@.take(i as int) =~= chars@);
    out
}

/// A text with slashes in place of backslashes.
pub open spec fn with_slashes(s: Seq<char>) -> Seq<char> {
    s.map_values(
        |c: char|
            if c == '\\' {
                '/'
            } else {
                c
            },
    )
}

/// Puts slashes in place of backslashes.
fn replace_backslashes(s: &str) -> (r: String)
    ensures
        r@ == with_slashes(s@),
{
    let mut chars: Vec<char> = chars_of(s);
    let ghost before = chars@;
    let mut i: usize = 0;
    while i < chars.len()
        invariant
            i <= chars@.len() == before.len(),
            forall|k: int| #![trigger chars@[k]]
                0 <= k < i ==> chars@[k] == with_slashes(before)[k],
            forall|k: int| #![trigger chars@[k]] i <= k < chars@.len() ==> chars@[k] == before[k],
        decreases chars.len() - i,
    {
        if chars[i] == '\\' {
            chars.set(i, '/');
        }
        i = i + 1;
    }
    assert(chars@ =~= with_slashes(before));
    string_of(&chars)
}

/// Whether a character may stand in an identifier.
pub open spec fn identifier_char(c: char) -> bool {
    alphanumeric(c) || c == '_'
}

/// A name with underscores in place of what may not stand in an identifier.
pub open spec fn with_underscores(name: Seq<char>) -> Seq<char> {
    name.map_values(
        |c: char|
            if identifier_char(c) {
                c
            } else {
                '_'
            },
    )
}

/// The identifier that a name is turned into.
pub open spec fn sanitized(name: Seq<char>) -> Seq<char> {
    let s = with_underscores(name);
    if s.len() == 0 {
        "_col"@
    } else if is_digit(s[0]) {
        seq!['_'] + s
    } else {
        s
    }
}

/// What a name is turned into is an identifier: it is not empty, it does not begin
/// with a digit, and nothing else than letters, numbers and underscores is in it, be
/// it made from a name or the one that stands for an empty name.
pub proof fn law_sanitized_is_identifier(name: Seq<char>)
    ensures
        sanitized(name).len() > 0,
        !is_digit(sanitized(name)[0]),
        forall|i: int| 0 <= i < sanitized(name).len() ==> identifier_char(
            #[trigger] sanitized(name)[i],
        ) || 'a' <= sanitized(name)[i] <= 'z',
{
    let s = with_underscores(name);
    let r = sanitized(name);
    reveal_strlit("_col");
    assert forall|i: int| 0 <= i < s.len() implies identifier_char(#[trigger] s[i]) by {
        assert(s[i] == if identifier_char(name[i]) {
            name[i]
        } else {
            '_'
        });
    }
    if s.len() == 0 {
        assert(r[0] == '_' && r[1] == 'c' && r[2] == 'o' && r[3] == 'l');
    } else if is_digit(s[0]) {
        assert forall|i: int| 0 <= i < r.len() implies identifier_char(#[trigger] r[i]) by {
            if i > 0 {
                assert(r[i] == s[i - 1]);
            }
        }
    }
}

/// A name that is an identifier stays as it is. In one that is not, underscores stand
/// for what may not stand there, with one before a digit at its beginning; and an empty
/// name becomes "_col".
pub proof fn law_identifiers_stay(name: Seq<char>, i: int)
    ensures
        name.len() == 0 ==> sanitized(name) == "_col"@,
        name.len() > 0 && '0' <= name[0] <= '9' && identifier_char(name[0]) ==> sanitized(
            name,
        ).len() == name.len() + 1 && sanitized(name)[0] == '_',
        name.len() > 0 && !('0' <= name[0] <= '9') ==> sanitized(name).len() == name.len(),
        0 <= i < name.len() && (alphanumeric(name[i]) || name[i] == '_') ==> sanitized(
            name,
        )[sanitized(name).len() - name.len() + i] == name[i],
        0 <= i < name.len() && !alphanumeric(name[i]) && name[i] != '_' ==> sanitized(
            name,
        )[sanitized(name).len() - name.len() + i] == '_',
        name.len() > 0 && !('0' <= name[0] <= '9') && (forall|k: int|
            0 <= k < name.len() ==> alphanumeric(#[trigger] name[k]) || name[k] == '_')
            ==> sanitized(name) == name,
{
    let s = with_underscores(name);
    assert(s.len() == name.len());
    if name.len() > 0 && !('0' <= name[0] <= '9') && (forall|k: int|
        0 <= k < name.len() ==> alphanumeric(#[trigger] name[k]) || name[k] == '_') {
        assert(s =~= name);
    }
}

/// Turns a name into an identifier.
#[must_use]
pub fn sanitize_gql_identifier(name: &str) -> (r: String)
    ensures
        r@ == sanitized(name@),
{
    let mut chars: Vec<char> = chars_of(name);
    let ghost before = chars@;
    let mut i: usize = 0;
    while i < chars.len()
        invariant
            i <= chars@.len() == before.len(),
            forall|k: int| #![trigger chars@[k]]
                0 <= k < i ==> chars@[k] == with_underscores(before)[k],
            forall|k: int| #![trigger chars@[k]] i <= k < chars@.len() ==> chars@[k] == before[k],
        decreases chars.len() - i,
    {
        let c: char = chars[i];
        if !(is_alphanumeric(c) || c == '_') {
            chars.set(i, '_');
        }
        i = i + 1;
    }
    assert(chars@ =~= with_underscores(before));
    if chars.len() == 0 {
        "_col".to_owned()
    } else if '0' <= chars[0] && chars[0] <= '9' {
        let mut out: String = String::new();
        string_push(&mut out, '_');
        out.append(string_of(&chars).as_str());
        assert(out@ =~= seq!['_'] + chars@);
        out
    } else {
        string_of(&chars)
    }
}

/// The name in a field of a header line: without white space at its ends, and then
/// without double quotes at its ends.
pub open spec fn header_name(f: Seq<char>) -> Seq<char> {
    stripped(trimmed(f), Strip::Only('"'))
}

/// The names in fields that are not empty.
pub open spec fn header_names(fields: Seq<Seq<char>>) -> Seq<Seq<char>>
    decreases fields.len(),
{
    if fields.len() == 0 {
        Seq::empty()
    } else {
        let rest = header_names(fields.drop_last());
        let name = header_name(fields.last());
        if name.len() == 0 {
            rest
        } else {
            rest.push(name)
        }
    }
}

/// The names of the columns in the first line of a file.
pub open spec fn csv_headers(line: Seq<char>, delimiter: char) -> Seq<Seq<char>> {
    header_names(split_at_char(trimmed(line), delimiter))
}

/// The fields of a header line give the names one by one, in their order: a field has
/// the name that is left when white space and then double quotes are taken from its
/// ends, and one in which nothing is left gives none.
pub proof fn law_fields_give_names(a: Seq<Seq<char>>, b: Seq<Seq<char>>, f: Seq<char>)
    ensures
        header_names(a + b) == header_names(a) + header_names(b),
        stripped(trimmed(f), Strip::Only('"')).len() == 0 ==> header_names(seq![f]).len() == 0,
        stripped(trimmed(f), Strip::Only('"')).len() > 0 ==> header_names(seq![f]) == seq![
            stripped(trimmed(f), Strip::Only('"')),
        ],
    decreases b.len(),
{
    assert(header_names(Seq::empty()) == Seq::<Seq<char>>::empty());
    assert(seq![f].drop_last() =~= Seq::<Seq<char>>::empty());
    assert(header_names(seq![f].drop_last()) =~= Seq::<Seq<char>>::empty());
    if stripped(trimmed(f), Strip::Only('"')).len() > 0 {
        assert(header_names(seq![f]) =~= seq![stripped(trimmed(f), Strip::Only('"'))]);
    }
    if b.len() > 0 {
        law_fields_give_names(a, b.drop_last(), f);
        assert((a + b).drop_last() =~= a + b.drop_last());
        assert((a + b).last() == b.last());
        assert(header_names(a + b) =~= header_names(a) + header_names(b));
    } else {
        assert(a + b =~= a);
        assert(header_names(a) + header_names(b) =~= header_names(a));
    }
}

/// A header line without white space at its ends is cut at each delimiter, and nowhere
/// else.
pub proof fn law_header_line_is_cut_at_delimiters(line: Seq<char>, delimiter: char)
    ensures
        exists|fields: Seq<Seq<char>>| #![trigger header_names(fields)]
            with_separator(fields, delimiter) == trimmed(line) && fields.len() > 0 && (forall|
                i: int,
                k: int,
            | #![trigger fields[i][k]]
                0 <= i < fields.len() && 0 <= k < fields[i].len() ==> fields[i][k] != delimiter)
                && csv_headers(line, delimiter) == header_names(fields),
{
    law_fields_make_the_text(trimmed(line), delimiter);
    let fields = split_at_char(trimmed(line), delimiter);
    assert(csv_headers(line, delimiter) == header_names(fields));
}

/// Reads the names of the columns from the first line of a file.
#[must_use]
pub fn read_csv_headers(line: &str, delimiter: char) -> (r: Vec<String>)
    ensures
        texts(r@) == csv_headers(line@, delimiter),
{
    let all: Vec<char> = chars_of(line);
    let inner: Vec<char> = strip_chars(&all, Strip::Space);
    let fields: Vec<Vec<char>> = split_chars(&inner, delimiter);
    let ghost parts = fields_view(fields@);
    let mut out: Vec<String> = Vec::new();
    let mut i: usize = 0;
    assert(parts.take(0) =~= Seq::<Seq<char>>::empty());
    assert(texts(out@) =~= Seq::<Seq<char>>::empty());
    while i < fields.len()
        invariant
            i <= fields@.len(),
            parts == fields_view(fields@),
            texts(out@) == header_names(parts.take(i as int)),
        decreases fields.len() - i,
    {
        let name: Vec<char> = strip_chars(
            &strip_chars(&fields[i], Strip::Space),
            Strip::Only('"'),
        );
        proof {
            assert(parts.take(i + 1).drop_last() =~= parts.take(i as int));
            assert(parts.take(i + 1).last() == fields@[i as int]@);
        }
        if name.len() > 0 {
            let ghost before = out@;
            let s: String = string_of(&name);
            out.push(s);
            assert(texts(out@) =~= texts(before).push(name@));
        }
        i = i + 1;
    }
    assert(parts.take(i as int) =~= parts);
    out
}

/// The keys that a line of a file tells, given what its text says as JSON: those of
/// an object in ascending order, and none of anything else.
pub open spec fn are_line_keys(keys: Seq<Seq<char>>, parsed: Result<Json, Seq<char>>) -> bool {
    match parsed {
        Ok(Json::Table(m)) => exists|entries: Seq<(Seq<char>, Json)>|
            #![trigger table_of(entries)]
            table_of(entries) == m && ascending(entries) && keys == entries.map_values(
                |e: (Seq<char>, Json)| e.0,
            ),
        _ => keys.len() == 0,
    }
}

/// A line that is an object tells exactly its keys, each once, and at the first byte
/// where two differ the smaller one comes first. Anything else tells none.
pub proof fn law_lines_tell_their_keys(
    keys: Seq<Seq<char>>,
    parsed: Result<Json, Seq<char>>,
    key: Seq<char>,
)
    requires
        are_line_keys(keys, parsed),
    ensures
        !(parsed is Ok && parsed->Ok_0 is Table) ==> keys.len() == 0,
        parsed is Ok && parsed->Ok_0 is Table ==> (keys.contains(key) <==> has_member(
            parsed->Ok_0,
            key,
        )),
        forall|a: int, b: int, p: int|
            0 <= a < keys.len() && 0 <= b < keys.len() && #[trigger] differ_first(
                keys[a],
                keys[b],
                p,
            ) ==> a < b,
        keys.no_duplicates(),
{
    if parsed is Ok && parsed->Ok_0 is Table {
        let m = parsed->Ok_0->Table_0;
        let entries = choose|entries: Seq<(Seq<char>, Json)>|
            #![trigger table_of(entries)]
            table_of(entries) == m && ascending(entries) && keys == entries.map_values(
                |e: (Seq<char>, Json)| e.0,
            );
        law_last_entry_counts(entries, 0);
        assert forall|j: int| 0 <= j < entries.len() implies #[trigger] keys[j] == entries[j].0 by {}
        if keys.contains(key) {
            let j = choose|j: int| 0 <= j < keys.len() && keys[j] == key;
            assert(entries[j].0 == key);
        }
        if m.dom().contains(key) {
            let j = choose|j: int| #![trigger entries[j]]
                0 <= j < entries.len() && entries[j].0 == key;
            assert(keys[j] == key);
        }
        assert(texts_ascend(keys)) by {
            assert forall|i: int, j: int| 0 <= i < j < keys.len() implies bytes_order(
                encode_utf8(#[trigger] keys[i]),
                encode_utf8(#[trigger] keys[j]),
            ) == Order::Less by {
                assert(keys[i] == entries[i].0 && keys[j] == entries[j].0);
            }
        }
    } else {
        assert(texts_ascend(keys));
    }
    assert(keys.skip(0) =~= keys);
    lemma_columns_ascend(keys, 0);
}

/// The keys of what a line says as JSON.
#[must_use]
pub fn keys_of(parsed: &Result<JsonTree, String>) -> (r: Vec<String>)
    ensures
        are_line_keys(texts(r@), json_result(*parsed)),
{
    let mut out: Vec<String> = Vec::new();
    let entries: Vec<(String, JsonTree)> = match parsed {
        Ok(v) => match json_members(v) {
            Some(entries) => entries,
            None => {
                return out;
            },
        },
        Err(_) => {
            return out;
        },
    };
    let ghost list = json_entries(entries@);
    let mut i: usize = 0;
    while i < entries.len()
        invariant
            i <= entries@.len(),
            list == json_entries(entries@),
            out@.len() == i,
            forall|k: int| #![trigger out@[k]] 0 <= k < i ==> out@[k]@ == list[k].0,
        decreases entries.len() - i,
    {
        let key: String = entries[i].0.clone();
        out.push(key);
        i = i + 1;
    }
    proof {
        assert(texts(out@) =~= list.map_values(|e: (Seq<char>, Json)| e.0));
        assert(table_of(list) == json_result(*parsed)->Ok_0->Table_0);
    }
    out
}

/// The keys that a line of a file tells. A blank line tells nothing, and the next
/// one is asked.
#[must_use]
pub fn read_jsonl_keys(line: &str) -> (r: Option<Vec<String>>)
    ensures
        r is None <==> trimmed(line@).len() == 0,
        r matches Some(keys) ==> are_line_keys(texts(keys@), json_parsed(trimmed(line@))),
{
    let text: String = trim_text(line);
    if text.as_str().is_empty() {
        return None;
    }
    Some(keys_of(&json_parse(text.as_str())))
}

/// What a column is set to.
pub open spec fn setting(name: Seq<char>) -> Seq<char> {
    sanitized(name) + ": row."@ + sanitized(name)
}

/// The part of a query that inserts a node per row.
pub open spec fn insert_clause(label: Seq<char>, names: Seq<Seq<char>>) -> Seq<char> {
    "INSERT (:"@ + label + " {"@ + joined_texts(
        names.map_values(|n: Seq<char>| setting(n)),
        ", "@,
    ) + "})"@
}

/// The query that loads a file.
pub open spec fn load_query(
    path: Seq<char>,
    format: Seq<char>,
    label: Seq<char>,
    names: Seq<Seq<char>>,
) -> Seq<char> {
    "LOAD DATA FROM '"@ + escaped(with_slashes(path)) + "' FORMAT "@ + format + " AS row "@
        + insert_clause(label, names)
}

/// The label of imported nodes, "Row" if none is given.
pub open spec fn import_label(label: Option<Seq<char>>) -> Seq<char> {
    sanitized(
        match label {
            Some(s) => s,
            None => "Row"@,
        },
    )
}

/// The text of an optional string.
pub open spec fn optional_text(s: Option<String>) -> Option<Seq<char>> {
    match s {
        Some(x) => Some(x@),
        None => None,
    }
}

/// How a CSV file is imported.
#[derive(Debug, Default)]
pub struct CsvImportOptions {
    /// The label of the nodes. It is "Row" if none is given.
    pub label: Option<String>,
    /// Whether the first row holds the names of the columns. It does if this is not
    /// given.
    pub headers: Option<bool>,
}

/// How a file of JSON lines is imported.
#[derive(Debug, Default)]
pub struct JsonlImportOptions {
    /// The label of the nodes. It is "Row" if none is given.
    pub label: Option<String>,
}

/// An import that is ready to run.
#[derive(Debug)]
pub struct ImportPlan {
    /// The label of the nodes.
    pub label: String,
    /// The query that loads the file.
    pub query: String,
}

/// The query that loads a file names the path, the format and the label, each in its
/// place, and sets each column to what the row has under the same name.
pub proof fn law_query_names_its_parts(
    path: Seq<char>,
    format: Seq<char>,
    label: Seq<char>,
    names: Seq<Seq<char>>,
    name: Seq<char>,
)
    ensures
        load_query(path, format, label, Seq::empty()) == "LOAD DATA FROM '"@ + escaped(
            with_slashes(path),
        ) + "' FORMAT "@ + format + " AS row "@ + ("INSERT (:"@ + label + " {"@ + "})"@),
        load_query(path, format, label, seq![name]) == "LOAD DATA FROM '"@ + escaped(
            with_slashes(path),
        ) + "' FORMAT "@ + format + " AS row "@ + ("INSERT (:"@ + label + " {"@ + (sanitized(name)
            + ": row."@ + sanitized(name)) + "})"@),
        names.len() > 0 ==> load_query(path, format, label, names.push(name))
            == load_query(path, format, label, names).take(
            load_query(path, format, label, names).len() - "})"@.len(),
        ) + ", "@ + (sanitized(name) + ": row."@ + sanitized(name)) + "})"@,
        import_label(Some(name)) == sanitized(name),
        import_label(None) == sanitized("Row"@),
{
    let set = |n: Seq<char>| setting(n);
    let none = Seq::<Seq<char>>::empty().map_values(set);
    assert(none.len() == 0);
    assert(joined_texts(none, ", "@) == Seq::<char>::empty());
    let start = "INSERT (:"@ + label + " {"@;
    assert(start + Seq::<char>::empty() =~= start);
    let one = seq![name].map_values(set);
    assert(one.len() == 1 && one[0] == setting(name));
    assert(joined_texts(one, ", "@) == setting(name));
    let before = names.map_values(set);
    let after = names.push(name).map_values(set);
    assert(after.drop_last() =~= before);
    assert(after.last() == setting(name));
    if names.len() > 0 {
        let front = load_query(path, format, label, names);
        let lead = "LOAD DATA FROM '"@ + escaped(with_slashes(path)) + "' FORMAT "@ + format
            + " AS row "@;
        let listed = joined_texts(before, ", "@);
        let end = "})"@;
        assert(front =~= lead + start + listed + end);
        assert(front.take(front.len() - end.len()) =~= lead + start + listed);
        assert(load_query(path, format, label, names.push(name)) =~= lead + start + (listed + ", "@
            + setting(name)) + end);
        assert(load_query(path, format, label, names.push(name)) =~= front.take(
            front.len() - end.len(),
        ) + ", "@ + setting(name) + end);
    }
}

/// The label of imported nodes.
fn label_for(label: &Option<String>) -> (r: String)
    ensures
        r@ == import_label(optional_text(*label)),
{
    match label {
        Some(s) => sanitize_gql_identifier(s.as_str()),
        None => sanitize_gql_identifier("Row"),
    }
}

/// The query that loads a file.
fn write_query(path: &str, format: &str, label: &str, names: &Vec<String>) -> (r: String)
    ensures
        r@ == load_query(path@, format@, label@, texts(names@)),
{
    let mut settings: Vec<String> = Vec::new();
    let ghost goal = texts(names@).map_values(|n: Seq<char>| setting(n));
    let mut i: usize = 0;
    assert(texts(settings@) =~= goal.take(0));
    while i < names.len()
        invariant
            i <= names@.len(),
            goal == texts(names@).map_values(|n: Seq<char>| setting(n)),
            texts(settings@) == goal.take(i as int),
        decreases names.len() - i,
    {
        let safe: String = sanitize_gql_identifier(names[i].as_str());
        let mut part: String = String::new();
        part.append(safe.as_str());
        part.append(": row.");
        part.append(safe.as_str());
        let ghost before = settings@;
        assert(part@ =~= setting(names@[i as int]@));
        settings.push(part);
        proof {
            assert(texts(settings@) =~= texts(before).push(goal[i as int]));
            assert(texts(settings@) =~= goal.take(i + 1));
        }
        i = i + 1;
    }
    assert(texts(settings@) =~= goal);
    let safe_path: String = escape_gql_string(replace_backslashes(path).as_str());
    let mut out: String = String::new();
    out.append("LOAD DATA FROM '");
    out.append(safe_path.as_str());
    out.append("' FORMAT ");
    out.append(format);
    out.append(" AS row ");
    out.append("INSERT (:");
    out.append(label);
    out.append(" {");
    out.append(join_strings(&settings, ", ").as_str());
    out.append("})");
    assert(out@ =~= load_query(path@, format@, label@, texts(names@)));
    out
}

/// Plans the import of a CSV file at an absolute path. Its first line is asked for
/// the names of the columns if there are headers.
#[must_use]
pub fn import_csv(path: &str, options: &CsvImportOptions, first_line: &str) -> (r: ImportPlan)
    ensures
        r.label@ == import_label(optional_text(options.label)),
        r.query@ == if options.headers == Some(false) {
            load_query(path@, "CSV"@, r.label@, Seq::empty())
        } else {
            load_query(path@, "CSV WITH HEADERS"@, r.label@, csv_headers(first_line@, ','))
        },
{
    let label: String = label_for(&options.label);
    let headers: bool = match options.headers {
        Some(h) => h,
        None => true,
    };
    let query: String = if headers {
        write_query(path, "CSV WITH HEADERS", label.as_str(), &read_csv_headers(first_line, ','))
    } else {
        let none: Vec<String> = Vec::new();
        assert(texts(none@) =~= Seq::<Seq<char>>::empty());
        write_query(path, "CSV", label.as_str(), &none)
    };
    ImportPlan { label, query }
}

/// Plans the import of a file of JSON lines at an absolute path, whose first line
/// that is not blank has the given keys.
#[must_use]
pub fn import_jsonl(path: &str, options: &JsonlImportOptions, keys: &Vec<String>) -> (r: ImportPlan)
    ensures
        r.label@ == import_label(optional_text(options.label)),
        r.query@ == load_query(path@, "JSONL"@, r.label@, texts(keys@)),
{
    let label: String = label_for(&options.label);
    let query: String = write_query(path, "JSONL", label.as_str(), keys);
    ImportPlan { label, query }
}

/// The query that counts the nodes of a label.
#[must_use]
pub fn count_query(label: &str) -> (r: String)
    ensures
        r@ == "MATCH (n:"@ + label@ + ") RETURN count(n) AS c"@,
{
    let mut out: String = String::new();
    out.append("MATCH (n:");
    out.append(label);
    out.append(") RETURN count(n) AS c");
    proof {
        let want = "MATCH (n:"@ + label@ + ") RETURN count(n) AS c"@;
        assert(out@ =~= want);
    }
    out
}

/// The count in the rows of a result: the integer in the first column of the first
/// row, or zero if there is none.
pub open spec fn counted(rows: Seq<Vec<Value>>) -> i64 {
    if rows.len() > 0 && rows[0]@.len() > 0 {
        match rows[0]@[0]@ {
            ValueModel::Int64(n) => n,
            _ => 0,
        }
    } else {
        0
    }
}

/// Only an integer in the first column of the first row is a count.
pub proof fn law_where_the_count_stands(rows: Seq<Vec<Value>>)
    ensures
        rows.len() == 0 ==> counted(rows) == 0,
        rows.len() > 0 && rows[0]@.len() == 0 ==> counted(rows) == 0,
        rows.len() > 0 && rows[0]@.len() > 0 && rows[0]@[0]@ is Int64 ==> counted(rows)
            == rows[0]@[0]@->Int64_0,
        rows.len() > 0 && rows[0]@.len() > 0 && !(rows[0]@[0]@ is Int64) ==> counted(rows) == 0,
{
}

/// Reads the count in the rows of a result, where a query that failed has none.
#[must_use]
pub fn count_nodes(rows: Option<&Vec<Vec<Value>>>) -> (r: i64)
    ensures
        match rows {
            Some(found) => r == counted(found@),
            None => r == 0,
        },
{
    match rows {
        Some(found) => {
            if found.len() > 0 && found[0].len() > 0 {
                match &found[0][0] {
                    Value::Int64(n) => *n,
                    _ => 0,
                }
            } else {
                0
            }
        },
        None => 0,
    }
}

} // verus!
