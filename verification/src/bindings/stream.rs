//! Lazy query results: a cursor that hands out rows one by one.
//!
//! Pulling a row is left to the caller; the cursor says what becomes of it. A row is
//! handed out with the names of its columns. An error or the end closes the cursor,
//! and a closed cursor has nothing more to give.

use serde_json::Value as JsonTree;
use vstd::prelude::*;
use vstd::string::StringExecFns;

use crate::bindings::errors::ErrorCategory;
use crate::cli::arrow::joined_texts;
use crate::cli::data::texts;
use crate::json::{field, law_last_entry_counts, table_of};
use crate::json::json_object;
use crate::json::Json;
use crate::trusted::json::{json_array, json_string, json_write};
use crate::trusted::json::{json_entries, json_list, json_of, json_written};
use crate::trusted::text::debug_of;
use crate::trusted::text::debug_str;

verus! {

/// What came back when a row was pulled.
#[derive(Debug)]
pub enum Pulled<T, E> {
    /// The values of a row.
    Row(Vec<T>),
    /// An error.
    Failed(E),
    /// There are no more rows.
    Exhausted,
}

/// What a cursor hands out.
#[derive(Debug)]
pub enum Step<T, E> {
    /// A row, with the names of its columns.
    Row(Vec<(String, T)>),
    /// The error that was pulled.
    Failed(E),
    /// There are no more rows.
    End,
}

/// The smaller of two lengths.
pub open spec fn shorter(a: nat, b: nat) -> nat {
    if a <= b {
        a
    } else {
        b
    }
}

/// Names and values side by side, as far as there are both.
pub open spec fn paired<T>(names: Seq<Seq<char>>, values: Seq<T>) -> Seq<(Seq<char>, T)> {
    Seq::new(shorter(names.len(), values.len()), |i: int| (names[i], values[i]))
}

/// Each value stands beside the name at its own position, and there are as many pairs as
/// there are both.
pub proof fn law_values_stand_beside_their_names<T>(names: Seq<Seq<char>>, values: Seq<T>, i: int)
    ensures
        paired(names, values).len() <= names.len(),
        paired(names, values).len() <= values.len(),
        paired(names, values).len() == names.len() || paired(names, values).len() == values.len(),
        0 <= i < names.len() && i < values.len() ==> i < paired(names, values).len() && paired(
            names,
            values,
        )[i].0 == names[i] && paired(names, values)[i].1 == values[i],
{
}

/// What pairs are.
pub open spec fn pairs_view<T>(pairs: Seq<(String, T)>) -> Seq<(Seq<char>, T)> {
    pairs.map_values(|p: (String, T)| (p.0@, p.1))
}

/// Puts names and values side by side.
pub fn pair_up<T>(names: &Vec<String>, values: Vec<T>) -> (r: Vec<(String, T)>)
    ensures
        pairs_view(r@) == paired(texts(names@), values@),
{
    let n: usize = if names.len() <= values.len() {
        names.len()
    } else {
        values.len()
    };
    let ghost all = values@;
    let mut values: Vec<T> = values;
    values.truncate(n);
    let mut reversed: Vec<T> = Vec::new();
    while values.len() > 0
        invariant
            values@.len() + reversed@.len() == n,
            n <= all.len(),
            values@ == all.take(values@.len() as int),
            forall|k: int| #![trigger reversed@[k]]
                0 <= k < reversed@.len() ==> reversed@[k] == all[n - 1 - k],
        decreases values.len(),
    {
        match values.pop() {
            Some(v) => {
                reversed.push(v);
            },
            None => {},
        }
        assert(values@ =~= all.take(values@.len() as int));
    }
    let mut out: Vec<(String, T)> = Vec::new();
    while reversed.len() > 0
        invariant
            out@.len() + reversed@.len() == n,
            n <= all.len(),
            n <= names@.len(),
            forall|k: int| #![trigger reversed@[k]]
                0 <= k < reversed@.len() ==> reversed@[k] == all[n - 1 - k],
            forall|k: int| #![trigger out@[k]]
                0 <= k < out@.len() ==> out@[k].0@ == names@[k]@ && out@[k].1 == all[k],
        decreases reversed.len(),
    {
        let i: usize = out.len();
        match reversed.pop() {
            Some(v) => {
                let name: String = names[i].clone();
                out.push((name, v));
            },
            None => {},
        }
    }
    assert(pairs_view(out@) =~= paired(texts(names@), all));
    out
}

/// A cursor over the rows of a query.
#[derive(Debug)]
pub struct RowCursor {
    columns: Vec<String>,
    open: bool,
}

/// What a cursor hands out, given what was pulled.
pub open spec fn step_of<T, E>(
    open: bool,
    names: Seq<Seq<char>>,
    pulled: Pulled<T, E>,
) -> StepModel<T, E> {
    if !open {
        StepModel::End
    } else {
        match pulled {
            Pulled::Row(values) => StepModel::Row(paired(names, values@)),
            Pulled::Failed(e) => StepModel::Failed(e),
            Pulled::Exhausted => StepModel::End,
        }
    }
}

/// Whether a cursor is still open after what was pulled.
pub open spec fn open_after<T, E>(open: bool, pulled: Pulled<T, E>) -> bool {
    open && pulled is Row
}

/// What a cursor hands out.
pub ghost enum StepModel<T, E> {
    /// A row, with the names of its columns.
    Row(Seq<(Seq<char>, T)>),
    /// The error that was pulled.
    Failed(E),
    /// There are no more rows.
    End,
}

/// Whether a step is what a model says.
pub open spec fn step_is<T, E>(s: Step<T, E>, m: StepModel<T, E>) -> bool {
    match (s, m) {
        (Step::Row(pairs), StepModel::Row(want)) => pairs_view(pairs@) == want,
        (Step::Failed(e), StepModel::Failed(want)) => e == want,
        (Step::End, StepModel::End) => true,
        _ => false,
    }
}

/// Whether a cursor is open after the first `k` of what was pulled.
pub open spec fn open_at<T, E>(pulls: Seq<Pulled<T, E>>, k: nat) -> bool
    decreases k,
{
    k == 0 || open_after(open_at(pulls, (k - 1) as nat), pulls[k - 1])
}

/// An open cursor hands out what was pulled: a row beside the names of its columns, an
/// error as it is, and the end where there are no more rows. It stays open after a row
/// and is closed by anything else. A closed one hands out the end and stays closed.
pub proof fn law_what_a_cursor_hands_out<T, E>(
    names: Seq<Seq<char>>,
    values: Vec<T>,
    error: E,
    pulled: Pulled<T, E>,
)
    ensures
        step_of(true, names, Pulled::<T, E>::Row(values)) == StepModel::<T, E>::Row(
            paired(names, values@),
        ),
        step_of(true, names, Pulled::<T, E>::Failed(error)) == StepModel::<T, E>::Failed(error),
        step_of(true, names, Pulled::<T, E>::Exhausted) == StepModel::<T, E>::End,
        step_of(false, names, pulled) == StepModel::<T, E>::End,
        open_after(true, Pulled::<T, E>::Row(values)),
        !open_after(true, Pulled::<T, E>::Failed(error)),
        !open_after(true, Pulled::<T, E>::Exhausted),
        !open_after(false, pulled),
{
}

/// Once a cursor has handed out an error or the end, it hands out the end for ever,
/// whatever may be pulled.
pub proof fn law_closed_stays_closed<T, E>(
    names: Seq<Seq<char>>,
    pulls: Seq<Pulled<T, E>>,
    i: nat,
    j: nat,
)
    requires
        i < j < pulls.len(),
        !(step_of(open_at(pulls, i), names, pulls[i as int]) is Row),
    ensures
        step_of(open_at(pulls, j), names, pulls[j as int]) is End,
    decreases j,
{
    if i + 1 < j {
        law_closed_stays_closed(names, pulls, i, (j - 1) as nat);
    }
}

impl RowCursor {
    /// The names of the columns.
    pub closed spec fn names(&self) -> Seq<Seq<char>> {
        texts(self.columns@)
    }

    /// Whether there may be more rows.
    pub closed spec fn more(&self) -> bool {
        self.open
    }

    /// A cursor over rows with the given columns.
    #[must_use]
    pub fn new(columns: Vec<String>) -> (r: Self)
        ensures
            r.names() == texts(columns@),
            r.more(),
    {
        Self { columns, open: true }
    }

    /// The names of the columns, in the order of the values of a row.
    #[must_use]
    pub fn columns(&self) -> (r: Vec<String>)
        ensures
            texts(r@) == self.names(),
    {
        let mut out: Vec<String> = Vec::new();
        let mut i: usize = 0;
        while i < self.columns.len()
            invariant
                i <= self.columns@.len(),
                out@.len() == i,
                forall|k: int| #![trigger out@[k]] 0 <= k < i ==> out@[k]@ == self.columns@[k]@,
            decreases self.columns.len() - i,
        {
            let name: String = self.columns[i].clone();
            out.push(name);
            i = i + 1;
        }
        assert(texts(out@) =~= self.names());
        out
    }

    /// Whether a row is to be pulled.
    #[must_use]
    pub fn is_open(&self) -> (r: bool)
        ensures
            r == self.more(),
    {
        self.open
    }

    /// Takes what was pulled, and says what to hand out.
    pub fn advance<T, E>(&mut self, pulled: Pulled<T, E>) -> (r: Step<T, E>)
        ensures
            step_is(r, step_of(old(self).more(), old(self).names(), pulled)),
            final(self).names() == old(self).names(),
            final(self).more() == open_after(old(self).more(), pulled),
            final(self).more() <==> old(self).more() && pulled is Row,
            old(self).more() && pulled is Row ==> r is Row && pairs_view(r->Row_0@) == paired(
                old(self).names(),
                pulled->Row_0@,
            ),
            old(self).more() && pulled is Failed ==> r is Failed && r->Failed_0
                == pulled->Failed_0,
            !old(self).more() || pulled is Exhausted ==> r is End,
    {
        if !self.open {
            return Step::End;
        }
        match pulled {
            Pulled::Row(values) => Step::Row(pair_up(&self.columns, values)),
            Pulled::Failed(e) => {
                self.open = false;
                Step::Failed(e)
            },
            Pulled::Exhausted => {
                self.open = false;
                Step::End
            },
        }
    }

    /// Closes the cursor before its end.
    pub fn close(&mut self)
        ensures
            final(self).names() == old(self).names(),
            !final(self).more(),
    {
        self.open = false;
    }

    /// The names of the columns as a JSON list.
    #[must_use]
    pub fn columns_json(&self) -> (r: String)
        ensures
            r@ == json_written(names_json(self.names())),
    {
        let mut items: Vec<JsonTree> = Vec::new();
        let ghost goal = self.names().map_values(|s: Seq<char>| Json::Text(s));
        let mut i: usize = 0;
        assert(json_list(items@) =~= goal.take(0));
        while i < self.columns.len()
            invariant
                i <= self.columns@.len(),
                goal == self.names().map_values(|s: Seq<char>| Json::Text(s)),
                json_list(items@) == goal.take(i as int),
            decreases self.columns.len() - i,
        {
            let ghost before = items@;
            let item: JsonTree = json_string(self.columns[i].clone());
            items.push(item);
            proof {
                assert(json_list(items@) =~= json_list(before).push(goal[i as int]));
                assert(json_list(items@) =~= goal.take(i + 1));
            }
            i = i + 1;
        }
        assert(json_list(items@) =~= goal);
        json_write(&json_array(items))
    }

    /// How the cursor shows itself.
    #[must_use]
    pub fn repr(&self) -> (r: String)
        ensures
            r@ == "ResultStream(columns="@ + shown_list(self.names()) + ", exhausted="@
                + bool_text(!self.more()) + ")"@,
    {
        let mut out: String = String::new();
        out.append("ResultStream(columns=");
        push_shown_list(&mut out, &self.columns);
        out.append(", exhausted=");
        out.append(bool_str(!self.open));
        out.append(")");
        proof {
            let want = "ResultStream(columns="@ + shown_list(self.names()) + ", exhausted="@
                + bool_text(!self.more()) + ")"@;
            assert(out@ =~= want);
        }
        out
    }
}

/// Names as a JSON list.
pub open spec fn names_json(names: Seq<Seq<char>>) -> Json {
    Json::List(names.map_values(|s: Seq<char>| Json::Text(s)))
}

/// A truth value as text.
pub open spec fn bool_text(b: bool) -> Seq<char> {
    if b {
        "true"@
    } else {
        "false"@
    }
}

/// A truth value as text.
pub fn bool_str(b: bool) -> (r: &'static str)
    ensures
        r@ == bool_text(b),
{
    if b {
        "true"
    } else {
        "false"
    }
}

/// Strings as a list is shown: each quoted and escaped, in square brackets.
pub open spec fn shown_list(names: Seq<Seq<char>>) -> Seq<char> {
    "["@ + joined_texts(names.map_values(|s: Seq<char>| debug_of(s)), ", "@) + "]"@
}

/// A list is shown in square brackets, its strings in quotes and with a comma and a
/// space between each two.
pub proof fn law_how_lists_are_shown(names: Seq<Seq<char>>, more: Seq<char>)
    ensures
        shown_list(Seq::empty()) == "["@ + "]"@,
        shown_list(seq![more]) == "["@ + debug_of(more) + "]"@,
        names.len() > 0 ==> shown_list(names.push(more)).drop_last() == shown_list(
            names,
        ).drop_last() + ", "@ + debug_of(more),
        shown_list(names).len() >= 2 && shown_list(names)[0] == '[' && shown_list(names).last()
            == ']',
{
    reveal_strlit("[");
    reveal_strlit("]");
    let quoted = |s: Seq<char>| debug_of(s);
    let none = Seq::<Seq<char>>::empty().map_values(quoted);
    assert(none.len() == 0);
    assert(joined_texts(none, ", "@) == Seq::<char>::empty());
    assert("["@ + Seq::<char>::empty() =~= "["@);
    let one = seq![more].map_values(quoted);
    assert(one.len() == 1 && one[0] == debug_of(more));
    assert(joined_texts(one, ", "@) == debug_of(more));
    let before = names.map_values(quoted);
    let after = names.push(more).map_values(quoted);
    assert(after.drop_last() =~= before);
    assert(after.last() == debug_of(more));
    if names.len() > 0 {
        assert(shown_list(names.push(more)).drop_last() =~= shown_list(names).drop_last() + ", "@
            + debug_of(more));
    }
}

/// Truth values are written as words, and names as a list of strings in their order.
pub proof fn law_words_and_names(names: Seq<Seq<char>>, i: int)
    ensures
        bool_text(true) == "true"@,
        bool_text(false) == "false"@,
        names_json(names) is List,
        names_json(names)->List_0.len() == names.len(),
        0 <= i < names.len() ==> names_json(names)->List_0[i] == Json::Text(names[i]),
{
}

/// Appends strings as a list is shown.
pub fn push_shown_list(out: &mut String, names: &Vec<String>)
    ensures
        final(out)@ == old(out)@ + shown_list(texts(names@)),
{
    let ghost before = out@;
    let ghost shown = texts(names@).map_values(|s: Seq<char>| debug_of(s));
    out.append("[");
    let mut i: usize = 0;
    assert(out@ =~= before + "["@ + joined_texts(shown.take(0), ", "@));
    while i < names.len()
        invariant
            i <= names@.len(),
            shown == texts(names@).map_values(|s: Seq<char>| debug_of(s)),
            out@ == before + "["@ + joined_texts(shown.take(i as int), ", "@),
        decreases names.len() - i,
    {
        if i > 0 {
            out.append(", ");
        }
        out.append(debug_str(names[i].as_str()).as_str());
        proof {
            assert(shown.take(i + 1).drop_last() =~= shown.take(i as int));
            assert(shown.take(i + 1).last() == debug_of(names@[i as int]@));
            if i == 0 {
                assert(joined_texts(shown.take(0), ", "@) =~= Seq::<char>::empty());
            }
            assert(out@ =~= before + "["@ + joined_texts(shown.take(i + 1), ", "@));
        }
        i = i + 1;
    }
    assert(shown.take(i as int) =~= shown);
    out.append("]");
    assert(out@ =~= before + shown_list(texts(names@)));
}

/// What pairs of names and JSON values hold.
pub open spec fn json_pairs(pairs: Seq<(Seq<char>, JsonTree)>) -> Seq<(Seq<char>, Json)> {
    pairs.map_values(|p: (Seq<char>, JsonTree)| (p.0, json_of(p.1)))
}

/// A row as a JSON object. Of two columns with one name the later counts.
pub open spec fn row_json(pairs: Seq<(Seq<char>, JsonTree)>) -> Json {
    Json::Table(table_of(json_pairs(pairs)))
}

/// An object of a row has exactly the names of its columns, and under each the value of
/// the last column with that name.
pub proof fn law_row_object_tells_the_row(pairs: Seq<(Seq<char>, JsonTree)>, i: int, key: Seq<char>)
    ensures
        0 <= i < pairs.len() && (forall|j: int| #![trigger pairs[j]]
            i < j < pairs.len() ==> pairs[j].0 != pairs[i].0) ==> field(
            row_json(pairs),
            pairs[i].0,
        ) == Some(json_of(pairs[i].1)),
        (forall|j: int| #![trigger pairs[j]] 0 <= j < pairs.len() ==> pairs[j].0 != key) ==> field(
            row_json(pairs),
            key,
        ) is None,
{
    let entries = json_pairs(pairs);
    law_last_entry_counts(entries, i);
    assert forall|j: int| 0 <= j < pairs.len() implies #[trigger] entries[j] == (
        pairs[j].0,
        json_of(pairs[j].1),
    ) by {}
    if (forall|j: int| #![trigger pairs[j]] 0 <= j < pairs.len() ==> pairs[j].0 != key)
        && table_of(entries).dom().contains(key) {
        let j = choose|j: int| #![trigger entries[j]] 0 <= j < entries.len() && entries[j].0 == key;
        assert(pairs[j].0 == key);
    }
    if 0 <= i < pairs.len() && (forall|j: int| #![trigger pairs[j]]
        i < j < pairs.len() ==> pairs[j].0 != pairs[i].0) {
        assert forall|j: int| #![trigger entries[j]] i < j < entries.len() implies entries[j].0
            != entries[i].0 by {
            assert(pairs[j].0 != pairs[i].0);
        }
    }
}

/// A row as a JSON object.
#[must_use]
pub fn row_object(pairs: Vec<(String, JsonTree)>) -> (r: JsonTree)
    ensures
        json_of(r) == row_json(pairs_view(pairs@)),
{
    assert(json_entries(pairs@) =~= json_pairs(pairs_view(pairs@)));
    json_object(pairs)
}

/// How a call through the C interface ended.
#[derive(Debug, Clone, Copy, PartialEq, Eq, Structural)]
pub enum GrafeoStatus {
    /// It did what was asked.
    Success,
    /// A pointer was null.
    ErrorNullPointer,
    /// The database reported an error.
    ErrorDatabase,
    /// The query failed.
    ErrorQuery,
    /// The transaction failed.
    ErrorTransaction,
}

/// An error of the database on its way through the C interface.
#[derive(Debug)]
pub struct RowFailure {
    /// The status that the call ends with.
    pub status: GrafeoStatus,
    /// What the error says.
    pub message: String,
}

impl RowFailure {
    /// An error of the given kind.
    #[must_use]
    pub fn new(category: ErrorCategory, message: String) -> (r: Self)
        ensures
            r.message == message,
            r.status == (match category {
                ErrorCategory::Query => GrafeoStatus::ErrorQuery,
                ErrorCategory::Transaction => GrafeoStatus::ErrorTransaction,
                ErrorCategory::Other => GrafeoStatus::ErrorDatabase,
            }),
    {
        let status: GrafeoStatus = match category {
            ErrorCategory::Query => GrafeoStatus::ErrorQuery,
            ErrorCategory::Transaction => GrafeoStatus::ErrorTransaction,
            ErrorCategory::Other => GrafeoStatus::ErrorDatabase,
        };
        Self { status, message }
    }
}

/// What a call for the next row answers: its status, the row as JSON if there is
/// one, and the message of an error.
#[derive(Debug)]
pub struct RowReply {
    /// How the call ended.
    pub status: GrafeoStatus,
    /// The row as JSON. There is none at the end, and none with an error.
    pub row: Option<String>,
    /// The message of an error.
    pub error: Option<String>,
}

/// The answer to a call with a null pointer, if one is null: where the row is to go,
/// or the stream.
#[must_use]
pub fn null_pointer_reply(out_is_null: bool, stream_is_null: bool) -> (r: Option<RowReply>)
    ensures
        r is Some <==> out_is_null || stream_is_null,
        r matches Some(reply) ==> reply.status == GrafeoStatus::ErrorNullPointer && reply.row is None
            && (reply.error matches Some(e) && e@ == if out_is_null {
            "Null out_json pointer"@
        } else {
            "Null stream pointer"@
        }),
{
    let text: &str = if out_is_null {
        "Null out_json pointer"
    } else if stream_is_null {
        "Null stream pointer"
    } else {
        return None;
    };
    Some(
        RowReply {
            status: GrafeoStatus::ErrorNullPointer,
            row: None,
            error: Some(text.to_owned()),
        },
    )
}

/// Whether an answer is what a step says. An error is answered with its own status
/// and message. The text of a row has no control characters, so that it can stand in
/// a string that ends with a null byte.
pub open spec fn reply_is(reply: RowReply, step: StepModel<JsonTree, RowFailure>) -> bool {
    match step {
        StepModel::Row(pairs) => reply.status == GrafeoStatus::Success && reply.error is None && (
        reply.row matches Some(text) && text@ == json_written(row_json(pairs)) && forall|i: int|
            0 <= i < text@.len() ==> #[trigger] text@[i] >= ' '),
        StepModel::Failed(e) => reply.status == e.status && reply.row is None && (
        reply.error matches Some(text) && text@ == e.message@),
        StepModel::End => reply.status == GrafeoStatus::Success && reply.row is None && reply.error
            is None,
    }
}

/// Answers a call for the next row as JSON, given what was pulled.
pub fn grafeo_stream_next_row_json(
    cursor: &mut RowCursor,
    pulled: Pulled<JsonTree, RowFailure>,
) -> (r: RowReply)
    ensures
        reply_is(r, step_of(old(cursor).more(), old(cursor).names(), pulled)),
        final(cursor).names() == old(cursor).names(),
        final(cursor).more() == open_after(old(cursor).more(), pulled),
        final(cursor).more() <==> old(cursor).more() && pulled is Row,
        r.row is Some <==> old(cursor).more() && pulled is Row,
        r.error is Some <==> old(cursor).more() && pulled is Failed,
        old(cursor).more() && pulled is Failed ==> r.status == pulled->Failed_0.status
            && r.error->0@ == pulled->Failed_0.message@,
        !(old(cursor).more() && pulled is Failed) ==> r.status == GrafeoStatus::Success,
        old(cursor).more() && pulled is Row ==> r.row->0@ == json_written(
            row_json(paired(old(cursor).names(), pulled->Row_0@)),
        ),
{
    match cursor.advance(pulled) {
        Step::Row(pairs) => {
            let text: String = json_write(&row_object(pairs));
            RowReply { status: GrafeoStatus::Success, row: Some(text), error: None }
        },
        Step::Failed(e) => RowReply { status: e.status, row: None, error: Some(e.message) },
        Step::End => RowReply { status: GrafeoStatus::Success, row: None, error: None },
    }
}

} // verus!
