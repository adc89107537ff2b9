//! Dictionary encoding for repeated strings.
//!
//! Where a column repeats its strings (node labels, edge types), each distinct
//! string is stored once and every row refers to it by a small integer code. A
//! million "Person" labels become one string and a million four-byte codes.

use std::sync::Arc;

use bytes::{Bytes, BytesMut};
use vstd::arithmetic::power2::pow2;
use vstd::bits::lemma_u64_shr_is_div;
use vstd::hash_map::StringHashMap;
use vstd::prelude::*;
use vstd::utf8::encode_utf8;

use crate::le::{push_u32_le, read_u32_le, read_u64_le};
use crate::le::{
    le_bytes, le_u32s, lemma_le_u32s_push, lemma_le_value_bound, lemma_pow256,
    lemma_u32s_round_trip, u32s_of, u64s_of,
};
use crate::trusted::buffer::{bytes_as_slice, bytes_mut_extend, bytes_mut_freeze, bytes_mut_new};
use crate::trusted::buffer::{bytes_content, bytes_mut_content};
use crate::trusted::text::{arc_slice, arc_str, str_eq};

verus! {

/// The characters of each string.
pub open spec fn texts(strings: Seq<Arc<str>>) -> Seq<Seq<char>> {
    strings.map_values(|s: Arc<str>| s@)
}

/// Whether bit `i` is set in a bitmap of 64-bit words; a missing word is zero.
pub open spec fn bit_set(words: Seq<u64>, i: int) -> bool {
    i / 64 < words.len() && words[i / 64] & (1u64 << ((i % 64) as u64)) != 0
}

/// Whether no string occurs twice.
pub open spec fn all_distinct(strings: Seq<Seq<char>>) -> bool {
    forall|i: int, j: int| 0 <= i < j < strings.len() ==> strings[i] != strings[j]
}

/// `i` is the first position of `value`.
pub open spec fn is_first_position(strings: Seq<Seq<char>>, value: Seq<char>, i: int) -> bool {
    &&& 0 <= i < strings.len()
    &&& strings[i] == value
    &&& forall|j: int| #![trigger strings[j]] 0 <= j < i ==> strings[j] != value
}

/// The distinct strings of `rows`, in order of first appearance.
pub open spec fn first_appearances(rows: Seq<Option<Seq<char>>>) -> Seq<Seq<char>>
    decreases rows.len(),
{
    if rows.len() == 0 {
        Seq::empty()
    } else {
        let earlier = first_appearances(rows.drop_last());
        match rows.last() {
            Some(s) if !earlier.contains(s) => earlier.push(s),
            _ => earlier,
        }
    }
}

proof fn lemma_first_appearances_push(rows: Seq<Option<Seq<char>>>, row: Option<Seq<char>>)
    ensures
        first_appearances(rows.push(row)) == (match row {
            Some(s) if !first_appearances(rows).contains(s) => first_appearances(rows).push(s),
            _ => first_appearances(rows),
        }),
{
    assert(rows.push(row).drop_last() =~= rows);
}

/// The first appearances of `rows` are the strings that occur in it, each once,
/// and a string stands before those that first appear after it.
pub proof fn law_first_appearances(rows: Seq<Option<Seq<char>>>)
    ensures
        all_distinct(first_appearances(rows)),
        forall|s: Seq<char>| #[trigger]
            first_appearances(rows).contains(s) <==> rows.contains(Some(s)),
        forall|i: int, j: int| #![trigger first_appearances(rows)[i], first_appearances(rows)[j]]
            0 <= i < j < first_appearances(rows).len() ==> appears_before(
                rows,
                first_appearances(rows)[i],
                first_appearances(rows)[j],
            ),
    decreases rows.len(),
{
    let found = first_appearances(rows);
    if rows.len() > 0 {
        let shorter = rows.drop_last();
        let earlier = first_appearances(shorter);
        law_first_appearances(shorter);
        assert(rows =~= shorter.push(rows.last()));
        assert forall|s: Seq<char>| #[trigger] found.contains(s) <==> rows.contains(Some(s)) by {
            vstd::seq_lib::lemma_seq_contains_after_push(shorter, rows.last(), Some(s));
            if let Some(last) = rows.last() {
                vstd::seq_lib::lemma_seq_contains_after_push(earlier, last, s);
            }
        }
        assert forall|i: int, j: int| #![trigger found[i], found[j]]
            0 <= i < j < found.len() implies appears_before(rows, found[i], found[j])
            && found[i] != found[j] by {
            assert(found[i] == earlier[i]);
            assert(earlier.contains(earlier[i]));
            if j < earlier.len() {
                assert(found[j] == earlier[j]);
                let p = choose|p: int| #![trigger shorter[p]]
                    0 <= p < shorter.len() && shorter[p] == Some(earlier[i]) && forall|q: int|
                        #![trigger shorter[q]]
                        0 <= q <= p ==> shorter[q] != Some(earlier[j]);
                assert(rows[p] == Some(found[i]));
                assert forall|q: int| #![trigger rows[q]] 0 <= q <= p implies rows[q] != Some(
                    found[j],
                ) by {
                    assert(rows[q] == shorter[q]);
                }
            } else {
                let p = choose|p: int| 0 <= p < shorter.len() && shorter[p] == Some(earlier[i]);
                assert(rows[p] == Some(found[i]));
                assert forall|q: int| #![trigger rows[q]] 0 <= q <= p implies rows[q] != Some(
                    found[j],
                ) by {
                    assert(rows[q] == shorter[q]);
                    if shorter[q] == Some(found[j]) {
                        assert(shorter.contains(Some(found[j])));
                    }
                }
            }
        }
    }
}

/// Whether `s` occurs in a row up to which `t` does not.
pub open spec fn appears_before(
    rows: Seq<Option<Seq<char>>>,
    s: Seq<char>,
    t: Seq<char>,
) -> bool {
    exists|p: int| #![trigger rows[p]]
        0 <= p < rows.len() && rows[p] == Some(s) && forall|q: int| #![trigger rows[q]]
            0 <= q <= p ==> rows[q] != Some(t)
}

/// Strings as rows without a null.
pub open spec fn as_rows(values: Seq<Seq<char>>) -> Seq<Option<Seq<char>>> {
    values.map_values(|s: Seq<char>| Some(s))
}

/// What row `i` holds: nothing where the null bit is set, where there is no
/// code, or where the code is not in the dictionary.
pub open spec fn row_value(
    strings: Seq<Seq<char>>,
    codes: Seq<u32>,
    nulls: Option<Seq<u64>>,
    i: int,
) -> Option<Seq<char>> {
    if nulls matches Some(words) && bit_set(words, i) {
        None
    } else if i < codes.len() && codes[i] < strings.len() {
        Some(strings[codes[i] as int])
    } else {
        None
    }
}

/// The length in bytes of the string with the given code, zero if there is none.
pub open spec fn code_size(strings: Seq<Seq<char>>, codes: Seq<u32>, i: int) -> nat {
    let code = if i < codes.len() { codes[i] } else { 0 };
    if code < strings.len() {
        encode_utf8(strings[code as int]).len() as usize as nat
    } else {
        0
    }
}

/// The bytes that the first `n` rows take as plain strings.
pub open spec fn plain_size(strings: Seq<Seq<char>>, codes: Seq<u32>, n: nat) -> nat
    decreases n,
{
    if n == 0 {
        0
    } else {
        plain_size(strings, codes, (n - 1) as nat) + code_size(strings, codes, n - 1)
    }
}

/// The bytes that the strings of the dictionary take.
pub open spec fn strings_size(strings: Seq<Seq<char>>) -> nat
    decreases strings.len(),
{
    if strings.len() == 0 {
        0
    } else {
        strings_size(strings.drop_last()) + encode_utf8(strings.last()).len() as usize as nat
    }
}

proof fn lemma_plain_size_monotone(strings: Seq<Seq<char>>, codes: Seq<u32>, m: nat, n: nat)
    requires
        m <= n,
    ensures
        plain_size(strings, codes, m) <= plain_size(strings, codes, n),
    decreases n,
{
    if m < n {
        lemma_plain_size_monotone(strings, codes, m, (n - 1) as nat);
    }
}

proof fn lemma_strings_size_monotone(strings: Seq<Seq<char>>, m: int)
    requires
        0 <= m <= strings.len(),
    ensures
        strings_size(strings.take(m)) <= strings_size(strings),
    decreases strings.len(),
{
    if m < strings.len() {
        lemma_strings_size_monotone(strings.drop_last(), m);
        assert(strings.drop_last().take(m) =~= strings.take(m));
    } else {
        assert(strings.take(m) =~= strings);
    }
}

proof fn lemma_set_bit(w: u64, b: u64)
    by (bit_vector)
    requires
        b < 64,
    ensures
        (w | (1u64 << b)) & (1u64 << b) != 0,
        forall|o: u64| o < 64 && o != b ==> (w | (1u64 << b)) & (1u64 << o) == #[trigger] (w & (1u64
            << o)),
{
}

proof fn lemma_zero_bits()
    by (bit_vector)
    ensures
        forall|m: u64| #[trigger] (0u64 & m) == 0,
{
}

/// The bit of row `i` is digit `i % 64` of word `i / 64`, and zero where there is no
/// such word.
pub proof fn law_where_null_bits_stand(words: Seq<u64>, i: int)
    requires
        0 <= i,
    ensures
        i < 64 * words.len() ==> (bit_set(words, i) <==> (words[i / 64] as nat / pow2(
            (i % 64) as nat,
        )) % 2 == 1),
        i >= 64 * words.len() ==> !bit_set(words, i),
{
    if i < 64 * words.len() {
        let w = words[i / 64];
        let b = (i % 64) as u64;
        lemma_u64_shr_is_div(w, b);
        assert((w & (1u64 << b) != 0) <==> (w >> b) % 2 == 1) by (bit_vector)
            requires
                b < 64,
        ;
    }
}

/// A row holds the string of its code: nothing where its null bit is set, and nothing
/// where there is no code, or no string for it.
pub proof fn law_rows_hold_their_strings(
    strings: Seq<Seq<char>>,
    codes: Seq<u32>,
    nulls: Option<Seq<u64>>,
    i: int,
)
    ensures
        nulls is Some && bit_set(nulls->0, i) ==> row_value(strings, codes, nulls, i) is None,
        i >= codes.len() ==> row_value(strings, codes, nulls, i) is None,
        0 <= i < codes.len() && codes[i] >= strings.len() ==> row_value(strings, codes, nulls, i)
            is None,
        0 <= i < codes.len() && codes[i] < strings.len() && (nulls is None || !bit_set(
            nulls->0,
            i,
        )) ==> row_value(strings, codes, nulls, i) == Some(strings[codes[i] as int]),
{
}

/// Strings take their bytes each, and rows the bytes of their strings; a row without a
/// string takes none, and one without a code counts as one with the first.
pub proof fn law_sizes_add_up(
    strings: Seq<Seq<char>>,
    string: Seq<char>,
    codes: Seq<u32>,
    n: nat,
)
    ensures
        strings_size(Seq::empty()) == 0,
        encode_utf8(string).len() <= usize::MAX ==> strings_size(strings.push(string))
            == strings_size(strings) + encode_utf8(string).len(),
        plain_size(strings, codes, 0) == 0,
        n < codes.len() && codes[n as int] < strings.len() && encode_utf8(
            strings[codes[n as int] as int],
        ).len() <= usize::MAX ==> plain_size(strings, codes, n + 1) == plain_size(strings, codes, n)
            + encode_utf8(strings[codes[n as int] as int]).len(),
        n < codes.len() && codes[n as int] >= strings.len() ==> plain_size(strings, codes, n + 1)
            == plain_size(strings, codes, n),
        n >= codes.len() && strings.len() == 0 ==> plain_size(strings, codes, n + 1) == plain_size(
            strings,
            codes,
            n,
        ),
        n >= codes.len() && strings.len() > 0 && encode_utf8(strings[0]).len() <= usize::MAX
            ==> plain_size(strings, codes, n + 1) == plain_size(strings, codes, n) + encode_utf8(
            strings[0],
        ).len(),
{
    assert(strings.push(string).drop_last() =~= strings);
}

/// Encodes codes as a buffer of little-endian bytes, four per code.
fn codes_to_bytes(codes: &[u32]) -> (r: Bytes)
    ensures
        bytes_content(r) == le_u32s(codes@),
{
    let mut buf: BytesMut = bytes_mut_new();
    let mut i: usize = 0;
    assert(le_u32s(codes@.take(0)) =~= Seq::<u8>::empty());
    while i < codes.len()
        invariant
            i <= codes@.len(),
            bytes_mut_content(buf) == le_u32s(codes@.take(i as int)),
        decreases codes.len() - i,
    {
        let mut chunk: Vec<u8> = Vec::new();
        push_u32_le(&mut chunk, codes[i]);
        bytes_mut_extend(&mut buf, chunk.as_slice());
        proof {
            assert(codes@.take(i + 1) =~= codes@.take(i as int).push(codes@[i as int]));
            lemma_le_u32s_push(codes@.take(i as int), codes@[i as int]);
            assert(chunk@ =~= le_bytes(codes@[i as int] as nat, 4));
        }
        i = i + 1;
    }
    assert(codes@.take(codes@.len() as int) =~= codes@);
    bytes_mut_freeze(buf)
}

/// The code at `idx` of a buffer of four-byte codes, or `None` past the end.
fn read_code_at(bytes: &Bytes, idx: usize) -> (r: Option<u32>)
    ensures
        r == (if idx < u32s_of(bytes_content(*bytes)).len() {
            Some(u32s_of(bytes_content(*bytes))[idx as int])
        } else {
            None
        }),
{
    let data: &[u8] = bytes_as_slice(bytes);
    if idx < data.len() / 4 {
        proof {
            lemma_le_value_bound(data@.subrange(4 * idx, 4 * idx + 4));
            lemma_pow256();
        }
        Some(read_u32_le(data, idx * 4))
    } else {
        None
    }
}

/// The bit at `index` of a word of a bitmap.
fn word_bit(word: u64, bit: usize) -> (r: bool)
    requires
        bit < 64,
    ensures
        r == (word & (1u64 << (bit as u64)) != 0),
{
    (word & (1u64 << (bit as u64))) != 0
}

/// The bit at `index` of a bitmap that is kept as bytes.
fn null_bit_at(bitmap: &Bytes, index: usize) -> (r: bool)
    ensures
        r == bit_set(u64s_of(bytes_content(*bitmap)), index as int),
{
    let data: &[u8] = bytes_as_slice(bitmap);
    let word_idx: usize = index / 64;
    if word_idx < data.len() / 8 {
        proof {
            lemma_le_value_bound(data@.subrange(8 * word_idx, 8 * word_idx + 8));
            lemma_pow256();
        }
        let word: u64 = read_u64_le(data, word_idx * 8);
        word_bit(word, index % 64)
    } else {
        false
    }
}

/// Where the codes live: in memory, or as a slice of a larger buffer.
#[derive(Debug)]
enum CodeStore {
    Inline(Vec<u32>),
    Mapped(Bytes),
}

impl CodeStore {
    spec fn words(&self) -> Seq<u32> {
        match self {
            Self::Inline(v) => v@,
            Self::Mapped(b) => u32s_of(bytes_content(*b)),
        }
    }

    spec fn raw(&self) -> Seq<u8> {
        match self {
            Self::Inline(v) => le_u32s(v@),
            Self::Mapped(b) => bytes_content(*b),
        }
    }

    fn as_slice(&self) -> (r: Option<&[u32]>)
        ensures
            r is Some <==> *self is Inline,
            r matches Some(s) ==> s@ == self.words(),
    {
        match self {
            Self::Inline(v) => Some(v.as_slice()),
            Self::Mapped(_) => None,
        }
    }

    fn code_at(&self, idx: usize) -> (r: Option<u32>)
        ensures
            r == (if idx < self.words().len() {
                Some(self.words()[idx as int])
            } else {
                None
            }),
    {
        match self {
            Self::Inline(v) => {
                if idx < v.len() {
                    Some(v[idx])
                } else {
                    None
                }
            },
            Self::Mapped(b) => read_code_at(b, idx),
        }
    }

    fn to_bytes(&self) -> (r: Bytes)
        ensures
            bytes_content(r) == self.raw(),
    {
        match self {
            Self::Inline(v) => codes_to_bytes(v.as_slice()),
            Self::Mapped(b) => b.clone(),
        }
    }

    fn byte_len(&self) -> (r: usize)
        requires
            self.raw().len() <= usize::MAX,
        ensures
            r == self.raw().len(),
    {
        match self {
            Self::Inline(v) => v.len() * 4,
            Self::Mapped(b) => bytes_as_slice(b).len(),
        }
    }

    fn duplicate(&self) -> (r: Self)
        ensures
            r.words() == self.words(),
            r.raw() == self.raw(),
            (r is Inline) == (*self is Inline),
    {
        match self {
            Self::Inline(v) => {
                let copy: Vec<u32> = v.clone();
                assert(copy@ =~= v@);
                Self::Inline(copy)
            },
            Self::Mapped(b) => Self::Mapped(b.clone()),
        }
    }
}

/// Where the null bitmap lives: in memory, or as a slice of a larger buffer.
#[derive(Debug)]
enum NullBitmap {
    Inline(Vec<u64>),
    Mapped(Bytes),
}

impl NullBitmap {
    spec fn words(&self) -> Seq<u64> {
        match self {
            Self::Inline(v) => v@,
            Self::Mapped(b) => u64s_of(bytes_content(*b)),
        }
    }

    fn as_slice(&self) -> (r: Option<&[u64]>)
        ensures
            r is Some <==> *self is Inline,
            r matches Some(s) ==> s@ == self.words(),
    {
        match self {
            Self::Inline(v) => Some(v.as_slice()),
            Self::Mapped(_) => None,
        }
    }

    fn is_null(&self, index: usize) -> (r: bool)
        ensures
            r == bit_set(self.words(), index as int),
    {
        match self {
            Self::Inline(words) => {
                let word_idx: usize = index / 64;
                if word_idx < words.len() {
                    word_bit(words[word_idx], index % 64)
                } else {
                    false
                }
            },
            Self::Mapped(b) => null_bit_at(b, index),
        }
    }

    fn duplicate(&self) -> (r: Self)
        ensures
            r.words() == self.words(),
            (r is Inline) == (*self is Inline),
    {
        match self {
            Self::Inline(v) => {
                let copy: Vec<u64> = v.clone();
                assert(copy@ =~= v@);
                Self::Inline(copy)
            },
            Self::Mapped(b) => Self::Mapped(b.clone()),
        }
    }
}

/// Stores repeated strings by referring to them with integer codes.
///
/// Each distinct string stands once in the dictionary; the rows are codes that
/// point into it. Codes and null bitmap live in memory or in shared buffers.
#[derive(Debug)]
pub struct DictionaryEncoding {
    dictionary: Arc<[Arc<str>]>,
    codes: CodeStore,
    code_count: usize,
    null_bitmap: Option<NullBitmap>,
}

impl Clone for DictionaryEncoding {
    fn clone(&self) -> (r: Self)
        ensures
            r.same_as(self),
    {
        proof {
            use_type_invariant(self);
        }
        let null_bitmap: Option<NullBitmap> = match &self.null_bitmap {
            Some(b) => Some(b.duplicate()),
            None => None,
        };
        Self {
            dictionary: self.dictionary.clone(),
            codes: self.codes.duplicate(),
            code_count: self.code_count,
            null_bitmap,
        }
    }
}

impl DictionaryEncoding {
    #[verifier::type_invariant]
    spec fn well_formed(&self) -> bool {
        self.codes is Inline ==> self.code_count == self.codes.words().len()
    }

    /// The strings of the dictionary, by code.
    pub closed spec fn strings(&self) -> Seq<Seq<char>> {
        texts(self.dictionary@)
    }

    /// The codes that are stored.
    pub closed spec fn code_words(&self) -> Seq<u32> {
        self.codes.words()
    }

    /// The bytes of the codes.
    pub closed spec fn code_bytes(&self) -> Seq<u8> {
        self.codes.raw()
    }

    /// The number of rows.
    pub closed spec fn count(&self) -> nat {
        self.code_count as nat
    }

    /// The words of the null bitmap, if there is one.
    pub closed spec fn null_words(&self) -> Option<Seq<u64>> {
        match self.null_bitmap {
            Some(b) => Some(b.words()),
            None => None,
        }
    }

    /// Whether the codes live in memory as codes.
    pub closed spec fn codes_inline(&self) -> bool {
        self.codes is Inline
    }

    /// Whether there is a null bitmap that lives in memory as words.
    pub closed spec fn nulls_inline(&self) -> bool {
        self.null_bitmap matches Some(b) && b is Inline
    }

    /// Whether two encodings agree in everything that can be asked of them.
    pub open spec fn same_as(&self, other: &Self) -> bool {
        &&& self.strings() == other.strings()
        &&& self.code_words() == other.code_words()
        &&& self.code_bytes() == other.code_bytes()
        &&& self.count() == other.count()
        &&& self.null_words() == other.null_words()
        &&& self.codes_inline() == other.codes_inline()
        &&& self.nulls_inline() == other.nulls_inline()
    }

    /// Whether row `i` is null.
    pub open spec fn null_at(&self, i: int) -> bool {
        self.null_words() matches Some(words) && bit_set(words, i)
    }

    /// What row `i` holds.
    pub open spec fn value_at(&self, i: int) -> Option<Seq<char>> {
        row_value(self.strings(), self.code_words(), self.null_words(), i)
    }

    /// Creates an encoding from a dictionary and codes, without nulls.
    pub fn new(dictionary: Arc<[Arc<str>]>, codes: Vec<u32>) -> (r: Self)
        ensures
            r.strings() == texts(dictionary@),
            r.code_words() == codes@,
            r.code_bytes() == le_u32s(codes@),
            r.count() == codes@.len(),
            r.null_words() is None,
            r.codes_inline(),
            !r.nulls_inline(),
    {
        let code_count: usize = codes.len();
        Self { dictionary, codes: CodeStore::Inline(codes), code_count, null_bitmap: None }
    }

    /// Creates an encoding from codes that are encoded already, four
    /// little-endian bytes each. Nothing is copied.
    pub fn from_bytes_storage(
        dictionary: Arc<[Arc<str>]>,
        codes_bytes: Bytes,
        code_count: usize,
    ) -> (r: Self)
        ensures
            r.strings() == texts(dictionary@),
            r.code_words() == u32s_of(bytes_content(codes_bytes)),
            r.code_bytes() == bytes_content(codes_bytes),
            r.count() == code_count,
            r.null_words() is None,
            !r.codes_inline(),
            !r.nulls_inline(),
    {
        Self { dictionary, codes: CodeStore::Mapped(codes_bytes), code_count, null_bitmap: None }
    }

    /// Replaces the null bitmap by the given words.
    pub fn with_nulls(self, null_bitmap: Vec<u64>) -> (r: Self)
        ensures
            r.strings() == self.strings(),
            r.code_words() == self.code_words(),
            r.code_bytes() == self.code_bytes(),
            r.count() == self.count(),
            r.codes_inline() == self.codes_inline(),
            r.null_words() == Some(null_bitmap@),
            r.nulls_inline(),
    {
        proof {
            use_type_invariant(&self);
        }
        Self {
            dictionary: self.dictionary,
            codes: self.codes,
            code_count: self.code_count,
            null_bitmap: Some(NullBitmap::Inline(null_bitmap)),
        }
    }

    /// Replaces the null bitmap by one that is encoded already, eight
    /// little-endian bytes per word.
    pub fn with_null_bytes(self, null_bitmap: Bytes) -> (r: Self)
        ensures
            r.strings() == self.strings(),
            r.code_words() == self.code_words(),
            r.code_bytes() == self.code_bytes(),
            r.count() == self.count(),
            r.codes_inline() == self.codes_inline(),
            r.null_words() == Some(u64s_of(bytes_content(null_bitmap))),
            !r.nulls_inline(),
    {
        proof {
            use_type_invariant(&self);
        }
        Self {
            dictionary: self.dictionary,
            codes: self.codes,
            code_count: self.code_count,
            null_bitmap: Some(NullBitmap::Mapped(null_bitmap)),
        }
    }

    /// The number of rows.
    pub fn len(&self) -> (r: usize)
        ensures
            r == self.count(),
    {
        proof {
            use_type_invariant(self);
        }
        match &self.codes {
            CodeStore::Inline(v) => v.len(),
            CodeStore::Mapped(_) => self.code_count,
        }
    }

    /// Whether there are no rows.
    pub fn is_empty(&self) -> (r: bool)
        ensures
            r == (self.count() == 0),
    {
        self.len() == 0
    }

    /// The number of distinct strings.
    pub fn dictionary_size(&self) -> (r: usize)
        ensures
            r == self.strings().len(),
    {
        self.dictionary.len()
    }

    /// The dictionary.
    pub fn dictionary(&self) -> (r: &Arc<[Arc<str>]>)
        ensures
            texts(r@) == self.strings(),
    {
        &self.dictionary
    }

    /// The codes as bytes: a fresh encoding, or the shared buffer.
    #[must_use]
    pub fn codes_bytes(&self) -> (r: Bytes)
        ensures
            bytes_content(r) == self.code_bytes(),
    {
        self.codes.to_bytes()
    }

    /// The codes as a slice, when they live in memory.
    #[must_use]
    pub fn as_codes_slice(&self) -> (r: Option<&[u32]>)
        ensures
            r is Some <==> self.codes_inline(),
            r matches Some(s) ==> s@ == self.code_words(),
    {
        self.codes.as_slice()
    }

    /// The null bitmap as a slice, when there is one and it lives in memory.
    #[must_use]
    pub fn as_null_words_slice(&self) -> (r: Option<&[u64]>)
        ensures
            r is Some <==> self.nulls_inline(),
            r matches Some(s) ==> self.null_words() == Some(s@),
    {
        match &self.null_bitmap {
            Some(b) => b.as_slice(),
            None => None,
        }
    }

    /// The number of codes.
    pub fn code_count(&self) -> (r: usize)
        ensures
            r == self.count(),
    {
        self.code_count
    }

    /// The code at `idx`, null or not, or `None` where none is stored.
    #[must_use]
    pub fn code_at(&self, idx: usize) -> (r: Option<u32>)
        ensures
            r == (if idx < self.code_words().len() {
                Some(self.code_words()[idx as int])
            } else {
                None
            }),
    {
        self.codes.code_at(idx)
    }

    /// All codes; a code that is not stored counts as zero.
    pub fn codes(&self) -> (r: Vec<u32>)
        ensures
            r@ == Seq::new(
                self.count(),
                |i: int|
                    if i < self.code_words().len() {
                        self.code_words()[i]
                    } else {
                        0u32
                    },
            ),
    {
        let mut out: Vec<u32> = Vec::new();
        let mut i: usize = 0;
        while i < self.code_count
            invariant
                i <= self.code_count,
                out@.len() == i,
                forall|k: int| #![trigger out@[k]]
                    0 <= k < i ==> out@[k] == if k < self.code_words().len() {
                        self.code_words()[k]
                    } else {
                        0u32
                    },
            decreases self.code_count - i,
        {
            let code: u32 = match self.codes.code_at(i) {
                Some(c) => c,
                None => 0,
            };
            out.push(code);
            i = i + 1;
        }
        out
    }

    /// Whether the row at `index` is null.
    #[must_use]
    pub fn is_null(&self, index: usize) -> (r: bool)
        ensures
            r == self.null_at(index as int),
    {
        match &self.null_bitmap {
            Some(b) => b.is_null(index),
            None => false,
        }
    }

    /// The string at `index`, or `None` where the row is null or missing.
    pub fn get(&self, index: usize) -> (r: Option<&str>)
        ensures
            match r {
                Some(s) => self.value_at(index as int) == Some(s@),
                None => self.value_at(index as int) is None,
            },
    {
        if self.is_null(index) {
            return None;
        }
        match self.code_at(index) {
            Some(code) => {
                if (code as u64) < (self.dictionary.len() as u64) {
                    Some(&self.dictionary[code as usize])
                } else {
                    None
                }
            },
            None => None,
        }
    }

    /// The code at `index`, or `None` where the row is null or missing.
    pub fn get_code(&self, index: usize) -> (r: Option<u32>)
        ensures
            r == (if !self.null_at(index as int) && index < self.code_words().len() {
                Some(self.code_words()[index as int])
            } else {
                None
            }),
    {
        if self.is_null(index) {
            return None;
        }
        self.code_at(index)
    }

    /// All rows in order, `None` for a null.
    pub fn iter(&self) -> (r: Vec<Option<&str>>)
        ensures
            r@.len() == self.count(),
            forall|i: int| #![trigger r@[i]]
                0 <= i < r@.len() ==> match r@[i] {
                    Some(s) => self.value_at(i) == Some(s@),
                    None => self.value_at(i) is None,
                },
    {
        let n: usize = self.len();
        let mut out: Vec<Option<&str>> = Vec::new();
        let mut i: usize = 0;
        while i < n
            invariant
                i <= n,
                out@.len() == i,
                forall|k: int| #![trigger out@[k]]
                    0 <= k < i ==> match out@[k] {
                        Some(s) => self.value_at(k) == Some(s@),
                        None => self.value_at(k) is None,
                    },
            decreases n - i,
        {
            out.push(self.get(i));
            i = i + 1;
        }
        out
    }

    /// The bytes that the rows take as plain strings and encoded, which is what
    /// the compression ratio divides. `None` when there is no row or nothing is
    /// stored.
    #[must_use]
    pub fn compression_sizes(&self) -> (r: Option<(usize, usize)>)
        requires
            plain_size(self.strings(), self.code_words(), self.count()) <= usize::MAX,
            strings_size(self.strings()) + self.code_bytes().len() <= usize::MAX,
        ensures
            r == (if self.count() == 0 || strings_size(self.strings()) + self.code_bytes().len()
                == 0 {
                None::<(usize, usize)>
            } else {
                Some(
                    (
                        plain_size(self.strings(), self.code_words(), self.count()) as usize,
                        (strings_size(self.strings()) + self.code_bytes().len()) as usize,
                    ),
                )
            }),
    {
        if self.is_empty() {
            return None;
        }
        let mut original_size: usize = 0;
        let mut i: usize = 0;
        while i < self.code_count
            invariant
                i <= self.code_count,
                original_size == plain_size(self.strings(), self.code_words(), i as nat),
                plain_size(self.strings(), self.code_words(), self.count()) <= usize::MAX,
            decreases self.code_count - i,
        {
            let code: u32 = match self.codes.code_at(i) {
                Some(c) => c,
                None => 0,
            };
            let size: usize = if (code as u64) < (self.dictionary.len() as u64) {
                assert(self.strings()[code as int] == self.dictionary@[code as int]@);
                self.dictionary[code as usize].len()
            } else {
                0
            };
            proof {
                lemma_plain_size_monotone(
                    self.strings(),
                    self.code_words(),
                    (i + 1) as nat,
                    self.count(),
                );
            }
            original_size = original_size + size;
            i = i + 1;
        }
        let mut dict_size: usize = 0;
        let mut k: usize = 0;
        assert(self.strings().take(0) =~= Seq::<Seq<char>>::empty());
        while k < self.dictionary.len()
            invariant
                k <= self.dictionary@.len(),
                self.dictionary@.len() == self.strings().len(),
                dict_size == strings_size(self.strings().take(k as int)),
                strings_size(self.strings()) + self.code_bytes().len() <= usize::MAX,
            decreases self.dictionary@.len() - k,
        {
            proof {
                lemma_strings_size_monotone(self.strings(), k + 1);
                assert(self.strings().take(k + 1).drop_last() =~= self.strings().take(k as int));
                assert(self.strings()[k as int] == self.dictionary@[k as int]@);
            }
            dict_size = dict_size + self.dictionary[k].len();
            k = k + 1;
        }
        assert(self.strings().take(k as int) =~= self.strings());
        let compressed_size: usize = dict_size + self.codes.byte_len();
        if compressed_size == 0 {
            return None;
        }
        Some((original_size, compressed_size))
    }

    /// The code of a string, which is its first position in the dictionary.
    pub fn encode(&self, value: &str) -> (r: Option<u32>)
        ensures
            match r {
                Some(code) => is_first_position(self.strings(), value@, code as int),
                None => forall|i: int| #![trigger self.strings()[i]]
                    is_first_position(self.strings(), value@, i) ==> i > u32::MAX,
            },
    {
        let mut i: usize = 0;
        while i < self.dictionary.len()
            invariant
                i <= self.dictionary@.len(),
                forall|j: int| #![trigger self.strings()[j]]
                    0 <= j < i ==> self.strings()[j] != value@,
            decreases self.dictionary@.len() - i,
        {
            assert(self.strings()[i as int] == self.dictionary@[i as int]@);
            if str_eq(&self.dictionary[i], value) {
                assert(is_first_position(self.strings(), value@, i as int));
                if i as u64 <= u32::MAX as u64 {
                    return Some(i as u32);
                }
                assert forall|j: int| #![trigger self.strings()[j]]
                    is_first_position(self.strings(), value@, j) implies j > u32::MAX by {
                    if j < i {
                        assert(self.strings()[j] != value@);
                    }
                }
                return None;
            }
            i = i + 1;
        }
        None
    }

    /// The rows, in order, that are not null and whose code the predicate
    /// accepts.
    pub fn filter_by_code(&self, predicate: impl Fn(u32) -> bool) -> (r: Vec<usize>)
        requires
            forall|i: int| #![trigger self.code_words()[i]]
                0 <= i < self.count() && i < self.code_words().len() ==> call_requires(
                    predicate,
                    (self.code_words()[i],),
                ),
        ensures
            forall|a: int, b: int| 0 <= a < b < r@.len() ==> r@[a] < r@[b],
            forall|a: int| #![trigger r@[a]]
                0 <= a < r@.len() ==> {
                    &&& r@[a] < self.count()
                    &&& r@[a] < self.code_words().len()
                    &&& !self.null_at(r@[a] as int)
                    &&& call_ensures(predicate, (self.code_words()[r@[a] as int],), true)
                },
            forall|i: int| #![trigger self.code_words()[i]]
                0 <= i < self.count() && i < self.code_words().len() && !self.null_at(i)
                    && !r@.contains(i as usize) ==> call_ensures(
                    predicate,
                    (self.code_words()[i],),
                    false,
                ),
    {
        let mut out: Vec<usize> = Vec::new();
        let mut i: usize = 0;
        while i < self.code_count
            invariant
                i <= self.code_count,
                forall|k: int| #![trigger self.code_words()[k]]
                    0 <= k < self.count() && k < self.code_words().len() ==> call_requires(
                        predicate,
                        (self.code_words()[k],),
                    ),
                forall|a: int, b: int| 0 <= a < b < out@.len() ==> out@[a] < out@[b],
                forall|a: int| #![trigger out@[a]]
                    0 <= a < out@.len() ==> {
                        &&& out@[a] < i
                        &&& out@[a] < self.code_words().len()
                        &&& !self.null_at(out@[a] as int)
                        &&& call_ensures(predicate, (self.code_words()[out@[a] as int],), true)
                    },
                forall|k: int| #![trigger self.code_words()[k]]
                    0 <= k < i && k < self.code_words().len() && !self.null_at(k) && !out@.contains(
                        k as usize,
                    ) ==> call_ensures(predicate, (self.code_words()[k],), false),
            decreases self.code_count - i,
        {
            let ghost before = out@;
            let is_null: bool = self.is_null(i);
            if !is_null {
                if let Some(code) = self.codes.code_at(i) {
                    assert(code == self.code_words()[i as int]);
                    if predicate(code) {
                        out.push(i);
                        assert(out@[out@.len() - 1] == i);
                    }
                }
            }
            assert forall|k: int| #![trigger self.code_words()[k]]
                0 <= k < i + 1 && k < self.code_words().len() && !self.null_at(k) && !out@.contains(
                    k as usize,
                ) implies call_ensures(predicate, (self.code_words()[k],), false) by {
                if before.contains(k as usize) {
                    let a = choose|a: int| 0 <= a < before.len() && before[a] == k as usize;
                    assert(out@[a] == k as usize);
                }
            }
            i = i + 1;
        }
        out
    }
}

/// Builds a dictionary encoding from values that are handed in one by one.
///
/// Call [`add()`](Self::add) for each value: codes are given out in order of
/// first appearance. [`build()`](Self::build) makes the encoding.
pub struct DictionaryBuilder {
    string_to_code: StringHashMap<u32>,
    dictionary: Vec<Arc<str>>,
    codes: Vec<u32>,
    null_positions: Vec<usize>,
}

impl DictionaryBuilder {
    /// The distinct strings so far, by code.
    pub closed spec fn strings(&self) -> Seq<Seq<char>> {
        texts(self.dictionary@)
    }

    /// The codes so far; zero for a null.
    pub closed spec fn code_words(&self) -> Seq<u32> {
        self.codes@
    }

    /// Whether row `i` is a null.
    pub closed spec fn null_at(&self, i: int) -> bool {
        exists|k: int| #![trigger self.null_positions@[k]]
            0 <= k < self.null_positions@.len() && self.null_positions@[k] == i
    }

    /// The rows so far.
    pub open spec fn rows(&self) -> Seq<Option<Seq<char>>> {
        Seq::new(
            self.code_words().len(),
            |i: int|
                if self.null_at(i) {
                    None
                } else {
                    Some(self.strings()[self.code_words()[i] as int])
                },
        )
    }

    /// The strings are distinct, stand in order of first appearance and are what
    /// the map finds, every row is a null or has a code of the dictionary, and
    /// there are at most as many strings as codes.
    pub closed spec fn well_formed(&self) -> bool {
        &&& all_distinct(self.strings())
        &&& self.strings() == first_appearances(self.rows())
        &&& self.strings().len() <= u32::MAX + 1
        &&& forall|i: int| #![trigger self.strings()[i]]
            0 <= i < self.strings().len() ==> self.string_to_code@.contains_pair(
                self.strings()[i],
                i as u32,
            )
        &&& forall|s: Seq<char>| #[trigger]
            self.string_to_code@.dom().contains(s) ==> self.string_to_code@[s]
                < self.strings().len() && self.strings()[self.string_to_code@[s] as int] == s
        &&& forall|k: int| #![trigger self.null_positions@[k]]
            0 <= k < self.null_positions@.len() ==> self.null_positions@[k] < self.codes@.len()
        &&& forall|i: int| #![trigger self.codes@[i]]
            0 <= i < self.codes@.len() ==> if self.null_at(i) {
                self.codes@[i] == 0
            } else {
                self.codes@[i] < self.strings().len()
            }
    }

    /// The dictionary holds the distinct strings of the rows in order of first
    /// appearance, and every row that is no null has a code of the dictionary.
    pub proof fn law_codes_are_valid(&self)
        requires
            self.well_formed(),
        ensures
            all_distinct(self.strings()),
            self.strings() == first_appearances(self.rows()),
            forall|i: int| #![trigger self.code_words()[i]]
                0 <= i < self.code_words().len() ==> if self.null_at(i) {
                    self.code_words()[i] == 0
                } else {
                    self.code_words()[i] < self.strings().len()
                },
    {
    }

    /// Creates an empty builder.
    pub fn new() -> (r: Self)
        ensures
            r.well_formed(),
            r.strings() == Seq::<Seq<char>>::empty(),
            r.code_words() == Seq::<u32>::empty(),
            r.rows() == Seq::<Option<Seq<char>>>::empty(),
            forall|i: int| !(#[trigger] r.null_at(i)),
    {
        let r = Self {
            string_to_code: StringHashMap::new(),
            dictionary: Vec::new(),
            codes: Vec::new(),
            null_positions: Vec::new(),
        };
        proof {
            assert(r.strings() =~= Seq::<Seq<char>>::empty());
            assert(r.rows() =~= Seq::<Option<Seq<char>>>::empty());
        }
        r
    }

    /// Creates an empty builder with room for the given numbers of rows and of
    /// distinct strings.
    pub fn with_capacity(value_capacity: usize, dictionary_capacity: usize) -> (r: Self)
        ensures
            r.well_formed(),
            r.strings() == Seq::<Seq<char>>::empty(),
            r.code_words() == Seq::<u32>::empty(),
            r.rows() == Seq::<Option<Seq<char>>>::empty(),
            forall|i: int| !(#[trigger] r.null_at(i)),
    {
        let r = Self {
            string_to_code: StringHashMap::with_capacity(dictionary_capacity),
            dictionary: Vec::with_capacity(dictionary_capacity),
            codes: Vec::with_capacity(value_capacity),
            null_positions: Vec::new(),
        };
        proof {
            assert(r.strings() =~= Seq::<Seq<char>>::empty());
            assert(r.rows() =~= Seq::<Option<Seq<char>>>::empty());
        }
        r
    }

    /// Adds a row with a string and returns its code. A new string takes the
    /// next code, which there must still be.
    pub fn add(&mut self, value: &str) -> (r: u32)
        requires
            old(self).well_formed(),
            old(self).strings().contains(value@) || old(self).strings().len() <= u32::MAX,
        ensures
            final(self).well_formed(),
            final(self).strings() == if old(self).strings().contains(value@) {
                old(self).strings()
            } else {
                old(self).strings().push(value@)
            },
            r < final(self).strings().len(),
            final(self).strings()[r as int] == value@,
            final(self).code_words() == old(self).code_words().push(r),
            final(self).rows() == old(self).rows().push(Some(value@)),
    {
        let ghost before = *self;
        match self.string_to_code.get(value) {
            Some(found) => {
                let code: u32 = *found;
                self.codes.push(code);
                proof {
                    assert(self.strings()[code as int] == value@);
                    self.lemma_extended(&before, value@, code);
                }
                code
            },
            None => {
                proof {
                    if before.strings().contains(value@) {
                        let i = before.strings().index_of(value@);
                        assert(before.string_to_code@.contains_pair(before.strings()[i], i as u32));
                        assert(false);
                    }
                }
                let code: u32 = self.dictionary.len() as u32;
                let arc_value: Arc<str> = arc_str(value);
                self.string_to_code.insert(value.to_owned(), code);
                self.dictionary.push(arc_value);
                self.codes.push(code);
                proof {
                    assert(self.strings() =~= before.strings().push(value@));
                    assert forall|i: int| #![trigger self.strings()[i]]
                        0 <= i
                            < self.strings().len() implies self.string_to_code@.contains_pair(
                        self.strings()[i],
                        i as u32,
                    ) by {
                        if i < before.strings().len() {
                            assert(before.strings()[i] == self.strings()[i]);
                            assert(before.strings().contains(before.strings()[i]));
                        }
                    }
                    assert forall|s: Seq<char>| #[trigger]
                        self.string_to_code@.dom().contains(s) implies self.string_to_code@[s]
                        < self.strings().len() && self.strings()[self.string_to_code@[s] as int]
                        == s by {
                        if s != value@ {
                            assert(before.string_to_code@.dom().contains(s));
                        }
                    }
                    assert(all_distinct(self.strings())) by {
                        assert forall|i: int, j: int|
                            0 <= i < j < self.strings().len() implies self.strings()[i]
                            != self.strings()[j] by {
                            assert(self.strings()[i] == before.strings()[i]);
                            assert(before.strings().contains(before.strings()[i]));
                            if j < before.strings().len() {
                                assert(self.strings()[j] == before.strings()[j]);
                            }
                        }
                    }
                    self.lemma_extended(&before, value@, code);
                }
                code
            },
        }
    }

    /// One more row that is no null: the rows before it stay what they were.
    proof fn lemma_extended(&self, before: &Self, value: Seq<char>, code: u32)
        requires
            before.well_formed(),
            self.null_positions@ == before.null_positions@,
            self.codes@ == before.codes@.push(code),
            code < self.strings().len(),
            self.strings()[code as int] == value,
            before.strings().len() <= self.strings().len(),
            forall|i: int| #![trigger self.strings()[i]]
                0 <= i < before.strings().len() ==> self.strings()[i] == before.strings()[i],
        ensures
            self.rows() == before.rows().push(Some(value)),
            first_appearances(self.rows()) == if before.strings().contains(value) {
                before.strings()
            } else {
                before.strings().push(value)
            },
            forall|i: int| #![trigger self.codes@[i]]
                0 <= i < self.codes@.len() ==> if self.null_at(i) {
                    self.codes@[i] == 0
                } else {
                    self.codes@[i] < self.strings().len()
                },
    {
        let n = before.codes@.len() as int;
        assert(!self.null_at(n));
        assert forall|i: int| 0 <= i < n implies self.null_at(i) == before.null_at(i) by {}
        assert forall|i: int| #![trigger self.codes@[i]] 0 <= i < self.codes@.len() implies (
        if self.null_at(i) {
            self.codes@[i] == 0
        } else {
            self.codes@[i] < self.strings().len()
        }) by {
            if i < n {
                assert(self.codes@[i] == before.codes@[i]);
            }
        }
        assert(self.rows() =~= before.rows().push(Some(value))) by {
            assert forall|i: int| 0 <= i < n implies self.rows()[i] == before.rows()[i] by {
                assert(self.codes@[i] == before.codes@[i]);
            }
        }
        lemma_first_appearances_push(before.rows(), Some(value));
    }

    /// Adds a row that is null. Its code is a placeholder.
    pub fn add_null(&mut self)
        requires
            old(self).well_formed(),
        ensures
            final(self).well_formed(),
            final(self).strings() == old(self).strings(),
            final(self).code_words() == old(self).code_words().push(0),
            final(self).rows() == old(self).rows().push(None),
    {
        let ghost before = *self;
        let idx: usize = self.codes.len();
        self.null_positions.push(idx);
        self.codes.push(0);
        proof {
            let n = before.codes@.len() as int;
            let last = before.null_positions@.len() as int;
            assert(self.null_positions@[last] == n);
            assert(self.null_at(n));
            assert forall|i: int| 0 <= i < n implies self.null_at(i) == before.null_at(i) by {
                if before.null_at(i) {
                    let k = choose|k: int| #![trigger before.null_positions@[k]]
                        0 <= k < before.null_positions@.len() && before.null_positions@[k] == i;
                    assert(self.null_positions@[k] == i);
                }
                if self.null_at(i) {
                    let k = choose|k: int| #![trigger self.null_positions@[k]]
                        0 <= k < self.null_positions@.len() && self.null_positions@[k] == i;
                    assert(before.null_positions@[k] == i);
                }
            }
            assert forall|i: int| #![trigger self.codes@[i]] 0 <= i < self.codes@.len() implies (
            if self.null_at(i) {
                self.codes@[i] == 0
            } else {
                self.codes@[i] < self.strings().len()
            }) by {
                if i < n {
                    assert(self.codes@[i] == before.codes@[i]);
                }
            }
            assert(self.rows() =~= before.rows().push(None)) by {
                assert forall|i: int| 0 <= i < n implies self.rows()[i] == before.rows()[i] by {
                    assert(self.codes@[i] == before.codes@[i]);
                }
            }
            lemma_first_appearances_push(before.rows(), None);
        }
    }

    /// Adds a row that is a string or a null, and returns the code of a string.
    pub fn add_optional(&mut self, value: Option<&str>) -> (r: Option<u32>)
        requires
            old(self).well_formed(),
            value matches Some(v) ==> old(self).strings().contains(v@) || old(self).strings().len()
                <= u32::MAX,
        ensures
            final(self).well_formed(),
            match value {
                Some(v) => {
                    &&& r matches Some(code)
                    &&& code < final(self).strings().len()
                    &&& final(self).strings()[code as int] == v@
                    &&& final(self).strings() == if old(self).strings().contains(v@) {
                        old(self).strings()
                    } else {
                        old(self).strings().push(v@)
                    }
                    &&& final(self).code_words() == old(self).code_words().push(code)
                    &&& final(self).rows() == old(self).rows().push(Some(v@))
                },
                None => {
                    &&& r is None
                    &&& final(self).strings() == old(self).strings()
                    &&& final(self).code_words() == old(self).code_words().push(0)
                    &&& final(self).rows() == old(self).rows().push(None)
                },
            },
    {
        match value {
            Some(v) => Some(self.add(v)),
            None => {
                self.add_null();
                None
            },
        }
    }

    /// The number of rows.
    pub fn len(&self) -> (r: usize)
        ensures
            r == self.rows().len(),
    {
        self.codes.len()
    }

    /// Whether there are no rows.
    pub fn is_empty(&self) -> (r: bool)
        ensures
            r == (self.rows().len() == 0),
    {
        self.codes.is_empty()
    }

    /// The number of distinct strings.
    pub fn dictionary_size(&self) -> (r: usize)
        ensures
            r == self.strings().len(),
    {
        self.dictionary.len()
    }

    /// Makes the encoding. It has a null bitmap only where there is a null.
    pub fn build(self) -> (r: DictionaryEncoding)
        requires
            self.well_formed(),
        ensures
            r.strings() == self.strings(),
            r.strings() == first_appearances(self.rows()),
            r.code_words() == self.code_words(),
            r.count() == self.rows().len(),
            r.codes_inline(),
            r.null_words() is Some <==> exists|i: int| #[trigger] self.null_at(i),
            r.null_words() matches Some(words) ==> r.nulls_inline() && words.len() == (
            self.rows().len() + 63) / 64,
            forall|i: int| 0 <= i ==> #[trigger] r.null_at(i) == self.null_at(i),
            r.null_words() is Some <==> self.rows().contains(None),
            forall|i: int|
                0 <= i ==> #[trigger] r.null_at(i) == (i < self.rows().len() && self.rows()[i]
                    is None),
            forall|i: int|
                0 <= i < self.rows().len() ==> #[trigger] r.value_at(i) == self.rows()[i],
    {
        let ghost me = self;
        if self.null_positions.is_empty() {
            let r = DictionaryEncoding::new(arc_slice(self.dictionary), self.codes);
            return r;
        }
        assert(self.null_positions@[0] == self.null_positions@[0] as int);
        assert(self.null_at(self.null_positions@[0] as int));
        assert(self.rows()[self.null_positions@[0] as int] is None);
        let num_words: usize = self.codes.len() / 64 + (if self.codes.len() % 64 == 0 {
            0
        } else {
            1
        });
        let mut bitmap: Vec<u64> = vec![0u64; num_words];
        let mut k: usize = 0;
        proof {
            lemma_zero_bits();
        }
        while k < self.null_positions.len()
            invariant
                me == self,
                k <= self.null_positions@.len(),
                self.well_formed(),
                bitmap@.len() == num_words == (self.codes@.len() + 63) / 64,
                forall|i: int|
                    0 <= i ==> #[trigger] bit_set(bitmap@, i) == exists|j: int| #![trigger
                        self.null_positions@[j]]
                        0 <= j < k && self.null_positions@[j] == i,
            decreases self.null_positions.len() - k,
        {
            let pos: usize = self.null_positions[k];
            let word_idx: usize = pos / 64;
            let bit_idx: usize = pos % 64;
            let ghost before = bitmap@;
            let word: u64 = bitmap[word_idx] | (1u64 << (bit_idx as u64));
            bitmap.set(word_idx, word);
            proof {
                lemma_set_bit(before[word_idx as int], bit_idx as u64);
                assert forall|i: int| 0 <= i implies #[trigger] bit_set(bitmap@, i) == exists|
                    j: int,
                | #![trigger self.null_positions@[j]]
                    0 <= j < k + 1 && self.null_positions@[j] == i by {
                    let old_set = bit_set(before, i);
                    if i == pos {
                        assert(self.null_positions@[k as int] == i);
                        assert(bit_set(bitmap@, i));
                    } else {
                        if i / 64 == word_idx {
                            assert(((i % 64) as u64) != bit_idx as u64);
                        }
                        assert(bit_set(bitmap@, i) == old_set);
                    }
                    if old_set {
                        let j = choose|j: int| #![trigger self.null_positions@[j]]
                            0 <= j < k && self.null_positions@[j] == i;
                        assert(self.null_positions@[j] == i);
                    }
                }
            }
            k = k + 1;
        }
        let encoding = DictionaryEncoding::new(arc_slice(self.dictionary), self.codes);
        let r = encoding.with_nulls(bitmap);
        proof {
            assert forall|i: int| 0 <= i implies #[trigger] r.null_at(i) == me.null_at(i) by {
                assert(r.null_at(i) == bit_set(bitmap@, i));
            }
        }
        r
    }

    /// Empties the builder for reuse.
    pub fn clear(&mut self)
        ensures
            final(self).well_formed(),
            final(self).strings() == Seq::<Seq<char>>::empty(),
            final(self).code_words() == Seq::<u32>::empty(),
            final(self).rows() == Seq::<Option<Seq<char>>>::empty(),
            forall|i: int| !(#[trigger] final(self).null_at(i)),
    {
        self.string_to_code.clear();
        self.dictionary.clear();
        self.codes.clear();
        self.null_positions.clear();
        proof {
            assert(self.strings() =~= Seq::<Seq<char>>::empty());
            assert(self.rows() =~= Seq::<Option<Seq<char>>>::empty());
        }
    }
}

impl Default for DictionaryBuilder {
    fn default() -> (r: Self)
        ensures
            r.well_formed(),
            r.rows() == Seq::<Option<Seq<char>>>::empty(),
            forall|i: int| !(#[trigger] r.null_at(i)),
            r.strings() == Seq::<Seq<char>>::empty(),
    {
        Self::new()
    }
}

/// In a dictionary without repetitions, the code that a row has is the code that
/// its string encodes to.
pub proof fn law_encode_inverts_get(strings: Seq<Seq<char>>, code: u32)
    requires
        all_distinct(strings),
        code < strings.len(),
    ensures
        is_first_position(strings, strings[code as int], code as int),
        forall|i: int| #![trigger strings[i]]
            is_first_position(strings, strings[code as int], i) ==> i == code,
{
}

/// Codes kept in memory and the same codes kept as bytes give the same rows.
pub proof fn law_code_storage_is_transparent(
    strings: Seq<Seq<char>>,
    codes: Seq<u32>,
    nulls: Option<Seq<u64>>,
    i: int,
)
    ensures
        row_value(strings, u32s_of(le_u32s(codes)), nulls, i) == row_value(
            strings,
            codes,
            nulls,
            i,
        ),
{
    lemma_u32s_round_trip(codes);
}

/// Values that can be encoded as a whole.
pub trait IntoDictionaryEncoding: Sized {
    /// The rows that the values stand for.
    spec fn row_texts(self) -> Seq<Seq<char>>;

    /// Encodes the values in order. There must be a code for each distinct string.
    fn into_dictionary_encoding(self) -> (r: DictionaryEncoding)
        requires
            first_appearances(as_rows(self.row_texts())).len() <= u32::MAX + 1,
        ensures
            r.strings() == first_appearances(as_rows(self.row_texts())),
            r.count() == self.row_texts().len(),
            r.codes_inline(),
            r.null_words() is None,
            forall|i: int| #![trigger r.value_at(i)]
                0 <= i < self.row_texts().len() ==> r.value_at(i) == Some(self.row_texts()[i]),
    ;
}

impl<'a> IntoDictionaryEncoding for Vec<&'a str> {
    open spec fn row_texts(self) -> Seq<Seq<char>> {
        self@.map_values(|s: &'a str| s@)
    }

    fn into_dictionary_encoding(self) -> (r: DictionaryEncoding) {
        encode_all(self.as_slice())
    }
}

impl<'a, const N: usize> IntoDictionaryEncoding for [&'a str; N] {
    open spec fn row_texts(self) -> Seq<Seq<char>> {
        self@.map_values(|s: &'a str| s@)
    }

    fn into_dictionary_encoding(self) -> (r: DictionaryEncoding) {
        encode_all(self.as_slice())
    }
}

/// The first appearances of a part are among those of the whole.
proof fn lemma_first_appearances_of_prefix(rows: Seq<Option<Seq<char>>>, n: int)
    requires
        0 <= n <= rows.len(),
    ensures
        first_appearances(rows.take(n)).len() <= first_appearances(rows).len(),
    decreases rows.len() - n,
{
    if n < rows.len() {
        lemma_first_appearances_of_prefix(rows, n + 1);
        assert(rows.take(n + 1).drop_last() =~= rows.take(n));
    } else {
        assert(rows.take(n) =~= rows);
    }
}

/// Encodes strings in order.
fn encode_all(values: &[&str]) -> (r: DictionaryEncoding)
    requires
        first_appearances(as_rows(values@.map_values(|s: &str| s@))).len() <= u32::MAX + 1,
    ensures
        r.strings() == first_appearances(as_rows(values@.map_values(|s: &str| s@))),
        r.count() == values@.len(),
        r.codes_inline(),
        r.null_words() is None,
        forall|i: int| #![trigger r.value_at(i)]
            0 <= i < values@.len() ==> r.value_at(i) == Some(values@[i]@),
{
    let mut builder = DictionaryBuilder::new();
    let mut i: usize = 0;
    let ghost rows = as_rows(values@.map_values(|s: &str| s@));
    assert(rows.take(0) =~= builder.rows());
    while i < values.len()
        invariant
            i <= values@.len(),
            rows == as_rows(values@.map_values(|s: &str| s@)),
            first_appearances(rows).len() <= u32::MAX + 1,
            builder.well_formed(),
            builder.rows() == rows.take(i as int),
        decreases values.len() - i,
    {
        proof {
            assert(rows.take(i + 1) =~= rows.take(i as int).push(Some(values@[i as int]@)));
            lemma_first_appearances_push(rows.take(i as int), Some(values@[i as int]@));
            lemma_first_appearances_of_prefix(rows, i + 1);
        }
        builder.add(values[i]);
        i = i + 1;
    }
    proof {
        assert(rows.take(i as int) =~= rows);
        if rows.contains(None) {
            let k = choose|k: int| 0 <= k < rows.len() && rows[k] is None;
            assert(rows[k] is Some);
        }
    }
    builder.build()
}

} // verus!
