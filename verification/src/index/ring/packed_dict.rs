//! The packed form of a dictionary of RDF terms.
//!
//! ```text
//! header (16 bytes):
//!     0..4    magic "PDCT"
//!     4       version, 1
//!     5..8    zero
//!     8..16   number of terms, as eight little-endian bytes
//! terms, in the order of their ids:
//!     kind, one byte
//!     length of the text, as eight little-endian bytes, and the text in UTF-8
//!     length of the language or datatype, as eight little-endian bytes, and the
//!         language or datatype in UTF-8
//! ```

use bytes::Bytes;
use vstd::prelude::*;
use vstd::string::StringExecFns;
use vstd::utf8::{decode_utf8, encode_utf8, valid_utf8};

use crate::graph::rdf::dictionary::TermDictionary;
use crate::graph::rdf::term::is_term;
use crate::graph::rdf::term::Term;
use crate::le::{
    le_bytes, le_value, lemma_first_four, lemma_le_bytes_len, lemma_le_value_of_bytes,
    lemma_pow256,
};
use crate::le::{push_u64_le, read_u64_le};
use crate::text::decimal;
use crate::text::push_decimal;
use crate::trusted::buffer::bytes_as_slice;
use crate::trusted::buffer::bytes_content;
use crate::trusted::text::str_from_utf8;

verus! {

/// The length of the header.
pub const HEADER_SIZE: usize = 16;

/// Why a packed dictionary cannot be read.
#[derive(Debug, Clone, Copy, PartialEq, Eq, Structural)]
pub enum PackedDictError {
    /// The bytes end before the header does.
    TruncatedHeader,
    /// The magic is not "PDCT".
    BadMagic,
    /// The version is not known.
    UnsupportedVersion(u8),
    /// There are more terms than ids.
    TooManyTerms(u64),
    /// The bytes end inside a term.
    Truncated {
        /// The id of the term.
        term: u32,
    },
    /// A text is not UTF-8.
    InvalidUtf8 {
        /// The id of the term.
        term: u32,
    },
    /// A kind is unknown, or does not go with a language or datatype.
    InvalidTerm {
        /// The id of the term.
        term: u32,
    },
    /// A term occurs twice.
    DuplicateTerm {
        /// The id of the later one.
        term: u32,
    },
}

/// The text of an error.
pub open spec fn dict_error_text(e: PackedDictError) -> Seq<char> {
    match e {
        PackedDictError::TruncatedHeader => "packed dictionary header truncated"@,
        PackedDictError::BadMagic => "packed dictionary bad magic (expected 'PDCT')"@,
        PackedDictError::UnsupportedVersion(v) => "packed dictionary unsupported version "@
            + decimal(v as nat),
        PackedDictError::TooManyTerms(n) => "packed dictionary has too many terms: "@ + decimal(
            n as nat,
        ),
        PackedDictError::Truncated { term } => "packed dictionary truncated in term "@ + decimal(
            term as nat,
        ),
        PackedDictError::InvalidUtf8 { term } => "packed dictionary invalid UTF-8 in term "@
            + decimal(term as nat),
        PackedDictError::InvalidTerm { term } => "packed dictionary invalid term "@ + decimal(
            term as nat,
        ),
        PackedDictError::DuplicateTerm { term } => "packed dictionary duplicate term "@ + decimal(
            term as nat,
        ),
    }
}

impl PackedDictError {
    /// Appends the text of the error.
    pub fn push_text(&self, out: &mut String)
        ensures
            final(out)@ == old(out)@ + dict_error_text(*self),
    {
        match self {
            PackedDictError::TruncatedHeader => out.append("packed dictionary header truncated"),
            PackedDictError::BadMagic => out.append(
                "packed dictionary bad magic (expected 'PDCT')",
            ),
            PackedDictError::UnsupportedVersion(v) => {
                out.append("packed dictionary unsupported version ");
                push_decimal(out, *v as u64);
            },
            PackedDictError::TooManyTerms(n) => {
                out.append("packed dictionary has too many terms: ");
                push_decimal(out, *n);
            },
            PackedDictError::Truncated { term } => {
                out.append("packed dictionary truncated in term ");
                push_decimal(out, *term as u64);
            },
            PackedDictError::InvalidUtf8 { term } => {
                out.append("packed dictionary invalid UTF-8 in term ");
                push_decimal(out, *term as u64);
            },
            PackedDictError::InvalidTerm { term } => {
                out.append("packed dictionary invalid term ");
                push_decimal(out, *term as u64);
            },
            PackedDictError::DuplicateTerm { term } => {
                out.append("packed dictionary duplicate term ");
                push_decimal(out, *term as u64);
            },
        }
        assert(out@ =~= old(out)@ + dict_error_text(*self));
    }
}

/// The first eight bytes: magic, version and zeros.
pub open spec fn dict_magic() -> Seq<u8> {
    seq![0x50u8, 0x44u8, 0x43u8, 0x54u8, 1u8, 0u8, 0u8, 0u8]
}

/// The packed form of a text.
pub open spec fn text_block(text: Seq<char>) -> Seq<u8> {
    le_bytes(encode_utf8(text).len(), 8) + encode_utf8(text)
}

/// The packed form of a term.
pub open spec fn term_block(term: (u8, Seq<char>, Seq<char>)) -> Seq<u8> {
    seq![term.0] + text_block(term.1) + text_block(term.2)
}

/// The packed form of terms.
pub open spec fn term_blocks(terms: Seq<(u8, Seq<char>, Seq<char>)>) -> Seq<u8>
    decreases terms.len(),
{
    if terms.len() == 0 {
        Seq::empty()
    } else {
        term_blocks(terms.drop_last()) + term_block(terms.last())
    }
}

/// The packed form of a dictionary.
pub open spec fn packed_dict(terms: Seq<(u8, Seq<char>, Seq<char>)>) -> Seq<u8> {
    dict_magic() + le_bytes(terms.len(), 8) + term_blocks(terms)
}

/// The text that begins at `cursor`, and where it ends.
pub open spec fn text_at(data: Seq<u8>, cursor: int, term: u32) -> Result<
    (Seq<char>, int),
    PackedDictError,
> {
    let size = le_value(data.subrange(cursor, cursor + 8)) as int;
    let start = cursor + 8;
    if start > data.len() || start + size > data.len() {
        Err(PackedDictError::Truncated { term })
    } else if !valid_utf8(data.subrange(start, start + size)) {
        Err(PackedDictError::InvalidUtf8 { term })
    } else {
        Ok((decode_utf8(data.subrange(start, start + size)), start + size))
    }
}

/// The term that begins at `cursor`, and where it ends.
pub open spec fn term_at(data: Seq<u8>, cursor: int, term: u32) -> Result<
    ((u8, Seq<char>, Seq<char>), int),
    PackedDictError,
> {
    if cursor >= data.len() {
        Err(PackedDictError::Truncated { term })
    } else {
        match text_at(data, cursor + 1, term) {
            Err(e) => Err(e),
            Ok((text, middle)) => match text_at(data, middle, term) {
                Err(e) => Err(e),
                Ok((extra, end)) => if is_term((data[cursor], text, extra)) {
                    Ok(((data[cursor], text, extra), end))
                } else {
                    Err(PackedDictError::InvalidTerm { term })
                },
            },
        }
    }
}

/// The first `k` terms, and where they end.
pub open spec fn terms_at(data: Seq<u8>, start: int, k: nat) -> Result<
    (Seq<(u8, Seq<char>, Seq<char>)>, int),
    PackedDictError,
>
    decreases k,
{
    if k == 0 {
        Ok((Seq::empty(), start))
    } else {
        let id = (k - 1) as u32;
        match terms_at(data, start, (k - 1) as nat) {
            Err(e) => Err(e),
            Ok((terms, cursor)) => match term_at(data, cursor, id) {
                Err(e) => Err(e),
                Ok((term, end)) => if terms.contains(term) {
                    Err(PackedDictError::DuplicateTerm { term: id })
                } else {
                    Ok((terms.push(term), end))
                },
            },
        }
    }
}

/// What a packed dictionary says: its terms by id, or why it cannot be read.
pub open spec fn dict_parsed(data: Seq<u8>) -> Result<
    Seq<(u8, Seq<char>, Seq<char>)>,
    PackedDictError,
> {
    let count = le_value(data.subrange(8, 16));
    if data.len() < HEADER_SIZE {
        Err(PackedDictError::TruncatedHeader)
    } else if data.subrange(0, 4) != dict_magic().subrange(0, 4) {
        Err(PackedDictError::BadMagic)
    } else if data[4] != 1 {
        Err(PackedDictError::UnsupportedVersion(data[4]))
    } else if count > u32::MAX {
        Err(PackedDictError::TooManyTerms(count as u64))
    } else {
        match terms_at(data, 16, count) {
            Err(e) => Err(e),
            Ok((terms, end)) => Ok(terms),
        }
    }
}

/// The packed form of a text reads as the text.
proof fn lemma_text_reads(data: Seq<u8>, cursor: int, term: u32, text: Seq<char>)
    requires
        data.len() <= usize::MAX,
        0 <= cursor,
        cursor + text_block(text).len() <= data.len(),
        data.subrange(cursor, cursor + text_block(text).len()) == text_block(text),
    ensures
        text_at(data, cursor, term) == Ok::<(Seq<char>, int), PackedDictError>(
            (text, cursor + text_block(text).len()),
        ),
{
    let bytes = encode_utf8(text);
    let block = text_block(text);
    lemma_le_bytes_len(bytes.len(), 8);
    lemma_pow256();
    lemma_le_value_of_bytes(bytes.len(), 8);
    let piece = data.subrange(cursor, cursor + block.len());
    assert(data.subrange(cursor, cursor + 8) =~= piece.subrange(0, 8));
    assert(block.subrange(0, 8) =~= le_bytes(bytes.len(), 8));
    assert(data.subrange(cursor + 8, cursor + 8 + bytes.len()) =~= piece.subrange(
        8,
        block.len() as int,
    ));
    assert(block.subrange(8, block.len() as int) =~= bytes);
    vstd::utf8::encode_utf8_valid_utf8(text);
    vstd::utf8::encode_utf8_decode_utf8(text);
}

/// The packed form of a term reads as the term.
proof fn lemma_term_reads(
    data: Seq<u8>,
    cursor: int,
    id: u32,
    term: (u8, Seq<char>, Seq<char>),
)
    requires
        data.len() <= usize::MAX,
        0 <= cursor,
        cursor + term_block(term).len() <= data.len(),
        data.subrange(cursor, cursor + term_block(term).len()) == term_block(term),
        is_term(term),
    ensures
        term_at(data, cursor, id) == Ok::<((u8, Seq<char>, Seq<char>), int), PackedDictError>(
            (term, cursor + term_block(term).len()),
        ),
{
    let block = term_block(term);
    let first = text_block(term.1);
    let second = text_block(term.2);
    let piece = data.subrange(cursor, cursor + block.len());
    assert(data[cursor] == piece[0]);
    let middle = cursor + 1 + first.len();
    assert(data.subrange(cursor + 1, middle) =~= piece.subrange(1, 1 + first.len() as int));
    assert(block.subrange(1, 1 + first.len() as int) =~= first);
    lemma_text_reads(data, cursor + 1, id, term.1);
    assert(data.subrange(middle, middle + second.len()) =~= piece.subrange(
        1 + first.len() as int,
        block.len() as int,
    ));
    assert(block.subrange(1 + first.len() as int, block.len() as int) =~= second);
    lemma_text_reads(data, middle, id, term.2);
}

proof fn lemma_term_blocks_prefix(terms: Seq<(u8, Seq<char>, Seq<char>)>, k: int)
    requires
        0 <= k <= terms.len(),
    ensures
        term_blocks(terms.take(k)).len() <= term_blocks(terms).len(),
        term_blocks(terms).subrange(0, term_blocks(terms.take(k)).len() as int) == term_blocks(
            terms.take(k),
        ),
    decreases terms.len(),
{
    if k == terms.len() {
        assert(terms.take(k) =~= terms);
        assert(term_blocks(terms).subrange(0, term_blocks(terms).len() as int) =~= term_blocks(
            terms,
        ));
    } else {
        let shorter = terms.drop_last();
        lemma_term_blocks_prefix(shorter, k);
        assert(shorter.take(k) =~= terms.take(k));
        let n = term_blocks(terms.take(k)).len() as int;
        assert(term_blocks(terms).subrange(0, n) =~= term_blocks(shorter).subrange(0, n));
    }
}

proof fn lemma_terms_round_trip(
    data: Seq<u8>,
    before: Seq<u8>,
    terms: Seq<(u8, Seq<char>, Seq<char>)>,
    k: nat,
)
    requires
        data == before + term_blocks(terms),
        data.len() <= usize::MAX,
        k <= terms.len(),
        forall|i: int| #![trigger terms[i]] 0 <= i < terms.len() ==> is_term(terms[i]),
        terms.no_duplicates(),
    ensures
        terms_at(data, before.len() as int, k) == Ok::<
            (Seq<(u8, Seq<char>, Seq<char>)>, int),
            PackedDictError,
        >(
            (
                terms.take(k as int),
                (before.len() + term_blocks(terms.take(k as int)).len()) as int,
            ),
        ),
    decreases k,
{
    if k == 0 {
        assert(terms.take(0) =~= Seq::<(u8, Seq<char>, Seq<char>)>::empty());
    } else {
        let j = k - 1;
        lemma_terms_round_trip(data, before, terms, j as nat);
        lemma_term_blocks_prefix(terms, k as int);
        let term = terms[j];
        let done = term_blocks(terms.take(j));
        let cursor = (before.len() + done.len()) as int;
        let block = term_block(term);
        assert(terms.take(k as int).drop_last() =~= terms.take(j));
        assert(terms.take(k as int).last() == term);
        assert(term_blocks(terms.take(k as int)) == done + block);
        let all = term_blocks(terms);
        assert(cursor + block.len() <= data.len());
        assert(data.subrange(cursor, cursor + block.len()) =~= block) by {
            assert forall|i: int| 0 <= i < block.len() implies data[cursor + i] == block[i] by {
                assert(all.subrange(0, (done + block).len() as int)[done.len() + i]
                    == all[done.len() + i]);
            }
        }
        lemma_term_reads(data, cursor, j as u32, term);
        assert(!terms.take(j).contains(term)) by {
            if terms.take(j).contains(term) {
                let i = terms.take(j).index_of(term);
                assert(terms[i] == terms[j]);
            }
        }
        assert(terms.take(k as int) =~= terms.take(j).push(term));
    }
}

/// Reading the packed form of a dictionary gives its terms back, with their ids.
pub proof fn law_dict_round_trip(terms: Seq<(u8, Seq<char>, Seq<char>)>)
    requires
        forall|i: int| #![trigger terms[i]] 0 <= i < terms.len() ==> is_term(terms[i]),
        terms.no_duplicates(),
        terms.len() <= u32::MAX,
        packed_dict(terms).len() <= usize::MAX,
    ensures
        dict_parsed(packed_dict(terms)) == Ok::<
            Seq<(u8, Seq<char>, Seq<char>)>,
            PackedDictError,
        >(terms),
{
    let data = packed_dict(terms);
    let n = terms.len();
    lemma_le_bytes_len(n, 8);
    lemma_pow256();
    lemma_le_value_of_bytes(n, 8);
    let before = dict_magic() + le_bytes(n, 8);
    assert(before.len() == 16);
    assert(data.subrange(0, 4) =~= dict_magic().subrange(0, 4));
    assert(data.subrange(8, 16) =~= le_bytes(n, 8));
    lemma_terms_round_trip(data, before, terms, n);
    assert(terms.take(n as int) =~= terms);
}

/// The layout of a packed dictionary: "PDCT", the version one and three zeros, the number
/// of terms in eight bytes, and the terms.
pub proof fn law_layout_of_dictionaries(terms: Seq<(u8, Seq<char>, Seq<char>)>)
    ensures
        packed_dict(terms).subrange(0, 8) == seq![
            'P' as u8,
            'D' as u8,
            'C' as u8,
            'T' as u8,
            1u8,
            0u8,
            0u8,
            0u8,
        ],
        packed_dict(terms).subrange(8, 16) == le_bytes(terms.len(), 8),
        packed_dict(terms).skip(16) == term_blocks(terms),
{
    lemma_le_bytes_len(terms.len(), 8);
    assert(packed_dict(terms).subrange(0, 8) =~= dict_magic());
    assert(packed_dict(terms).subrange(8, 16) =~= le_bytes(terms.len(), 8));
    assert(packed_dict(terms).skip(16) =~= term_blocks(terms));
}

/// Terms stand one after the other: the kind in one byte, then the text and then the
/// language or datatype, each with its length in eight bytes before it.
pub proof fn law_layout_of_terms(
    terms: Seq<(u8, Seq<char>, Seq<char>)>,
    kind: u8,
    text: Seq<char>,
    extra: Seq<char>,
)
    ensures
        term_blocks(Seq::empty()) == Seq::<u8>::empty(),
        term_blocks(terms.push((kind, text, extra))) == term_blocks(terms) + (seq![kind] + (
        le_bytes(encode_utf8(text).len(), 8) + encode_utf8(text)) + (le_bytes(
            encode_utf8(extra).len(),
            8,
        ) + encode_utf8(extra))),
{
    assert(terms.push((kind, text, extra)).drop_last() =~= terms);
}

/// Why bytes are no packed dictionary.
pub proof fn law_why_dictionaries_are_rejected(data: Seq<u8>)
    ensures
        data.len() < 16 ==> dict_parsed(data) == Err::<
            Seq<(u8, Seq<char>, Seq<char>)>,
            PackedDictError,
        >(PackedDictError::TruncatedHeader),
        data.len() >= 16 && !(data[0] == 'P' as u8 && data[1] == 'D' as u8 && data[2] == 'C' as u8
            && data[3] == 'T' as u8) ==> dict_parsed(data) == Err::<
            Seq<(u8, Seq<char>, Seq<char>)>,
            PackedDictError,
        >(PackedDictError::BadMagic),
        data.len() >= 16 && data[0] == 'P' as u8 && data[1] == 'D' as u8 && data[2] == 'C' as u8
            && data[3] == 'T' as u8 && data[4] != 1 ==> dict_parsed(data) == Err::<
            Seq<(u8, Seq<char>, Seq<char>)>,
            PackedDictError,
        >(PackedDictError::UnsupportedVersion(data[4])),
        data.len() >= 16 && data[0] == 'P' as u8 && data[1] == 'D' as u8 && data[2] == 'C' as u8
            && data[3] == 'T' as u8 && data[4] == 1 && le_value(data.subrange(8, 16)) > 0xffff_ffff
            ==> dict_parsed(data) == Err::<Seq<(u8, Seq<char>, Seq<char>)>, PackedDictError>(
            PackedDictError::TooManyTerms(le_value(data.subrange(8, 16)) as u64),
        ),
{
    if data.len() >= 16 {
        lemma_first_four(data, dict_magic());
    }
}

/// Why bytes are no term of a dictionary: they end inside it, a text is not UTF-8, or
/// there is no such term.
pub proof fn law_why_terms_are_rejected(data: Seq<u8>, cursor: int, term: u32)
    requires
        0 <= cursor,
    ensures
        cursor >= data.len() ==> term_at(data, cursor, term) == Err::<
            ((u8, Seq<char>, Seq<char>), int),
            PackedDictError,
        >(PackedDictError::Truncated { term }),
        cursor < data.len() && text_at(data, cursor + 1, term) is Err ==> term_at(
            data,
            cursor,
            term,
        ) is Err && term_at(data, cursor, term)->Err_0 == text_at(data, cursor + 1, term)->Err_0,
        cursor + 8 > data.len() ==> text_at(data, cursor, term) == Err::<
            (Seq<char>, int),
            PackedDictError,
        >(PackedDictError::Truncated { term }),
        cursor + 8 <= data.len() < cursor + 8 + le_value(data.subrange(cursor, cursor + 8))
            ==> text_at(data, cursor, term) == Err::<(Seq<char>, int), PackedDictError>(
            PackedDictError::Truncated { term },
        ),
        cursor + 8 + le_value(data.subrange(cursor, cursor + 8)) <= data.len() && !valid_utf8(
            data.subrange(
                cursor + 8,
                cursor + 8 + le_value(data.subrange(cursor, cursor + 8)),
            ),
        ) ==> text_at(data, cursor, term) == Err::<(Seq<char>, int), PackedDictError>(
            PackedDictError::InvalidUtf8 { term },
        ),
        term_at(data, cursor, term) is Ok ==> is_term(term_at(data, cursor, term)->Ok_0.0)
            && term_at(data, cursor, term)->Ok_0.0.0 == data[cursor],
{
}

/// The terms that are read are terms, and none occurs twice.
pub proof fn law_read_terms_are_distinct(data: Seq<u8>, start: int, k: nat)
    requires
        k <= u32::MAX,
    ensures
        terms_at(data, start, k) is Ok ==> terms_at(data, start, k)->Ok_0.0.len() == k && terms_at(
            data,
            start,
            k,
        )->Ok_0.0.no_duplicates() && forall|i: int|
            0 <= i < k ==> is_term(#[trigger] terms_at(data, start, k)->Ok_0.0[i]),
    decreases k,
{
    if k > 0 {
        law_read_terms_are_distinct(data, start, (k - 1) as nat);
    }
}

/// The texts of errors.
pub proof fn law_texts_of_dictionary_errors(v: u8, n: u64, term: u32)
    ensures
        dict_error_text(PackedDictError::TruncatedHeader) == "packed dictionary header truncated"@,
        dict_error_text(PackedDictError::BadMagic)
            == "packed dictionary bad magic (expected 'PDCT')"@,
        dict_error_text(PackedDictError::UnsupportedVersion(v))
            == "packed dictionary unsupported version "@ + decimal(v as nat),
        dict_error_text(PackedDictError::TooManyTerms(n))
            == "packed dictionary has too many terms: "@ + decimal(n as nat),
        dict_error_text(PackedDictError::Truncated { term })
            == "packed dictionary truncated in term "@ + decimal(term as nat),
        dict_error_text(PackedDictError::InvalidUtf8 { term })
            == "packed dictionary invalid UTF-8 in term "@ + decimal(term as nat),
        dict_error_text(PackedDictError::InvalidTerm { term })
            == "packed dictionary invalid term "@ + decimal(term as nat),
        dict_error_text(PackedDictError::DuplicateTerm { term })
            == "packed dictionary duplicate term "@ + decimal(term as nat),
{
}

/// The first eight bytes of a packed dictionary.
fn push_magic(buf: &mut Vec<u8>)
    ensures
        final(buf)@ == old(buf)@ + dict_magic(),
{
    buf.push(0x50);
    buf.push(0x44);
    buf.push(0x43);
    buf.push(0x54);
    buf.push(1);
    buf.push(0);
    buf.push(0);
    buf.push(0);
    assert(buf@ =~= old(buf)@ + dict_magic());
}

/// Whether the bytes begin with the magic of a packed dictionary.
fn has_magic(data: &[u8]) -> (r: bool)
    requires
        data@.len() >= 4,
    ensures
        r == (data@.subrange(0, 4) == dict_magic().subrange(0, 4)),
{
    let r: bool = data[0] == 0x50 && data[1] == 0x44 && data[2] == 0x43 && data[3] == 0x54;
    proof {
        let want = dict_magic().subrange(0, 4);
        let got = data@.subrange(0, 4);
        assert(want[0] == 0x50 && want[1] == 0x44 && want[2] == 0x43 && want[3] == 0x54);
        assert(got[0] == data@[0] && got[1] == data@[1] && got[2] == data@[2] && got[3]
            == data@[3]);
        if r {
            assert(got =~= want);
        }
    }
    r
}

/// Appends the packed form of a text.
fn push_text(buf: &mut Vec<u8>, text: &str)
    ensures
        final(buf)@ == old(buf)@ + text_block(text@),
{
    let bytes: &[u8] = text.as_bytes();
    push_u64_le(buf, bytes.len() as u64);
    buf.extend_from_slice(bytes);
    assert(buf@ =~= old(buf)@ + text_block(text@));
}

/// Packs a dictionary.
#[must_use]
pub fn serialize_term_dictionary(dict: &TermDictionary) -> (r: Vec<u8>)
    ensures
        r@ == packed_dict(dict.terms()),
{
    let n: usize = dict.len();
    let ghost terms = dict.terms();
    let mut buf: Vec<u8> = Vec::new();
    push_magic(&mut buf);
    push_u64_le(&mut buf, n as u64);
    let ghost header = buf@;
    let mut i: usize = 0;
    assert(buf@ =~= header + term_blocks(terms.take(0)));
    while i < n
        invariant
            i <= n == terms.len(),
            n <= u32::MAX,
            terms == dict.terms(),
            buf@ == header + term_blocks(terms.take(i as int)),
        decreases n - i,
    {
        let ghost so_far = buf@;
        if let Some(term) = dict.get_term(i as u32) {
            let (kind, text, extra) = term.key();
            buf.push(kind);
            push_text(&mut buf, text.as_str());
            push_text(&mut buf, extra.as_str());
            proof {
                assert(buf@ =~= so_far + term_block(terms[i as int]));
                assert(terms.take(i + 1).drop_last() =~= terms.take(i as int));
                assert(buf@ =~= header + term_blocks(terms.take(i + 1)));
            }
        }
        i = i + 1;
    }
    assert(terms.take(n as int) =~= terms);
    buf
}

/// Reads a text.
fn read_text(bytes: &[u8], cursor: usize, term: u32) -> (r: Result<(&str, usize), PackedDictError>)
    requires
        cursor <= bytes@.len(),
    ensures
        match r {
            Ok((text, end)) => text_at(bytes@, cursor as int, term) == Ok::<
                (Seq<char>, int),
                PackedDictError,
            >((text@, end as int)) && end <= bytes@.len(),
            Err(e) => text_at(bytes@, cursor as int, term) == Err::<
                (Seq<char>, int),
                PackedDictError,
            >(e),
        },
{
    if bytes.len() - cursor < 8 {
        return Err(PackedDictError::Truncated { term });
    }
    let size: u64 = read_u64_le(bytes, cursor);
    let start: usize = cursor + 8;
    if ((bytes.len() - start) as u64) < size {
        return Err(PackedDictError::Truncated { term });
    }
    let end: usize = start + size as usize;
    let piece: &[u8] = vstd::slice::slice_subrange(bytes, start, end);
    match str_from_utf8(piece) {
        Some(text) => Ok((text, end)),
        None => Err(PackedDictError::InvalidUtf8 { term }),
    }
}

/// Reads a term.
fn read_term(bytes: &[u8], cursor: usize, id: u32) -> (r: Result<(Term, usize), PackedDictError>)
    requires
        cursor <= bytes@.len(),
    ensures
        match r {
            Ok((term, end)) => term_at(bytes@, cursor as int, id) == Ok::<
                ((u8, Seq<char>, Seq<char>), int),
                PackedDictError,
            >((term@, end as int)) && end <= bytes@.len(),
            Err(e) => term_at(bytes@, cursor as int, id) == Err::<
                ((u8, Seq<char>, Seq<char>), int),
                PackedDictError,
            >(e),
        },
{
    if cursor >= bytes.len() {
        return Err(PackedDictError::Truncated { term: id });
    }
    let kind: u8 = bytes[cursor];
    let (text, middle) = match read_text(bytes, cursor + 1, id) {
        Ok(found) => found,
        Err(e) => {
            return Err(e);
        },
    };
    let (extra, end) = match read_text(bytes, middle, id) {
        Ok(found) => found,
        Err(e) => {
            return Err(e);
        },
    };
    match Term::from_parts(kind, text, extra) {
        Some(term) => Ok((term, end)),
        None => Err(PackedDictError::InvalidTerm { term: id }),
    }
}

/// Reads a packed dictionary.
pub fn deserialize_term_dictionary(data: Bytes) -> (r: Result<TermDictionary, PackedDictError>)
    ensures
        match r {
            Ok(dict) => dict_parsed(bytes_content(data)) == Ok::<
                Seq<(u8, Seq<char>, Seq<char>)>,
                PackedDictError,
            >(dict.terms()),
            Err(e) => dict_parsed(bytes_content(data)) == Err::<
                Seq<(u8, Seq<char>, Seq<char>)>,
                PackedDictError,
            >(e),
        },
{
    let bytes: &[u8] = bytes_as_slice(&data);
    if bytes.len() < HEADER_SIZE {
        return Err(PackedDictError::TruncatedHeader);
    }
    if !has_magic(bytes) {
        return Err(PackedDictError::BadMagic);
    }
    let version: u8 = bytes[4];
    if version != 1 {
        return Err(PackedDictError::UnsupportedVersion(version));
    }
    let count: u64 = read_u64_le(bytes, 8);
    if count > u32::MAX as u64 {
        return Err(PackedDictError::TooManyTerms(count));
    }
    let mut dict: TermDictionary = TermDictionary::new();
    let mut cursor: usize = HEADER_SIZE;
    let mut id: u32 = 0;
    while (id as u64) < count
        invariant
            id <= count <= u32::MAX,
            bytes@ == bytes_content(data),
            cursor <= bytes@.len(),
            dict.terms().len() == id,
            terms_at(bytes@, 16, id as nat) == Ok::<
                (Seq<(u8, Seq<char>, Seq<char>)>, int),
                PackedDictError,
            >((dict.terms(), cursor as int)),
            dict_parsed(bytes@) == (match terms_at(bytes@, 16, count as nat) {
                Err(e) => Err::<Seq<(u8, Seq<char>, Seq<char>)>, PackedDictError>(e),
                Ok((terms, end)) => Ok(terms),
            }),
        decreases count - id,
    {
        match read_term(bytes, cursor, id) {
            Err(e) => {
                proof {
                    lemma_terms_fail(bytes@, 16, (id + 1) as nat, count as nat);
                }
                return Err(e);
            },
            Ok((term, end)) => {
                if dict.get_id(&term).is_some() {
                    proof {
                        assert(dict.terms().contains(term@));
                        lemma_terms_fail(bytes@, 16, (id + 1) as nat, count as nat);
                    }
                    return Err(PackedDictError::DuplicateTerm { term: id });
                }
                let _ = dict.get_or_insert(&term);
                cursor = end;
            },
        }
        id = id + 1;
    }
    Ok(dict)
}

proof fn lemma_terms_fail(data: Seq<u8>, start: int, k: nat, n: nat)
    requires
        terms_at(data, start, k) is Err,
        k <= n,
    ensures
        terms_at(data, start, n) == terms_at(data, start, k),
    decreases n,
{
    if k < n {
        lemma_terms_fail(data, start, k, (n - 1) as nat);
    }
}

} // verus!
