//! Bit-packing for small integers.
//!
//! If your largest value is 15, why use 64 bits per number? Bit-packing uses
//! only the bits that are needed: 4 bits for values up to 15, which makes the
//! column 16 times smaller.
//!
//! This works especially well after delta encoding sorted data, where the
//! deltas are often tiny even when the values are huge.

use bytes::{Bytes, BytesMut};
use vstd::arithmetic::div_mod::{
    lemma_div_denominator, lemma_div_is_ordered, lemma_fundamental_div_mod,
    lemma_fundamental_div_mod_converse, lemma_small_mod,
};
use vstd::arithmetic::power2::{lemma_pow2_adds, lemma_pow2_pos, pow2};
use vstd::bits::{
    low_bits_mask, lemma_low_bits_mask_values, lemma_u64_low_bits_mask_is_mod, lemma_u64_pow2_no_overflow,
    lemma_u64_shl_is_mul, lemma_u64_shr_is_div,
};
use vstd::prelude::*;
use vstd::string::StringExecFns;

use crate::le::{push_u32_le, push_u64_le, read_u32_le, read_u64_le};
use crate::le::{
    le_bytes, le_u64s, le_value, lemma_le_bytes_len, lemma_le_u64s_push, lemma_le_value_bound,
    lemma_le_value_of_bytes, lemma_pow256, lemma_u64s_round_trip, u64s_of,
};
use crate::text::decimal;
use crate::text::push_decimal;
use crate::trusted::buffer::{
    bytes_as_slice, bytes_copy_from_slice, bytes_mut_extend, bytes_mut_freeze, bytes_mut_new,
};
use crate::trusted::buffer::{bytes_content, bytes_mut_content};

verus! {

/// Why packed integers cannot be written or read.
#[derive(Debug, Clone, Copy, PartialEq, Eq, Structural)]
pub enum BitPackError {
    /// There are more values than a `u32` counts.
    CountTooLarge(usize),
    /// The bytes end before the header does.
    TooShort,
    /// The header names a width of more than 64 bits.
    WidthTooLarge(u8),
    /// The bytes end before the packed words do.
    Truncated,
}

/// The text of an error.
pub open spec fn pack_error_text(e: BitPackError) -> Seq<char> {
    match e {
        BitPackError::CountTooLarge(n) => "BitPackedInts count "@ + decimal(n as nat)
            + " exceeds u32::MAX, cannot serialize"@,
        BitPackError::TooShort => "BitPackedInts too short"@,
        BitPackError::WidthTooLarge(bits) => "BitPackedInts bits_per_value "@ + decimal(bits as nat)
            + " exceeds 64"@,
        BitPackError::Truncated => "BitPackedInts truncated"@,
    }
}

impl BitPackError {
    /// The text of the error.
    #[must_use]
    pub fn message(&self) -> (r: String)
        ensures
            r@ == pack_error_text(*self),
    {
        let mut out: String = String::new();
        match self {
            BitPackError::CountTooLarge(n) => {
                out.append("BitPackedInts count ");
                push_decimal(&mut out, *n as u64);
                out.append(" exceeds u32::MAX, cannot serialize");
            },
            BitPackError::TooShort => out.append("BitPackedInts too short"),
            BitPackError::WidthTooLarge(bits) => {
                out.append("BitPackedInts bits_per_value ");
                push_decimal(&mut out, *bits as u64);
                out.append(" exceeds 64");
            },
            BitPackError::Truncated => out.append("BitPackedInts truncated"),
        }
        assert(out@ =~= pack_error_text(*self));
        out
    }
}

/// The largest value of `bits` bits.
pub open spec fn mask(bits: int) -> u64 {
    if bits >= 64 {
        u64::MAX
    } else {
        ((1u64 << (bits as u64)) - 1) as u64
    }
}

/// How many values of `bits` bits one word holds.
pub open spec fn lanes(bits: int) -> int {
    64int / bits
}

/// Lane `k` of `word`: the `bits` bits that start at bit `k * bits`.
pub open spec fn lane(word: u64, k: int, bits: int) -> u64 {
    (word >> ((k * bits) as u64)) & mask(bits)
}

/// The words that `count` values of `bits` bits take.
pub open spec fn words_needed(bits: int, count: int) -> int {
    if bits == 0 || count == 0 {
        0
    } else {
        (count + lanes(bits) - 1) / lanes(bits)
    }
}

/// The value at index `i` of packed words, or `None` where the word is missing.
pub open spec fn value_in(words: Seq<u64>, bits: int, i: int) -> Option<u64> {
    if bits == 0 {
        Some(0)
    } else if i / lanes(bits) < words.len() {
        Some(lane(words[i / lanes(bits)], i % lanes(bits), bits))
    } else {
        None
    }
}

/// All values of packed words; a value whose word is missing counts as zero.
pub open spec fn unpacked(words: Seq<u64>, bits: int, count: nat) -> Seq<u64> {
    Seq::new(
        count,
        |i: int|
            match value_in(words, bits, i) {
                Some(v) => v,
                None => 0,
            },
    )
}

/// How many lanes of word `w` are in use when the first `n` values are stored.
pub open spec fn lanes_used(n: int, per_word: int, w: int) -> int {
    if w < n / per_word {
        per_word
    } else if w == n / per_word {
        n % per_word
    } else {
        0
    }
}

/// `words` holds the first `n` of `values`, and every other bit is zero.
pub open spec fn holds_prefix(words: Seq<u64>, values: Seq<u64>, bits: int, n: int) -> bool {
    &&& forall|i: int| #![trigger values[i]]
        0 <= i < n ==> value_in(words, bits, i) == Some(values[i])
    &&& forall|w: int| #![trigger words[w]]
        0 <= w < words.len() && lanes_used(n, lanes(bits), w) * bits < 64 ==> words[w] >> ((
        lanes_used(n, lanes(bits), w) * bits) as u64) == 0
}

/// `words` is the packed form of `values`: as many words as needed, each value
/// in its lane, and every bit that no value uses is zero.
pub open spec fn is_packed(words: Seq<u64>, values: Seq<u64>, bits: int) -> bool {
    &&& words.len() == words_needed(bits, values.len() as int)
    &&& bits == 0 ==> forall|i: int| #![trigger values[i]] 0 <= i < values.len() ==> values[i] == 0
    &&& bits != 0 ==> holds_prefix(words, values, bits, values.len() as int)
}

/// Whether every value fits into `bits` bits.
pub open spec fn all_fit(values: Seq<u64>, bits: int) -> bool {
    forall|i: int| #![trigger values[i]]
        0 <= i < values.len() ==> values[i] <= if bits == 0 { 0 } else { mask(bits) }
}

/// `bits` is the smallest width of at least one bit into which every value fits.
pub open spec fn is_minimal_width(values: Seq<u64>, bits: int) -> bool {
    &&& 1 <= bits <= 64
    &&& all_fit(values, bits)
    &&& bits > 1 ==> !all_fit(values, bits - 1)
}

/// The serialized form: the width, the count and the packed words.
pub open spec fn serialized(bits: u8, count: nat, raw: Seq<u8>) -> Seq<u8> {
    seq![bits] + le_bytes(count, 4) + raw
}

/// What the serialized form says: the width, the count and the packed words.
pub open spec fn parsed(bytes: Seq<u8>) -> Result<(u8, nat, Seq<u8>), BitPackError> {
    let count = le_value(bytes.subrange(1, 5));
    let end = 5 + 8 * words_needed(bytes[0] as int, count as int);
    if bytes.len() < 5 {
        Err(BitPackError::TooShort)
    } else if bytes[0] > 64 {
        Err(BitPackError::WidthTooLarge(bytes[0]))
    } else if bytes.len() < end {
        Err(BitPackError::Truncated)
    } else {
        Ok((bytes[0], count, bytes.subrange(5, end)))
    }
}

proof fn lemma_set_lane(w: u64, x: u64, off: u64, bits: u64, m: u64)
    by (bit_vector)
    requires
        1 <= bits <= 64,
        off < 64,
        off + bits <= 64,
        w >> off == 0,
        m == if bits >= 64 { 0xffff_ffff_ffff_ffffu64 } else { ((1u64 << bits) - 1) as u64 },
        x <= m,
    ensures
        ((w | (x << off)) >> off) & m == x,
        off + bits < 64 ==> (w | (x << off)) >> ((off + bits) as u64) == 0,
{
}

proof fn lemma_keep_lane(w: u64, x: u64, off: u64, other: u64, bits: u64, m: u64)
    by (bit_vector)
    requires
        1 <= bits <= 64,
        off < 64,
        other + bits <= off,
        m == if bits >= 64 { 0xffff_ffff_ffff_ffffu64 } else { ((1u64 << bits) - 1) as u64 },
    ensures
        ((w | (x << off)) >> other) & m == (w >> other) & m,
{
}

proof fn lemma_shift_zero(w: u64)
    by (bit_vector)
    ensures
        w >> 0u64 == w,
        forall|s: u64| 0u64 >> s == 0,
{
}

proof fn lemma_shift_twice(a: u64, first: u64, second: u64)
    requires
        first + second < 64,
    ensures
        a >> ((first + second) as u64) == (a >> first) >> second,
{
    lemma_u64_shr_is_div(a, first);
    lemma_u64_shr_is_div(a >> first, second);
    lemma_u64_shr_is_div(a, (first + second) as u64);
    lemma_pow2_adds(first as nat, second as nat);
    lemma_pow2_pos(first as nat);
    lemma_pow2_pos(second as nat);
    lemma_div_denominator(a as int, pow2(first as nat) as int, pow2(second as nat) as int);
}

proof fn lemma_mask(bits: int)
    requires
        1 <= bits <= 64,
    ensures
        mask(bits) as int == if bits >= 64 {
            u64::MAX as int
        } else {
            (1u64 << (bits as u64)) - 1
        },
        mask(bits) >= 1,
        bits >= 64 ==> mask(bits) == 0xffff_ffff_ffff_ffffu64,
        bits < 64 ==> mask(bits) == ((1u64 << (bits as u64)) - 1) as u64,
{
    let b = bits as u64;
    if bits < 64 {
        assert(1u64 << b >= 2) by (bit_vector)
            requires
                1 <= b < 64,
        ;
    }
}

/// `i` and `i + 1` in quotients and remainders.
proof fn lemma_next_lane(i: int, per_word: int)
    requires
        0 <= i,
        1 <= per_word,
    ensures
        0 <= i % per_word < per_word,
        i % per_word + 1 < per_word ==> (i + 1) / per_word == i / per_word && (i + 1) % per_word
            == i % per_word + 1,
        i % per_word + 1 == per_word ==> (i + 1) / per_word == i / per_word + 1 && (i + 1)
            % per_word == 0,
{
    lemma_fundamental_div_mod(i, per_word);
    let q = i / per_word;
    let r = i % per_word;
    assert(per_word * q == q * per_word) by (nonlinear_arith);
    if r + 1 < per_word {
        lemma_fundamental_div_mod_converse(i + 1, per_word, q, r + 1);
    } else {
        assert(per_word * (q + 1) == per_word * q + per_word) by (nonlinear_arith);
        lemma_fundamental_div_mod_converse(i + 1, per_word, q + 1, 0);
    }
}

/// Two indexes in the same word, the first before the second.
proof fn lemma_same_word(j: int, i: int, per_word: int)
    requires
        0 <= j < i,
        1 <= per_word,
    ensures
        j / per_word <= i / per_word,
        j / per_word == i / per_word ==> j % per_word < i % per_word,
        0 <= j % per_word < per_word,
{
    lemma_fundamental_div_mod(i, per_word);
    lemma_fundamental_div_mod(j, per_word);
    lemma_div_is_ordered(j, i, per_word);
}

proof fn lemma_lane_offset(r: int, bits: int)
    requires
        1 <= bits <= 64,
        0 <= r < lanes(bits),
    ensures
        1 <= lanes(bits) <= 64,
        0 <= r * bits,
        r * bits + bits <= 64,
        r * bits < 64,
        (r + 1) * bits == r * bits + bits,
{
    lemma_fundamental_div_mod(64, bits);
    assert(64int / bits * bits <= 64) by (nonlinear_arith)
        requires
            64 == bits * (64int / bits) + 64int % bits,
            0 <= 64int % bits,
    ;
    assert((r + 1) * bits <= 64int / bits * bits) by (nonlinear_arith)
        requires
            r + 1 <= 64int / bits,
            bits >= 1,
    ;
    assert((r + 1) * bits == r * bits + bits) by (nonlinear_arith);
    assert(r * bits >= 0) by (nonlinear_arith)
        requires
            r >= 0,
            bits >= 1,
    ;
    assert(64int / bits <= 64) by (nonlinear_arith)
        requires
            bits >= 1,
    ;
}

proof fn lemma_lanes(bits: int)
    requires
        1 <= bits <= 64,
    ensures
        1 <= lanes(bits) <= 64,
{
    assert(1 <= 64int / bits <= 64) by (nonlinear_arith)
        requires
            1 <= bits <= 64,
    ;
}

/// Words for `count` values: enough for the last one, and none without a value.
proof fn lemma_words_needed(bits: int, count: int)
    requires
        1 <= bits <= 64,
        0 < count,
    ensures
        words_needed(bits, count) == (count - 1) / lanes(bits) + 1,
        1 <= words_needed(bits, count) <= count,
{
    lemma_lanes(bits);
    let l = lanes(bits);
    lemma_fundamental_div_mod(count - 1, l);
    let q = (count - 1) / l;
    let r = (count - 1) % l;
    assert(l * (q + 1) == l * q + l) by (nonlinear_arith);
    lemma_fundamental_div_mod_converse(count + l - 1, l, q + 1, r);
    assert(0 <= q <= count - 1) by (nonlinear_arith)
        requires
            count - 1 == l * q + r,
            0 <= r < l,
            1 <= l,
            0 < count,
    ;
}

/// Storing one more value: the lane of value `i` takes it, nothing else changes.
proof fn lemma_store_value(words: Seq<u64>, values: Seq<u64>, bits: int, i: int)
    requires
        1 <= bits <= 64,
        0 <= i < values.len(),
        values[i] <= mask(bits),
        words.len() == words_needed(bits, values.len() as int),
        holds_prefix(words, values, bits, i),
    ensures
        i / lanes(bits) < words.len(),
        holds_prefix(
            words.update(
                i / lanes(bits),
                words[i / lanes(bits)] | (values[i] << (((i % lanes(bits)) * bits) as u64)),
            ),
            values,
            bits,
            i + 1,
        ),
{
    let l = lanes(bits);
    let q = i / l;
    let r = i % l;
    let off = r * bits;
    let m = mask(bits);
    lemma_lanes(bits);
    lemma_next_lane(i, l);
    lemma_lane_offset(r, bits);
    lemma_mask(bits);
    lemma_words_needed(bits, values.len() as int);
    lemma_div_is_ordered(i, values.len() - 1, l);
    assert(q >= 0) by (nonlinear_arith)
        requires
            q == i / l,
            i >= 0,
            l >= 1,
    ;
    let old_word = words[q];
    let new_word = old_word | (values[i] << (off as u64));
    let next = words.update(q, new_word);
    assert(lanes_used(i, l, q) == r);
    assert(old_word >> (off as u64) == 0);
    lemma_set_lane(old_word, values[i], off as u64, bits as u64, m);
    assert forall|j: int| #![trigger values[j]] 0 <= j < i + 1 implies value_in(next, bits, j)
        == Some(values[j]) by {
        lemma_next_lane(j, l);
        lemma_lane_offset(j % l, bits);
        if j < i {
            lemma_same_word(j, i, l);
            assert(value_in(words, bits, j) == Some(values[j]));
            if j / l == q {
                let other = (j % l) * bits;
                assert(other + bits <= off) by (nonlinear_arith)
                    requires
                        other == (j % l) * bits,
                        off == r * bits,
                        j % l + 1 <= r,
                        bits >= 1,
                ;
                lemma_keep_lane(
                    old_word,
                    values[i],
                    off as u64,
                    other as u64,
                    bits as u64,
                    m,
                );
            } else {
                assert(j / l >= 0) by (nonlinear_arith)
                    requires
                        j >= 0,
                        l >= 1,
                ;
            }
        }
    }
    assert forall|w: int| #![trigger next[w]]
        0 <= w < next.len() && lanes_used(i + 1, l, w) * bits < 64 implies next[w] >> ((lanes_used(
        i + 1,
        l,
        w,
    ) * bits) as u64) == 0 by {
        if w == q {
            assert(lanes_used(i + 1, l, w) == r + 1);
            assert((off + bits) as u64 == ((off as u64) + (bits as u64)) as u64);
        } else {
            assert(words[w] == next[w]);
            assert(lanes_used(i + 1, l, w) == lanes_used(i, l, w)) by {
                if r + 1 == l && w == q + 1 {
                    assert(lanes_used(i, l, w) == 0);
                }
            }
        }
    }
}

/// A freshly built, empty set of words holds no value yet.
proof fn lemma_holds_nothing(words: Seq<u64>, values: Seq<u64>, bits: int)
    requires
        1 <= bits <= 64,
        forall|w: int| #![trigger words[w]] 0 <= w < words.len() ==> words[w] == 0,
    ensures
        holds_prefix(words, values, bits, 0),
{
    lemma_shift_zero(0);
}

/// In `bits` bits fit the numbers below two to the `bits`, and a word holds as many
/// values as there is room for.
pub proof fn law_what_fits_into_bits(bits: int)
    requires
        1 <= bits <= 64,
    ensures
        mask(bits) == pow2(bits as nat) - 1,
        lanes(bits) * bits <= 64 < (lanes(bits) + 1) * bits,
{
    lemma_fundamental_div_mod(64, bits);
    assert(64int / bits * bits <= 64 < (64int / bits + 1) * bits) by (nonlinear_arith)
        requires
            64 == bits * (64int / bits) + 64int % bits,
            0 <= 64int % bits < bits,
    ;
    if bits < 64 {
        lemma_mask(bits);
        lemma_u64_pow2_no_overflow(bits as nat);
        assert(1 * pow2(bits as nat) == pow2(bits as nat)) by (nonlinear_arith);
        lemma_u64_shl_is_mul(1, bits as u64);
        assert((1u64 << (bits as u64)) == pow2(bits as nat));
    } else {
        lemma_mask(bits);
        lemma_pow2_pos(64);
        lemma_low_bits_mask_values();
        assert(low_bits_mask(64) == pow2(64) - 1);
    }
}

/// The value in a lane is what is left of the word when the lanes below it are taken
/// away and those above it are left out.
pub proof fn law_lanes_are_digits(word: u64, k: int, bits: int)
    requires
        1 <= bits <= 64,
        0 <= k < lanes(bits),
    ensures
        lane(word, k, bits) == (word as nat / pow2((k * bits) as nat)) % pow2(bits as nat),
{
    lemma_lane_offset(k, bits);
    law_what_fits_into_bits(bits);
    let off = (k * bits) as u64;
    let rest = word >> off;
    lemma_u64_shr_is_div(word, off);
    if bits < 64 {
        lemma_u64_low_bits_mask_is_mod(rest, bits as nat);
        lemma_u64_pow2_no_overflow(bits as nat);
    } else {
        assert(rest & 0xffff_ffff_ffff_ffffu64 == rest) by (bit_vector);
        lemma_low_bits_mask_values();
        lemma_small_mod(rest as nat, pow2(64));
    }
}

/// As many words are needed as hold the values: the last has a value, and there is room
/// for all.
pub proof fn law_no_word_too_many(bits: int, count: int)
    requires
        1 <= bits <= 64,
        0 < count,
    ensures
        (words_needed(bits, count) - 1) * lanes(bits) < count <= words_needed(bits, count) * lanes(
            bits,
        ),
        words_needed(bits, 0) == 0,
        words_needed(0, count) == 0,
{
    lemma_words_needed(bits, count);
    lemma_lanes(bits);
    let l = lanes(bits);
    lemma_fundamental_div_mod(count - 1, l);
    let q = (count - 1) / l;
    assert(q * l < count <= (q + 1) * l) by (nonlinear_arith)
        requires
            count - 1 == l * q + (count - 1) % l,
            0 <= (count - 1) % l < l,
    ;
}

/// Where a value stands: values fill the lanes of a word from its low end, and the words
/// one after the other.
pub proof fn law_where_values_stand(words: Seq<u64>, bits: int, w: int, k: int)
    requires
        1 <= bits <= 64,
        0 <= k < lanes(bits),
        0 <= w,
    ensures
        w < words.len() ==> value_in(words, bits, w * lanes(bits) + k) == Some(
            lane(words[w], k, bits),
        ),
        w >= words.len() ==> value_in(words, bits, w * lanes(bits) + k) is None,
        value_in(words, 0, k) == Some(0u64),
{
    lemma_lanes(bits);
    lemma_fundamental_div_mod_converse(w * lanes(bits) + k, lanes(bits), w, k);
}

/// Unpacking gives as many values as the count says: each the one that its word holds,
/// and zero where the word is missing.
pub proof fn law_missing_words_are_zeros(words: Seq<u64>, bits: int, count: nat, i: int)
    requires
        0 <= i < count,
    ensures
        unpacked(words, bits, count).len() == count,
        value_in(words, bits, i) is Some ==> unpacked(words, bits, count)[i] == value_in(
            words,
            bits,
            i,
        )->0,
        value_in(words, bits, i) is None ==> unpacked(words, bits, count)[i] == 0,
{
}

/// The width of a column is the least into which its values fit, and at least one bit. A
/// sequence of deltas has the least width of its deltas; a single zero has one bit, and
/// any other single value, like no value, none.
pub proof fn law_widths_are_least(values: Seq<u64>, bits: int, i: int, width: u8)
    ensures
        is_minimal_width(values, bits) && 0 <= i < values.len() ==> values[i] < pow2(bits as nat),
        is_minimal_width(values, bits) && bits > 1 ==> exists|k: int|
            0 <= k < values.len() && #[trigger] values[k] >= pow2((bits - 1) as nat),
        is_minimal_width(values, bits) ==> 1 <= bits <= 64,
        values.len() > 1 ==> (is_delta_width(values, width) <==> is_minimal_width(
            deltas_of(values),
            width as int,
        )),
        values == seq![0u64] ==> (is_delta_width(values, width) <==> width == 1),
        values.len() == 1 && values[0] != 0 ==> (is_delta_width(values, width) <==> width == 0),
        values.len() == 0 ==> (is_delta_width(values, width) <==> width == 0),
{
    if is_minimal_width(values, bits) {
        law_what_fits_into_bits(bits);
        if bits > 1 {
            law_what_fits_into_bits(bits - 1);
            let k = choose|k: int| #![trigger values[k]]
                0 <= k < values.len() && values[k] > mask(bits - 1);
            assert(values[k] >= pow2((bits - 1) as nat));
        }
    }
}

/// Written down, packed integers are the width in one byte, the count in four, and the
/// words.
pub proof fn law_layout_of_packed_integers(bits: u8, count: nat, raw: Seq<u8>)
    ensures
        serialized(bits, count, raw).len() == 5 + raw.len(),
        serialized(bits, count, raw)[0] == bits,
        serialized(bits, count, raw).subrange(1, 5) == le_bytes(count, 4),
        serialized(bits, count, raw).skip(5) == raw,
{
    lemma_le_bytes_len(count, 4);
    assert(serialized(bits, count, raw).subrange(1, 5) =~= le_bytes(count, 4));
    assert(serialized(bits, count, raw).skip(5) =~= raw);
}

/// Why bytes are no packed integers: there are fewer than five, or the width is more
/// than 64, or there are fewer words than the count asks for.
pub proof fn law_why_packed_bytes_are_rejected(bytes: Seq<u8>)
    ensures
        bytes.len() < 5 ==> parsed(bytes) == Err::<(u8, nat, Seq<u8>), BitPackError>(
            BitPackError::TooShort,
        ),
        bytes.len() >= 5 && bytes[0] > 64 ==> parsed(bytes) == Err::<
            (u8, nat, Seq<u8>),
            BitPackError,
        >(BitPackError::WidthTooLarge(bytes[0])),
        bytes.len() >= 5 && bytes[0] <= 64 && bytes.len() - 5 < 8 * words_needed(
            bytes[0] as int,
            le_value(bytes.subrange(1, 5)) as int,
        ) ==> parsed(bytes) == Err::<(u8, nat, Seq<u8>), BitPackError>(BitPackError::Truncated),
        bytes.len() >= 5 && bytes[0] <= 64 && bytes.len() - 5 >= 8 * words_needed(
            bytes[0] as int,
            le_value(bytes.subrange(1, 5)) as int,
        ) ==> parsed(bytes) is Ok && parsed(bytes)->Ok_0.0 == bytes[0] && parsed(bytes)->Ok_0.1
            == le_value(bytes.subrange(1, 5)) && parsed(bytes)->Ok_0.2.len() == 8 * words_needed(
            bytes[0] as int,
            le_value(bytes.subrange(1, 5)) as int,
        ),
{
    if bytes.len() >= 5 && bytes[0] <= 64 {
        let count = le_value(bytes.subrange(1, 5)) as int;
        if bytes[0] > 0 && count > 0 {
            lemma_words_needed(bytes[0] as int, count);
        }
    }
}

/// The texts of errors.
pub proof fn law_texts_of_packing_errors(n: usize, bits: u8, e: BitPackError)
    ensures
        pack_error_text(BitPackError::CountTooLarge(n)) == "BitPackedInts count "@ + decimal(
            n as nat,
        ) + " exceeds u32::MAX, cannot serialize"@,
        pack_error_text(BitPackError::TooShort) == "BitPackedInts too short"@,
        pack_error_text(BitPackError::WidthTooLarge(bits)) == "BitPackedInts bits_per_value "@
            + decimal(bits as nat) + " exceeds 64"@,
        pack_error_text(BitPackError::Truncated) == "BitPackedInts truncated"@,
        delta_error_text(DeltaError::TooShort) == "DeltaBitPacked too short"@,
        delta_error_text(DeltaError::Deltas(e)) == pack_error_text(e),
{
}

/// Unpacking undoes packing.
pub proof fn law_unpack_pack(words: Seq<u64>, values: Seq<u64>, bits: int)
    requires
        0 <= bits <= 64,
        is_packed(words, values, bits),
    ensures
        unpacked(words, bits, values.len()) == values,
{
    assert forall|i: int| 0 <= i < values.len() implies #[trigger] unpacked(
        words,
        bits,
        values.len(),
    )[i] == values[i] by {
        assert(values[i] == values[i]);
        if bits != 0 {
            assert(value_in(words, bits, i) == Some(values[i]));
        }
    }
    assert(unpacked(words, bits, values.len()) =~= values);
}

/// The packed form is unique: two packed forms of the same values agree.
pub proof fn law_packed_form_is_unique(
    first: Seq<u64>,
    second: Seq<u64>,
    values: Seq<u64>,
    bits: int,
)
    requires
        0 <= bits <= 64,
        is_packed(first, values, bits),
        is_packed(second, values, bits),
    ensures
        first == second,
{
    if bits != 0 {
        let l = lanes(bits);
        let n = values.len() as int;
        lemma_lanes(bits);
        assert forall|w: int| 0 <= w < first.len() implies first[w] == second[w] by {
            lemma_words_needed(bits, n);
            let used = lanes_used(n, l, w);
            lemma_fundamental_div_mod(n, l);
            lemma_next_lane(n, l);
            assert(0 <= used <= l);
            assert(used * bits <= 64 && used * bits >= 0) by {
                if used > 0 {
                    lemma_lane_offset(used - 1, bits);
                }
            }
            assert forall|k: int| 0 <= k < used implies #[trigger] lane(first[w], k, bits)
                == lane(second[w], k, bits) by {
                let i = l * w + k;
                lemma_fundamental_div_mod_converse(i, l, w, k);
                assert(i < n) by (nonlinear_arith)
                    requires
                        i == l * w + k,
                        n == l * (n / l) + n % l,
                        0 <= n % l,
                        0 <= k < l,
                        w < n / l || (w == n / l && k < n % l),
                ;
                assert(i >= 0) by (nonlinear_arith)
                    requires
                        i == l * w + k,
                        l >= 1,
                        w >= 0,
                        k >= 0,
                ;
                assert(value_in(first, bits, i) == Some(values[i]));
                assert(value_in(second, bits, i) == Some(values[i]));
            }
            lemma_words_equal(first[w], second[w], bits, used);
        }
    }
    assert(first =~= second);
}

/// Two words whose first `used` lanes agree and that hold nothing else are equal.
proof fn lemma_words_equal(a: u64, b: u64, bits: int, used: int)
    requires
        1 <= bits <= 64,
        0 <= used <= lanes(bits),
        0 <= used * bits <= 64,
        forall|k: int| #![trigger lane(a, k, bits)]
            0 <= k < used ==> lane(a, k, bits) == lane(b, k, bits),
        used * bits < 64 ==> a >> ((used * bits) as u64) == b >> ((used * bits) as u64),
    ensures
        a == b,
    decreases used,
{
    if used == 0 {
        assert(used * bits == 0) by (nonlinear_arith)
            requires
                used == 0,
        ;
        lemma_shift_zero(a);
        lemma_shift_zero(b);
    } else {
        lemma_lane_offset(used - 1, bits);
        lemma_mask(bits);
        let off = ((used - 1) * bits) as u64;
        let w = bits as u64;
        let m = mask(bits);
        assert(lane(a, used - 1, bits) == lane(b, used - 1, bits));
        assert((used * bits) as u64 == ((off + w) as u64));
        let x = a >> off;
        let y = b >> off;
        if off + w < 64 {
            lemma_shift_twice(a, off, w);
            lemma_shift_twice(b, off, w);
            assert(x == y) by (bit_vector)
                requires
                    1 <= w < 64,
                    m == ((1u64 << w) - 1) as u64,
                    x & m == y & m,
                    x >> w == y >> w,
            ;
        } else {
            assert(x & m == x) by (bit_vector)
                requires
                    x == a >> off,
                    off + w == 64,
                    1 <= w <= 64,
                    m == if w >= 64 { 0xffff_ffff_ffff_ffffu64 } else { ((1u64 << w) - 1) as u64 },
            ;
            assert(y & m == y) by (bit_vector)
                requires
                    y == b >> off,
                    off + w == 64,
                    1 <= w <= 64,
                    m == if w >= 64 { 0xffff_ffff_ffff_ffffu64 } else { ((1u64 << w) - 1) as u64 },
            ;
        }
        lemma_words_equal(a, b, bits, used - 1);
    }
}

/// Reading the serialized form gives back what was written.
pub proof fn law_bytes_round_trip(bits: u8, count: nat, raw: Seq<u8>)
    requires
        bits <= 64,
        count <= u32::MAX,
        raw.len() == 8 * words_needed(bits as int, count as int),
    ensures
        parsed(serialized(bits, count, raw)) == Ok::<(u8, nat, Seq<u8>), BitPackError>(
            (bits, count, raw),
        ),
{
    lemma_le_bytes_len(count, 4);
    lemma_pow256();
    lemma_le_value_of_bytes(count, 4);
    let s = serialized(bits, count, raw);
    assert(s.subrange(1, 5) =~= le_bytes(count, 4));
    assert(s.subrange(5, s.len() as int) =~= raw);
}

/// Words kept in memory and the same words kept as bytes hold the same values.
pub proof fn law_storage_is_transparent(words: Seq<u64>)
    ensures
        u64s_of(le_u64s(words)) == words,
{
    lemma_u64s_round_trip(words);
}

/// Converts words to a buffer of little-endian bytes, eight per word.
fn words_to_bytes(words: &[u64]) -> (r: Bytes)
    ensures
        bytes_content(r) == le_u64s(words@),
{
    let mut buf: BytesMut = bytes_mut_new();
    let mut i: usize = 0;
    assert(le_u64s(words@.take(0)) =~= Seq::<u8>::empty());
    while i < words.len()
        invariant
            i <= words@.len(),
            bytes_mut_content(buf) == le_u64s(words@.take(i as int)),
        decreases words.len() - i,
    {
        let mut chunk: Vec<u8> = Vec::new();
        push_u64_le(&mut chunk, words[i]);
        bytes_mut_extend(&mut buf, chunk.as_slice());
        proof {
            assert(words@.take(i + 1) =~= words@.take(i as int).push(words@[i as int]));
            lemma_le_u64s_push(words@.take(i as int), words@[i as int]);
            assert(chunk@ =~= le_bytes(words@[i as int] as nat, 8));
        }
        i = i + 1;
    }
    assert(words@.take(words@.len() as int) =~= words@);
    bytes_mut_freeze(buf)
}

/// Where the packed words live: in memory, or as a slice of a larger buffer.
#[derive(Debug)]
enum WordStore {
    Inline(Vec<u64>),
    Mapped(Bytes),
}

impl WordStore {
    fn duplicate(&self) -> (r: Self)
        ensures
            r.raw() == self.raw(),
            r.words() == self.words(),
            (r is Inline) == (*self is Inline),
    {
        match self {
            Self::Inline(v) => {
                let copy: Vec<u64> = v.clone();
                assert(copy@ =~= v@);
                Self::Inline(copy)
            },
            Self::Mapped(b) => Self::Mapped(b.clone()),
        }
    }

    spec fn raw(&self) -> Seq<u8> {
        match self {
            Self::Inline(v) => le_u64s(v@),
            Self::Mapped(b) => bytes_content(*b),
        }
    }

    spec fn words(&self) -> Seq<u64> {
        match self {
            Self::Inline(v) => v@,
            Self::Mapped(b) => u64s_of(bytes_content(*b)),
        }
    }

    fn byte_len(&self) -> (r: usize)
        requires
            self.raw().len() <= usize::MAX,
        ensures
            r == self.raw().len(),
    {
        match self {
            Self::Inline(v) => v.len() * 8,
            Self::Mapped(b) => bytes_as_slice(b).len(),
        }
    }

    fn word_count(&self) -> (r: usize)
        ensures
            r == self.words().len(),
    {
        match self {
            Self::Inline(v) => v.len(),
            Self::Mapped(b) => bytes_as_slice(b).len() / 8,
        }
    }

    fn as_slice(&self) -> (r: Option<&[u64]>)
        ensures
            r is Some <==> *self is Inline,
            r matches Some(s) ==> s@ == self.words(),
    {
        match self {
            Self::Inline(v) => Some(v.as_slice()),
            Self::Mapped(_) => None,
        }
    }

    fn word_at(&self, idx: usize) -> (r: Option<u64>)
        ensures
            r == (if idx < self.words().len() {
                Some(self.words()[idx as int])
            } else {
                None
            }),
    {
        match self {
            Self::Inline(v) => {
                if idx < v.len() {
                    Some(v[idx])
                } else {
                    None
                }
            },
            Self::Mapped(b) => {
                let data: &[u8] = bytes_as_slice(b);
                if idx < data.len() / 8 {
                    proof {
                        lemma_le_value_bound(data@.subrange(8 * idx, 8 * idx + 8));
                        lemma_pow256();
                    }
                    Some(read_u64_le(data, idx * 8))
                } else {
                    None
                }
            },
        }
    }

    /// The bytes to serialize: a fresh encoding, or the shared buffer itself.
    fn to_bytes(&self) -> (r: Bytes)
        ensures
            bytes_content(r) == self.raw(),
    {
        match self {
            Self::Inline(v) => words_to_bytes(v.as_slice()),
            Self::Mapped(b) => b.clone(),
        }
    }
}

/// Stores integers using only as many bits as the largest value needs.
///
/// Pass your values to [`pack()`](Self::pack) and the width is found
/// automatically. Random access via [`get()`](Self::get) takes constant time.
///
/// The words live in memory (`pack`, `from_raw_parts`), so that scans can walk
/// the slice directly, or in a shared byte buffer (`from_bytes_storage`), so
/// that a column can hold a slice of a mapped file without copying it.
#[derive(Debug)]
pub struct BitPackedInts {
    data: WordStore,
    bits_per_value: u8,
    count: usize,
}

impl Clone for BitPackedInts {
    fn clone(&self) -> (r: Self)
        ensures
            r.raw() == self.raw(),
            r.words() == self.words(),
            r.is_inline() == self.is_inline(),
            r.bits() == self.bits(),
            r.count() == self.count(),
    {
        Self {
            data: self.data.duplicate(),
            bits_per_value: self.bits_per_value,
            count: self.count,
        }
    }
}

impl BitPackedInts {
    /// The backing bytes.
    pub closed spec fn raw(&self) -> Seq<u8> {
        self.data.raw()
    }

    /// The packed words.
    pub closed spec fn words(&self) -> Seq<u64> {
        self.data.words()
    }

    /// The width of a value.
    pub closed spec fn bits(&self) -> u8 {
        self.bits_per_value
    }

    /// How many values there are.
    pub closed spec fn count(&self) -> nat {
        self.count as nat
    }

    /// Whether the words live in memory as words.
    pub closed spec fn is_inline(&self) -> bool {
        self.data is Inline
    }

    /// The values held.
    pub open spec fn values(&self) -> Seq<u64> {
        unpacked(self.words(), self.bits() as int, self.count())
    }

    /// The words are the backing bytes, read eight at a time.
    pub proof fn law_words_are_raw(&self)
        ensures
            self.words() == u64s_of(self.raw()),
            self.is_inline() ==> self.raw() == le_u64s(self.words()),
    {
        match self.data {
            WordStore::Inline(v) => {
                lemma_u64s_round_trip(v@);
            },
            WordStore::Mapped(b) => {},
        }
    }

    /// Reconstructs from words that are packed already.
    ///
    /// The caller is responsible for the number of words.
    #[must_use]
    pub fn from_raw_parts(data: Vec<u64>, bits_per_value: u8, count: usize) -> (r: Self)
        ensures
            r.words() == data@,
            r.is_inline(),
            r.bits() == bits_per_value,
            r.count() == count,
    {
        Self { data: WordStore::Inline(data), bits_per_value, count }
    }

    /// Reconstructs from bytes that are packed already: little-endian words of
    /// eight bytes. Nothing is copied.
    #[must_use]
    pub fn from_bytes_storage(data: Bytes, bits_per_value: u8, count: usize) -> (r: Self)
        ensures
            r.raw() == bytes_content(data),
            r.words() == u64s_of(bytes_content(data)),
            !r.is_inline(),
            r.bits() == bits_per_value,
            r.count() == count,
    {
        Self { data: WordStore::Mapped(data), bits_per_value, count }
    }

    /// Packs values using the fewest bits that the largest of them needs.
    #[must_use]
    pub fn pack(values: &[u64]) -> (r: Self)
        ensures
            r.is_inline(),
            r.count() == values@.len(),
            values@.len() == 0 ==> r.bits() == 0,
            values@.len() > 0 ==> is_minimal_width(values@, r.bits() as int),
            is_packed(r.words(), values@, r.bits() as int),
            r.values() == values@,
    {
        if values.is_empty() {
            let r = Self {
                data: WordStore::Inline(Vec::new()),
                bits_per_value: 0,
                count: 0,
            };
            assert(r.values() =~= values@);
            return r;
        }
        let mut max_value: u64 = values[0];
        let mut i: usize = 1;
        while i < values.len()
            invariant
                1 <= i <= values@.len(),
                forall|k: int| #![trigger values@[k]] 0 <= k < i ==> values@[k] <= max_value,
                exists|k: int| #![trigger values@[k]] 0 <= k < i && values@[k] == max_value,
            decreases values.len() - i,
        {
            if values[i] > max_value {
                max_value = values[i];
            }
            i = i + 1;
        }
        let bits: u8 = Self::bits_needed(max_value);
        Self::pack_with_bits(values, bits)
    }

    /// Packs values using the given width, into which every value fits.
    #[must_use]
    pub fn pack_with_bits(values: &[u64], bits_per_value: u8) -> (r: Self)
        requires
            values@.len() > 0 ==> bits_per_value <= 64,
            all_fit(values@, bits_per_value as int),
        ensures
            r.is_inline(),
            r.count() == values@.len(),
            r.bits() == bits_per_value,
            is_packed(r.words(), values@, bits_per_value as int),
            r.values() == values@,
    {
        let ghost b = bits_per_value as int;
        if values.is_empty() {
            let r = Self { data: WordStore::Inline(Vec::new()), bits_per_value, count: 0 };
            assert(r.values() =~= values@);
            return r;
        }
        if bits_per_value == 0 {
            let r = Self {
                data: WordStore::Inline(Vec::new()),
                bits_per_value: 0,
                count: values.len(),
            };
            proof {
                assert(r.values() =~= values@);
            }
            return r;
        }
        let bits: usize = bits_per_value as usize;
        let values_per_word: usize = 64 / bits;
        proof {
            lemma_lanes(b);
            lemma_words_needed(b, values@.len() as int);
        }
        let num_words: usize = (values.len() - 1) / values_per_word + 1;
        let mut words: Vec<u64> = vec![0u64; num_words];
        let mask: u64 = Self::mask_of(bits_per_value);
        let mut i: usize = 0;
        proof {
            lemma_holds_nothing(words@, values@, b);
        }
        while i < values.len()
            invariant
                i <= values@.len(),
                1 <= b <= 64,
                bits == b,
                values_per_word == lanes(b),
                1 <= values_per_word <= 64,
                mask == self::mask(b),
                all_fit(values@, b),
                words@.len() == words_needed(b, values@.len() as int),
                holds_prefix(words@, values@, b, i as int),
            decreases values.len() - i,
        {
            let value: u64 = values[i];
            proof {
                lemma_store_value(words@, values@, b, i as int);
                lemma_next_lane(i as int, lanes(b));
                lemma_lane_offset(i as int % lanes(b), b);
                lemma_mask(b);
                let m = mask;
                let w = bits as u64;
                assert(value & m == value) by (bit_vector)
                    requires
                        value <= m,
                        1 <= w <= 64,
                        m == if w >= 64 { 0xffff_ffff_ffff_ffffu64 } else { ((1u64 << w) - 1) as u64 },
                ;
            }
            let word_idx: usize = i / values_per_word;
            let bit_offset: usize = (i % values_per_word) * bits;
            let word: u64 = words[word_idx] | ((value & mask) << (bit_offset as u64));
            words.set(word_idx, word);
            i = i + 1;
        }
        let r = Self { data: WordStore::Inline(words), bits_per_value, count: values.len() };
        proof {
            law_unpack_pack(words@, values@, b);
        }
        r
    }

    /// The largest value of `bits` bits.
    fn mask_of(bits: u8) -> (r: u64)
        requires
            1 <= bits <= 64,
        ensures
            r == mask(bits as int),
    {
        proof {
            lemma_mask(bits as int);
        }
        if bits >= 64 {
            u64::MAX
        } else {
            (1u64 << (bits as u64)) - 1
        }
    }

    /// Unpacks all values. A value whose word is missing comes out as zero.
    #[must_use]
    pub fn unpack(&self) -> (r: Vec<u64>)
        requires
            self.count() > 0 ==> self.bits() <= 64,
        ensures
            r@ == self.values(),
    {
        let mut result: Vec<u64> = Vec::new();
        let mut i: usize = 0;
        while i < self.count
            invariant
                i <= self.count,
                self.count > 0 ==> self.bits_per_value <= 64,
                result@ == unpacked(self.words(), self.bits_per_value as int, i as nat),
            decreases self.count - i,
        {
            let value: u64 = match self.get(i) {
                Some(v) => v,
                None => 0,
            };
            result.push(value);
            i = i + 1;
            assert(result@ =~= unpacked(self.words(), self.bits_per_value as int, i as nat));
        }
        assert(result@ =~= self.values());
        result
    }

    /// The value at `index`, or `None` past the end or where its word is
    /// missing.
    #[must_use]
    pub fn get(&self, index: usize) -> (r: Option<u64>)
        requires
            index < self.count() ==> self.bits() <= 64,
        ensures
            r == (if index < self.count() {
                value_in(self.words(), self.bits() as int, index as int)
            } else {
                None
            }),
    {
        if index >= self.count {
            return None;
        }
        if self.bits_per_value == 0 {
            return Some(0);
        }
        let bits: usize = self.bits_per_value as usize;
        let values_per_word: usize = 64 / bits;
        proof {
            lemma_lanes(bits as int);
            lemma_next_lane(index as int, lanes(bits as int));
            lemma_lane_offset(index as int % lanes(bits as int), bits as int);
        }
        let word_idx: usize = index / values_per_word;
        let bit_offset: usize = (index % values_per_word) * bits;
        let mask: u64 = Self::mask_of(self.bits_per_value);
        match self.data.word_at(word_idx) {
            Some(word) => Some((word >> (bit_offset as u64)) & mask),
            None => None,
        }
    }

    /// The number of values.
    #[must_use]
    pub fn len(&self) -> (r: usize)
        ensures
            r == self.count(),
    {
        self.count
    }

    /// Whether there are no values.
    #[must_use]
    pub fn is_empty(&self) -> (r: bool)
        ensures
            r == (self.count() == 0),
    {
        self.count == 0
    }

    /// The number of bits per value.
    #[must_use]
    pub fn bits_per_value(&self) -> (r: u8)
        ensures
            r == self.bits(),
    {
        self.bits_per_value
    }

    /// The raw packed bytes: a fresh encoding of the words, or the shared
    /// buffer.
    #[must_use]
    pub fn data_bytes(&self) -> (r: Bytes)
        ensures
            bytes_content(r) == self.raw(),
    {
        self.data.to_bytes()
    }

    /// The number of words that back the column.
    #[must_use]
    pub fn word_count(&self) -> (r: usize)
        ensures
            r == self.words().len(),
    {
        self.data.word_count()
    }

    /// The words as a slice, when they live in memory.
    #[must_use]
    pub fn as_words_slice(&self) -> (r: Option<&[u64]>)
        ensures
            r is Some <==> self.is_inline(),
            r matches Some(s) ==> s@ == self.words(),
    {
        self.data.as_slice()
    }

    /// The word at `idx`, or `None` past the end.
    #[must_use]
    pub fn word_at(&self, idx: usize) -> (r: Option<u64>)
        ensures
            r == (if idx < self.words().len() {
                Some(self.words()[idx as int])
            } else {
                None
            }),
    {
        self.data.word_at(idx)
    }

    /// The bytes that the values take unpacked and packed, which is what the
    /// compression ratio divides. `None` when there is no value.
    #[must_use]
    pub fn compression_sizes(&self) -> (r: Option<(usize, usize)>)
        requires
            8 * self.count() <= usize::MAX,
            self.raw().len() <= usize::MAX,
        ensures
            r == (if self.count() == 0 {
                None::<(usize, usize)>
            } else {
                Some(((8 * self.count()) as usize, self.raw().len() as usize))
            }),
    {
        if self.count == 0 {
            return None;
        }
        Some((self.count * 8, self.data.byte_len()))
    }

    /// The number of bits that represent a value: at least one, at most 64.
    #[must_use]
    pub fn bits_needed(value: u64) -> (r: u8)
        ensures
            1 <= r <= 64,
            value <= mask(r as int),
            r > 1 ==> value > mask(r - 1),
    {
        if value == 0 {
            proof {
                lemma_mask(1);
            }
            1
        } else {
            let zeros: u32 = value.leading_zeros();
            proof {
                vstd::std_specs::bits::axiom_u64_leading_zeros(value);
                let z = zeros as u64;
                let r = (64 - z) as u64;
                lemma_mask(r as int);
                if r > 1 {
                    lemma_mask(r - 1);
                }
                let low = (r - 1) as u64;
                assert(z >= 1 ==> value <= ((1u64 << r) - 1) as u64) by (bit_vector)
                    requires
                        z < 64,
                        r == (64 - z) as u64,
                        value >> r == 0 || z == 0,
                ;
                assert(value > ((1u64 << low) - 1) as u64) by (bit_vector)
                    requires
                        z < 64,
                        low == (63 - z) as u64,
                        (value >> low) & 1u64 != 0,
                ;
            }
            (64u32 - zeros) as u8
        }
    }

    /// Serializes to bytes: the width, the count as four bytes, the words.
    pub fn to_bytes(&self) -> (r: Result<Vec<u8>, BitPackError>)
        ensures
            match r {
                Ok(buf) => self.count() <= u32::MAX && buf@ == serialized(
                    self.bits(),
                    self.count(),
                    self.raw(),
                ),
                Err(e) => self.count() > u32::MAX && e == BitPackError::CountTooLarge(
                    self.count() as usize,
                ),
            },
    {
        if self.count as u64 > u32::MAX as u64 {
            return Err(BitPackError::CountTooLarge(self.count));
        }
        let mut buf: Vec<u8> = Vec::new();
        buf.push(self.bits_per_value);
        push_u32_le(&mut buf, self.count as u32);
        let body: Bytes = self.data.to_bytes();
        buf.extend_from_slice(bytes_as_slice(&body));
        assert(buf@ =~= serialized(self.bits(), self.count(), self.raw()));
        Ok(buf)
    }

    /// Deserializes from bytes. Bytes after the packed words are ignored.
    pub fn from_bytes(bytes: &[u8]) -> (r: Result<Self, BitPackError>)
        ensures
            match r {
                Ok(p) => !p.is_inline() && parsed(bytes@) == Ok::<
                    (u8, nat, Seq<u8>),
                    BitPackError,
                >((p.bits(), p.count(), p.raw())) && p.words() == u64s_of(p.raw()),
                Err(e) => parsed(bytes@) == Err::<(u8, nat, Seq<u8>), BitPackError>(e),
            },
    {
        if bytes.len() < 5 {
            return Err(BitPackError::TooShort);
        }
        let bits_per_value: u8 = bytes[0];
        if bits_per_value > 64 {
            return Err(BitPackError::WidthTooLarge(bits_per_value));
        }
        let count: u32 = read_u32_le(bytes, 1);
        let num_words: u64 = if bits_per_value == 0 || count == 0 {
            0
        } else {
            let values_per_word: u64 = 64 / (bits_per_value as u64);
            proof {
                lemma_lanes(bits_per_value as int);
                lemma_words_needed(bits_per_value as int, count as int);
            }
            (count as u64 + values_per_word - 1) / values_per_word
        };
        let needed: u64 = 5 + num_words * 8;
        if (bytes.len() as u64) < needed {
            return Err(BitPackError::Truncated);
        }
        let body: &[u8] = vstd::slice::slice_subrange(bytes, 5, needed as usize);
        let data = WordStore::Mapped(bytes_copy_from_slice(body));
        Ok(Self { data, bits_per_value, count: count as usize })
    }
}

/// Why delta-encoded integers cannot be read.
#[derive(Debug, Clone, Copy, PartialEq, Eq, Structural)]
pub enum DeltaError {
    /// The bytes end before the base value does.
    TooShort,
    /// The packed deltas are not readable.
    Deltas(BitPackError),
}

/// The text of an error.
pub open spec fn delta_error_text(e: DeltaError) -> Seq<char> {
    match e {
        DeltaError::TooShort => "DeltaBitPacked too short"@,
        DeltaError::Deltas(e) => pack_error_text(e),
    }
}

impl DeltaError {
    /// The text of the error.
    #[must_use]
    pub fn message(&self) -> (r: String)
        ensures
            r@ == delta_error_text(*self),
    {
        match self {
            DeltaError::TooShort => "DeltaBitPacked too short".to_owned(),
            DeltaError::Deltas(e) => e.message(),
        }
    }
}

/// The differences of neighbours; a difference below zero counts as zero.
pub open spec fn deltas_of(values: Seq<u64>) -> Seq<u64>
    recommends
        values.len() > 0,
{
    Seq::new(
        (values.len() - 1) as nat,
        |i: int|
            if values[i] <= values[i + 1] {
                (values[i + 1] - values[i]) as u64
            } else {
                0
            },
    )
}

/// The base followed by its sums with ever more deltas, modulo 2^64.
pub open spec fn running_sums(base: u64, deltas: Seq<u64>) -> Seq<u64>
    decreases deltas.len(),
{
    if deltas.len() == 0 {
        seq![base]
    } else {
        let sums = running_sums(base, deltas.drop_last());
        sums.push(sums.last().wrapping_add(deltas.last()))
    }
}

/// The width under which a zero without deltas is the single value zero: that of
/// the zero itself.
pub const SINGLE_ZERO_WIDTH: u8 = 1;

/// The values that a base and deltas of the given width stand for. A base of zero
/// without deltas is the single value zero under the width of one bit, and no
/// value at all under any other width.
pub open spec fn delta_decoded(base: u64, width: u8, deltas: Seq<u64>) -> Seq<u64> {
    if deltas.len() == 0 && base == 0 && width != SINGLE_ZERO_WIDTH {
        Seq::empty()
    } else {
        running_sums(base, deltas)
    }
}

/// Whether no value is smaller than the one before it.
pub open spec fn is_sorted(values: Seq<u64>) -> bool {
    forall|i: int, j: int| 0 <= i <= j < values.len() ==> values[i] <= values[j]
}

proof fn lemma_running_sums_len(base: u64, deltas: Seq<u64>)
    ensures
        running_sums(base, deltas).len() == deltas.len() + 1,
    decreases deltas.len(),
{
    if deltas.len() > 0 {
        lemma_running_sums_len(base, deltas.drop_last());
    }
}

proof fn lemma_running_sums_of_deltas(values: Seq<u64>)
    requires
        values.len() > 0,
        is_sorted(values),
    ensures
        running_sums(values[0], deltas_of(values)) == values,
    decreases values.len(),
{
    let deltas = deltas_of(values);
    if values.len() == 1 {
        assert(running_sums(values[0], deltas) =~= values);
    } else {
        let shorter = values.drop_last();
        assert(deltas_of(shorter) =~= deltas.drop_last());
        lemma_running_sums_of_deltas(shorter);
        let n = values.len() - 1;
        assert(values[n - 1] <= values[n]);
        assert(running_sums(values[0], deltas) =~= values);
    }
}

/// Decoding begins with the base, and each value is the one before it and the delta
/// between them, where a sum beyond 64 bits starts over.
pub proof fn law_deltas_add_up(base: u64, deltas: Seq<u64>, i: int)
    ensures
        running_sums(base, deltas).len() == deltas.len() + 1,
        running_sums(base, deltas)[0] == base,
        0 <= i < deltas.len() ==> running_sums(base, deltas)[i + 1] == (running_sums(
            base,
            deltas,
        )[i] + deltas[i]) % 0x1_0000_0000_0000_0000,
    decreases deltas.len(),
{
    lemma_running_sums_len(base, deltas);
    if deltas.len() > 0 {
        law_deltas_add_up(base, deltas.drop_last(), i);
        lemma_running_sums_len(base, deltas.drop_last());
    }
}

/// The deltas of a sequence are the differences of neighbours, and zero where a value is
/// below the one before it.
pub proof fn law_deltas_are_differences(values: Seq<u64>, i: int)
    requires
        0 <= i,
        i + 1 < values.len(),
    ensures
        deltas_of(values).len() == values.len() - 1,
        values[i] <= values[i + 1] ==> deltas_of(values)[i] == values[i + 1] - values[i],
        values[i] > values[i + 1] ==> deltas_of(values)[i] == 0,
{
}

/// A base of zero without deltas is a single zero under a width of one bit, and nothing
/// under any other.
pub proof fn law_single_zero_and_nothing(base: u64, width: u8, deltas: Seq<u64>)
    ensures
        delta_decoded(0, 1, Seq::empty()) == seq![0u64],
        width != 1 ==> delta_decoded(0, width, Seq::empty()) == Seq::<u64>::empty(),
        base != 0 || deltas.len() > 0 ==> delta_decoded(base, width, deltas).len() == deltas.len()
            + 1 && delta_decoded(base, width, deltas)[0] == base,
{
    law_deltas_add_up(base, deltas, 0);
}

/// The base under which a sequence is stored: its first value, and zero where
/// there is none.
pub open spec fn delta_base(values: Seq<u64>) -> u64 {
    if values.len() == 0 {
        0
    } else {
        values[0]
    }
}

/// The deltas under which a sequence is stored.
pub open spec fn stored_deltas(values: Seq<u64>) -> Seq<u64> {
    if values.len() == 0 {
        Seq::empty()
    } else {
        deltas_of(values)
    }
}

/// Whether the deltas of a sequence are stored under a width: the least that
/// holds them all. Without deltas the width is zero, but for the single value
/// zero, which it tells apart from no value.
pub open spec fn is_delta_width(values: Seq<u64>, width: u8) -> bool {
    if values.len() > 1 {
        is_minimal_width(deltas_of(values), width as int)
    } else if values == seq![0u64] {
        width == SINGLE_ZERO_WIDTH
    } else {
        width == 0
    }
}

/// Decoding undoes encoding for every sorted sequence.
pub proof fn law_delta_round_trip(values: Seq<u64>, width: u8)
    requires
        is_sorted(values),
        is_delta_width(values, width),
    ensures
        delta_decoded(delta_base(values), width, stored_deltas(values)) == values,
{
    if values.len() == 0 {
        assert(values =~= Seq::empty());
    } else {
        lemma_running_sums_of_deltas(values);
        if values.len() == 1 && values[0] == 0 {
            assert(values =~= seq![0u64]);
        }
    }
}

/// What the serialized form of delta-encoded integers says: the base, and the
/// width, count and words of the deltas.
pub open spec fn delta_parsed(bytes: Seq<u8>) -> Result<(u64, (u8, nat, Seq<u8>)), DeltaError> {
    if bytes.len() < 8 {
        Err(DeltaError::TooShort)
    } else {
        match parsed(bytes.skip(8)) {
            Ok(deltas) => Ok((le_value(bytes.subrange(0, 8)) as u64, deltas)),
            Err(e) => Err(DeltaError::Deltas(e)),
        }
    }
}

/// Reading the serialized form of delta-encoded integers gives back what was
/// written.
pub proof fn law_delta_bytes_round_trip(base: u64, bits: u8, count: nat, raw: Seq<u8>)
    requires
        bits <= 64,
        count <= u32::MAX,
        raw.len() == 8 * words_needed(bits as int, count as int),
    ensures
        delta_parsed(le_bytes(base as nat, 8) + serialized(bits, count, raw)) == Ok::<
            (u64, (u8, nat, Seq<u8>)),
            DeltaError,
        >((base, (bits, count, raw))),
{
    lemma_le_bytes_len(base as nat, 8);
    lemma_pow256();
    lemma_le_value_of_bytes(base as nat, 8);
    law_bytes_round_trip(bits, count, raw);
    let s = le_bytes(base as nat, 8) + serialized(bits, count, raw);
    assert(s.subrange(0, 8) =~= le_bytes(base as nat, 8));
    assert(s.skip(8) =~= serialized(bits, count, raw));
}

/// The bytes written for a sorted sequence, the empty one and a single zero among
/// them, read back as that sequence.
pub proof fn law_delta_bytes_give_the_values_back(values: Seq<u64>, width: u8, words: Seq<u64>)
    requires
        is_sorted(values),
        is_delta_width(values, width),
        is_packed(words, stored_deltas(values), width as int),
        stored_deltas(values).len() <= u32::MAX,
    ensures
        match delta_parsed(
            le_bytes(delta_base(values) as nat, 8) + serialized(
                width,
                stored_deltas(values).len(),
                le_u64s(words),
            ),
        ) {
            Ok((base, (bits, count, raw))) => delta_decoded(
                base,
                bits,
                unpacked(u64s_of(raw), bits as int, count),
            ) == values,
            Err(_) => false,
        },
{
    lemma_u64s_round_trip(words);
    law_unpack_pack(words, stored_deltas(values), width as int);
    law_delta_bytes_round_trip(
        delta_base(values),
        width,
        stored_deltas(values).len(),
        le_u64s(words),
    );
    law_delta_round_trip(values, width);
}

/// The best compression for sorted integers: delta encoding plus bit-packing.
///
/// Stores the first value, then packs the differences between consecutive
/// values. For sequential ids like 1000, 1001, 1002 all deltas are 1 and take a
/// single bit each.
///
/// A single zero has the base and the deltas of the empty sequence. The width in
/// the header of the deltas tells the two apart, in memory and in bytes.
#[derive(Debug)]
pub struct DeltaBitPacked {
    base: u64,
    deltas: BitPackedInts,
}

impl Clone for DeltaBitPacked {
    fn clone(&self) -> (r: Self)
        ensures
            r.base_value() == self.base_value(),
            r.packed_deltas().raw() == self.packed_deltas().raw(),
            r.packed_deltas().words() == self.packed_deltas().words(),
            r.packed_deltas().bits() == self.packed_deltas().bits(),
            r.packed_deltas().count() == self.packed_deltas().count(),
    {
        proof {
            use_type_invariant(self);
        }
        Self { base: self.base, deltas: self.deltas.clone() }
    }
}

impl DeltaBitPacked {
    #[verifier::type_invariant]
    spec fn well_formed(&self) -> bool {
        self.deltas.bits() <= 64
    }

    /// The first value.
    pub closed spec fn base_value(&self) -> u64 {
        self.base
    }

    /// The packed deltas.
    pub closed spec fn packed_deltas(&self) -> BitPackedInts {
        self.deltas
    }

    /// The values held.
    pub open spec fn values(&self) -> Seq<u64> {
        delta_decoded(
            self.base_value(),
            self.packed_deltas().bits(),
            self.packed_deltas().values(),
        )
    }

    /// Encodes sorted values. Where a value is below the one before it, the
    /// difference is stored as zero.
    #[must_use]
    pub fn encode(values: &[u64]) -> (r: Self)
        ensures
            r.base_value() == delta_base(values@),
            r.packed_deltas().values() == stored_deltas(values@),
            is_packed(
                r.packed_deltas().words(),
                stored_deltas(values@),
                r.packed_deltas().bits() as int,
            ),
            is_delta_width(values@, r.packed_deltas().bits()),
            r.packed_deltas().is_inline(),
            is_sorted(values@) ==> r.values() == values@,
    {
        let mut delta_values: Vec<u64> = Vec::new();
        if values.is_empty() {
            let r = Self { base: 0, deltas: BitPackedInts::pack(delta_values.as_slice()) };
            assert(r.values() =~= values@);
            return r;
        }
        let base: u64 = values[0];
        if base == 0 && values.len() == 1 {
            let deltas = BitPackedInts::pack_with_bits(delta_values.as_slice(), SINGLE_ZERO_WIDTH);
            let r = Self { base, deltas };
            proof {
                assert(values@ =~= seq![0u64]);
                assert(delta_values@ =~= deltas_of(values@));
                law_delta_round_trip(values@, SINGLE_ZERO_WIDTH);
            }
            return r;
        }
        let mut i: usize = 1;
        while i < values.len()
            invariant
                1 <= i <= values@.len(),
                delta_values@.len() == i - 1,
                forall|k: int| #![trigger delta_values@[k]]
                    0 <= k < i - 1 ==> delta_values@[k] == deltas_of(values@)[k],
            decreases values.len() - i,
        {
            delta_values.push(values[i].saturating_sub(values[i - 1]));
            i = i + 1;
        }
        assert(delta_values@ =~= deltas_of(values@));
        let deltas = BitPackedInts::pack(delta_values.as_slice());
        let r = Self { base, deltas };
        proof {
            assert(seq![0u64][0] == 0);
            if is_sorted(values@) {
                law_delta_round_trip(values@, deltas.bits());
            }
        }
        r
    }

    /// Decodes back to the values.
    #[must_use]
    pub fn decode(&self) -> (r: Vec<u64>)
        ensures
            r@ == self.values(),
    {
        proof {
            use_type_invariant(self);
        }
        if self.is_empty() {
            proof {
                lemma_running_sums_len(self.base, self.deltas.values());
                assert(self.values() =~= Seq::empty());
            }
            return Vec::new();
        }
        let delta_values: Vec<u64> = self.deltas.unpack();
        let mut result: Vec<u64> = Vec::new();
        let mut current: u64 = self.base;
        result.push(current);
        let mut i: usize = 0;
        assert(delta_values@.take(0) =~= Seq::<u64>::empty());
        while i < delta_values.len()
            invariant
                i <= delta_values@.len(),
                result@ == running_sums(self.base, delta_values@.take(i as int)),
                result@.len() > 0,
                result@.last() == current,
            decreases delta_values.len() - i,
        {
            assert(delta_values@.take(i + 1).drop_last() =~= delta_values@.take(i as int));
            current = current.wrapping_add(delta_values[i]);
            result.push(current);
            i = i + 1;
        }
        assert(delta_values@.take(i as int) =~= delta_values@);
        result
    }

    /// The number of values.
    #[must_use]
    pub fn len(&self) -> (r: usize)
        requires
            self.packed_deltas().count() < usize::MAX,
        ensures
            r == self.values().len(),
    {
        proof {
            lemma_running_sums_len(self.base, self.deltas.values());
        }
        if self.is_empty() {
            0
        } else {
            self.deltas.len() + 1
        }
    }

    /// Whether there are no values.
    #[must_use]
    pub fn is_empty(&self) -> (r: bool)
        ensures
            r == (self.values().len() == 0),
    {
        proof {
            lemma_running_sums_len(self.base, self.deltas.values());
        }
        self.deltas.is_empty() && self.base == 0 && self.deltas.bits_per_value()
            != SINGLE_ZERO_WIDTH
    }

    /// The base value.
    #[must_use]
    pub fn base(&self) -> (r: u64)
        ensures
            r == self.base_value(),
    {
        self.base
    }

    /// The bits used per delta.
    #[must_use]
    pub fn bits_per_delta(&self) -> (r: u8)
        ensures
            r == self.packed_deltas().bits(),
    {
        self.deltas.bits_per_value()
    }

    /// The bytes that the values take unpacked and packed, which is what the
    /// compression ratio divides. `None` when there is no value.
    #[must_use]
    pub fn compression_sizes(&self) -> (r: Option<(usize, usize)>)
        requires
            8 * self.packed_deltas().count() + 8 <= usize::MAX,
            self.packed_deltas().raw().len() + 8 <= usize::MAX,
        ensures
            r == (if self.values().len() == 0 {
                None::<(usize, usize)>
            } else {
                Some(
                    (
                        (8 * self.values().len()) as usize,
                        (8 + self.packed_deltas().raw().len()) as usize,
                    ),
                )
            }),
    {
        proof {
            lemma_running_sums_len(self.base, self.deltas.values());
        }
        let count: usize = self.len();
        if count == 0 {
            return None;
        }
        let data: Bytes = self.deltas.data_bytes();
        Some((count * 8, 8 + bytes_as_slice(&data).len()))
    }

    /// Serializes to bytes: the base as eight bytes, then the packed deltas.
    pub fn to_bytes(&self) -> (r: Result<Vec<u8>, BitPackError>)
        ensures
            match r {
                Ok(buf) => self.packed_deltas().count() <= u32::MAX && buf@ == le_bytes(
                    self.base_value() as nat,
                    8,
                ) + serialized(
                    self.packed_deltas().bits(),
                    self.packed_deltas().count(),
                    self.packed_deltas().raw(),
                ),
                Err(e) => self.packed_deltas().count() > u32::MAX && e
                    == BitPackError::CountTooLarge(self.packed_deltas().count() as usize),
            },
    {
        match self.deltas.to_bytes() {
            Ok(delta_bytes) => {
                let mut buf: Vec<u8> = Vec::new();
                push_u64_le(&mut buf, self.base);
                buf.extend_from_slice(delta_bytes.as_slice());
                assert(buf@ =~= le_bytes(self.base as nat, 8) + delta_bytes@);
                Ok(buf)
            },
            Err(e) => Err(e),
        }
    }

    /// Deserializes from bytes.
    pub fn from_bytes(bytes: &[u8]) -> (r: Result<Self, DeltaError>)
        ensures
            match r {
                Ok(p) => {
                    &&& delta_parsed(bytes@) == Ok::<(u64, (u8, nat, Seq<u8>)), DeltaError>(
                        (
                            p.base_value(),
                            (
                                p.packed_deltas().bits(),
                                p.packed_deltas().count(),
                                p.packed_deltas().raw(),
                            ),
                        ),
                    )
                    &&& p.packed_deltas().words() == u64s_of(p.packed_deltas().raw())
                    &&& !p.packed_deltas().is_inline()
                },
                Err(e) => delta_parsed(bytes@) == Err::<(u64, (u8, nat, Seq<u8>)), DeltaError>(e),
            },
    {
        if bytes.len() < 8 {
            return Err(DeltaError::TooShort);
        }
        let base: u64 = read_u64_le(bytes, 0);
        let rest: &[u8] = vstd::slice::slice_subrange(bytes, 8, bytes.len());
        assert(rest@ =~= bytes@.skip(8));
        match BitPackedInts::from_bytes(rest) {
            Ok(deltas) => Ok(Self { base, deltas }),
            Err(e) => Err(DeltaError::Deltas(e)),
        }
    }
}

} // verus!
