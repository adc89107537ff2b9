//! Bit vectors that count their ones quickly, and wavelet trees built on them.

use bytes::Bytes;
use vstd::arithmetic::power2::{lemma_pow2_pos, lemma_pow2_unfold, pow2};
use vstd::prelude::*;
use vstd::string::StringExecFns;

use crate::codec::bitpack::BitPackedInts;
use crate::codec::bitpack::{all_fit, lane, lanes, mask, unpacked, words_needed};
use crate::codec::bitpack::{law_lanes_are_digits, law_where_values_stand};
use crate::le::{le_u64s, u64s_of};
use crate::text::decimal;
use crate::text::push_decimal;
use crate::trusted::buffer::bytes_as_slice;
use crate::trusted::buffer::bytes_content;

verus! {

/// The bits that packed words of width one hold.
pub open spec fn bits_in(words: Seq<u64>, len: nat) -> Seq<bool> {
    unpacked(words, 1, len).map_values(|v: u64| v == 1)
}

/// How many words `len` bits take.
pub open spec fn bit_words(len: nat) -> nat {
    (len + 63) / 64
}

/// The bytes are too few for the bits, or no whole number of words.
#[derive(Debug, Clone, Copy, PartialEq, Eq, Structural)]
pub struct BitVectorError;

/// A vector of bits, in words of 64.
#[derive(Debug)]
pub struct BitVector {
    packed: BitPackedInts,
}

impl BitVector {
    #[verifier::type_invariant]
    spec fn well_formed(&self) -> bool {
        &&& self.packed.bits() == 1
        &&& self.packed.raw().len() % 8 == 0
        &&& 8 * bit_words(self.packed.count()) <= self.packed.raw().len()
        &&& self.packed.words() == u64s_of(self.packed.raw())
    }

    /// The bytes of the words.
    pub closed spec fn raw(&self) -> Seq<u8> {
        self.packed.raw()
    }

    /// The number of bits.
    pub closed spec fn count(&self) -> nat {
        self.packed.count()
    }

    /// The bits.
    pub open spec fn bits(&self) -> Seq<bool> {
        bits_in(u64s_of(self.raw()), self.count())
    }

    /// Takes over bytes that hold at least `len` bits in whole words. Nothing is
    /// copied.
    pub fn from_mmap(data: Bytes, len: usize) -> (r: Result<Self, BitVectorError>)
        ensures
            r is Ok <==> bytes_content(data).len() % 8 == 0 && 8 * bit_words(len as nat)
                <= bytes_content(data).len(),
            r matches Ok(b) ==> b.raw() == bytes_content(data) && b.count() == len,
    {
        let size: usize = bytes_as_slice(&data).len();
        let needed: usize = len / 64 + (if len % 64 == 0 {
            0
        } else {
            1
        });
        if size % 8 != 0 || size / 8 < needed {
            return Err(BitVectorError);
        }
        Ok(Self { packed: BitPackedInts::from_bytes_storage(data, 1, len) })
    }

    /// Packs bits.
    #[must_use]
    pub fn from_bools(bits: &Vec<bool>) -> (r: Self)
        ensures
            r.bits() == bits@,
            r.count() == bits@.len(),
            r.raw().len() == 8 * bit_words(bits@.len()),
    {
        let mut values: Vec<u64> = Vec::new();
        let mut i: usize = 0;
        while i < bits.len()
            invariant
                i <= bits@.len(),
                values@.len() == i,
                forall|k: int| #![trigger values@[k]]
                    0 <= k < i ==> values@[k] == if bits@[k] {
                        1u64
                    } else {
                        0u64
                    },
            decreases bits.len() - i,
        {
            values.push(
                if bits[i] {
                    1
                } else {
                    0
                },
            );
            i = i + 1;
        }
        proof {
            assert(1u64 << 1u64 == 2) by (bit_vector);
            assert(mask(1) == 1);
            assert(all_fit(values@, 1));
        }
        let packed = BitPackedInts::pack_with_bits(values.as_slice(), 1);
        proof {
            packed.law_words_are_raw();
            assert(lanes(1) == 64);
            assert(words_needed(1, values@.len() as int) == bit_words(values@.len()));
            assert(packed.raw() == le_u64s(packed.words()));
        }
        let r = Self { packed };
        proof {
            assert(r.bits() =~= bits@) by {
                assert forall|k: int| 0 <= k < bits@.len() implies r.bits()[k] == bits@[k] by {
                    assert(packed.values()[k] == values@[k]);
                }
            }
        }
        r
    }

    /// The number of bits.
    #[must_use]
    pub fn len(&self) -> (r: usize)
        ensures
            r == self.count(),
            r == self.bits().len(),
            self.raw().len() % 8 == 0,
            8 * bit_words(self.count()) <= self.raw().len(),
    {
        proof {
            use_type_invariant(self);
        }
        self.packed.len()
    }

    /// A bit, or `None` past the end.
    #[must_use]
    pub fn get(&self, i: usize) -> (r: Option<bool>)
        ensures
            r == (if i < self.bits().len() {
                Some(self.bits()[i as int])
            } else {
                None
            }),
    {
        proof {
            use_type_invariant(self);
            assert(lanes(1) == 64);
        }
        match self.packed.get(i) {
            Some(v) => {
                assert(unpacked(u64s_of(self.raw()), 1, self.count())[i as int] == v);
                Some(v == 1)
            },
            None => {
                assert(i >= self.count() || i as int / 64 >= self.packed.words().len());
                None
            },
        }
    }

    /// The bytes of the words.
    #[must_use]
    pub fn data_bytes(&self) -> (r: Bytes)
        ensures
            bytes_content(r) == self.raw(),
    {
        self.packed.data_bytes()
    }
}

/// How many of `bits` are ones.
pub open spec fn ones(bits: Seq<bool>) -> nat
    decreases bits.len(),
{
    if bits.len() == 0 {
        0
    } else {
        ones(bits.drop_last()) + if bits.last() {
            1nat
        } else {
            0nat
        }
    }
}

proof fn lemma_ones_bound(bits: Seq<bool>)
    ensures
        ones(bits) <= bits.len(),
    decreases bits.len(),
{
    if bits.len() > 0 {
        lemma_ones_bound(bits.drop_last());
    }
}

proof fn lemma_ones_prefix(bits: Seq<bool>, i: int)
    requires
        0 <= i < bits.len(),
    ensures
        ones(bits.take(i + 1)) == ones(bits.take(i)) + if bits[i] {
            1nat
        } else {
            0nat
        },
{
    assert(bits.take(i + 1).drop_last() =~= bits.take(i));
}

proof fn lemma_ones_grow(bits: Seq<bool>, i: int, j: int)
    requires
        0 <= i <= j <= bits.len(),
    ensures
        ones(bits.take(i)) <= ones(bits.take(j)),
        ones(bits.take(j)) - ones(bits.take(i)) <= j - i,
    decreases j,
{
    if i < j {
        lemma_ones_grow(bits, i, j - 1);
        lemma_ones_prefix(bits, j - 1);
    }
}

/// Bit `i` is digit `i % 64` of word `i / 64`, and bits take as many words as they need.
pub proof fn law_where_bits_stand(words: Seq<u64>, len: nat, i: int)
    requires
        0 <= i < len,
        i < 64 * words.len(),
    ensures
        bits_in(words, len).len() == len,
        bits_in(words, len)[i] <==> (words[i / 64] as nat / pow2((i % 64) as nat)) % 2 == 1,
        64 * (bit_words(len) - 1) < len <= 64 * bit_words(len),
        bit_words(0) == 0,
{
    vstd::arithmetic::power2::lemma2_to64();
    let k = i % 64;
    let w = i / 64;
    assert(lanes(1) == 64);
    law_where_values_stand(words, 1, w, k);
    law_lanes_are_digits(words[w], k, 1);
    assert(w * lanes(1) + k == i);
    assert(unpacked(words, 1, len)[i] == lane(words[w], k, 1));
    assert(k * 1 == k);
}

/// How many ones there are: none in nothing, one in a one, none in a zero, and those of
/// both parts in two parts together.
pub proof fn law_ones_add_up(a: Seq<bool>, b: Seq<bool>)
    ensures
        ones(Seq::empty()) == 0,
        ones(seq![true]) == 1,
        ones(seq![false]) == 0,
        ones(a + b) == ones(a) + ones(b),
    decreases b.len(),
{
    assert(ones(Seq::empty()) == 0);
    assert(seq![true].drop_last() =~= Seq::<bool>::empty());
    assert(seq![false].drop_last() =~= Seq::<bool>::empty());
    if b.len() > 0 {
        law_ones_add_up(a, b.drop_last());
        assert((a + b).drop_last() =~= a + b.drop_last());
    } else {
        assert(a + b =~= a);
    }
}

/// A bit vector with a count of ones before each word, so that the ones before
/// any position are counted quickly.
#[derive(Debug)]
pub struct SuccinctBitVector {
    inner: BitVector,
    samples: Vec<usize>,
}

impl SuccinctBitVector {
    #[verifier::type_invariant]
    spec fn well_formed(&self) -> bool {
        &&& self.samples@.len() == self.inner.bits().len() / 64 + 1
        &&& forall|w: int| #![trigger self.samples@[w]]
            0 <= w < self.samples@.len() ==> self.samples@[w] == ones(
                self.inner.bits().take(64 * w),
            )
    }

    /// The bit vector.
    pub closed spec fn vector(&self) -> BitVector {
        self.inner
    }

    /// The bits.
    pub open spec fn bits(&self) -> Seq<bool> {
        self.vector().bits()
    }

    /// Counts the ones before each word.
    #[must_use]
    pub fn from_bitvec(inner: BitVector) -> (r: Self)
        ensures
            r.vector() == inner,
    {
        let n: usize = inner.len();
        let ghost bits = inner.bits();
        let mut samples: Vec<usize> = Vec::new();
        samples.push(0);
        let mut count: usize = 0;
        let mut i: usize = 0;
        assert(bits.take(0) =~= Seq::<bool>::empty());
        while i < n
            invariant
                i <= n == bits.len(),
                bits == inner.bits(),
                count == ones(bits.take(i as int)),
                count <= i,
                samples@.len() == i / 64 + 1,
                forall|w: int| #![trigger samples@[w]]
                    0 <= w < samples@.len() ==> samples@[w] == ones(bits.take(64 * w)),
            decreases n - i,
        {
            proof {
                lemma_ones_prefix(bits, i as int);
            }
            match inner.get(i) {
                Some(true) => {
                    count = count + 1;
                },
                _ => {},
            }
            i = i + 1;
            if i % 64 == 0 {
                samples.push(count);
                assert(64 * (i / 64) == i);
            }
        }
        Self { inner, samples }
    }

    /// The bit vector.
    #[must_use]
    pub fn inner(&self) -> (r: &BitVector)
        ensures
            *r == self.vector(),
    {
        &self.inner
    }

    /// The number of bits.
    #[must_use]
    pub fn len(&self) -> (r: usize)
        ensures
            r == self.bits().len(),
            r == self.vector().count(),
            self.vector().raw().len() % 8 == 0,
            8 * bit_words(self.vector().count()) <= self.vector().raw().len(),
    {
        self.inner.len()
    }

    /// A bit, or `None` past the end.
    #[must_use]
    pub fn get(&self, i: usize) -> (r: Option<bool>)
        ensures
            r == (if i < self.bits().len() {
                Some(self.bits()[i as int])
            } else {
                None
            }),
    {
        self.inner.get(i)
    }

    /// How many ones there are before position `i`.
    #[must_use]
    pub fn rank1(&self, i: usize) -> (r: usize)
        requires
            i <= self.bits().len(),
        ensures
            r == ones(self.bits().take(i as int)),
            r <= i,
    {
        proof {
            use_type_invariant(self);
        }
        let ghost bits = self.bits();
        let word: usize = i / 64;
        let mut count: usize = self.samples[word];
        let mut k: usize = word * 64;
        proof {
            lemma_ones_bound(bits.take(64 * word));
        }
        while k < i
            invariant
                k <= i <= bits.len(),
                bits == self.bits(),
                count == ones(bits.take(k as int)),
                count <= k,
            decreases i - k,
        {
            proof {
                lemma_ones_prefix(bits, k as int);
            }
            match self.inner.get(k) {
                Some(true) => {
                    count = count + 1;
                },
                _ => {},
            }
            k = k + 1;
        }
        count
    }
}

/// Where position `pos` of a level goes on the next level: zeros come first, in
/// order, and then the ones.
pub open spec fn next_position(bits: Seq<bool>, pos: int) -> int {
    if bits[pos] {
        bits.len() - ones(bits) + ones(bits.take(pos))
    } else {
        pos - ones(bits.take(pos))
    }
}

/// The number that the bits of a position spell, level by level.
pub open spec fn spelled(levels: Seq<Seq<bool>>, pos: int, acc: nat) -> nat
    decreases levels.len(),
{
    if levels.len() == 0 {
        acc
    } else {
        spelled(
            levels.skip(1),
            next_position(levels[0], pos),
            2 * acc + if levels[0][pos] {
                1nat
            } else {
                0nat
            },
        )
    }
}

/// Bit `k` of a number.
pub open spec fn number_bit(n: nat, k: nat) -> bool {
    (n / pow2(k)) % 2 == 1
}

/// The bits `k` of numbers.
pub open spec fn bits_of(numbers: Seq<nat>, k: nat) -> Seq<bool> {
    numbers.map_values(|n: nat| number_bit(n, k))
}

/// The numbers whose bit `k` is as wanted, in order.
pub open spec fn with_bit(numbers: Seq<nat>, k: nat, want: bool) -> Seq<nat>
    decreases numbers.len(),
{
    if numbers.len() == 0 {
        Seq::empty()
    } else {
        let rest = with_bit(numbers.drop_last(), k, want);
        if number_bit(numbers.last(), k) == want {
            rest.push(numbers.last())
        } else {
            rest
        }
    }
}

/// The numbers in the order of the next level.
pub open spec fn parted(numbers: Seq<nat>, k: nat) -> Seq<nat> {
    with_bit(numbers, k, false) + with_bit(numbers, k, true)
}

/// The levels of the wavelet tree of numbers of `height` bits.
pub open spec fn tree_levels(numbers: Seq<nat>, height: nat) -> Seq<Seq<bool>>
    decreases height,
{
    if height == 0 {
        Seq::empty()
    } else {
        let k = (height - 1) as nat;
        seq![bits_of(numbers, k)] + tree_levels(parted(numbers, k), k)
    }
}

proof fn lemma_with_bit_count(numbers: Seq<nat>, k: nat)
    ensures
        with_bit(numbers, k, true).len() == ones(bits_of(numbers, k)),
        with_bit(numbers, k, false).len() == numbers.len() - ones(bits_of(numbers, k)),
    decreases numbers.len(),
{
    if numbers.len() > 0 {
        lemma_with_bit_count(numbers.drop_last(), k);
        assert(bits_of(numbers, k).drop_last() =~= bits_of(numbers.drop_last(), k));
    }
}

proof fn lemma_with_bit_place(numbers: Seq<nat>, k: nat, i: int)
    requires
        0 <= i < numbers.len(),
    ensures
        number_bit(numbers[i], k) ==> ones(bits_of(numbers, k).take(i)) < with_bit(
            numbers,
            k,
            true,
        ).len() && with_bit(numbers, k, true)[ones(bits_of(numbers, k).take(i)) as int]
            == numbers[i],
        !number_bit(numbers[i], k) ==> 0 <= i - ones(bits_of(numbers, k).take(i)) < with_bit(
            numbers,
            k,
            false,
        ).len() && with_bit(numbers, k, false)[i - ones(bits_of(numbers, k).take(i))]
            == numbers[i],
    decreases numbers.len(),
{
    let shorter = numbers.drop_last();
    assert(bits_of(shorter, k).take(i) =~= bits_of(numbers, k).take(i));
    if i < shorter.len() {
        lemma_with_bit_place(shorter, k, i);
    } else {
        lemma_with_bit_count(shorter, k);
        assert(bits_of(numbers, k).take(i) =~= bits_of(shorter, k));
    }
}

/// A position keeps its number when it moves to the next level.
proof fn lemma_position_keeps_number(numbers: Seq<nat>, k: nat, i: int)
    requires
        0 <= i < numbers.len(),
    ensures
        parted(numbers, k).len() == numbers.len(),
        0 <= next_position(bits_of(numbers, k), i) < numbers.len(),
        parted(numbers, k)[next_position(bits_of(numbers, k), i)] == numbers[i],
{
    lemma_with_bit_count(numbers, k);
    lemma_with_bit_place(numbers, k, i);
}

/// The levels of a wavelet tree spell the numbers that it was built from.
proof fn lemma_levels_spell(numbers: Seq<nat>, height: nat, i: int, acc: nat)
    requires
        0 <= i < numbers.len(),
    ensures
        spelled(tree_levels(numbers, height), i, acc) == acc * pow2(height) + numbers[i] % pow2(
            height,
        ),
    decreases height,
{
    if height == 0 {
        vstd::arithmetic::power2::lemma2_to64();
        assert(numbers[i] % 1 == 0);
        assert(acc * 1 == acc);
    } else {
        let k = (height - 1) as nat;
        let levels = tree_levels(numbers, height);
        let rest = tree_levels(parted(numbers, k), k);
        let n = numbers[i];
        lemma_position_keeps_number(numbers, k, i);
        assert(levels.skip(1) =~= rest);
        assert(levels[0] == bits_of(numbers, k));
        let next = 2 * acc + if levels[0][i] {
            1nat
        } else {
            0nat
        };
        lemma_levels_spell(
            parted(numbers, k),
            k,
            next_position(bits_of(numbers, k), i),
            next,
        );
        lemma_pow2_unfold(height);
        lemma_pow2_pos(k);
        let p = pow2(k);
        let q = n / p;
        let b = q % 2;
        // n % 2p == (q % 2) * p + n % p
        vstd::arithmetic::div_mod::lemma_fundamental_div_mod(n as int, p as int);
        vstd::arithmetic::div_mod::lemma_fundamental_div_mod(q as int, 2);
        let r = n % p;
        assert(n == p * q + r);
        assert(q == 2 * (q / 2) + b);
        assert(n == (2 * p) * (q / 2) + (b * p + r)) by (nonlinear_arith)
            requires
                n == p * q + r,
                q == 2 * (q / 2) + b,
        ;
        assert(0 <= b * p + r < 2 * p) by (nonlinear_arith)
            requires
                0 <= b < 2,
                0 <= r < p,
        ;
        assert((2 * p) * (q / 2) == (q / 2) * (2 * p)) by (nonlinear_arith);
        vstd::arithmetic::div_mod::lemma_fundamental_div_mod_converse(
            n as int,
            (2 * p) as int,
            (q / 2) as int,
            (b * p + r) as int,
        );
        assert(next == 2 * acc + b);
        assert((2 * acc + b) * p + r == acc * (2 * p) + (b * p + r)) by (nonlinear_arith);
    }
}

/// What is wrong with the parts of a wavelet tree.
#[allow(inconsistent_fields)]
#[derive(Debug, Clone, Copy, PartialEq, Eq, Structural)]
pub enum WaveletInvariantError {
    /// There are more or fewer levels than the height says.
    LevelCount {
        /// The height.
        expected: usize,
        /// The number of levels.
        actual: usize,
    },
    /// A level has more or fewer bits than the sequence has symbols.
    LevelLength {
        /// The level.
        level: usize,
        /// The length of the sequence.
        expected: usize,
        /// The bits of the level.
        actual: usize,
    },
    /// There are more or fewer symbols than the alphabet says.
    SymbolCount {
        /// The size of the alphabet.
        expected: u64,
        /// The number of symbols.
        actual: usize,
    },
    /// A symbol is not larger than the one before it.
    UnsortedSymbols {
        /// The position of the symbol.
        index: usize,
    },
}

/// On the next level a zero stands after the zeros before it, and a one after all zeros
/// and the ones before it. The bits that a position meets spell its number, the highest
/// first.
pub proof fn law_how_levels_spell(bits: Seq<bool>, rest: Seq<Seq<bool>>, pos: int, acc: nat)
    requires
        0 <= pos < bits.len(),
    ensures
        !bits[pos] ==> next_position(bits, pos) + ones(bits.take(pos)) == pos,
        bits[pos] ==> next_position(bits, pos) - ones(bits.take(pos)) == bits.len() - ones(bits),
        spelled(Seq::empty(), pos, acc) == acc,
        bits[pos] ==> spelled(seq![bits] + rest, pos, acc) == spelled(
            rest,
            next_position(bits, pos),
            2 * acc + 1,
        ),
        !bits[pos] ==> spelled(seq![bits] + rest, pos, acc) == spelled(
            rest,
            next_position(bits, pos),
            2 * acc,
        ),
{
    assert((seq![bits] + rest).skip(1) =~= rest);
    assert((seq![bits] + rest)[0] == bits);
}

/// The text of an error.
pub open spec fn wavelet_fault_text(e: WaveletInvariantError) -> Seq<char> {
    match e {
        WaveletInvariantError::LevelCount { expected, actual } => "expected "@ + decimal(
            expected as nat,
        ) + " levels, got "@ + decimal(actual as nat),
        WaveletInvariantError::LevelLength { level, expected, actual } => "level "@ + decimal(
            level as nat,
        ) + " has "@ + decimal(actual as nat) + " bits, expected "@ + decimal(expected as nat),
        WaveletInvariantError::SymbolCount { expected, actual } => "expected "@ + decimal(
            expected as nat,
        ) + " symbols, got "@ + decimal(actual as nat),
        WaveletInvariantError::UnsortedSymbols { index } => "symbol "@ + decimal(index as nat)
            + " is not larger than the one before it"@,
    }
}

impl WaveletInvariantError {
    /// Appends the text of the error.
    pub fn push_text(&self, out: &mut String)
        ensures
            final(out)@ == old(out)@ + wavelet_fault_text(*self),
    {
        match self {
            WaveletInvariantError::LevelCount { expected, actual } => {
                out.append("expected ");
                push_decimal(out, *expected as u64);
                out.append(" levels, got ");
                push_decimal(out, *actual as u64);
            },
            WaveletInvariantError::LevelLength { level, expected, actual } => {
                out.append("level ");
                push_decimal(out, *level as u64);
                out.append(" has ");
                push_decimal(out, *actual as u64);
                out.append(" bits, expected ");
                push_decimal(out, *expected as u64);
            },
            WaveletInvariantError::SymbolCount { expected, actual } => {
                out.append("expected ");
                push_decimal(out, *expected);
                out.append(" symbols, got ");
                push_decimal(out, *actual as u64);
            },
            WaveletInvariantError::UnsortedSymbols { index } => {
                out.append("symbol ");
                push_decimal(out, *index as u64);
                out.append(" is not larger than the one before it");
            },
        }
        assert(out@ =~= old(out)@ + wavelet_fault_text(*self));
    }
}

/// Each symbol is larger than the one before it.
pub open spec fn strictly_sorted(symbols: Seq<u64>) -> bool {
    forall|i: int, j: int| 0 <= i < j < symbols.len() ==> symbols[i] < symbols[j]
}

/// The first of the first `k` levels whose number of bits is not `len`.
pub open spec fn bad_level(levels: Seq<Seq<bool>>, len: usize, k: nat) -> Option<
    WaveletInvariantError,
>
    decreases k,
{
    if k == 0 {
        None
    } else {
        match bad_level(levels, len, (k - 1) as nat) {
            Some(e) => Some(e),
            None => if levels[k - 1].len() != len {
                Some(
                    WaveletInvariantError::LevelLength {
                        level: (k - 1) as usize,
                        expected: len,
                        actual: levels[k - 1].len() as usize,
                    },
                )
            } else {
                None
            },
        }
    }
}

/// The first of the first `k` symbols that is not larger than the one before it.
pub open spec fn bad_symbol(symbols: Seq<u64>, k: nat) -> Option<WaveletInvariantError>
    decreases k,
{
    if k <= 1 {
        None
    } else {
        match bad_symbol(symbols, (k - 1) as nat) {
            Some(e) => Some(e),
            None => if symbols[k - 1] <= symbols[k - 2] {
                Some(WaveletInvariantError::UnsortedSymbols { index: (k - 1) as usize })
            } else {
                None
            },
        }
    }
}

/// What is wrong with the parts of a wavelet tree, if anything.
pub open spec fn parts_fault(
    levels: Seq<Seq<bool>>,
    height: usize,
    sigma: u64,
    len: usize,
    symbols: Seq<u64>,
) -> Option<WaveletInvariantError> {
    if levels.len() != height {
        Some(
            WaveletInvariantError::LevelCount {
                expected: height,
                actual: levels.len() as usize,
            },
        )
    } else if bad_level(levels, len, levels.len()) is Some {
        bad_level(levels, len, levels.len())
    } else if symbols.len() != sigma {
        Some(
            WaveletInvariantError::SymbolCount { expected: sigma, actual: symbols.len() as usize },
        )
    } else {
        bad_symbol(symbols, symbols.len())
    }
}

pub proof fn lemma_no_bad_level(levels: Seq<Seq<bool>>, len: usize, k: nat)
    requires
        k <= levels.len(),
    ensures
        bad_level(levels, len, k) is None <==> forall|i: int| #![trigger levels[i]]
            0 <= i < k ==> levels[i].len() == len,
    decreases k,
{
    if k > 0 {
        lemma_no_bad_level(levels, len, (k - 1) as nat);
    }
}

pub proof fn lemma_no_bad_symbol(symbols: Seq<u64>, k: nat)
    requires
        k <= symbols.len(),
    ensures
        bad_symbol(symbols, k) is None <==> strictly_sorted(symbols.take(k as int)),
    decreases k,
{
    if k > 1 {
        lemma_no_bad_symbol(symbols, (k - 1) as nat);
        let shorter = symbols.take(k - 1);
        let longer = symbols.take(k as int);
        if strictly_sorted(longer) {
            assert forall|i: int, j: int| 0 <= i < j < shorter.len() implies shorter[i]
                < shorter[j] by {
                assert(longer[i] < longer[j]);
            }
            assert(longer[k - 2] < longer[k - 1]);
        }
        if strictly_sorted(shorter) && symbols[k - 1] > symbols[k - 2] {
            assert forall|i: int, j: int| 0 <= i < j < longer.len() implies longer[i]
                < longer[j] by {
                if j == k - 1 {
                    if i < k - 2 {
                        assert(shorter[i] < shorter[k - 2]);
                    }
                } else {
                    assert(shorter[i] < shorter[j]);
                }
            }
        }
    }
}

/// Parts make a wavelet tree exactly if there are as many levels as the height says, each
/// with a bit per symbol of the sequence, and as many symbols as the alphabet has, each
/// larger than the one before it.
pub proof fn law_which_parts_make_a_tree(
    levels: Seq<Seq<bool>>,
    height: usize,
    sigma: u64,
    len: usize,
    symbols: Seq<u64>,
)
    ensures
        parts_fault(levels, height, sigma, len, symbols) is None <==> levels.len() == height && (
        forall|i: int| #![trigger levels[i]] 0 <= i < levels.len() ==> levels[i].len() == len)
            && symbols.len() == sigma && (forall|i: int, j: int| #![trigger symbols[i], symbols[j]]
            0 <= i < j < symbols.len() ==> symbols[i] < symbols[j]),
        levels.len() != height ==> parts_fault(levels, height, sigma, len, symbols) == Some(
            WaveletInvariantError::LevelCount { expected: height, actual: levels.len() as usize },
        ),
        levels.len() == height && (forall|i: int| #![trigger levels[i]]
            0 <= i < levels.len() ==> levels[i].len() == len) && symbols.len() != sigma
            ==> parts_fault(levels, height, sigma, len, symbols) == Some(
            WaveletInvariantError::SymbolCount { expected: sigma, actual: symbols.len() as usize },
        ),
{
    lemma_no_bad_level(levels, len, levels.len());
    lemma_no_bad_symbol(symbols, symbols.len());
    assert(symbols.take(symbols.len() as int) =~= symbols);
}

/// Of levels and symbols that do not fit, the first is told.
pub proof fn law_first_bad_part_is_told(
    levels: Seq<Seq<bool>>,
    len: usize,
    level: usize,
    symbols: Seq<u64>,
    index: usize,
)
    ensures
        level < levels.len() <= usize::MAX && levels[level as int].len() != len && (forall|i: int|
            #![trigger levels[i]]
            0 <= i < level ==> levels[i].len() == len) ==> bad_level(levels, len, levels.len())
            == Some(
            WaveletInvariantError::LevelLength {
                level,
                expected: len,
                actual: levels[level as int].len() as usize,
            },
        ),
        0 < index < symbols.len() <= usize::MAX && symbols[index as int] <= symbols[index - 1]
            && strictly_sorted(symbols.take(index as int)) ==> bad_symbol(symbols, symbols.len())
            == Some(WaveletInvariantError::UnsortedSymbols { index }),
{
    if level < levels.len() <= usize::MAX && levels[level as int].len() != len && (forall|i: int|
        #![trigger levels[i]]
        0 <= i < level ==> levels[i].len() == len) {
        lemma_no_bad_level(levels, len, level as nat);
        assert(bad_level(levels, len, (level + 1) as nat) is Some);
        lemma_bad_level_stays(levels, len, (level + 1) as nat, levels.len());
    }
    if 0 < index < symbols.len() <= usize::MAX && symbols[index as int] <= symbols[index - 1]
        && strictly_sorted(symbols.take(index as int)) {
        lemma_no_bad_symbol(symbols, index as nat);
        assert(bad_symbol(symbols, (index + 1) as nat) is Some);
        lemma_bad_symbol_stays(symbols, (index + 1) as nat, symbols.len());
    }
}

/// The texts of errors.
pub proof fn law_texts_of_tree_faults(
    level: usize,
    expected: usize,
    actual: usize,
    sigma: u64,
    index: usize,
)
    ensures
        wavelet_fault_text(WaveletInvariantError::LevelCount { expected, actual }) == "expected "@
            + decimal(expected as nat) + " levels, got "@ + decimal(actual as nat),
        wavelet_fault_text(WaveletInvariantError::LevelLength { level, expected, actual })
            == "level "@ + decimal(level as nat) + " has "@ + decimal(actual as nat)
            + " bits, expected "@ + decimal(expected as nat),
        wavelet_fault_text(WaveletInvariantError::SymbolCount { expected: sigma, actual })
            == "expected "@ + decimal(sigma as nat) + " symbols, got "@ + decimal(actual as nat),
        wavelet_fault_text(WaveletInvariantError::UnsortedSymbols { index }) == "symbol "@
            + decimal(index as nat) + " is not larger than the one before it"@,
{
}

/// The bits of levels.
pub open spec fn levels_bits(levels: Seq<SuccinctBitVector>) -> Seq<Seq<bool>> {
    levels.map_values(|l: SuccinctBitVector| l.bits())
}

/// A sequence of symbols, kept as one bit vector per bit of the symbols' codes.
#[derive(Debug)]
pub struct WaveletTree {
    levels: Vec<SuccinctBitVector>,
    height: usize,
    sigma: u64,
    len: usize,
    symbols: Vec<u64>,
}

/// The symbol at position `i`: the one whose code the levels spell.
pub open spec fn symbol_at(levels: Seq<Seq<bool>>, len: nat, symbols: Seq<u64>, i: int) -> Option<
    u64,
> {
    if i < len && spelled(levels, i, 0) < symbols.len() {
        Some(symbols[spelled(levels, i, 0) as int])
    } else {
        None
    }
}

/// The symbol at a position is the one in the place that the levels spell, and there is
/// none past the end, nor for a place beyond the alphabet.
pub proof fn law_symbols_are_looked_up(levels: Seq<Seq<bool>>, len: nat, symbols: Seq<u64>, i: int)
    ensures
        i >= len ==> symbol_at(levels, len, symbols, i) is None,
        0 <= i < len && spelled(levels, i, 0) < symbols.len() ==> symbol_at(levels, len, symbols, i)
            == Some(symbols[spelled(levels, i, 0) as int]),
        0 <= i < len && spelled(levels, i, 0) >= symbols.len() ==> symbol_at(
            levels,
            len,
            symbols,
            i,
        ) is None,
{
}

impl WaveletTree {
    #[verifier::type_invariant]
    spec fn well_formed(&self) -> bool {
        &&& self.levels@.len() == self.height
        &&& forall|k: int| #![trigger self.levels@[k]]
            0 <= k < self.levels@.len() ==> self.levels@[k].bits().len() == self.len
        &&& self.symbols@.len() == self.sigma
        &&& strictly_sorted(self.symbols@)
    }

    /// The levels.
    pub closed spec fn level_vectors(&self) -> Seq<SuccinctBitVector> {
        self.levels@
    }

    /// The symbols of the alphabet.
    pub closed spec fn alphabet(&self) -> Seq<u64> {
        self.symbols@
    }

    /// The length of the sequence.
    pub closed spec fn count(&self) -> nat {
        self.len as nat
    }

    /// The symbol at a position.
    pub open spec fn symbol(&self, i: int) -> Option<u64> {
        symbol_at(levels_bits(self.level_vectors()), self.count(), self.alphabet(), i)
    }

    /// What holds of every wavelet tree.
    pub open spec fn is_valid(&self) -> bool {
        &&& forall|k: int| #![trigger self.level_vectors()[k]]
            0 <= k < self.level_vectors().len() ==> self.level_vectors()[k].bits().len()
                == self.count()
        &&& strictly_sorted(self.alphabet())
        &&& self.alphabet().len() <= u64::MAX
        &&& self.level_vectors().len() <= usize::MAX
        &&& self.count() <= usize::MAX
    }

    /// Builds the tree of a sequence.
    #[must_use]
    pub fn new(sequence: &[u64]) -> (r: Self)
        ensures
            r.count() == sequence@.len(),
            strictly_sorted(r.alphabet()),
            forall|s: u64| #[trigger] r.alphabet().contains(s) <==> sequence@.contains(s),
            r.level_vectors().len() == if sequence@.len() == 0 {
                0
            } else {
                height_for(r.alphabet().len())
            },
            r.level_vectors().len() <= 64,
            forall|i: int| #![trigger r.symbol(i)]
                0 <= i < sequence@.len() ==> r.symbol(i) == Some(sequence@[i]),
    {
        let symbols: Vec<u64> = distinct_symbols(sequence);
        let codes: Vec<u64> = codes_of(sequence, symbols.as_slice());
        let sigma: u64 = symbols.len() as u64;
        let height: usize = if sequence.len() == 0 {
            0
        } else {
            bits_for(sigma)
        };
        let levels: Vec<SuccinctBitVector> = build_levels(&codes, height);
        let ghost numbers = codes@.map_values(|c: u64| c as nat);
        proof {
            lemma_levels_lengths(numbers, height as nat);
            assert forall|k: int| #![trigger levels@[k]] 0 <= k < levels@.len() implies levels@[k].bits().len()
                == sequence@.len() by {
                assert(levels_bits(levels@)[k] == levels@[k].bits());
            }
        }
        let r = Self { levels, height, sigma, len: sequence.len(), symbols };
        proof {
            vstd::arithmetic::power2::lemma2_to64();
            lemma_height_bound(symbols@.len(), 64);
            assert forall|i: int| #![trigger r.symbol(i)] 0 <= i < sequence@.len() implies r.symbol(
                i,
            ) == Some(sequence@[i]) by {
                lemma_levels_spell(numbers, height as nat, i, 0);
                lemma_height_covers(r.alphabet().len());
                assert(codes@[i] < symbols@.len());
                assert(numbers[i] == codes@[i]);
                vstd::arithmetic::div_mod::lemma_small_mod(numbers[i], pow2(height as nat));
                assert(0 * pow2(height as nat) == 0);
            }
        }
        r
    }

    /// Puts a tree together from its parts, if they fit together.
    pub fn from_packed_parts(
        levels: Vec<SuccinctBitVector>,
        height: usize,
        sigma: u64,
        len: usize,
        symbols: Vec<u64>,
    ) -> (r: Result<Self, WaveletInvariantError>)
        ensures
            match r {
                Ok(t) => parts_fault(levels_bits(levels@), height, sigma, len, symbols@) is None
                    && t.level_vectors() == levels@ && t.alphabet() == symbols@ && t.count()
                    == len,
                Err(e) => parts_fault(levels_bits(levels@), height, sigma, len, symbols@) == Some(
                    e,
                ),
            },
    {
        let ghost bits = levels_bits(levels@);
        if levels.len() != height {
            return Err(
                WaveletInvariantError::LevelCount { expected: height, actual: levels.len() },
            );
        }
        let mut k: usize = 0;
        while k < levels.len()
            invariant
                k <= levels@.len(),
                bits == levels_bits(levels@),
                levels@.len() == height,
                bad_level(bits, len, k as nat) is None,
            decreases levels.len() - k,
        {
            let actual: usize = levels[k].len();
            assert(bits[k as int] == levels@[k as int].bits());
            if actual != len {
                proof {
                    lemma_bad_level_stays(bits, len, (k + 1) as nat, bits.len());
                }
                return Err(WaveletInvariantError::LevelLength { level: k, expected: len, actual });
            }
            k = k + 1;
        }
        if symbols.len() as u64 != sigma {
            return Err(
                WaveletInvariantError::SymbolCount { expected: sigma, actual: symbols.len() },
            );
        }
        let mut i: usize = 1;
        while i < symbols.len()
            invariant
                1 <= i,
                i <= symbols@.len() || symbols@.len() == 0,
                bits == levels_bits(levels@),
                bits.len() == height,
                bad_level(bits, len, bits.len()) is None,
                symbols@.len() == sigma,
                bad_symbol(symbols@, i as nat) is None,
            decreases symbols.len() - i,
        {
            if symbols[i] <= symbols[i - 1] {
                proof {
                    lemma_bad_symbol_stays(symbols@, (i + 1) as nat, symbols@.len());
                }
                return Err(WaveletInvariantError::UnsortedSymbols { index: i });
            }
            i = i + 1;
        }
        proof {
            lemma_no_bad_level(bits, len, bits.len());
            lemma_no_bad_symbol(symbols@, symbols@.len());
            assert(symbols@.take(symbols@.len() as int) =~= symbols@);
            assert forall|j: int| #![trigger levels@[j]] 0 <= j < levels@.len() implies levels@[j].bits().len()
                == len by {
                assert(bits[j] == levels@[j].bits());
            }
        }
        Ok(Self { levels, height, sigma, len, symbols })
    }

    /// The length of the sequence.
    #[must_use]
    pub fn len(&self) -> (r: usize)
        ensures
            r == self.count(),
            self.is_valid(),
    {
        proof {
            use_type_invariant(self);
        }
        self.len
    }

    /// Whether the sequence is empty.
    #[must_use]
    pub fn is_empty(&self) -> (r: bool)
        ensures
            r == (self.count() == 0),
    {
        self.len == 0
    }

    /// The number of levels.
    #[must_use]
    pub fn height(&self) -> (r: usize)
        ensures
            r == self.level_vectors().len(),
    {
        proof {
            use_type_invariant(self);
        }
        self.height
    }

    /// The size of the alphabet.
    #[must_use]
    pub fn sigma(&self) -> (r: u64)
        ensures
            r == self.alphabet().len(),
    {
        proof {
            use_type_invariant(self);
        }
        self.sigma
    }

    /// The symbols of the alphabet, in order.
    #[must_use]
    pub fn symbols_slice(&self) -> (r: &[u64])
        ensures
            r@ == self.alphabet(),
    {
        self.symbols.as_slice()
    }

    /// The levels.
    #[must_use]
    pub fn levels_slice(&self) -> (r: &[SuccinctBitVector])
        ensures
            r@ == self.level_vectors(),
    {
        self.levels.as_slice()
    }

    /// The symbol at a position. `None` past the end, and where the levels spell
    /// a code that no symbol has.
    #[must_use]
    pub fn access(&self, i: usize) -> (r: Option<u64>)
        ensures
            r == self.symbol(i as int),
    {
        proof {
            use_type_invariant(self);
        }
        if i >= self.len {
            return None;
        }
        let ghost all = levels_bits(self.levels@);
        let mut pos: usize = i;
        let mut code: u128 = 0;
        let mut k: usize = 0;
        let sigma: u128 = self.symbols.len() as u128;
        if sigma == 0 {
            return None;
        }
        assert(all.skip(0) =~= all);
        while k < self.levels.len()
            invariant
                k <= self.levels@.len(),
                self.well_formed(),
                all == levels_bits(self.levels@),
                pos < self.len,
                sigma == self.symbols@.len(),
                sigma <= usize::MAX,
                code < sigma,
                spelled(all, i as int, 0) == spelled(
                    all.skip(k as int),
                    pos as int,
                    code as nat,
                ),
            decreases self.levels.len() - k,
        {
            let level: &SuccinctBitVector = &self.levels[k];
            let ghost bits = level.bits();
            let before: usize = level.rank1(pos);
            let bit: bool = match level.get(pos) {
                Some(b) => b,
                None => false,
            };
            proof {
                assert(all.skip(k as int)[0] == bits);
                assert(all.skip(k as int).skip(1) =~= all.skip(k + 1));
                lemma_next_position(bits, pos as int);
            }
            if bit {
                let total: usize = level.rank1(level.len());
                assert(bits.take(bits.len() as int) =~= bits);
                pos = level.len() - total + before;
                code = 2 * code + 1;
            } else {
                pos = pos - before;
                code = 2 * code;
            }
            k = k + 1;
            if code >= sigma {
                proof {
                    lemma_spelled_grows(all.skip(k as int), pos as int, code as nat);
                }
                return None;
            }
        }
        assert(all.skip(k as int) =~= Seq::<Seq<bool>>::empty());
        Some(self.symbols[code as usize])
    }
}

proof fn lemma_spelled_grows(levels: Seq<Seq<bool>>, pos: int, acc: nat)
    ensures
        spelled(levels, pos, acc) >= acc,
    decreases levels.len(),
{
    if levels.len() > 0 {
        lemma_spelled_grows(
            levels.skip(1),
            next_position(levels[0], pos),
            2 * acc + if levels[0][pos] {
                1nat
            } else {
                0nat
            },
        );
    }
}

proof fn lemma_next_position(bits: Seq<bool>, pos: int)
    requires
        0 <= pos < bits.len(),
    ensures
        0 <= next_position(bits, pos) < bits.len(),
        ones(bits) <= bits.len(),
{
    lemma_ones_prefix(bits, pos);
    lemma_ones_grow(bits, pos + 1, bits.len() as int);
    lemma_ones_bound(bits.take(pos));
    lemma_ones_bound(bits);
    assert(bits.take(bits.len() as int) =~= bits);
}

proof fn lemma_bad_level_stays(levels: Seq<Seq<bool>>, len: usize, k: nat, n: nat)
    requires
        bad_level(levels, len, k) is Some,
        k <= n,
    ensures
        bad_level(levels, len, n) == bad_level(levels, len, k),
    decreases n,
{
    if k < n {
        lemma_bad_level_stays(levels, len, k, (n - 1) as nat);
    }
}

proof fn lemma_bad_symbol_stays(symbols: Seq<u64>, k: nat, n: nat)
    requires
        bad_symbol(symbols, k) is Some,
        k <= n,
    ensures
        bad_symbol(symbols, n) == bad_symbol(symbols, k),
    decreases n,
{
    if k < n {
        lemma_bad_symbol_stays(symbols, k, (n - 1) as nat);
    }
}

/// The bits of the codes of an alphabet, at least one.
pub open spec fn height_for(sigma: nat) -> nat
    decreases sigma,
{
    if sigma <= 2 {
        1
    } else {
        1 + height_for((sigma + 1) / 2)
    }
}

/// An alphabet of at most `2^b` symbols takes at most `b` bits.
proof fn lemma_height_bound(sigma: nat, b: nat)
    requires
        b >= 1,
        sigma <= pow2(b),
    ensures
        height_for(sigma) <= b,
    decreases b,
{
    if sigma > 2 {
        lemma_pow2_unfold(b);
        vstd::arithmetic::power2::lemma2_to64();
        if b == 1 {
            assert(false);
        } else {
            assert((sigma + 1) / 2 <= pow2((b - 1) as nat));
            lemma_height_bound((sigma + 1) / 2, (b - 1) as nat);
        }
    }
}

proof fn lemma_height_covers(sigma: nat)
    ensures
        sigma <= pow2(height_for(sigma)),
    decreases sigma,
{
    vstd::arithmetic::power2::lemma2_to64();
    if sigma > 2 {
        let half = (sigma + 1) / 2;
        lemma_height_covers(half);
        lemma_pow2_unfold(1 + height_for(half));
    }
}

/// An alphabet has as many bits for its codes as it takes to tell its symbols apart, no
/// more, and at least one.
pub proof fn law_height_is_least(sigma: nat, b: nat)
    ensures
        height_for(sigma) >= 1,
        sigma <= pow2(height_for(sigma)),
        b >= 1 && sigma <= pow2(b) ==> height_for(sigma) <= b,
{
    lemma_height_covers(sigma);
    if b >= 1 && sigma <= pow2(b) {
        lemma_height_bound(sigma, b);
    }
}

/// The bits of the codes of an alphabet.
fn bits_for(sigma: u64) -> (r: usize)
    ensures
        r == height_for(sigma as nat),
        r <= 65,
{
    let mut rest: u64 = sigma;
    let mut h: usize = 1;
    proof {
        lemma_pow2_pos(64);
        vstd::arithmetic::power2::lemma2_to64();
    }
    let ghost mut bound: nat = pow2(64);
    while rest > 2
        invariant
            height_for(sigma as nat) == h - 1 + height_for(rest as nat),
            1 <= h <= 65,
            rest <= bound,
            bound == pow2((65 - h) as nat),
        decreases rest,
    {
        proof {
            if h == 65 {
                vstd::arithmetic::power2::lemma2_to64();
            } else {
                lemma_pow2_unfold((65 - h) as nat);
                if h == 64 {
                    vstd::arithmetic::power2::lemma2_to64();
                }
                bound = pow2((64 - h) as nat);
            }
        }
        rest = rest / 2 + rest % 2;
        h = h + 1;
    }
    h
}

/// Every level has one bit per number.
proof fn lemma_levels_lengths(numbers: Seq<nat>, height: nat)
    ensures
        tree_levels(numbers, height).len() == height,
        forall|k: int| #![trigger tree_levels(numbers, height)[k]]
            0 <= k < height ==> tree_levels(numbers, height)[k].len() == numbers.len(),
    decreases height,
{
    if height > 0 {
        let k = (height - 1) as nat;
        lemma_with_bit_count(numbers, k);
        lemma_ones_bound(bits_of(numbers, k));
        lemma_levels_lengths(parted(numbers, k), k);
        let rest = tree_levels(parted(numbers, k), k);
        assert forall|j: int| #![trigger tree_levels(numbers, height)[j]]
            0 <= j < height implies tree_levels(numbers, height)[j].len() == numbers.len() by {
            if j > 0 {
                assert(tree_levels(numbers, height)[j] == rest[j - 1]);
            }
        }
    }
}

/// The symbols of a sequence, each once and in order.
fn distinct_symbols(sequence: &[u64]) -> (r: Vec<u64>)
    ensures
        strictly_sorted(r@),
        forall|s: u64| #[trigger] r@.contains(s) <==> sequence@.contains(s),
        r@.len() <= sequence@.len(),
{
    let mut out: Vec<u64> = Vec::new();
    let mut i: usize = 0;
    assert(sequence@.take(0) =~= Seq::<u64>::empty());
    while i < sequence.len()
        invariant
            i <= sequence@.len(),
            strictly_sorted(out@),
            out@.len() <= i,
            forall|s: u64| #[trigger] out@.contains(s) <==> sequence@.take(i as int).contains(s),
        decreases sequence.len() - i,
    {
        let s: u64 = sequence[i];
        let at: usize = lower_bound(&out, s);
        let ghost before = out@;
        if at >= out.len() || out[at] != s {
            out.insert(at, s);
            proof {
                assert(out@ =~= before.insert(at as int, s));
                lemma_insert_sorted(before, at as int, s);
            }
        } else {
            assert(before.contains(s)) by {
                assert(before[at as int] == s);
            }
        }
        proof {
            assert(sequence@.take(i + 1) =~= sequence@.take(i as int).push(s));
            assert forall|x: u64| #[trigger]
                out@.contains(x) <==> sequence@.take(i + 1).contains(x) by {
                vstd::seq_lib::lemma_seq_contains_after_push(sequence@.take(i as int), s, x);
                assert(before.contains(x) <==> sequence@.take(i as int).contains(x));
            }
        }
        i = i + 1;
    }
    assert(sequence@.take(i as int) =~= sequence@);
    out
}

proof fn lemma_insert_sorted(s: Seq<u64>, at: int, x: u64)
    requires
        strictly_sorted(s),
        0 <= at <= s.len(),
        forall|k: int| #![trigger s[k]] 0 <= k < at ==> s[k] < x,
        forall|k: int| #![trigger s[k]] at <= k < s.len() ==> x < s[k],
    ensures
        strictly_sorted(s.insert(at, x)),
        forall|y: u64| #[trigger] s.insert(at, x).contains(y) <==> s.contains(y) || y == x,
{
    let t = s.insert(at, x);
    assert forall|i: int, j: int| 0 <= i < j < t.len() implies t[i] < t[j] by {
        if i < at && j < at {
            assert(t[i] == s[i] && t[j] == s[j]);
        } else if i < at && j == at {
            assert(t[i] == s[i]);
        } else if i < at {
            assert(t[i] == s[i] && t[j] == s[j - 1]);
        } else if i == at {
            assert(t[j] == s[j - 1]);
        } else {
            assert(t[i] == s[i - 1] && t[j] == s[j - 1]);
        }
    }
    assert forall|y: u64| #[trigger] t.contains(y) <==> s.contains(y) || y == x by {
        if s.contains(y) {
            let k = choose|k: int| 0 <= k < s.len() && s[k] == y;
            if k < at {
                assert(t[k] == y);
            } else {
                assert(t[k + 1] == y);
            }
        }
        if y == x {
            assert(t[at] == x);
        }
        if t.contains(y) {
            let k = choose|k: int| 0 <= k < t.len() && t[k] == y;
            if k < at {
                assert(s[k] == y);
            } else if k > at {
                assert(s[k - 1] == y);
            }
        }
    }
}

/// The first position whose symbol is not below `s`.
fn lower_bound(sorted: &Vec<u64>, s: u64) -> (r: usize)
    requires
        strictly_sorted(sorted@),
    ensures
        r <= sorted@.len(),
        forall|k: int| #![trigger sorted@[k]] 0 <= k < r ==> sorted@[k] < s,
        forall|k: int| #![trigger sorted@[k]] r <= k < sorted@.len() ==> s <= sorted@[k],
        r < sorted@.len() && sorted@[r as int] != s ==> forall|k: int| #![trigger sorted@[k]]
            r <= k < sorted@.len() ==> s < sorted@[k],
{
    let mut lo: usize = 0;
    let mut hi: usize = sorted.len();
    while lo < hi
        invariant
            lo <= hi <= sorted@.len(),
            strictly_sorted(sorted@),
            forall|k: int| #![trigger sorted@[k]] 0 <= k < lo ==> sorted@[k] < s,
            forall|k: int| #![trigger sorted@[k]] hi <= k < sorted@.len() ==> s <= sorted@[k],
        decreases hi - lo,
    {
        let mid: usize = lo + (hi - lo) / 2;
        if sorted[mid] < s {
            lo = mid + 1;
        } else {
            hi = mid;
        }
    }
    lo
}

/// The code of each symbol of a sequence: its position in the alphabet.
fn codes_of(sequence: &[u64], symbols: &[u64]) -> (r: Vec<u64>)
    requires
        strictly_sorted(symbols@),
        symbols@.len() <= sequence@.len(),
        forall|s: u64| #[trigger] symbols@.contains(s) <==> sequence@.contains(s),
    ensures
        r@.len() == sequence@.len(),
        forall|i: int| #![trigger r@[i]]
            0 <= i < r@.len() ==> r@[i] < symbols@.len() && symbols@[r@[i] as int] == sequence@[i],
{
    let alphabet: Vec<u64> = vstd::slice::slice_to_vec(symbols);
    assert(alphabet@ =~= symbols@);
    let mut out: Vec<u64> = Vec::new();
    let mut i: usize = 0;
    while i < sequence.len()
        invariant
            i <= sequence@.len(),
            alphabet@ == symbols@,
            strictly_sorted(symbols@),
            forall|s: u64| #[trigger] symbols@.contains(s) <==> sequence@.contains(s),
            out@.len() == i,
            forall|k: int| #![trigger out@[k]]
                0 <= k < i ==> out@[k] < symbols@.len() && symbols@[out@[k] as int]
                    == sequence@[k],
        decreases sequence.len() - i,
    {
        let s: u64 = sequence[i];
        let at: usize = lower_bound(&alphabet, s);
        proof {
            assert(sequence@.contains(s)) by {
                assert(sequence@[i as int] == s);
            }
            assert(symbols@.contains(s));
            let k = choose|k: int| 0 <= k < symbols@.len() && symbols@[k] == s;
            assert(alphabet@[k] == s);
            if k < at {
                assert(alphabet@[k] < s);
            }
            assert(at <= k);
            if at < k {
                assert(symbols@[at as int] < symbols@[k]);
                assert(s <= alphabet@[at as int]);
            }
        }
        out.push(at as u64);
        i = i + 1;
    }
    out
}

/// Builds the levels of the tree of codes.
fn build_levels(codes: &Vec<u64>, height: usize) -> (r: Vec<SuccinctBitVector>)
    requires
        height <= 65,
    ensures
        levels_bits(r@) == tree_levels(codes@.map_values(|c: u64| c as nat), height as nat),
{
    let ghost goal = tree_levels(codes@.map_values(|c: u64| c as nat), height as nat);
    let mut levels: Vec<SuccinctBitVector> = Vec::new();
    let mut current: Vec<u64> = codes.clone();
    assert(current@ =~= codes@);
    let mut left: usize = height;
    assert(levels_bits(levels@) + goal =~= goal);
    while left > 0
        invariant
            left <= height <= 65,
            levels_bits(levels@) + tree_levels(
                current@.map_values(|c: u64| c as nat),
                left as nat,
            ) == goal,
        decreases left,
    {
        let ghost numbers = current@.map_values(|c: u64| c as nat);
        let k: usize = left - 1;
        let mut bits: Vec<bool> = Vec::new();
        let mut zeros: Vec<u64> = Vec::new();
        let mut tail: Vec<u64> = Vec::new();
        let mut i: usize = 0;
        assert(numbers.take(0) =~= Seq::<nat>::empty());
        assert(zeros@.map_values(|c: u64| c as nat) =~= Seq::<nat>::empty());
        assert(bits@ =~= bits_of(numbers.take(0), k as nat));
        while i < current.len()
            invariant
                i <= current@.len(),
                k < 65,
                numbers == current@.map_values(|c: u64| c as nat),
                bits@ == bits_of(numbers.take(i as int), k as nat),
                zeros@.map_values(|c: u64| c as nat) == with_bit(
                    numbers.take(i as int),
                    k as nat,
                    false,
                ),
                tail@.map_values(|c: u64| c as nat) == with_bit(
                    numbers.take(i as int),
                    k as nat,
                    true,
                ),
            decreases current.len() - i,
        {
            let c: u64 = current[i];
            let bit: bool = code_bit(c, k);
            let ghost (b0, z0, t0) = (bits@, zeros@, tail@);
            bits.push(bit);
            if bit {
                tail.push(c);
            } else {
                zeros.push(c);
            }
            proof {
                let prefix = numbers.take(i + 1);
                assert(prefix.drop_last() =~= numbers.take(i as int));
                assert(prefix.last() == c as nat);
                assert(bits@ =~= bits_of(prefix, k as nat));
                assert(tail@.map_values(|c: u64| c as nat) =~= if bit {
                    t0.map_values(|c: u64| c as nat).push(c as nat)
                } else {
                    t0.map_values(|c: u64| c as nat)
                });
                assert(zeros@.map_values(|c: u64| c as nat) =~= if bit {
                    z0.map_values(|c: u64| c as nat)
                } else {
                    z0.map_values(|c: u64| c as nat).push(c as nat)
                });
            }
            i = i + 1;
        }
        let ghost (z, t) = (zeros@, tail@);
        zeros.append(&mut tail);
        let level = SuccinctBitVector::from_bitvec(BitVector::from_bools(&bits));
        let ghost before = levels@;
        levels.push(level);
        proof {
            assert(numbers.take(i as int) =~= numbers);
            assert(zeros@.map_values(|c: u64| c as nat) =~= z.map_values(|c: u64| c as nat)
                + t.map_values(|c: u64| c as nat));
            assert(zeros@.map_values(|c: u64| c as nat) == parted(numbers, k as nat));
            assert(levels_bits(levels@) =~= levels_bits(before).push(level.bits()));
            let rest = tree_levels(parted(numbers, k as nat), k as nat);
            assert(levels_bits(before) + (seq![bits_of(numbers, k as nat)] + rest)
                =~= levels_bits(before).push(bits_of(numbers, k as nat)) + rest);
        }
        current = zeros;
        left = k;
    }
    assert(levels_bits(levels@) + Seq::<Seq<bool>>::empty() =~= levels_bits(levels@));
    levels
}

/// Bit `k` of a code.
fn code_bit(c: u64, k: usize) -> (r: bool)
    requires
        k < 65,
    ensures
        r == number_bit(c as nat, k as nat),
{
    let mut rest: u64 = c;
    let mut i: usize = 0;
    proof {
        vstd::arithmetic::power2::lemma2_to64();
        assert(c as nat / 1 == c as nat);
    }
    while i < k
        invariant
            i <= k,
            rest == c as nat / pow2(i as nat),
        decreases k - i,
    {
        proof {
            lemma_pow2_pos(i as nat);
            lemma_pow2_unfold((i + 1) as nat);
            vstd::arithmetic::div_mod::lemma_div_denominator(
                c as int,
                pow2(i as nat) as int,
                2,
            );
            assert(pow2(i as nat) * 2 == pow2((i + 1) as nat));
        }
        rest = rest / 2;
        i = i + 1;
    }
    rest % 2 == 1
}

} // verus!
