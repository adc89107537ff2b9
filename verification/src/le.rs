//! Little-endian integers as mathematics, and the code that reads and writes
//! them.

use vstd::prelude::*;

verus! {

/// The number that a little-endian byte sequence stands for.
pub open spec fn le_value(s: Seq<u8>) -> nat
    decreases s.len(),
{
    if s.len() == 0 {
        0
    } else {
        s[0] as nat + 256 * le_value(s.skip(1))
    }
}

/// The low `width` bytes of `v`, least significant first.
pub open spec fn le_bytes(v: nat, width: nat) -> Seq<u8>
    decreases width,
{
    if width == 0 {
        Seq::empty()
    } else {
        seq![(v % 256) as u8] + le_bytes(v / 256, (width - 1) as nat)
    }
}

/// `256` to the power `n`: how many numbers fit into `n` bytes.
pub open spec fn pow256(n: nat) -> nat
    decreases n,
{
    if n == 0 {
        1
    } else {
        256 * pow256((n - 1) as nat)
    }
}

/// The concatenation of the eight-byte encodings of `words`.
pub open spec fn le_u64s(words: Seq<u64>) -> Seq<u8> {
    Seq::new(8 * words.len(), |j: int| le_bytes(words[j / 8] as nat, 8)[j % 8])
}

/// The concatenation of the four-byte encodings of `words`.
pub open spec fn le_u32s(words: Seq<u32>) -> Seq<u8> {
    Seq::new(4 * words.len(), |j: int| le_bytes(words[j / 4] as nat, 4)[j % 4])
}

/// The eight-byte words that `bytes` holds; a rest of fewer bytes is dropped.
pub open spec fn u64s_of(bytes: Seq<u8>) -> Seq<u64> {
    Seq::new(
        bytes.len() / 8,
        |i: int| le_value(bytes.subrange(8 * i, 8 * i + 8)) as u64,
    )
}

/// The four-byte words that `bytes` holds; a rest of fewer bytes is dropped.
pub open spec fn u32s_of(bytes: Seq<u8>) -> Seq<u32> {
    Seq::new(
        bytes.len() / 4,
        |i: int| le_value(bytes.subrange(4 * i, 4 * i + 4)) as u32,
    )
}

pub proof fn lemma_pow256()
    ensures
        pow256(1) == 0x100,
        pow256(4) == 0x1_0000_0000,
        pow256(8) == 0x1_0000_0000_0000_0000,
{
    reveal_with_fuel(pow256, 9);
}

pub proof fn lemma_le_bytes_len(v: nat, width: nat)
    ensures
        le_bytes(v, width).len() == width,
    decreases width,
{
    if width > 0 {
        lemma_le_bytes_len(v / 256, (width - 1) as nat);
    }
}

/// Writing a number and reading it back gives the number, as long as it fits.
pub proof fn lemma_le_value_of_bytes(v: nat, width: nat)
    requires
        v < pow256(width),
    ensures
        le_value(le_bytes(v, width)) == v,
    decreases width,
{
    if width > 0 {
        let rest = le_bytes(v / 256, (width - 1) as nat);
        assert(v / 256 < pow256((width - 1) as nat));
        lemma_le_value_of_bytes(v / 256, (width - 1) as nat);
        assert(le_bytes(v, width).skip(1) =~= rest);
    }
}

/// Reading a byte sequence and writing the number gives the bytes.
pub proof fn lemma_le_bytes_of_value(s: Seq<u8>)
    ensures
        le_bytes(le_value(s), s.len()) == s,
    decreases s.len(),
{
    if s.len() > 0 {
        lemma_le_bytes_of_value(s.skip(1));
        let rest = le_value(s.skip(1));
        assert((s[0] as nat + 256 * rest) / 256 == rest);
        assert((s[0] as nat + 256 * rest) % 256 == s[0] as nat);
        assert(le_bytes(le_value(s), s.len()) =~= s);
    }
}

pub proof fn lemma_le_value_bound(s: Seq<u8>)
    ensures
        le_value(s) < pow256(s.len()),
    decreases s.len(),
{
    if s.len() > 0 {
        lemma_le_value_bound(s.skip(1));
    }
}

pub proof fn lemma_le_u64s_push(words: Seq<u64>, w: u64)
    ensures
        le_u64s(words.push(w)) == le_u64s(words) + le_bytes(w as nat, 8),
{
    lemma_le_bytes_len(w as nat, 8);
    assert(le_u64s(words.push(w)) =~= le_u64s(words) + le_bytes(w as nat, 8));
}

pub proof fn lemma_le_u32s_push(words: Seq<u32>, w: u32)
    ensures
        le_u32s(words.push(w)) == le_u32s(words) + le_bytes(w as nat, 4),
{
    lemma_le_bytes_len(w as nat, 4);
    assert(le_u32s(words.push(w)) =~= le_u32s(words) + le_bytes(w as nat, 4));
}

/// Encoding words and cutting the bytes into words gives the words.
pub proof fn lemma_u64s_round_trip(words: Seq<u64>)
    ensures
        u64s_of(le_u64s(words)) == words,
{
    let bytes = le_u64s(words);
    assert forall|i: int| 0 <= i < words.len() implies u64s_of(bytes)[i] == words[i] by {
        lemma_le_bytes_len(words[i] as nat, 8);
        assert(bytes.subrange(8 * i, 8 * i + 8) =~= le_bytes(words[i] as nat, 8));
        lemma_pow256();
        lemma_le_value_of_bytes(words[i] as nat, 8);
    }
    assert(u64s_of(bytes) =~= words);
}

/// Encoding words and cutting the bytes into words gives the words.
pub proof fn lemma_u32s_round_trip(words: Seq<u32>)
    ensures
        u32s_of(le_u32s(words)) == words,
{
    let bytes = le_u32s(words);
    assert forall|i: int| 0 <= i < words.len() implies u32s_of(bytes)[i] == words[i] by {
        lemma_le_bytes_len(words[i] as nat, 4);
        assert(bytes.subrange(4 * i, 4 * i + 4) =~= le_bytes(words[i] as nat, 4));
        lemma_pow256();
        lemma_le_value_of_bytes(words[i] as nat, 4);
    }
    assert(u32s_of(bytes) =~= words);
}

/// The least significant byte of a number comes first: four and eight bytes are worth
/// what their places say, and are what is left of the number in those places.
pub proof fn law_least_significant_byte_first(v: nat, s: Seq<u8>)
    ensures
        le_bytes(v, 4) == seq![
            (v % 256) as u8,
            (v / 256 % 256) as u8,
            (v / 256 / 256 % 256) as u8,
            (v / 256 / 256 / 256 % 256) as u8,
        ],
        le_bytes(v, 8) == le_bytes(v, 4) + le_bytes(v / 256 / 256 / 256 / 256, 4),
        s.len() == 4 ==> le_value(s) == s[0] + 0x100 * s[1] + 0x1_0000 * s[2] + 0x100_0000 * s[3],
        s.len() == 8 ==> le_value(s) == le_value(s.take(4)) + 0x1_0000_0000 * le_value(s.skip(4)),
{
    reveal_with_fuel(le_bytes, 9);
    reveal_with_fuel(le_value, 9);
    assert(le_bytes(v, 4) =~= seq![
        (v % 256) as u8,
        (v / 256 % 256) as u8,
        (v / 256 / 256 % 256) as u8,
        (v / 256 / 256 / 256 % 256) as u8,
    ]);
    assert(le_bytes(v, 8) =~= le_bytes(v, 4) + le_bytes(v / 256 / 256 / 256 / 256, 4));
    if s.len() == 4 {
        lemma_four_places(s);
    }
    if s.len() == 8 {
        lemma_four_places(s.take(4));
        lemma_four_places(s.skip(4));
        let t = s.skip(1).skip(1).skip(1).skip(1);
        assert(t =~= s.skip(4));
        assert(le_value(s) == s[0] + 256 * le_value(s.skip(1)));
        assert(le_value(s.skip(1)) == s[1] + 256 * le_value(s.skip(1).skip(1)));
        assert(le_value(s.skip(1).skip(1)) == s[2] + 256 * le_value(s.skip(1).skip(1).skip(1)));
        assert(le_value(s.skip(1).skip(1).skip(1)) == s[3] + 256 * le_value(t));
    }
}

proof fn lemma_four_places(s: Seq<u8>)
    requires
        s.len() == 4,
    ensures
        le_value(s) == s[0] + 0x100 * s[1] + 0x1_0000 * s[2] + 0x100_0000 * s[3],
{
    assert(le_value(s) == s[0] + 256 * le_value(s.skip(1)));
    assert(le_value(s.skip(1)) == s[1] + 256 * le_value(s.skip(1).skip(1)));
    assert(le_value(s.skip(1).skip(1)) == s[2] + 256 * le_value(s.skip(1).skip(1).skip(1)));
    assert(le_value(s.skip(1).skip(1).skip(1)) == s[3] + 256 * le_value(
        s.skip(1).skip(1).skip(1).skip(1),
    ));
    assert(le_value(s.skip(1).skip(1).skip(1).skip(1)) == 0);
}

/// Words stand one after the other: eight bytes, or four, for each.
pub proof fn law_words_stand_in_order(words: Seq<u64>, codes: Seq<u32>, i: int)
    ensures
        le_u64s(words).len() == 8 * words.len(),
        le_u32s(codes).len() == 4 * codes.len(),
        0 <= i < words.len() ==> le_u64s(words).subrange(8 * i, 8 * i + 8) == le_bytes(
            words[i] as nat,
            8,
        ),
        0 <= i < codes.len() ==> le_u32s(codes).subrange(4 * i, 4 * i + 4) == le_bytes(
            codes[i] as nat,
            4,
        ),
{
    if 0 <= i < words.len() {
        lemma_le_bytes_len(words[i] as nat, 8);
        assert(le_u64s(words).subrange(8 * i, 8 * i + 8) =~= le_bytes(words[i] as nat, 8));
    }
    if 0 <= i < codes.len() {
        lemma_le_bytes_len(codes[i] as nat, 4);
        assert(le_u32s(codes).subrange(4 * i, 4 * i + 4) =~= le_bytes(codes[i] as nat, 4));
    }
}

/// The first four bytes of two sequences are the same exactly if each is.
pub proof fn lemma_first_four(a: Seq<u8>, b: Seq<u8>)
    requires
        a.len() >= 4,
        b.len() >= 4,
    ensures
        a.subrange(0, 4) == b.subrange(0, 4) <==> a[0] == b[0] && a[1] == b[1] && a[2] == b[2]
            && a[3] == b[3],
{
    let (p, q) = (a.subrange(0, 4), b.subrange(0, 4));
    assert(p[0] == a[0] && p[1] == a[1] && p[2] == a[2] && p[3] == a[3]);
    assert(q[0] == b[0] && q[1] == b[1] && q[2] == b[2] && q[3] == b[3]);
    if a[0] == b[0] && a[1] == b[1] && a[2] == b[2] && a[3] == b[3] {
        assert(p =~= q);
    }
}

/// Appends the low `width` bytes of `v`, least significant first.
fn push_le(buf: &mut Vec<u8>, v: u64, width: usize)
    requires
        width <= 8,
    ensures
        final(buf)@ == old(buf)@ + le_bytes(v as nat, width as nat),
{
    let mut rest: u64 = v;
    let mut i: usize = 0;
    let ghost start = buf@;
    let ghost whole = le_bytes(v as nat, width as nat);
    proof {
        lemma_le_bytes_len(v as nat, width as nat);
        assert(whole =~= Seq::<u8>::empty() + whole);
    }
    while i < width
        invariant
            i <= width <= 8,
            buf@.len() == start.len() + i,
            whole == le_bytes(v as nat, width as nat),
            start + whole == buf@ + le_bytes(rest as nat, (width - i) as nat),
        decreases width - i,
    {
        let ghost before = buf@;
        proof {
            let tail = le_bytes((rest / 256) as nat, (width - i - 1) as nat);
            assert(le_bytes(rest as nat, (width - i) as nat) == seq![(rest % 256) as u8] + tail);
            assert(before + (seq![(rest % 256) as u8] + tail) =~= before.push(
                (rest % 256) as u8,
            ) + tail);
        }
        buf.push((rest % 256) as u8);
        rest = rest / 256;
        i = i + 1;
    }
    assert(buf@ + le_bytes(rest as nat, 0) =~= buf@);
}

/// Appends `v` as four little-endian bytes.
pub fn push_u32_le(buf: &mut Vec<u8>, v: u32)
    ensures
        final(buf)@ == old(buf)@ + le_bytes(v as nat, 4),
{
    push_le(buf, v as u64, 4);
}

/// Appends `v` as eight little-endian bytes.
pub fn push_u64_le(buf: &mut Vec<u8>, v: u64)
    ensures
        final(buf)@ == old(buf)@ + le_bytes(v as nat, 8),
{
    push_le(buf, v, 8);
}

/// Reads `width` little-endian bytes from `start` on.
fn read_le(data: &[u8], start: usize, width: usize) -> (r: u64)
    requires
        width <= 8,
        start + width <= data@.len(),
    ensures
        r == le_value(data@.subrange(start as int, start + width)),
        r < pow256(width as nat),
{
    let len: usize = data.len();
    let mut acc: u64 = 0;
    let mut i: usize = width;
    proof {
        assert(data@.subrange(start + width, start + width) =~= Seq::<u8>::empty());
        reveal_with_fuel(pow256, 9);
    }
    while i > 0
        invariant
            i <= width <= 8,
            start + width <= len == data@.len(),
            acc == le_value(data@.subrange(start + i, start + width)),
            acc < pow256((width - i) as nat),
        decreases i,
    {
        let ghost old_tail = data@.subrange(start + i, start + width);
        i = i - 1;
        proof {
            let tail = data@.subrange(start + i, start + width);
            assert(tail.skip(1) =~= old_tail);
            lemma_le_value_bound(tail);
            reveal_with_fuel(pow256, 9);
        }
        acc = data[start + i] as u64 + 256 * acc;
    }
    acc
}

/// Reads a four-byte little-endian number.
pub fn read_u32_le(data: &[u8], start: usize) -> (r: u32)
    requires
        start + 4 <= data@.len(),
    ensures
        r == le_value(data@.subrange(start as int, start + 4)),
{
    proof {
        lemma_pow256();
    }
    read_le(data, start, 4) as u32
}

/// Reads an eight-byte little-endian number.
pub fn read_u64_le(data: &[u8], start: usize) -> (r: u64)
    requires
        start + 8 <= data@.len(),
    ensures
        r == le_value(data@.subrange(start as int, start + 8)),
{
    read_le(data, start, 8)
}

/// Appends words, eight little-endian bytes each.
pub fn push_u64s_le(buf: &mut Vec<u8>, words: &[u64])
    ensures
        final(buf)@ == old(buf)@ + le_u64s(words@),
{
    let ghost before = buf@;
    let mut i: usize = 0;
    assert(words@.take(0) =~= Seq::<u64>::empty());
    assert(le_u64s(words@.take(0)) =~= Seq::<u8>::empty());
    assert(buf@ =~= before + le_u64s(words@.take(0)));
    while i < words.len()
        invariant
            i <= words@.len(),
            buf@ == before + le_u64s(words@.take(i as int)),
        decreases words.len() - i,
    {
        let word: u64 = words[i];
        push_u64_le(buf, word);
        proof {
            assert(words@.take(i + 1) =~= words@.take(i as int).push(word));
            lemma_le_u64s_push(words@.take(i as int), word);
            assert(buf@ =~= before + le_u64s(words@.take(i + 1)));
        }
        i = i + 1;
    }
    assert(words@.take(i as int) =~= words@);
}

} // verus!
