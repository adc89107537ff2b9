//! Numbers and separated fields in text.

use vstd::prelude::*;
use vstd::string::StringExecFns;

use crate::trusted::text::string_push;

verus! {

/// The decimal digit of a number below ten.
pub open spec fn digit_char(d: int) -> char {
    (48 + d) as char
}

/// A number in decimal, without leading zeros.
pub open spec fn decimal(n: nat) -> Seq<char>
    decreases n,
{
    if n < 10 {
        seq![digit_char(n as int)]
    } else {
        decimal(n / 10).push(digit_char((n % 10) as int))
    }
}

/// A number in decimal, with a minus sign if it is negative.
pub open spec fn decimal_int(n: int) -> Seq<char> {
    if n < 0 {
        seq!['-'] + decimal((-n) as nat)
    } else {
        decimal(n as nat)
    }
}

/// Whether a character is a decimal digit.
pub open spec fn is_digit(c: char) -> bool {
    '0' <= c <= '9'
}

/// The value of decimal digits.
pub open spec fn digits_value(s: Seq<char>) -> nat
    decreases s.len(),
{
    if s.len() == 0 {
        0
    } else {
        10 * digits_value(s.drop_last()) + (s.last() as nat - 48) as nat
    }
}

/// The digits of a number that may have a plus sign.
pub open spec fn without_plus(s: Seq<char>) -> Seq<char> {
    if s.len() > 0 && s[0] == '+' {
        s.skip(1)
    } else {
        s
    }
}

/// The unsigned number that a text stands for, if it is at most `max`.
pub open spec fn parsed_number(s: Seq<char>, max: nat) -> Option<nat> {
    let digits = without_plus(s);
    if digits.len() > 0 && (forall|i: int| 0 <= i < digits.len() ==> is_digit(#[trigger] digits[i]))
        && digits_value(digits) <= max {
        Some(digits_value(digits))
    } else {
        None
    }
}

/// A number in decimal is made of digits, does not begin with a zero unless it is zero,
/// and stands for the number.
pub proof fn law_decimal_stands_for_its_number(n: nat)
    ensures
        decimal(n).len() > 0,
        digits_value(decimal(n)) == n,
        forall|i: int| 0 <= i < decimal(n).len() ==> '0' <= #[trigger] decimal(n)[i] <= '9',
        n > 0 ==> decimal(n)[0] != '0',
        n < 10 ==> decimal(n) == seq![('0' as int + n) as char],
    decreases n,
{
    if n < 10 {
        assert(decimal(n).drop_last() =~= Seq::<char>::empty());
        assert(digits_value(Seq::<char>::empty()) == 0);
    } else {
        law_decimal_stands_for_its_number(n / 10);
        assert(decimal(n).drop_last() =~= decimal(n / 10));
        assert forall|i: int| 0 <= i < decimal(n).len() implies '0' <= #[trigger] decimal(n)[i]
            <= '9' by {
            if i < decimal(n / 10).len() {
                assert(decimal(n)[i] == decimal(n / 10)[i]);
            }
        }
        assert(decimal(n)[0] == decimal(n / 10)[0]);
    }
}

/// A number that may be negative is the number without its sign, with a minus sign before
/// it exactly if it is below zero.
pub proof fn law_minus_signs(n: int)
    ensures
        n >= 0 ==> decimal_int(n) == decimal(n as nat),
        n < 0 ==> decimal_int(n) == seq!['-'] + decimal((-n) as nat),
        decimal_int(n)[0] == '-' <==> n < 0,
{
    if n >= 0 {
        law_decimal_stands_for_its_number(n as nat);
        assert('0' <= decimal(n as nat)[0] <= '9');
    }
}

/// The value of digits: each place is worth ten of the place after it.
pub proof fn law_places_are_worth_ten(s: Seq<char>, c: char)
    requires
        '0' <= c <= '9',
    ensures
        digits_value(s.push(c)) == 10 * digits_value(s) + (c as int - '0' as int),
        digits_value(Seq::empty()) == 0,
{
    assert(s.push(c).drop_last() =~= s);
}

/// Numbers in decimal are told apart, and a number that was written is read back. A
/// plus sign changes nothing; anything else but digits, nothing at all, and a number
/// above the largest are no number.
pub proof fn law_numbers_are_read_back(m: nat, n: nat, max: nat, s: Seq<char>)
    ensures
        decimal(m) == decimal(n) ==> m == n,
        n <= max ==> parsed_number(decimal(n), max) == Some(n),
        n <= max ==> parsed_number(seq!['+'] + decimal(n), max) == Some(n),
        n > max ==> parsed_number(decimal(n), max) is None,
        parsed_number(Seq::empty(), max) is None,
        parsed_number(seq!['+'], max) is None,
        (exists|i: int| 0 < i < s.len() && !('0' <= #[trigger] s[i] <= '9')) ==> parsed_number(
            s,
            max,
        ) is None,
        s.len() > 0 && s[0] != '+' && !('0' <= s[0] <= '9') ==> parsed_number(s, max) is None,
{
    law_decimal_stands_for_its_number(m);
    law_decimal_stands_for_its_number(n);
    assert(decimal(n)[0] != '+');
    assert((seq!['+'] + decimal(n)).skip(1) =~= decimal(n));
    assert(seq!['+'].skip(1) =~= Seq::<char>::empty());
    if exists|i: int| 0 < i < s.len() && !('0' <= #[trigger] s[i] <= '9') {
        let i = choose|i: int| 0 < i < s.len() && !('0' <= #[trigger] s[i] <= '9');
        let digits = without_plus(s);
        if s[0] == '+' {
            assert(digits[i - 1] == s[i]);
        } else {
            assert(digits[i] == s[i]);
        }
    }
}

/// The fields of a text, cut at each separator.
pub open spec fn split_at_char(s: Seq<char>, separator: char) -> Seq<Seq<char>>
    decreases s.len(),
{
    if s.len() == 0 {
        seq![Seq::empty()]
    } else {
        let fields = split_at_char(s.drop_last(), separator);
        if s.last() == separator {
            fields.push(Seq::empty())
        } else {
            fields.drop_last().push(fields.last().push(s.last()))
        }
    }
}

pub proof fn lemma_split_nonempty(s: Seq<char>, separator: char)
    ensures
        split_at_char(s, separator).len() > 0,
    decreases s.len(),
{
    if s.len() > 0 {
        lemma_split_nonempty(s.drop_last(), separator);
    }
}

/// What follows the last separator is taken up by the last field.
pub proof fn lemma_split_extends(s: Seq<char>, piece: Seq<char>, separator: char)
    requires
        forall|i: int| 0 <= i < piece.len() ==> #[trigger] piece[i] != separator,
    ensures
        ({
            let fields = split_at_char(s, separator);
            split_at_char(s + piece, separator) == fields.drop_last().push(fields.last() + piece)
        }),
    decreases piece.len(),
{
    let fields = split_at_char(s, separator);
    lemma_split_nonempty(s, separator);
    if piece.len() == 0 {
        assert(s + piece =~= s);
        assert(fields.last() + piece =~= fields.last());
        assert(fields.drop_last().push(fields.last()) =~= fields);
    } else {
        lemma_split_extends(s, piece.drop_last(), separator);
        assert((s + piece).drop_last() =~= s + piece.drop_last());
        assert((s + piece).last() == piece[piece.len() - 1]);
        let shorter = fields.drop_last().push(fields.last() + piece.drop_last());
        assert(shorter.drop_last() =~= fields.drop_last());
        assert((fields.last() + piece.drop_last()).push(piece.last()) =~= fields.last() + piece);
    }
}

/// A line that is added to whole lines is a field of its own.
pub proof fn lemma_split_line(s: Seq<char>, line: Seq<char>, separator: char)
    requires
        split_at_char(s, separator).last() == Seq::<char>::empty(),
        forall|i: int| 0 <= i < line.len() ==> #[trigger] line[i] != separator,
    ensures
        split_at_char(s + line + seq![separator], separator) == split_at_char(
            s,
            separator,
        ).drop_last().push(line).push(Seq::empty()),
{
    lemma_split_extends(s, line, separator);
    let whole = s + line + seq![separator];
    assert(whole.drop_last() =~= s + line);
    assert(whole.last() == separator);
    assert(Seq::<char>::empty() + line =~= line);
}

/// What the fields are.
pub open spec fn fields_view(fields: Seq<Vec<char>>) -> Seq<Seq<char>> {
    fields.map_values(|f: Vec<char>| f@)
}

/// Fields with a separator between each two.
pub open spec fn with_separator(fields: Seq<Seq<char>>, separator: char) -> Seq<char>
    decreases fields.len(),
{
    if fields.len() == 0 {
        Seq::empty()
    } else if fields.len() == 1 {
        fields[0]
    } else {
        with_separator(fields.drop_last(), separator).push(separator) + fields.last()
    }
}

/// Cutting a text loses nothing: no field has a separator in it, and the fields with
/// the separator between them are the text.
pub proof fn law_fields_make_the_text(s: Seq<char>, separator: char)
    ensures
        split_at_char(s, separator).len() > 0,
        forall|i: int, k: int| #![trigger split_at_char(s, separator)[i][k]]
            0 <= i < split_at_char(s, separator).len() && 0 <= k < split_at_char(
                s,
                separator,
            )[i].len() ==> split_at_char(s, separator)[i][k] != separator,
        with_separator(split_at_char(s, separator), separator) == s,
    decreases s.len(),
{
    let fields = split_at_char(s, separator);
    if s.len() == 0 {
        assert(with_separator(fields, separator) =~= s);
    } else {
        let front = s.drop_last();
        let before = split_at_char(front, separator);
        law_fields_make_the_text(front, separator);
        assert(front.push(s.last()) =~= s);
        if s.last() == separator {
            assert(fields.drop_last() =~= before);
            assert(with_separator(fields, separator) =~= s);
            assert forall|i: int, k: int| #![trigger fields[i][k]]
                0 <= i < fields.len() && 0 <= k < fields[i].len() implies fields[i][k]
                != separator by {
                assert(fields[i] == before[i]);
                assert(before[i][k] != separator);
            }
        } else {
            assert(fields.drop_last() =~= before.drop_last());
            assert(fields.last() == before.last().push(s.last()));
            assert(with_separator(fields, separator) =~= with_separator(before, separator).push(
                s.last(),
            ));
            assert forall|i: int, k: int| #![trigger fields[i][k]]
                0 <= i < fields.len() && 0 <= k < fields[i].len() implies fields[i][k]
                != separator by {
                if i < before.len() - 1 {
                    assert(fields[i] == before[i]);
                    assert(before[i][k] != separator);
                } else if k < before.last().len() {
                    assert(before[before.len() - 1][k] != separator);
                }
            }
        }
    }
}

/// The characters of a string.
pub fn chars_of(s: &str) -> (r: Vec<char>)
    ensures
        r@ == s@,
{
    let mut out: Vec<char> = Vec::new();
    for c in it: s.chars()
        invariant
            out@ == it.seq().take(it.index()),
            it.seq() == s@,
    {
        out.push(c);
        assert(out@ =~= it.seq().take(it.index() + 1));
    }
    assert(s@.take(s@.len() as int) =~= s@);
    out
}

/// The string of characters.
pub fn string_of(chars: &Vec<char>) -> (r: String)
    ensures
        r@ == chars@,
{
    let mut out: String = String::new();
    let mut i: usize = 0;
    assert(chars@.take(0) =~= Seq::<char>::empty());
    while i < chars.len()
        invariant
            i <= chars@.len(),
            out@ == chars@.take(i as int),
        decreases chars.len() - i,
    {
        string_push(&mut out, chars[i]);
        i = i + 1;
        assert(out@ =~= chars@.take(i as int));
    }
    assert(chars@.take(i as int) =~= chars@);
    out
}

/// Cuts a text at each separator.
pub fn split_chars(s: &Vec<char>, separator: char) -> (r: Vec<Vec<char>>)
    ensures
        fields_view(r@) == split_at_char(s@, separator),
{
    let mut fields: Vec<Vec<char>> = Vec::new();
    let mut current: Vec<char> = Vec::new();
    let mut i: usize = 0;
    assert(s@.take(0) =~= Seq::<char>::empty());
    assert(split_at_char(s@.take(0), separator) =~= fields_view(fields@).push(current@));
    while i < s.len()
        invariant
            i <= s@.len(),
            split_at_char(s@.take(i as int), separator) == fields_view(fields@).push(current@),
        decreases s.len() - i,
    {
        let c: char = s[i];
        let ghost before = fields@;
        let ghost field = current@;
        proof {
            assert(s@.take(i + 1).drop_last() =~= s@.take(i as int));
            assert(fields_view(before).push(field).drop_last() =~= fields_view(before));
        }
        if c == separator {
            fields.push(current);
            current = Vec::new();
            proof {
                assert(fields_view(fields@) =~= fields_view(before).push(field));
                assert(current@ =~= Seq::<char>::empty());
            }
        } else {
            current.push(c);
        }
        i = i + 1;
    }
    let ghost before = fields@;
    let ghost field = current@;
    fields.push(current);
    assert(fields_view(fields@) =~= fields_view(before).push(field));
    assert(s@.take(i as int) =~= s@);
    fields
}

proof fn lemma_digits_value_monotone(s: Seq<char>, m: int)
    requires
        0 <= m <= s.len(),
        forall|i: int| 0 <= i < s.len() ==> is_digit(#[trigger] s[i]),
    ensures
        digits_value(s.take(m)) <= digits_value(s),
    decreases s.len(),
{
    if m < s.len() {
        let shorter = s.drop_last();
        assert forall|i: int| 0 <= i < shorter.len() implies is_digit(#[trigger] shorter[i]) by {
            assert(shorter[i] == s[i]);
        }
        lemma_digits_value_monotone(shorter, m);
        assert(shorter.take(m) =~= s.take(m));
        assert(is_digit(s[s.len() - 1]));
    } else {
        assert(s.take(m) =~= s);
    }
}

/// Reads an unsigned number, which may have a plus sign. `None` for anything else
/// and for a number that is too large.
pub fn parse_usize(s: &Vec<char>) -> (r: Option<usize>)
    ensures
        match r {
            Some(n) => parsed_number(s@, usize::MAX as nat) == Some(n as nat),
            None => parsed_number(s@, usize::MAX as nat) is None,
        },
{
    let start: usize = if s.len() > 0 && s[0] == '+' {
        1
    } else {
        0
    };
    let ghost digits = without_plus(s@);
    assert(digits =~= s@.skip(start as int));
    if start >= s.len() {
        return None;
    }
    let mut value: usize = 0;
    let mut i: usize = start;
    assert(digits.take(0) =~= Seq::<char>::empty());
    while i < s.len()
        invariant
            start <= i <= s@.len(),
            digits == s@.skip(start as int),
            digits == without_plus(s@),
            forall|k: int| 0 <= k < i - start ==> is_digit(#[trigger] digits[k]),
            value == digits_value(digits.take(i - start)),
        decreases s.len() - i,
    {
        let c: char = s[i];
        assert(digits[i - start] == c);
        if !('0' <= c && c <= '9') {
            return None;
        }
        let d: usize = (c as u32 - 48) as usize;
        proof {
            assert(digits.take(i - start + 1).drop_last() =~= digits.take(i - start));
            assert(digits.take(i - start + 1).last() == c);
            if (forall|k: int| 0 <= k < digits.len() ==> is_digit(#[trigger] digits[k])) {
                lemma_digits_value_monotone(digits, i - start + 1);
            }
        }
        match value.checked_mul(10) {
            Some(tens) => match tens.checked_add(d) {
                Some(next) => {
                    value = next;
                },
                None => {
                    return None;
                },
            },
            None => {
                return None;
            },
        }
        i = i + 1;
    }
    assert(digits.take(i - start) =~= digits);
    Some(value)
}

/// A digit as text.
fn digit_str(d: u64) -> (r: &'static str)
    requires
        d < 10,
    ensures
        r@ == seq![digit_char(d as int)],
{
    proof {
        reveal_strlit("0");
        reveal_strlit("1");
        reveal_strlit("2");
        reveal_strlit("3");
        reveal_strlit("4");
        reveal_strlit("5");
        reveal_strlit("6");
        reveal_strlit("7");
        reveal_strlit("8");
        reveal_strlit("9");
    }
    let r: &'static str = match d {
        0 => "0",
        1 => "1",
        2 => "2",
        3 => "3",
        4 => "4",
        5 => "5",
        6 => "6",
        7 => "7",
        8 => "8",
        _ => "9",
    };
    assert(r@ =~= seq![digit_char(d as int)]);
    r
}

/// Appends a number in decimal.
pub fn push_decimal(out: &mut String, n: u64)
    ensures
        final(out)@ == old(out)@ + decimal(n as nat),
    decreases n,
{
    if n >= 10 {
        push_decimal(out, n / 10);
    }
    out.append(digit_str(n % 10));
    assert(out@ =~= old(out)@ + decimal(n as nat));
}

/// A number in decimal.
pub fn decimal_string(n: u64) -> (r: String)
    ensures
        r@ == decimal(n as nat),
{
    let mut out: String = String::new();
    push_decimal(&mut out, n);
    assert(out@ =~= decimal(n as nat));
    out
}

/// A number in decimal, with a minus sign if it is negative.
pub fn decimal_i64(n: i64) -> (r: String)
    ensures
        r@ == decimal_int(n as int),
{
    let mut out: String = String::new();
    if n < 0 {
        string_push(&mut out, '-');
        let abs: u64 = if n == i64::MIN {
            0x8000_0000_0000_0000
        } else {
            (-n) as u64
        };
        push_decimal(&mut out, abs);
    } else {
        push_decimal(&mut out, n as u64);
    }
    assert(out@ =~= decimal_int(n as int));
    out
}

/// The upper-case hexadecimal digit of a number below sixteen.
pub open spec fn hex_digit(d: u32) -> char {
    if d < 10 {
        (48 + d) as char
    } else {
        (55 + d) as char
    }
}

/// A number in hexadecimal, as `0x` and eight digits.
pub open spec fn hex8(n: u32) -> Seq<char> {
    "0x"@ + seq![
        hex_digit(n / 0x1000_0000),
        hex_digit((n / 0x100_0000) % 16),
        hex_digit((n / 0x10_0000) % 16),
        hex_digit((n / 0x1_0000) % 16),
        hex_digit((n / 0x1000) % 16),
        hex_digit((n / 0x100) % 16),
        hex_digit((n / 0x10) % 16),
        hex_digit(n % 16),
    ]
}

/// A number in hexadecimal is `0x` and eight upper-case digits, each worth sixteen of the
/// one after it.
pub proof fn law_hexadecimal_digits(n: u32, d: u32)
    ensures
        hex8(n).len() == 10 && hex8(n)[0] == '0' && hex8(n)[1] == 'x',
        hex8(n)[2] == hex_digit(n / 0x1000_0000),
        hex8(n)[3] == hex_digit((n / 0x100_0000) % 16),
        hex8(n)[4] == hex_digit((n / 0x10_0000) % 16),
        hex8(n)[5] == hex_digit((n / 0x1_0000) % 16),
        hex8(n)[6] == hex_digit((n / 0x1000) % 16),
        hex8(n)[7] == hex_digit((n / 0x100) % 16),
        hex8(n)[8] == hex_digit((n / 0x10) % 16),
        hex8(n)[9] == hex_digit(n % 16),
        d < 10 ==> hex_digit(d) as int == '0' as int + d,
        10 <= d < 16 ==> hex_digit(d) as int == 'A' as int + d - 10,
{
    reveal_strlit("0x");
}

/// The upper-case hexadecimal digit of a number below sixteen.
fn hex_char(d: u32) -> (r: char)
    requires
        d < 16,
    ensures
        r == hex_digit(d),
{
    if d < 10 {
        (48 + d as u8) as char
    } else {
        (55 + d as u8) as char
    }
}

/// Appends a number in hexadecimal, as `0x` and eight digits.
pub fn push_hex8(out: &mut String, n: u32)
    ensures
        final(out)@ == old(out)@ + hex8(n),
{
    out.append("0x");
    string_push(out, hex_char(n / 0x1000_0000));
    string_push(out, hex_char((n / 0x100_0000) % 16));
    string_push(out, hex_char((n / 0x10_0000) % 16));
    string_push(out, hex_char((n / 0x1_0000) % 16));
    string_push(out, hex_char((n / 0x1000) % 16));
    string_push(out, hex_char((n / 0x100) % 16));
    string_push(out, hex_char((n / 0x10) % 16));
    string_push(out, hex_char(n % 16));
    assert(out@ =~= old(out)@ + hex8(n));
}

/// Whether a character has the Unicode property White_Space.
pub open spec fn is_space(c: char) -> bool {
    ||| '\u{9}' <= c <= '\u{d}'
    ||| c == ' '
    ||| c == '\u{85}'
    ||| c == '\u{a0}'
    ||| c == '\u{1680}'
    ||| '\u{2000}' <= c <= '\u{200a}'
    ||| c == '\u{2028}'
    ||| c == '\u{2029}'
    ||| c == '\u{202f}'
    ||| c == '\u{205f}'
    ||| c == '\u{3000}'
}

/// What is stripped from the ends of a text.
#[derive(Debug, Clone, Copy)]
pub enum Strip {
    /// White space.
    Space,
    /// One character.
    Only(char),
}

/// Whether a character is stripped.
pub open spec fn strips(what: Strip, c: char) -> bool {
    match what {
        Strip::Space => is_space(c),
        Strip::Only(x) => c == x,
    }
}

/// A text without what is stripped from its front.
pub open spec fn strip_front(s: Seq<char>, what: Strip) -> Seq<char>
    decreases s.len(),
{
    if s.len() > 0 && strips(what, s[0]) {
        strip_front(s.skip(1), what)
    } else {
        s
    }
}

/// A text without what is stripped from its back.
pub open spec fn strip_back(s: Seq<char>, what: Strip) -> Seq<char>
    decreases s.len(),
{
    if s.len() > 0 && strips(what, s.last()) {
        strip_back(s.drop_last(), what)
    } else {
        s
    }
}

/// A text without what is stripped from its ends.
pub open spec fn stripped(s: Seq<char>, what: Strip) -> Seq<char> {
    strip_back(strip_front(s, what), what)
}

/// A text without white space at its ends.
pub open spec fn trimmed(s: Seq<char>) -> Seq<char> {
    stripped(s, Strip::Space)
}

/// Trimming takes away white space at the ends and nothing else: what is left begins
/// and ends with something else, and with what was taken away it is the text.
pub proof fn law_trimming_takes_away_space(s: Seq<char>)
    ensures
        exists|a: int, b: int| #[trigger]
            is_cut(s, trimmed(s), a, b) && (forall|i: int|
                0 <= i < a || b <= i < s.len() ==> is_space(#[trigger] s[i])),
        trimmed(s).len() > 0 ==> !is_space(trimmed(s)[0]) && !is_space(trimmed(s).last()),
        is_space(' ') && is_space('\t') && is_space('\n') && is_space('\r'),
        forall|c: char| '!' <= c <= '~' ==> !(#[trigger] is_space(c)),
{
    let front = strip_front(s, Strip::Space);
    lemma_strip_front(s, Strip::Space);
    lemma_strip_back(front, Strip::Space);
    let a = s.len() - front.len();
    let b = a + trimmed(s).len();
    assert(trimmed(s) =~= s.subrange(a, b));
    assert(is_cut(s, trimmed(s), a, b));
    assert forall|i: int| 0 <= i < a || b <= i < s.len() implies is_space(#[trigger] s[i]) by {
        if i >= b {
            assert(s[i] == front[i - a]);
            assert(strips(Strip::Space, front[i - a]));
        } else {
            assert(strips(Strip::Space, s[i]));
        }
    }
}

/// Whether `part` is what stands from `a` up to `b`.
pub open spec fn is_cut(whole: Seq<char>, part: Seq<char>, a: int, b: int) -> bool {
    0 <= a <= b <= whole.len() && part == whole.subrange(a, b)
}

/// Stripping one character takes away that character at the ends and nothing else.
pub proof fn law_stripping_takes_away_one_character(s: Seq<char>, c: char)
    ensures
        exists|a: int, b: int| #[trigger]
            is_cut(s, stripped(s, Strip::Only(c)), a, b) && (forall|i: int|
                0 <= i < a || b <= i < s.len() ==> #[trigger] s[i] == c),
        stripped(s, Strip::Only(c)).len() > 0 ==> stripped(s, Strip::Only(c))[0] != c && stripped(
            s,
            Strip::Only(c),
        ).last() != c,
{
    let what = Strip::Only(c);
    let front = strip_front(s, what);
    lemma_strip_front(s, what);
    lemma_strip_back(front, what);
    let rest = stripped(s, what);
    let a = s.len() - front.len();
    let b = a + rest.len();
    assert(rest =~= s.subrange(a, b));
    assert(is_cut(s, rest, a, b));
    assert forall|i: int| 0 <= i < a || b <= i < s.len() implies #[trigger] s[i] == c by {
        if i >= b {
            assert(s[i] == front[i - a]);
            assert(strips(what, front[i - a]));
        } else {
            assert(strips(what, s[i]));
        }
    }
}

proof fn lemma_strip_front(s: Seq<char>, what: Strip)
    ensures
        strip_front(s, what).len() <= s.len(),
        strip_front(s, what) == s.skip(s.len() - strip_front(s, what).len()),
        forall|i: int|
            0 <= i < s.len() - strip_front(s, what).len() ==> strips(what, #[trigger] s[i]),
        strip_front(s, what).len() > 0 ==> !strips(what, strip_front(s, what)[0]),
    decreases s.len(),
{
    if s.len() > 0 && strips(what, s[0]) {
        let rest = s.skip(1);
        lemma_strip_front(rest, what);
        assert(strip_front(s, what) =~= s.skip(s.len() - strip_front(s, what).len()));
        assert forall|i: int| 0 <= i < s.len() - strip_front(s, what).len() implies strips(
            what,
            #[trigger] s[i],
        ) by {
            if i > 0 {
                assert(s[i] == rest[i - 1]);
            }
        }
    } else {
        assert(s.skip(0) =~= s);
    }
}

proof fn lemma_strip_back(s: Seq<char>, what: Strip)
    ensures
        strip_back(s, what).len() <= s.len(),
        strip_back(s, what) == s.take(strip_back(s, what).len() as int),
        forall|i: int| strip_back(s, what).len() <= i < s.len() ==> strips(what, #[trigger] s[i]),
        strip_back(s, what).len() > 0 ==> !strips(what, strip_back(s, what).last()),
    decreases s.len(),
{
    if s.len() > 0 && strips(what, s.last()) {
        let rest = s.drop_last();
        lemma_strip_back(rest, what);
        assert(strip_back(s, what) =~= s.take(strip_back(s, what).len() as int));
        assert forall|i: int| strip_back(s, what).len() <= i < s.len() implies strips(
            what,
            #[trigger] s[i],
        ) by {
            if i < s.len() - 1 {
                assert(s[i] == rest[i]);
            }
        }
    } else {
        assert(s.take(s.len() as int) =~= s);
    }
}

/// Whether a character is stripped.
fn is_stripped(what: Strip, c: char) -> (r: bool)
    ensures
        r == strips(what, c),
{
    match what {
        Strip::Space => ('\u{9}' <= c && c <= '\u{d}') || c == ' ' || c == '\u{85}' || c == '\u{a0}'
            || c == '\u{1680}' || ('\u{2000}' <= c && c <= '\u{200a}') || c == '\u{2028}' || c
            == '\u{2029}' || c == '\u{202f}' || c == '\u{205f}' || c == '\u{3000}',
        Strip::Only(x) => c == x,
    }
}

/// Strips the ends of a text.
pub fn strip_chars(s: &Vec<char>, what: Strip) -> (r: Vec<char>)
    ensures
        r@ == stripped(s@, what),
{
    let mut from: usize = 0;
    assert(s@.skip(0) =~= s@);
    while from < s.len() && is_stripped(what, s[from])
        invariant
            from <= s@.len(),
            strip_front(s@, what) == strip_front(s@.skip(from as int), what),
        decreases s.len() - from,
    {
        assert(s@.skip(from as int).skip(1) =~= s@.skip(from + 1));
        from = from + 1;
    }
    let ghost front = s@.skip(from as int);
    assert(strip_front(front, what) == front);
    let mut to: usize = s.len();
    assert(front.take(to - from) =~= front);
    while to > from && is_stripped(what, s[to - 1])
        invariant
            from <= to <= s@.len(),
            front == s@.skip(from as int),
            strip_back(front, what) == strip_back(front.take(to - from), what),
        decreases to,
    {
        assert(front.take(to - from).drop_last() =~= front.take(to - from - 1));
        assert(front.take(to - from).last() == s@[to - 1]);
        to = to - 1;
    }
    proof {
        if to > from {
            assert(front.take(to - from).last() == s@[to - 1]);
        }
    }
    let mut out: Vec<char> = Vec::new();
    let mut i: usize = from;
    while i < to
        invariant
            from <= i <= to <= s@.len(),
            out@ == s@.subrange(from as int, i as int),
        decreases to - i,
    {
        out.push(s[i]);
        i = i + 1;
        assert(out@ =~= s@.subrange(from as int, i as int));
    }
    assert(out@ =~= front.take(to - from));
    out
}

/// Removes white space from the ends of a text.
pub fn trim_text(s: &str) -> (r: String)
    ensures
        r@ == trimmed(s@),
{
    let chars: Vec<char> = chars_of(s);
    string_of(&strip_chars(&chars, Strip::Space))
}

} // verus!
