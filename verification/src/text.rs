//! Plain text: numbers in decimal and hexadecimal, white space, ASCII case,
//! and the first occurrence of a character.
use vstd::prelude::*;

verus! {

/// The upper-case digit for a value below sixteen.
pub open spec fn digit_char(d: int) -> char {
    if d == 0 { '0' } else if d == 1 { '1' } else if d == 2 { '2' } else if d == 3 { '3' }
    else if d == 4 { '4' } else if d == 5 { '5' } else if d == 6 { '6' } else if d == 7 { '7' }
    else if d == 8 { '8' } else if d == 9 { '9' } else if d == 10 { 'A' } else if d == 11 { 'B' }
    else if d == 12 { 'C' } else if d == 13 { 'D' } else if d == 14 { 'E' } else { 'F' }
}

/// `n` in decimal, without leading zeros.
pub open spec fn dec_text(n: nat) -> Seq<char>
    decreases n,
{
    if n < 10 {
        seq![digit_char(n as int)]
    } else {
        dec_text(n / 10).push(digit_char((n % 10) as int))
    }
}

/// `n` in upper-case hexadecimal, without leading zeros.
pub open spec fn hex_text(n: nat) -> Seq<char>
    decreases n,
{
    if n < 16 {
        seq![digit_char(n as int)]
    } else {
        hex_text(n / 16).push(digit_char((n % 16) as int))
    }
}

/// `s` behind as many zeros as bring it to `width` characters.
pub open spec fn zero_padded(s: Seq<char>, width: nat) -> Seq<char> {
    if s.len() < width {
        Seq::new((width - s.len()) as nat, |i: int| '0') + s
    } else {
        s
    }
}

/// A signed number in decimal.
pub open spec fn signed_dec_text(n: int) -> Seq<char> {
    if n < 0 {
        seq!['-'] + dec_text((-n) as nat)
    } else {
        dec_text(n as nat)
    }
}

/// `true` or `false`.
pub open spec fn bool_text(b: bool) -> Seq<char> {
    if b { "true"@ } else { "false"@ }
}

fn digit_str(d: u8) -> (s: &'static str)
    requires
        d < 16,
    ensures
        s@ == seq![digit_char(d as int)],
{
    proof {
        reveal_strlit("0");
        reveal_strlit("1");
        reveal_strlit("2");
        reveal_strlit("3");
        reveal_strlit("4");
        reveal_strlit("5");
        reveal_strlit("6");
        reveal_strlit("7");
        reveal_strlit("8");
        reveal_strlit("9");
        reveal_strlit("A");
        reveal_strlit("B");
        reveal_strlit("C");
        reveal_strlit("D");
        reveal_strlit("E");
        reveal_strlit("F");
    }
    match d {
        0 => "0",
        1 => "1",
        2 => "2",
        3 => "3",
        4 => "4",
        5 => "5",
        6 => "6",
        7 => "7",
        8 => "8",
        9 => "9",
        10 => "A",
        11 => "B",
        12 => "C",
        13 => "D",
        14 => "E",
        _ => "F",
    }
}

/// Appends `n` in decimal.
pub fn push_dec(out: &mut String, n: u64)
    ensures
        final(out)@ == old(out)@ + dec_text(n as nat),
    decreases n,
{
    if n < 10 {
        out.append(digit_str(n as u8));
    } else {
        push_dec(out, n / 10);
        out.append(digit_str((n % 10) as u8));
    }
}

fn push_hex_digits(out: &mut String, n: u64)
    ensures
        final(out)@ == old(out)@ + hex_text(n as nat),
    decreases n,
{
    if n < 16 {
        out.append(digit_str(n as u8));
    } else {
        push_hex_digits(out, n / 16);
        out.append(digit_str((n % 16) as u8));
    }
}

/// Appends `n` in upper-case hexadecimal, with leading zeros up to `width` characters.
pub fn push_hex(out: &mut String, n: u64, width: usize)
    ensures
        final(out)@ == old(out)@ + zero_padded(hex_text(n as nat), width as nat),
{
    let digits: usize = hex_digit_count(n);
    push_zeros(out, digits, width);
    push_hex_digits(out, n);
    assert(final(out)@ =~= old(out)@ + zero_padded(hex_text(n as nat), width as nat));
}

/// Appends `n` in decimal, with leading zeros up to `width` characters.
pub fn push_padded_dec(out: &mut String, n: u64, width: usize)
    ensures
        final(out)@ == old(out)@ + zero_padded(dec_text(n as nat), width as nat),
{
    let digits: usize = dec_digit_count(n);
    push_zeros(out, digits, width);
    push_dec(out, n);
    assert(final(out)@ =~= old(out)@ + zero_padded(dec_text(n as nat), width as nat));
}

/// Appends a signed number in decimal.
pub fn push_signed_dec(out: &mut String, n: i16)
    ensures
        final(out)@ == old(out)@ + signed_dec_text(n as int),
{
    if n < 0 {
        let magnitude: u64 = (-(n as i64)) as u64;
        out.append("-");
        push_dec(out, magnitude);
        proof {
            reveal_strlit("-");
            assert("-"@ =~= seq!['-']);
        }
        assert(final(out)@ =~= old(out)@ + signed_dec_text(n as int));
    } else {
        push_dec(out, n as u64);
    }
}

/// Appends `true` or `false`.
pub fn push_bool(out: &mut String, b: bool)
    ensures
        final(out)@ == old(out)@ + bool_text(b),
{
    if b {
        out.append("true");
    } else {
        out.append("false");
    }
}

fn push_zeros(out: &mut String, from: usize, to: usize)
    ensures
        final(out)@ == old(out)@ + Seq::new(
            (if from < to { to - from } else { 0 }) as nat,
            |i: int| '0',
        ),
{
    let ghost start = out@;
    let mut at: usize = from;
    while at < to
        invariant
            from <= at,
            from <= to ==> at <= to,
            to < from ==> at == from,
            out@ == start + Seq::new((at - from) as nat, |i: int| '0'),
        decreases to - at,
    {
        out.append("0");
        at = at + 1;
        proof {
            reveal_strlit("0");
            assert(out@ =~= start + Seq::new((at - from) as nat, |i: int| '0'));
        }
    }
    assert(out@ =~= start + Seq::new((if from < to { to - from } else { 0 }) as nat, |i: int| '0'));
}

fn hex_digit_count(n: u64) -> (count: usize)
    ensures
        count == hex_text(n as nat).len(),
    decreases n,
{
    if n < 16 {
        1
    } else {
        let rest: usize = hex_digit_count(n / 16);
        proof {
            reveal_with_fuel(hex_limit, 17);
            lemma_hex_text_len(n as nat, 16);
        }
        rest + 1
    }
}

fn dec_digit_count(n: u64) -> (count: usize)
    ensures
        count == dec_text(n as nat).len(),
    decreases n,
{
    if n < 10 {
        1
    } else {
        let rest: usize = dec_digit_count(n / 10);
        proof {
            reveal_with_fuel(dec_limit, 21);
            lemma_dec_text_len(n as nat, 20);
        }
        rest + 1
    }
}

/// One above the largest number that `digits` hexadecimal digits can hold.
pub open spec fn hex_limit(digits: nat) -> nat
    decreases digits,
{
    if digits == 0 { 1 } else { 16 * hex_limit((digits - 1) as nat) }
}

/// One above the largest number that `digits` decimal digits can hold.
pub open spec fn dec_limit(digits: nat) -> nat
    decreases digits,
{
    if digits == 0 { 1 } else { 10 * dec_limit((digits - 1) as nat) }
}

/// A number below `hex_limit(digits)` has at most `digits` hexadecimal digits.
pub proof fn lemma_hex_text_len(n: nat, digits: nat)
    requires
        n < hex_limit(digits),
        0 < digits,
    ensures
        1 <= hex_text(n).len() <= digits,
    decreases n,
{
    if n >= 16 {
        assert(digits > 1) by {
            reveal_with_fuel(hex_limit, 2);
        }
        lemma_hex_text_len(n / 16, (digits - 1) as nat);
    }
}

/// A number below `dec_limit(digits)` has at most `digits` decimal digits.
pub proof fn lemma_dec_text_len(n: nat, digits: nat)
    requires
        n < dec_limit(digits),
        0 < digits,
    ensures
        1 <= dec_text(n).len() <= digits,
    decreases n,
{
    if n >= 10 {
        assert(digits > 1) by {
            reveal_with_fuel(dec_limit, 2);
        }
        lemma_dec_text_len(n / 10, (digits - 1) as nat);
    }
}

/// Unicode white space.
pub open spec fn is_white_space(c: char) -> bool {
    ||| '\u{9}' <= c <= '\u{d}'
    ||| c == ' '
    ||| c == '\u{85}'
    ||| c == '\u{a0}'
    ||| c == '\u{1680}'
    ||| '\u{2000}' <= c <= '\u{200a}'
    ||| c == '\u{2028}'
    ||| c == '\u{2029}'
    ||| c == '\u{202f}'
    ||| c == '\u{205f}'
    ||| c == '\u{3000}'
}

/// Whether `c` is Unicode white space.
pub fn char_is_white_space(c: char) -> (b: bool)
    ensures
        b == is_white_space(c),
{
    ('\u{9}' <= c && c <= '\u{d}') || c == ' ' || c == '\u{85}' || c == '\u{a0}' || c == '\u{1680}'
        || ('\u{2000}' <= c && c <= '\u{200a}') || c == '\u{2028}' || c == '\u{2029}'
        || c == '\u{202f}' || c == '\u{205f}' || c == '\u{3000}'
}

/// `s` without its leading white space.
pub open spec fn trim_start(s: Seq<char>) -> Seq<char>
    decreases s.len(),
{
    if s.len() > 0 && is_white_space(s[0]) {
        trim_start(s.drop_first())
    } else {
        s
    }
}

/// `s` without its trailing white space.
pub open spec fn trim_end(s: Seq<char>) -> Seq<char>
    decreases s.len(),
{
    if s.len() > 0 && is_white_space(s.last()) {
        trim_end(s.drop_last())
    } else {
        s
    }
}

/// `s` without the white space at its two ends.
pub open spec fn trim(s: Seq<char>) -> Seq<char> {
    trim_end(trim_start(s))
}

/// Where `c` stands first in `s`; the length of `s` where it does not stand in it.
pub open spec fn position_of(s: Seq<char>, c: char) -> nat
    decreases s.len(),
{
    if s.len() == 0 || s[0] == c {
        0
    } else {
        1 + position_of(s.drop_first(), c)
    }
}

/// The part of `s` before the first `c`.
pub open spec fn before(s: Seq<char>, c: char) -> Seq<char> {
    s.take(position_of(s, c) as int)
}

/// `position_of` is the one index with no `c` before it and `c` at it, or the length.
pub proof fn lemma_position_of(s: Seq<char>, c: char)
    ensures
        position_of(s, c) <= s.len(),
        forall|i: int| 0 <= i < position_of(s, c) ==> s[i] != c,
        position_of(s, c) < s.len() ==> s[position_of(s, c) as int] == c,
    decreases s.len(),
{
    if s.len() > 0 && s[0] != c {
        lemma_position_of(s.drop_first(), c);
        assert forall|i: int| 0 <= i < position_of(s, c) implies s[i] != c by {
            if i > 0 {
                assert(s.drop_first()[i - 1] == s[i]);
            }
        }
    }
}

/// The first occurrence is found at `k` when `k` has that property.
pub proof fn lemma_position_is(s: Seq<char>, c: char, k: int)
    requires
        0 <= k <= s.len(),
        forall|i: int| 0 <= i < k ==> s[i] != c,
        k < s.len() ==> s[k] == c,
    ensures
        position_of(s, c) == k,
{
    lemma_position_of(s, c);
    let p = position_of(s, c) as int;
    if p < k {
        assert(s[p] != c);
    }
    if k < p {
        assert(s[k] != c);
    }
}

/// The characters of a string.
pub fn chars_of(s: &str) -> (out: Vec<char>)
    ensures
        out@ == s@,
{
    let mut out: Vec<char> = Vec::new();
    for c in it: s.chars()
        invariant
            out@ == it.seq().take(it.index()),
            it.seq() == s@,
    {
        out.push(c);
    }
    out
}

/// The first `c` in `chars` from `lo` on and before `hi`; `hi` where there is none.
pub fn find_char(chars: &Vec<char>, lo: usize, hi: usize, c: char) -> (at: usize)
    requires
        lo <= hi <= chars.len(),
    ensures
        lo <= at <= hi,
        at - lo == position_of(chars@.subrange(lo as int, hi as int), c),
{
    let mut at: usize = lo;
    while at < hi && chars[at] != c
        invariant
            lo <= at <= hi <= chars.len(),
            forall|i: int| lo <= i < at ==> chars[i] != c,
        decreases hi - at,
    {
        at = at + 1;
    }
    proof {
        lemma_position_is(chars@.subrange(lo as int, hi as int), c, at - lo);
    }
    at
}

/// The bounds of the part of `chars` between `lo` and `hi` that trimming leaves.
pub fn trimmed_bounds(chars: &Vec<char>, lo: usize, hi: usize) -> (bounds: (usize, usize))
    requires
        lo <= hi <= chars.len(),
    ensures
        lo <= bounds.0 <= bounds.1 <= hi,
        chars@.subrange(bounds.0 as int, bounds.1 as int) == trim(
            chars@.subrange(lo as int, hi as int),
        ),
{
    let mut start: usize = lo;
    while start < hi && char_is_white_space(chars[start])
        invariant
            lo <= start <= hi <= chars.len(),
            trim_start(chars@.subrange(start as int, hi as int)) == trim_start(
                chars@.subrange(lo as int, hi as int),
            ),
        decreases hi - start,
    {
        proof {
            let rest = chars@.subrange(start as int, hi as int);
            assert(rest.drop_first() =~= chars@.subrange(start + 1, hi as int));
        }
        start = start + 1;
    }
    let ghost led = chars@.subrange(start as int, hi as int);
    let mut end: usize = hi;
    while start < end && char_is_white_space(chars[end - 1])
        invariant
            lo <= start <= end <= hi <= chars.len(),
            trim_end(chars@.subrange(start as int, end as int)) == trim_end(led),
        decreases end - start,
    {
        proof {
            let rest = chars@.subrange(start as int, end as int);
            assert(rest.last() == chars[end - 1]);
            assert(rest.drop_last() =~= chars@.subrange(start as int, end - 1));
        }
        end = end - 1;
    }
    (start, end)
}

/// An ASCII letter in lower case; any other character as it is.
pub open spec fn ascii_lower(c: char) -> char {
    if 'A' <= c <= 'Z' {
        ((c as int) + 32) as char
    } else {
        c
    }
}

/// Equal up to the case of ASCII letters.
pub open spec fn same_ignoring_ascii_case(a: Seq<char>, b: Seq<char>) -> bool {
    &&& a.len() == b.len()
    &&& forall|i: int| 0 <= i < a.len() ==> ascii_lower(#[trigger] a[i]) == ascii_lower(b[i])
}

fn lower(c: char) -> (r: char)
    ensures
        r == ascii_lower(c),
{
    if 'A' <= c && c <= 'Z' {
        ((c as u8) + 32) as char
    } else {
        c
    }
}

/// Whether the part of `chars` between `lo` and `hi` is `word`, up to the case of ASCII letters.
pub fn matches_word(chars: &Vec<char>, lo: usize, hi: usize, word: &str) -> (b: bool)
    requires
        lo <= hi <= chars.len(),
    ensures
        b == same_ignoring_ascii_case(chars@.subrange(lo as int, hi as int), word@),
{
    let expected = chars_of(word);
    let ghost part = chars@.subrange(lo as int, hi as int);
    if expected.len() != hi - lo {
        return false;
    }
    let mut i: usize = 0;
    while i < expected.len()
        invariant
            lo <= hi <= chars.len(),
            expected@ == word@,
            expected.len() == hi - lo,
            i <= expected.len(),
            part == chars@.subrange(lo as int, hi as int),
            forall|k: int| 0 <= k < i ==> ascii_lower(#[trigger] part[k]) == ascii_lower(word@[k]),
        decreases expected.len() - i,
    {
        assert(part[i as int] == chars[lo + i]);
        if lower(chars[lo + i]) != lower(expected[i]) {
            return false;
        }
        i = i + 1;
    }
    true
}

}
