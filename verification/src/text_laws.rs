//! What the texts of numbers and words say.
use vstd::arithmetic::power::pow;
use vstd::prelude::*;

use crate::text;

verus! {

/// Decimal text is a number in the usual notation: every character is a decimal digit, the one `i`
/// places before the end counts the `i`th power of ten, there are no leading zeros, and there are
/// enough digits.
pub proof fn law_decimal_text_is_positional(n: nat)
    ensures
        ({
            let s = text::dec_text(n);
            &&& s.len() > 0
            &&& n < pow(10, s.len())
            &&& s.len() > 1 ==> pow(10, (s.len() - 1) as nat) <= n
            &&& forall|i: int|
                0 <= i < s.len() ==> '0' <= (#[trigger] s[i]) <= '9' && s[i] as int - '0' as int == (
                n as int / pow(10, (s.len() - 1 - i) as nat)) % 10
        }),
    decreases n,
{
    let s = text::dec_text(n);
    lemma_powers(10, 0);
    if n < 10 {
        assert(n as int / 1 == n);
        assert forall|i: int| 0 <= i < s.len() implies '0' <= (#[trigger] s[i]) <= '9' && s[i] as int
            - '0' as int == (n as int / pow(10, (s.len() - 1 - i) as nat)) % 10 by {
            lemma_decimal_digit(n as int);
        }
    } else {
        let head = text::dec_text(n / 10);
        law_decimal_text_is_positional(n / 10);
        lemma_powers(10, head.len());
        lemma_powers(10, (head.len() - 1) as nat);
        assert(s.len() == head.len() + 1);
        assert forall|i: int| 0 <= i < s.len() implies '0' <= (#[trigger] s[i]) <= '9' && s[i] as int
            - '0' as int == (n as int / pow(10, (s.len() - 1 - i) as nat)) % 10 by {
            if i < head.len() {
                let place = (head.len() - 1 - i) as nat;
                assert(s[i] == head[i]);
                lemma_powers(10, place);
                vstd::arithmetic::div_mod::lemma_div_denominator(n as int, 10, pow(10, place));
            } else {
                lemma_decimal_digit((n % 10) as int);
                assert(n as int / 1 == n);
            }
        }
    }
}

/// Hexadecimal text is a number in the usual notation with capital letters, as the decimal one is.
pub proof fn law_hexadecimal_text_is_positional(n: nat)
    ensures
        ({
            let s = text::hex_text(n);
            &&& s.len() > 0
            &&& n < pow(16, s.len())
            &&& s.len() > 1 ==> pow(16, (s.len() - 1) as nat) <= n
            &&& forall|i: int|
                0 <= i < s.len() ==> (#[trigger] s[i]) as int == hex_digit_code(
                    (n as int / pow(16, (s.len() - 1 - i) as nat)) % 16,
                )
        }),
    decreases n,
{
    let s = text::hex_text(n);
    lemma_powers(16, 0);
    if n < 16 {
        assert(n as int / 1 == n);
        assert forall|i: int| 0 <= i < s.len() implies (#[trigger] s[i]) as int == hex_digit_code(
            (n as int / pow(16, (s.len() - 1 - i) as nat)) % 16,
        ) by {}
    } else {
        let head = text::hex_text(n / 16);
        law_hexadecimal_text_is_positional(n / 16);
        lemma_powers(16, head.len());
        lemma_powers(16, (head.len() - 1) as nat);
        assert(s.len() == head.len() + 1);
        assert forall|i: int| 0 <= i < s.len() implies (#[trigger] s[i]) as int == hex_digit_code(
            (n as int / pow(16, (s.len() - 1 - i) as nat)) % 16,
        ) by {
            if i < head.len() {
                let place = (head.len() - 1 - i) as nat;
                assert(s[i] == head[i]);
                lemma_powers(16, place);
                vstd::arithmetic::div_mod::lemma_div_denominator(n as int, 16, pow(16, place));
            } else {
                assert(n as int / 1 == n);
            }
        }
    }
}

/// The code of the character that stands for a hexadecimal digit: `0` to `9` are 48 to 57, `A` to
/// `F` are 65 to 70.
pub open spec fn hex_digit_code(d: int) -> int {
    if d < 10 { 48 + d } else { 55 + d }
}

proof fn lemma_decimal_digit(d: int)
    requires
        0 <= d < 10,
    ensures
        '0' <= text::digit_char(d) <= '9',
        text::digit_char(d) as int - '0' as int == d,
{
}

proof fn lemma_powers(base: int, k: nat)
    requires
        base == 10 || base == 16,
    ensures
        pow(base, 0) == 1,
        pow(base, k) > 0,
        pow(base, k + 1) == base * pow(base, k),
{
    vstd::arithmetic::power::lemma_pow0(base);
    vstd::arithmetic::power::lemma_pow_positive(base, k);
    reveal(pow);
}

/// Padding brings a text to a width with zeros in front, and leaves one that is long enough.
pub proof fn law_padding_is_zeros_in_front(s: Seq<char>, width: nat)
    ensures
        ({
            let padded = text::zero_padded(s, width);
            &&& padded.len() == if s.len() < width { width } else { s.len() }
            &&& padded.skip(padded.len() - s.len()) == s
            &&& forall|i: int| 0 <= i < padded.len() - s.len() ==> #[trigger] padded[i] == '0'
        }),
{
    let padded = text::zero_padded(s, width);
    assert(padded.skip(padded.len() - s.len()) =~= s);
}

/// A byte in two hexadecimal digits: the first counts sixteens, the second ones.
pub proof fn law_byte_has_two_digits(b: u8)
    ensures
        ({
            let s = text::zero_padded(text::hex_text(b as nat), 2);
            &&& s.len() == 2
            &&& s[0] as int == hex_digit_code(b as int / 16)
            &&& s[1] as int == hex_digit_code(b as int % 16)
        }),
{
    reveal_with_fuel(text::hex_text, 3);
    if b < 16 {
        assert(text::hex_text(b as nat).len() == 1);
    } else {
        assert(text::hex_text((b as nat) / 16) =~= seq![text::digit_char((b as nat / 16) as int)]);
    }
}

/// A signed number is written as its amount, behind a minus where it is below zero.
pub proof fn law_signed_text(n: int)
    ensures
        n >= 0 ==> text::signed_dec_text(n) == text::dec_text(n as nat),
        n < 0 ==> text::signed_dec_text(n).len() > 0 && text::signed_dec_text(n)[0] == '-'
            && text::signed_dec_text(n).drop_first() == text::dec_text((-n) as nat),
{
    if n < 0 {
        assert(text::signed_dec_text(n).drop_first() =~= text::dec_text((-n) as nat));
    }
}

/// A truth value is written as the Rust literal for it.
pub proof fn law_bool_text()
    ensures
        text::bool_text(true) == seq!['t', 'r', 'u', 'e'],
        text::bool_text(false) == seq!['f', 'a', 'l', 's', 'e'],
{
    reveal_strlit("true");
    reveal_strlit("false");
    assert(text::bool_text(true) =~= seq!['t', 'r', 'u', 'e']);
    assert(text::bool_text(false) =~= seq!['f', 'a', 'l', 's', 'e']);
}

/// Different numbers have different decimal texts.
pub proof fn law_decimal_text_tells_numbers_apart(a: nat, b: nat)
    requires
        text::dec_text(a) == text::dec_text(b),
    ensures
        a == b,
    decreases a,
{
    let s = text::dec_text(a);
    lemma_decimal_digit((a % 10) as int);
    lemma_decimal_digit((b % 10) as int);
    law_decimal_text_is_positional(a / 10);
    law_decimal_text_is_positional(b / 10);
    if a >= 10 && b >= 10 {
        assert(text::dec_text(a).drop_last() =~= text::dec_text(a / 10));
        assert(text::dec_text(b).drop_last() =~= text::dec_text(b / 10));
        assert(text::dec_text(a).last() == text::dec_text(b).last());
        law_decimal_text_tells_numbers_apart(a / 10, b / 10);
    } else if a < 10 && b < 10 {
        assert(text::dec_text(a)[0] == text::dec_text(b)[0]);
    }
}

/// White space is what Unicode says it is.
pub proof fn law_white_space(c: char)
    ensures
        text::is_white_space(c) <==> {
            let code = c as int;
            ||| 9 <= code <= 13
            ||| code == 32
            ||| code == 133
            ||| code == 160
            ||| code == 5760
            ||| 8192 <= code <= 8202
            ||| code == 8232
            ||| code == 8233
            ||| code == 8239
            ||| code == 8287
            ||| code == 12288
        },
{
}

/// Trimming cuts the white space off the two ends of a text and nothing else: what is left is a part
/// of the text with only white space before and behind it, and neither begins nor ends with any.
pub proof fn law_trim_cuts_the_ends(s: Seq<char>)
    ensures
        ({
            let t = text::trim(s);
            &&& exists|lo: int, hi: int|
                {
                    &&& 0 <= lo <= hi <= s.len()
                    &&& #[trigger] s.subrange(lo, hi) == t
                    &&& forall|i: int|
                        0 <= i < lo || hi <= i < s.len() ==> text::is_white_space(#[trigger] s[i])
                }
            &&& t.len() > 0 ==> !text::is_white_space(t[0]) && !text::is_white_space(t.last())
        }),
{
    let lo = lemma_trim_start(s);
    let front = text::trim_start(s);
    let len = lemma_trim_end(front);
    let t = text::trim(s);
    assert(s.subrange(lo, lo + len) =~= t);
    assert forall|i: int| 0 <= i < lo || lo + len <= i < s.len() implies text::is_white_space(
        #[trigger] s[i],
    ) by {
        if i >= lo {
            assert(front[i - lo] == s[i]);
        }
    }
    if t.len() > 0 {
        assert(t[0] == front[0]);
    }
}

proof fn lemma_trim_start(s: Seq<char>) -> (lo: int)
    ensures
        0 <= lo <= s.len(),
        text::trim_start(s) == s.skip(lo),
        forall|i: int| 0 <= i < lo ==> text::is_white_space(#[trigger] s[i]),
        lo < s.len() ==> !text::is_white_space(s[lo]),
    decreases s.len(),
{
    if s.len() > 0 && text::is_white_space(s[0]) {
        let rest = s.drop_first();
        let lo = lemma_trim_start(rest);
        assert(rest.skip(lo) =~= s.skip(lo + 1));
        assert forall|i: int| 0 <= i < lo + 1 implies text::is_white_space(#[trigger] s[i]) by {
            if i > 0 {
                assert(rest[i - 1] == s[i]);
            }
        }
        lo + 1
    } else {
        assert(s.skip(0) =~= s);
        0
    }
}

proof fn lemma_trim_end(s: Seq<char>) -> (hi: int)
    ensures
        0 <= hi <= s.len(),
        text::trim_end(s) == s.take(hi),
        forall|i: int| hi <= i < s.len() ==> text::is_white_space(#[trigger] s[i]),
        hi > 0 ==> !text::is_white_space(s[hi - 1]),
    decreases s.len(),
{
    if s.len() > 0 && text::is_white_space(s.last()) {
        let rest = s.drop_last();
        let hi = lemma_trim_end(rest);
        assert(rest.take(hi) =~= s.take(hi));
        assert forall|i: int| hi <= i < s.len() implies text::is_white_space(#[trigger] s[i]) by {
            if i < rest.len() {
                assert(rest[i] == s[i]);
            }
        }
        hi
    } else {
        assert(s.take(s.len() as int) =~= s);
        s.len() as int
    }
}

/// Two words are the same up to case where they have the same characters but for capital and small
/// ASCII letters.
pub proof fn law_case_is_that_of_ascii_letters(a: Seq<char>, b: Seq<char>)
    ensures
        text::same_ignoring_ascii_case(a, b) <==> {
            &&& a.len() == b.len()
            &&& forall|i: int|
                0 <= i < a.len() ==> {
                    ||| #[trigger] a[i] == b[i]
                    ||| 65 <= a[i] as int <= 90 && b[i] as int == a[i] as int + 32
                    ||| 65 <= b[i] as int <= 90 && a[i] as int == b[i] as int + 32
                }
        },
{
    if a.len() == b.len() {
        assert forall|i: int| 0 <= i < a.len() implies (text::ascii_lower(#[trigger] a[i])
            == text::ascii_lower(b[i]) <==> {
            ||| a[i] == b[i]
            ||| 65 <= a[i] as int <= 90 && b[i] as int == a[i] as int + 32
            ||| 65 <= b[i] as int <= 90 && a[i] as int == b[i] as int + 32
        }) by {
            lemma_lower(a[i], b[i]);
        }
    }
}

proof fn lemma_lower(a: char, b: char)
    ensures
        text::ascii_lower(a) == text::ascii_lower(b) <==> {
            ||| a == b
            ||| 65 <= a as int <= 90 && b as int == a as int + 32
            ||| 65 <= b as int <= 90 && a as int == b as int + 32
        },
{
}

/// White space in front does not matter to trimming.
proof fn lemma_trim_skips(s: Seq<char>, k: int)
    requires
        0 <= k <= s.len(),
        forall|i: int| 0 <= i < k ==> text::is_white_space(#[trigger] s[i]),
    ensures
        text::trim_start(s) == text::trim_start(s.skip(k)),
    decreases k,
{
    if k == 0 {
        assert(s.skip(0) =~= s);
    } else {
        let rest = s.drop_first();
        assert forall|i: int| 0 <= i < k - 1 implies text::is_white_space(#[trigger] rest[i]) by {
            assert(rest[i] == s[i + 1]);
        }
        lemma_trim_skips(rest, k - 1);
        assert(rest.skip(k - 1) =~= s.skip(k));
        assert(text::is_white_space(s[0]));
    }
}

/// Trimming what is before a character, and trimming all first, comes to the same.
pub proof fn lemma_trim_before(s: Seq<char>, c: char)
    requires
        !text::is_white_space(c),
    ensures
        text::trim(text::before(text::trim(s), c)) == text::trim(text::before(s, c)),
{
    let t = text::trim(s);
    let lo = lemma_trim_start(s);
    let len = lemma_trim_end(text::trim_start(s));
    let hi = lo + len;
    law_trim_cuts_the_ends(s);
    assert(t =~= s.subrange(lo, hi));
    assert forall|i: int| hi <= i < s.len() implies text::is_white_space(#[trigger] s[i]) by {
        assert(text::trim_start(s)[i - lo] == s[i]);
    }
    let p = text::position_of(s, c) as int;
    text::lemma_position_of(s, c);
    let q = text::position_of(t, c) as int;
    text::lemma_position_of(t, c);
    if p == s.len() {
        assert forall|i: int| 0 <= i < t.len() implies t[i] != c by {
            assert(t[i] == s[lo + i]);
        }
        text::lemma_position_is(t, c, t.len() as int);
        assert(text::before(t, c) =~= t);
        assert(text::before(s, c) =~= s);
        if t.len() > 0 {
            assert(text::trim_start(t) == t);
            assert(text::trim_end(t) == t);
        }
    } else {
        assert(lo <= p < hi);
        assert forall|i: int| 0 <= i < p - lo implies t[i] != c by {
            assert(t[i] == s[lo + i]);
        }
        assert(t[p - lo] == c);
        text::lemma_position_is(t, c, p - lo);
        let cut = text::before(s, c);
        assert(cut.skip(lo) =~= text::before(t, c));
        lemma_trim_skips(cut, lo);
    }
}

}
