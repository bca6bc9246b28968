//! A line of text in a buffer of fixed size.
use vstd::prelude::*;
use vstd::utf8;

use crate::text;

verus! {

/// How many bytes a line buffer holds.
pub const LINE_CAPACITY: usize = 192;

/// `heapless::String`, a string in a buffer of `N` bytes.
#[verifier::external_type_specification]
#[verifier::external_body]
pub struct ExString<const N: usize>(heapless::String<N>);

/// The characters in a line buffer.
pub uninterp spec fn line_text(line: heapless::String<192>) -> Seq<char>;

/// `heapless::String::new`: an empty line.
#[verifier::external_body]
pub(crate) fn new_line() -> (line: heapless::String<192>)
    ensures
        line_text(line) == Seq::<char>::empty(),
{
    heapless::String::new()
}

/// `heapless::String::clear`: nothing is left of the line.
#[verifier::external_body]
pub(crate) fn clear_line(line: &mut heapless::String<192>)
    ensures
        line_text(*final(line)) == Seq::<char>::empty(),
{
    line.clear()
}

/// `heapless::String::push_str`: the text is appended where its UTF-8 bytes fit into the buffer
/// behind those of the line; else the line stays and an error is returned.
#[verifier::external_body]
fn line_push_str(line: &mut heapless::String<192>, string: &str) -> (pushed: Result<(), ()>)
    ensures
        pushed is Ok <==> utf8::encode_utf8(line_text(*old(line))).len() + utf8::encode_utf8(
            string@,
        ).len() <= LINE_CAPACITY,
        line_text(*final(line)) == if pushed is Ok {
            line_text(*old(line)) + string@
        } else {
            line_text(*old(line))
        },
{
    line.push_str(string)
}

/// `heapless::String::push`: the character is appended where its UTF-8 bytes fit into the buffer
/// behind those of the line; else the line stays and an error is returned.
#[verifier::external_body]
fn line_push(line: &mut heapless::String<192>, c: char) -> (pushed: Result<(), ()>)
    ensures
        pushed is Ok <==> utf8::encode_utf8(line_text(*old(line))).len() + utf8::encode_utf8(
            seq![c],
        ).len() <= LINE_CAPACITY,
        line_text(*final(line)) == if pushed is Ok {
            line_text(*old(line)).push(c)
        } else {
            line_text(*old(line))
        },
{
    line.push(c)
}

/// `heapless::String::as_str`: the text of the line.
#[verifier::external_body]
pub(crate) fn line_str(line: &heapless::String<192>) -> (s: &str)
    ensures
        s@ == line_text(*line),
{
    line.as_str()
}

/// Appends ASCII text that fits.
pub(crate) fn put_str(line: &mut heapless::String<192>, string: &str)
    requires
        utf8::is_ascii_chars(line_text(*old(line))),
        utf8::is_ascii_chars(string@),
        line_text(*old(line)).len() + string@.len() <= LINE_CAPACITY,
    ensures
        line_text(*final(line)) == line_text(*old(line)) + string@,
        utf8::is_ascii_chars(line_text(*final(line))),
{
    proof {
        utf8::is_ascii_chars_encode_utf8(line_text(*line));
        utf8::is_ascii_chars_encode_utf8(string@);
        utf8::is_ascii_chars_concat(
            line_text(*line) + string@,
            line_text(*line),
            string@,
        );
    }
    let _pushed = line_push_str(line, string);
}

/// Appends an ASCII character that fits.
pub(crate) fn put_char(line: &mut heapless::String<192>, c: char)
    requires
        utf8::is_ascii_chars(line_text(*old(line))),
        c <= '\u{7f}',
        line_text(*old(line)).len() < LINE_CAPACITY,
    ensures
        line_text(*final(line)) == line_text(*old(line)).push(c),
        utf8::is_ascii_chars(line_text(*final(line))),
{
    proof {
        utf8::is_ascii_chars_encode_utf8(line_text(*line));
        utf8::is_ascii_chars_encode_utf8(seq![c]);
    }
    let _pushed = line_push(line, c);
}

/// Decimal numbers are ASCII.
pub proof fn lemma_dec_text_ascii(n: nat)
    ensures
        utf8::is_ascii_chars(text::dec_text(n)),
    decreases n,
{
    if n >= 10 {
        lemma_dec_text_ascii(n / 10);
    }
}

/// Hexadecimal numbers are ASCII.
pub proof fn lemma_hex_text_ascii(n: nat)
    ensures
        utf8::is_ascii_chars(text::hex_text(n)),
    decreases n,
{
    if n >= 16 {
        lemma_hex_text_ascii(n / 16);
    }
}

/// The number of digits of a number that is as large as it can be.
proof fn lemma_digit_counts(n: u64)
    ensures
        text::dec_text(n as nat).len() <= 20,
        text::hex_text(n as nat).len() <= 16,
{
    assert(n < text::dec_limit(20)) by {
        reveal_with_fuel(text::dec_limit, 21);
    }
    assert(n < text::hex_limit(16)) by {
        reveal_with_fuel(text::hex_limit, 17);
    }
    text::lemma_dec_text_len(n as nat, 20);
    text::lemma_hex_text_len(n as nat, 16);
}

/// Appends a number in decimal, with leading zeros up to `width` characters.
pub(crate) fn put_dec(line: &mut heapless::String<192>, n: u64, width: usize)
    requires
        utf8::is_ascii_chars(line_text(*old(line))),
        width <= 20,
        line_text(*old(line)).len() + 20 <= LINE_CAPACITY,
    ensures
        line_text(*final(line)) == line_text(*old(line)) + text::zero_padded(
            text::dec_text(n as nat),
            width as nat,
        ),
        utf8::is_ascii_chars(line_text(*final(line))),
{
    let mut digits = String::new();
    text::push_padded_dec(&mut digits, n, width);
    proof {
        lemma_digit_counts(n);
        lemma_dec_text_ascii(n as nat);
        assert(digits@ =~= text::zero_padded(text::dec_text(n as nat), width as nat));
    }
    put_str(line, digits.as_str());
}

/// Appends a number in hexadecimal, with leading zeros up to `width` characters.
pub(crate) fn put_hex(line: &mut heapless::String<192>, n: u64, width: usize)
    requires
        utf8::is_ascii_chars(line_text(*old(line))),
        width <= 20,
        line_text(*old(line)).len() + 20 <= LINE_CAPACITY,
    ensures
        line_text(*final(line)) == line_text(*old(line)) + text::zero_padded(
            text::hex_text(n as nat),
            width as nat,
        ),
        utf8::is_ascii_chars(line_text(*final(line))),
{
    let mut digits = String::new();
    text::push_hex(&mut digits, n, width);
    proof {
        lemma_digit_counts(n);
        lemma_hex_text_ascii(n as nat);
        assert(digits@ =~= text::zero_padded(text::hex_text(n as nat), width as nat));
    }
    put_str(line, digits.as_str());
}

}
