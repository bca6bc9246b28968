//! Samples of a register in CSV text: the first column of every line, in decimal or
//! hexadecimal, with `#` comments and empty lines left out.
use vstd::prelude::*;

use crate::text;

verus! {

/// Why text is no number of sixteen bits.
#[derive(Debug, Clone, Copy, PartialEq, Eq, Structural)]
pub enum NumberFault {
    /// There is nothing to read.
    Empty,
    /// A character that is no digit comes first, or a sign stands alone.
    InvalidDigit,
    /// The digits write a larger number.
    TooLarge,
}

impl NumberFault {
    /// The words for a reader.
    pub open spec fn words(self) -> Seq<char> {
        match self {
            NumberFault::Empty => "cannot parse integer from empty string"@,
            NumberFault::InvalidDigit => "invalid digit found in string"@,
            NumberFault::TooLarge => "number too large to fit in target type"@,
        }
    }

    /// The message for a reader.
    pub fn message(&self) -> (words: &'static str)
        ensures
            words@ == self.words(),
    {
        match self {
            NumberFault::Empty => "cannot parse integer from empty string",
            NumberFault::InvalidDigit => "invalid digit found in string",
            NumberFault::TooLarge => "number too large to fit in target type",
        }
    }
}

/// Why CSV text holds no usable samples.
#[derive(Debug)]
pub enum CsvError {
    /// A column that starts with `0x` and is no hexadecimal number of sixteen bits.
    InvalidHex { text: String, source: String, line: usize, cause: NumberFault },
    /// A column that is no decimal number of sixteen bits.
    InvalidDecimal { text: String, source: String, line: usize, cause: NumberFault },
    /// A number above 255.
    OutOfRange { value: u16, source: String, line: usize },
    /// No line holds a sample.
    NoSamples { source: String },
}

/// A [`CsvError`] with its strings as sequences.
pub enum CsvErrorView {
    InvalidHex { text: Seq<char>, source: Seq<char>, line: nat, cause: NumberFault },
    InvalidDecimal { text: Seq<char>, source: Seq<char>, line: nat, cause: NumberFault },
    OutOfRange { value: nat, source: Seq<char>, line: nat },
    NoSamples { source: Seq<char> },
}

impl View for CsvError {
    type V = CsvErrorView;

    open spec fn view(&self) -> CsvErrorView {
        match *self {
            CsvError::InvalidHex { text, source, line, cause } => CsvErrorView::InvalidHex {
                text: text@,
                source: source@,
                line: line as nat,
                cause,
            },
            CsvError::InvalidDecimal { text, source, line, cause } => CsvErrorView::InvalidDecimal {
                text: text@,
                source: source@,
                line: line as nat,
                cause,
            },
            CsvError::OutOfRange { value, source, line } => CsvErrorView::OutOfRange {
                value: value as nat,
                source: source@,
                line: line as nat,
            },
            CsvError::NoSamples { source } => CsvErrorView::NoSamples { source: source@ },
        }
    }
}

impl CsvErrorView {
    /// The message for a reader.
    pub open spec fn message(self) -> Seq<char> {
        match self {
            CsvErrorView::InvalidHex { text, source, line, cause } => "invalid hex byte '"@ + text
                + "' at "@ + source + ":"@ + text::dec_text(line) + ": "@ + cause.words(),
            CsvErrorView::InvalidDecimal { text, source, line, cause } => "invalid decimal byte '"@
                + text + "' at "@ + source + ":"@ + text::dec_text(line) + ": "@ + cause.words(),
            CsvErrorView::OutOfRange { value, source, line } => "value "@ + text::dec_text(value)
                + " out of range at "@ + source + ":"@ + text::dec_text(line) + " (must be 0..255)"@,
            CsvErrorView::NoSamples { source } => source
                + " does not contain any usable CSV samples"@,
        }
    }
}

impl CsvError {
    /// The message for a reader.
    pub fn message(&self) -> (out: String)
        ensures
            out@ == self@.message(),
    {
        let mut out = String::new();
        match self {
            CsvError::InvalidHex { text, source, line, cause } => {
                out.append("invalid hex byte '");
                out.append(text.as_str());
                out.append("' at ");
                out.append(source.as_str());
                out.append(":");
                text::push_dec(&mut out, *line as u64);
                out.append(": ");
                out.append(cause.message());
                assert(out@ =~= self@.message());
            },
            CsvError::InvalidDecimal { text, source, line, cause } => {
                out.append("invalid decimal byte '");
                out.append(text.as_str());
                out.append("' at ");
                out.append(source.as_str());
                out.append(":");
                text::push_dec(&mut out, *line as u64);
                out.append(": ");
                out.append(cause.message());
                assert(out@ =~= self@.message());
            },
            CsvError::OutOfRange { value, source, line } => {
                out.append("value ");
                text::push_dec(&mut out, *value as u64);
                out.append(" out of range at ");
                out.append(source.as_str());
                out.append(":");
                text::push_dec(&mut out, *line as u64);
                out.append(" (must be 0..255)");
                assert(out@ =~= self@.message());
            },
            CsvError::NoSamples { source } => {
                out.append(source.as_str());
                out.append(" does not contain any usable CSV samples");
                assert(out@ =~= self@.message());
            },
        }
        out
    }
}

/// The value of a digit in `radix`.
pub open spec fn digit_value(c: char, radix: int) -> Option<int> {
    let v = if '0' <= c <= '9' {
        c as int - '0' as int
    } else if 'a' <= c <= 'z' {
        c as int - 'a' as int + 10
    } else if 'A' <= c <= 'Z' {
        c as int - 'A' as int + 10
    } else {
        radix
    };
    if v < radix { Some(v) } else { None }
}

/// The number that a sequence of digits writes; none where a character is no digit.
pub open spec fn digits_value(s: Seq<char>, radix: int) -> Option<int>
    decreases s.len(),
{
    if s.len() == 0 {
        Some(0)
    } else {
        match (digits_value(s.drop_last(), radix), digit_value(s.last(), radix)) {
            (Some(v), Some(d)) => Some(v * radix + d),
            _ => None,
        }
    }
}

/// `s` as an unsigned number of sixteen bits: an optional `+`, then at least one digit.
pub open spec fn parse_u16(s: Seq<char>, radix: int) -> Option<u16> {
    let digits = if s.len() > 0 && s[0] == '+' { s.skip(1) } else { s };
    if digits.len() == 0 {
        None
    } else {
        match digits_value(digits, radix) {
            Some(v) => if v <= u16::MAX { Some(v as u16) } else { None },
            None => None,
        }
    }
}

/// What is wrong with characters that do not write a number of sixteen bits: the first of them, from
/// the left, that is no digit or makes the number too large decides.
pub open spec fn digits_fault(s: Seq<char>, radix: int) -> Option<NumberFault>
    decreases s.len(),
{
    if s.len() == 0 {
        None
    } else {
        match digits_fault(s.drop_last(), radix) {
            Some(fault) => Some(fault),
            None => match digits_value(s, radix) {
                Some(v) => if v <= u16::MAX { None } else { Some(NumberFault::TooLarge) },
                None => Some(NumberFault::InvalidDigit),
            },
        }
    }
}

/// What is wrong with text that is no unsigned number of sixteen bits.
pub open spec fn number_fault(s: Seq<char>, radix: int) -> NumberFault {
    let digits = if s.len() > 0 && s[0] == '+' { s.skip(1) } else { s };
    if s.len() == 0 {
        NumberFault::Empty
    } else {
        match digits_fault(digits, radix) {
            Some(fault) => fault,
            None => NumberFault::InvalidDigit,
        }
    }
}

/// What a line of CSV text holds.
pub enum Cell {
    Blank,
    Sample(u8),
    BadHex(Seq<char>, NumberFault),
    BadDecimal(Seq<char>, NumberFault),
    TooLarge(nat),
}

/// The first column of a line: what stands before the comment and before the first comma,
/// without the white space around it.
pub open spec fn first_column(line: Seq<char>) -> Seq<char> {
    text::trim(text::before(text::trim(text::before(line, '#')), ','))
}

/// Whether a column is written in hexadecimal.
pub open spec fn has_hex_prefix(column: Seq<char>) -> bool {
    column.len() >= 2 && column[0] == '0' && (column[1] == 'x' || column[1] == 'X')
}

/// What a first column holds.
pub open spec fn column_cell(column: Seq<char>) -> Cell {
    let number = if has_hex_prefix(column) {
        parse_u16(column.skip(2), 16)
    } else {
        parse_u16(column, 10)
    };
    if column.len() == 0 {
        Cell::Blank
    } else {
        match number {
            Some(v) => if v <= 0xFF { Cell::Sample(v as u8) } else { Cell::TooLarge(v as nat) },
            None => if has_hex_prefix(column) {
                Cell::BadHex(column, number_fault(column.skip(2), 16))
            } else {
                Cell::BadDecimal(column, number_fault(column, 10))
            },
        }
    }
}

/// What a line holds.
pub open spec fn line_cell(line: Seq<char>) -> Cell {
    column_cell(first_column(line))
}

/// The samples of `text`, whose first line has the number `line`, behind those in `found`; the
/// first line that is neither blank nor a sample decides otherwise.
pub open spec fn scan_lines(text: Seq<char>, source: Seq<char>, line: nat, found: Seq<u8>) -> Result<
    Seq<u8>,
    CsvErrorView,
>
    decreases text.len(),
{
    if text.len() == 0 {
        Ok(found)
    } else {
        let rest = after_line(text);
        match line_cell(text::before(text, '\n')) {
            Cell::Blank => scan_lines(rest, source, line + 1, found),
            Cell::Sample(v) => scan_lines(rest, source, line + 1, found.push(v)),
            Cell::BadHex(column, cause) => Err(
                CsvErrorView::InvalidHex { text: column, source, line, cause },
            ),
            Cell::BadDecimal(column, cause) => Err(
                CsvErrorView::InvalidDecimal { text: column, source, line, cause },
            ),
            Cell::TooLarge(value) => Err(CsvErrorView::OutOfRange { value, source, line }),
        }
    }
}

/// What stands behind the first line of `text` and its newline.
pub open spec fn after_line(text: Seq<char>) -> Seq<char> {
    let end = text::position_of(text, '\n') as int;
    if end < text.len() { text.skip(end + 1) } else { text.skip(text.len() as int) }
}

/// The samples of CSV text.
pub open spec fn csv_samples(text: Seq<char>, source: Seq<char>) -> Result<Seq<u8>, CsvErrorView> {
    match scan_lines(text, source, 1, Seq::empty()) {
        Ok(samples) => if samples.len() == 0 {
            Err(CsvErrorView::NoSamples { source })
        } else {
            Ok(samples)
        },
        Err(error) => Err(error),
    }
}

/// A character that is no digit leaves no number, digits behind a number too large for sixteen bits
/// do not make it smaller, and what is wrong with the front of some digits is wrong with them all.
proof fn lemma_prefix_decides(s: Seq<char>, k: int, radix: int)
    requires
        0 <= k <= s.len(),
        radix == 10 || radix == 16,
    ensures
        digits_value(s.take(k), radix) is None ==> digits_value(s, radix) is None,
        digits_value(s.take(k), radix) matches Some(v) ==> 0 <= v,
        digits_value(s.take(k), radix) matches Some(v) && v > u16::MAX ==> (digits_value(s, radix)
            matches Some(w) ==> w > u16::MAX),
        digits_fault(s.take(k), radix) matches Some(fault) ==> digits_fault(s, radix) == Some(fault),
    decreases s.len(),
{
    if k == s.len() {
        assert(s.take(k) =~= s);
        if s.len() > 0 {
            lemma_prefix_decides(s.drop_last(), s.len() - 1, radix);
            assert(s.drop_last().take(s.len() - 1) =~= s.drop_last());
        }
    } else {
        lemma_prefix_decides(s.drop_last(), k, radix);
        assert(s.drop_last().take(k) =~= s.take(k));
    }
}

fn digit_of(c: char, radix: u32) -> (d: Option<u32>)
    requires
        radix == 10 || radix == 16,
    ensures
        d is None <==> digit_value(c, radix as int) is None,
        d matches Some(v) ==> digit_value(c, radix as int) == Some(v as int),
{
    let code: u32 = c as u32;
    let v: u32 = if '0' <= c && c <= '9' {
        code - 48
    } else if 'a' <= c && c <= 'z' {
        code - 97 + 10
    } else if 'A' <= c && c <= 'Z' {
        code - 65 + 10
    } else {
        radix
    };
    if v < radix { Some(v) } else { None }
}

fn number_between(chars: &Vec<char>, lo: usize, hi: usize, radix: u32) -> (number: Result<
    u16,
    NumberFault,
>)
    requires
        lo <= hi <= chars.len(),
        radix == 10 || radix == 16,
    ensures
        ({
            let text = chars@.subrange(lo as int, hi as int);
            match number {
                Ok(v) => parse_u16(text, radix as int) == Some(v),
                Err(fault) => {
                    &&& parse_u16(text, radix as int) is None
                    &&& fault == number_fault(text, radix as int)
                },
            }
        }),
{
    let ghost whole = chars@.subrange(lo as int, hi as int);
    let start: usize = if lo < hi && chars[lo] == '+' { lo + 1 } else { lo };
    let ghost digits = chars@.subrange(start as int, hi as int);
    proof {
        if lo < hi && chars[lo as int] == '+' {
            assert(digits =~= whole.skip(1));
        }
    }
    if lo == hi {
        return Err(NumberFault::Empty);
    }
    if start == hi {
        return Err(NumberFault::InvalidDigit);
    }
    let mut value: u32 = 0;
    let mut at: usize = start;
    assert(digits.take(0) =~= Seq::<char>::empty());
    while at < hi
        invariant
            start <= at <= hi <= chars.len(),
            start < hi,
            radix == 10 || radix == 16,
            digits == chars@.subrange(start as int, hi as int),
            whole.len() > 0,
            digits == (if whole.len() > 0 && whole[0] == '+' { whole.skip(1) } else { whole }),
            whole == chars@.subrange(lo as int, hi as int),
            value <= u16::MAX,
            digits_value(digits.take(at - start), radix as int) == Some(value as int),
            digits_fault(digits.take(at - start), radix as int) is None,
        decreases hi - at,
    {
        proof {
            lemma_prefix_decides(digits, at - start + 1, radix as int);
            let next = digits.take(at - start + 1);
            assert(next.drop_last() =~= digits.take(at - start));
            assert(next.last() == chars[at as int]);
        }
        match digit_of(chars[at], radix) {
            Some(d) => {
                value = if radix == 16 { value * 16 + d } else { value * 10 + d };
                if value > 0xFFFF {
                    return Err(NumberFault::TooLarge);
                }
            },
            None => {
                return Err(NumberFault::InvalidDigit);
            },
        }
        at = at + 1;
    }
    assert(digits.take(hi - start) =~= digits);
    Ok(value as u16)
}

/// The samples of CSV text, one byte for each line that holds one. `source_name` names the text
/// in messages.
pub fn parse_csv_samples(csv_text: &str, source_name: &str) -> (samples: Result<Vec<u8>, CsvError>)
    ensures
        match samples {
            Ok(bytes) => csv_samples(csv_text@, source_name@) == Ok::<Seq<u8>, CsvErrorView>(bytes@),
            Err(error) => csv_samples(csv_text@, source_name@) == Err::<Seq<u8>, CsvErrorView>(
                error@,
            ),
        },
{
    let chars = text::chars_of(csv_text);
    let mut out: Vec<u8> = Vec::new();
    let mut start: usize = 0;
    let mut line: usize = 1;
    assert(chars@.skip(0) =~= chars@);
    while start < chars.len()
        invariant
            start <= chars.len(),
            1 <= line <= start + 1,
            chars@ == csv_text@,
            scan_lines(chars@.skip(start as int), source_name@, line as nat, out@) == scan_lines(
                csv_text@,
                source_name@,
                1,
                Seq::empty(),
            ),
        decreases chars.len() - start,
    {
        let ghost rest = chars@.skip(start as int);
        let end: usize = text::find_char(&chars, start, chars.len(), '\n');
        let hash: usize = text::find_char(&chars, start, end, '#');
        let (first, last) = text::trimmed_bounds(&chars, start, hash);
        let comma: usize = text::find_char(&chars, first, last, ',');
        let (lo, hi) = text::trimmed_bounds(&chars, first, comma);
        let ghost column = chars@.subrange(lo as int, hi as int);
        proof {
            text::lemma_position_of(rest, '\n');
            assert(chars@.subrange(start as int, chars.len() as int) =~= rest);
            let this = chars@.subrange(start as int, end as int);
            assert(this =~= text::before(rest, '\n'));
            assert(chars@.subrange(start as int, hash as int) =~= text::before(this, '#'));
            assert(chars@.subrange(first as int, comma as int) =~= text::before(
                chars@.subrange(first as int, last as int),
                ',',
            ));
            assert(column == first_column(this));
        }
        if lo < hi {
            let hex: bool = hi - lo >= 2 && chars[lo] == '0' && (chars[lo + 1] == 'x' || chars[lo
                + 1] == 'X');
            let number: Result<u16, NumberFault> = if hex {
                assert(chars@.subrange(lo + 2, hi as int) =~= column.skip(2));
                number_between(&chars, lo + 2, hi, 16)
            } else {
                number_between(&chars, lo, hi, 10)
            };
            match number {
                Err(cause) => {
                    let text = csv_text.substring_char(lo, hi).to_owned();
                    let source = source_name.to_owned();
                    if hex {
                        return Err(CsvError::InvalidHex { text, source, line, cause });
                    } else {
                        return Err(CsvError::InvalidDecimal { text, source, line, cause });
                    }
                },
                Ok(value) => {
                    if value > 0xFF {
                        return Err(
                            CsvError::OutOfRange { value, source: source_name.to_owned(), line },
                        );
                    }
                    out.push(value as u8);
                },
            }
        }
        if chars.len() - end > 1 {
            assert(after_line(rest) =~= chars@.skip(end + 1));
            start = end + 1;
            line = line + 1;
        } else {
            proof {
                let none = chars@.skip(chars.len() as int);
                assert(after_line(rest) =~= none);
                assert(scan_lines(none, source_name@, line as nat, out@) == scan_lines(
                    none,
                    source_name@,
                    line as nat + 1,
                    out@,
                ));
            }
            start = chars.len();
        }
    }
    if out.len() == 0 {
        return Err(CsvError::NoSamples { source: source_name.to_owned() });
    }
    Ok(out)
}

}
