//! What CSV text holds, line by line.
use vstd::prelude::*;

use crate::csv;
use crate::csv::{CsvError, CsvErrorView, NumberFault};
use crate::csv_round_trip;
use crate::text;

verus! {

/// What a digit counts, in decimal or hexadecimal.
pub open spec fn digit_worth(c: char, radix: int) -> Option<int> {
    let code = c as int;
    if 48 <= code <= 57 {
        Some(code - 48)
    } else if radix == 16 && 97 <= code <= 102 {
        Some(code - 87)
    } else if radix == 16 && 65 <= code <= 70 {
        Some(code - 55)
    } else {
        None
    }
}

/// What digits count together; nothing where one of them is no digit.
pub open spec fn worth(s: Seq<char>, radix: int) -> Option<int>
    decreases s.len(),
{
    if s.len() == 0 {
        Some(0)
    } else {
        match (worth(s.drop_last(), radix), digit_worth(s.last(), radix)) {
            (Some(high), Some(low)) => Some(radix * high + low),
            _ => None,
        }
    }
}

/// Where the first column of a line ends.
pub open spec fn ends_column(c: char) -> bool {
    c == '#' || c == ','
}

/// `column` is the first column of a line: what stands before the first `#` or comma, without the
/// white space around it.
pub open spec fn is_column(line: Seq<char>, column: Seq<char>) -> bool {
    exists|end: int|
        {
            &&& 0 <= end <= line.len()
            &&& end < line.len() ==> ends_column(line[end])
            &&& forall|i: int| 0 <= i < end ==> !ends_column(#[trigger] line[i])
            &&& column == text::trim(#[trigger] line.take(end))
        }
}

/// Whether a column is a hexadecimal number.
pub open spec fn is_hex(column: Seq<char>) -> bool {
    column.len() >= 2 && column[0] == '0' && (column[1] == 'x' || column[1] == 'X')
}

/// The digits of a column: without `0x`, and without a plus.
pub open spec fn number_part(column: Seq<char>) -> Seq<char> {
    if is_hex(column) { column.skip(2) } else { column }
}

pub open spec fn radix_of(column: Seq<char>) -> int {
    if is_hex(column) { 16 } else { 10 }
}

pub open spec fn digits_of(column: Seq<char>) -> Seq<char> {
    let number = number_part(column);
    if number.len() > 0 && number[0] == '+' { number.skip(1) } else { number }
}

/// The number that a column writes, where it writes one of sixteen bits.
pub open spec fn column_number(column: Seq<char>) -> Option<int> {
    let digits = digits_of(column);
    match worth(digits, radix_of(column)) {
        Some(v) if digits.len() > 0 && v <= 65535 => Some(v),
        _ => None,
    }
}

/// A column that holds a sample.
pub open spec fn holds_sample(column: Seq<char>, value: int) -> bool {
    column_number(column) == Some(value) && value <= 255
}

/// A line without a first column, or with a sample in it.
pub open spec fn is_good(line: Seq<char>) -> bool {
    exists|column: Seq<char>|
        #[trigger] is_column(line, column) && (column.len() == 0 || exists|v: int|
            holds_sample(column, v))
}

/// The samples of one line: one, or none.
pub open spec fn is_line_samples(line: Seq<char>, samples: Seq<u8>) -> bool {
    exists|column: Seq<char>|
        {
            &&& #[trigger] is_column(line, column)
            &&& column.len() == 0 ==> samples.len() == 0
            &&& column.len() > 0 ==> samples.len() == 1 && holds_sample(column, samples[0] as int)
        }
}

/// Lines with a newline between them, and one behind the last where `closed`.
pub open spec fn lines_text(lines: Seq<Seq<char>>, closed: bool) -> Seq<char>
    decreases lines.len(),
{
    if lines.len() == 0 {
        Seq::empty()
    } else if lines.len() == 1 {
        if closed { lines[0].push('\n') } else { lines[0] }
    } else {
        lines[0].push('\n') + lines_text(lines.drop_first(), closed)
    }
}

pub open spec fn flat(parts: Seq<Seq<u8>>) -> Seq<u8>
    decreases parts.len(),
{
    if parts.len() == 0 {
        Seq::empty()
    } else {
        parts[0] + flat(parts.drop_first())
    }
}

pub open spec fn are_lines(lines: Seq<Seq<char>>) -> bool {
    forall|i: int, k: int|
        0 <= i < lines.len() && 0 <= k < lines[i].len() ==> #[trigger] lines[i][k] != '\n'
}

/// The samples are those of the lines, in their order.
pub open spec fn are_samples(lines: Seq<Seq<char>>, samples: Seq<u8>) -> bool {
    exists|parts: Seq<Seq<u8>>|
        {
            &&& parts.len() == lines.len()
            &&& #[trigger] flat(parts) == samples
            &&& forall|i: int| 0 <= i < lines.len() ==> is_line_samples(lines[i], #[trigger] parts[i])
        }
}

/// An error tells what is wrong with a line: its first column, its number, and why the column is no
/// sample.
pub open spec fn tells_fault(
    error: CsvErrorView,
    line: Seq<char>,
    source: Seq<char>,
    number: int,
) -> bool {
    exists|column: Seq<char>|
        {
            &&& #[trigger] is_column(line, column)
            &&& column.len() > 0
            &&& match error {
                CsvErrorView::InvalidHex { text, source: named, line: at, cause } => {
                    &&& is_hex(column) && column_number(column) is None
                    &&& text == column && named == source && at == number
                    &&& is_cause(column, cause)
                },
                CsvErrorView::InvalidDecimal { text, source: named, line: at, cause } => {
                    &&& !is_hex(column) && column_number(column) is None
                    &&& text == column && named == source && at == number
                    &&& is_cause(column, cause)
                },
                CsvErrorView::OutOfRange { value, source: named, line: at } => {
                    &&& column_number(column) == Some(value as int) && value > 255
                    &&& named == source && at == number
                },
                CsvErrorView::NoSamples { .. } => false,
            }
        }
}

/// Why a column is no number of sixteen bits: there is nothing to read, or the digits from the left
/// are too much before anything else than a digit comes, or there is something else.
pub open spec fn is_cause(column: Seq<char>, cause: NumberFault) -> bool {
    let digits = digits_of(column);
    &&& cause == NumberFault::Empty <==> number_part(column).len() == 0
    &&& cause == NumberFault::TooLarge <==> exists|k: int|
        0 <= k <= digits.len() && (worth(#[trigger] digits.take(k), radix_of(column)) matches Some(v)
            && v > 65535)
}

proof fn lemma_worth(s: Seq<char>, radix: int)
    requires
        radix == 10 || radix == 16,
    ensures
        csv::digits_value(s, radix) == worth(s, radix),
        worth(s, radix) matches Some(v) ==> v >= 0,
    decreases s.len(),
{
    if s.len() > 0 {
        lemma_worth(s.drop_last(), radix);
        assert(csv::digit_value(s.last(), radix) == digit_worth(s.last(), radix));
        match (worth(s.drop_last(), radix), digit_worth(s.last(), radix)) {
            (Some(high), Some(low)) => {
                assert(radix * high >= 0) by (nonlinear_arith)
                    requires
                        radix >= 0,
                        high >= 0,
                ;
                assert(radix * high == high * radix) by (nonlinear_arith);
            },
            _ => {},
        }
    }
}

proof fn lemma_prefix_worth(s: Seq<char>, k: int, radix: int)
    requires
        radix == 10 || radix == 16,
        0 <= k <= s.len(),
        worth(s, radix) is Some,
    ensures
        worth(s.take(k), radix) is Some,
        worth(s.take(k), radix)->0 <= worth(s, radix)->0,
    decreases s.len(),
{
    lemma_worth(s, radix);
    if k == s.len() {
        assert(s.take(k) =~= s);
    } else {
        lemma_prefix_worth(s.drop_last(), k, radix);
        assert(s.drop_last().take(k) =~= s.take(k));
        lemma_worth(s.drop_last(), radix);
    }
}

/// What is wrong with digits is that the first of them are too much, or that one is none.
proof fn lemma_fault(s: Seq<char>, radix: int)
    requires
        radix == 10 || radix == 16,
    ensures
        csv::digits_fault(s, radix) is None <==> (worth(s, radix) matches Some(v) && v <= 65535),
        csv::digits_fault(s, radix) == Some(NumberFault::TooLarge) <==> exists|k: int|
            0 <= k <= s.len() && (worth(#[trigger] s.take(k), radix) matches Some(v) && v > 65535),
        csv::digits_fault(s, radix) != Some(NumberFault::Empty),
    decreases s.len(),
{
    if s.len() == 0 {
        assert forall|k: int| 0 <= k <= s.len() implies worth(#[trigger] s.take(k), radix) == Some(
            0int,
        ) by {}
    } else {
        let head = s.drop_last();
        lemma_fault(head, radix);
        lemma_worth(s, radix);
        lemma_worth(head, radix);
        assert(s.take(s.len() as int) =~= s);
        assert forall|k: int| 0 <= k <= head.len() implies #[trigger] s.take(k) == head.take(k) by {
            assert(s.take(k) =~= head.take(k));
        }
        assert forall|k: int| 0 <= k <= head.len() implies #[trigger] head.take(k) == s.take(k) by {
            assert(s.take(k) =~= head.take(k));
        }
        if worth(s, radix) is Some {
            lemma_prefix_worth(s, head.len() as int, radix);
            assert(s.take(head.len() as int) =~= head);
        }
        match csv::digits_fault(head, radix) {
            Some(fault) => {
                assert(csv::digits_fault(s, radix) == Some(fault));
                if fault == NumberFault::TooLarge {
                    let k = choose|k: int|
                        0 <= k <= head.len() && (worth(#[trigger] head.take(k), radix) matches Some(v)
                            && v > 65535);
                    assert(worth(s.take(k), radix) matches Some(v) && v > 65535);
                    if worth(s, radix) is Some {
                        lemma_prefix_worth(s, k, radix);
                    }
                } else {
                    assert forall|k: int| 0 <= k <= s.len() implies !(worth(
                        #[trigger] s.take(k),
                        radix,
                    ) matches Some(v) && v > 65535) by {
                        if k <= head.len() {
                            assert(head.take(k) == s.take(k));
                        } else {
                            assert(s.take(k) =~= s);
                            if worth(s, radix) is Some {
                                assert(worth(head, radix) is Some);
                                assert(head.take(head.len() as int) =~= head);
                            }
                        }
                    }
                }
            },
            None => {
                assert forall|k: int| 0 <= k <= head.len() implies !(worth(
                    #[trigger] s.take(k),
                    radix,
                ) matches Some(v) && v > 65535) by {
                    assert(head.take(k) == s.take(k));
                }
            },
        }
    }
}

/// The first column of a line, found in two ways.
proof fn lemma_first_column(line: Seq<char>)
    ensures
        is_column(line, csv::first_column(line)),
        forall|column: Seq<char>|
            #[trigger] is_column(line, column) ==> column == csv::first_column(line),
{
    let hash = text::position_of(line, '#') as int;
    text::lemma_position_of(line, '#');
    let open = line.take(hash);
    let comma = text::position_of(open, ',') as int;
    text::lemma_position_of(open, ',');
    let end = if comma < hash { comma } else { hash };
    assert forall|i: int| 0 <= i < end implies !ends_column(#[trigger] line[i]) by {
        assert(open[i] == line[i]);
    }
    assert(end < line.len() ==> ends_column(line[end])) by {
        if comma < hash {
            assert(open[comma] == line[comma]);
        }
    }
    crate::text_laws::lemma_trim_before(open, ',');
    assert(open.take(comma) =~= line.take(end));
    assert(csv::first_column(line) == text::trim(line.take(end)));
    assert forall|column: Seq<char>| #[trigger] is_column(line, column) implies column
        == csv::first_column(line) by {
        let other = choose|e: int|
            {
                &&& 0 <= e <= line.len()
                &&& e < line.len() ==> ends_column(line[e])
                &&& forall|i: int| 0 <= i < e ==> !ends_column(#[trigger] line[i])
                &&& column == text::trim(#[trigger] line.take(e))
            };
        if other < end {
            assert(!ends_column(line[other]));
        }
        if end < other {
            assert(!ends_column(line[end]));
        }
    }
}

proof fn lemma_line(line: Seq<char>, source: Seq<char>, number: nat)
    ensures
        match csv::line_cell(line) {
            csv::Cell::Blank => is_line_samples(line, Seq::empty()),
            csv::Cell::Sample(v) => is_line_samples(line, seq![v]),
            csv::Cell::BadHex(text, cause) => tells_fault(
                CsvErrorView::InvalidHex { text, source, line: number, cause },
                line,
                source,
                number as int,
            ),
            csv::Cell::BadDecimal(text, cause) => tells_fault(
                CsvErrorView::InvalidDecimal { text, source, line: number, cause },
                line,
                source,
                number as int,
            ),
            csv::Cell::TooLarge(value) => tells_fault(
                CsvErrorView::OutOfRange { value, source, line: number },
                line,
                source,
                number as int,
            ),
        },
{
    let column = csv::first_column(line);
    lemma_first_column(line);
    let radix = radix_of(column);
    let digits = digits_of(column);
    lemma_worth(digits, radix);
    lemma_fault(digits, radix);
    assert(is_column(line, column));
    if column.len() > 0 {
        if digits.len() == 0 {
            assert forall|k: int| 0 <= k <= digits.len() implies worth(
                #[trigger] digits.take(k),
                radix,
            ) == Some(0int) by {}
        }
    }
}

proof fn lemma_lines_text(lines: Seq<Seq<char>>, closed: bool)
    requires
        are_lines(lines),
        lines.len() > 0,
    ensures
        ({
            let all = lines_text(lines, closed);
            all.len() > 0 ==> {
                &&& text::before(all, '\n') == lines[0]
                &&& csv::after_line(all) == lines_text(lines.drop_first(), closed)
            }
        }),
        lines_text(lines, closed).len() == 0 ==> lines.len() == 1 && lines[0].len() == 0,
{
    let all = lines_text(lines, closed);
    let first = lines[0];
    if all.len() > 0 {
        assert forall|i: int| 0 <= i < first.len() implies all[i] != '\n' by {
            assert(all[i] == first[i]);
            assert(lines[0][i] != '\n');
        }
        text::lemma_position_is(all, '\n', first.len() as int);
        assert(text::before(all, '\n') =~= first);
        assert(csv::after_line(all) =~= lines_text(lines.drop_first(), closed));
    }
}

proof fn lemma_scan(
    lines: Seq<Seq<char>>,
    closed: bool,
    source: Seq<char>,
    number: nat,
    found: Seq<u8>,
)
    requires
        are_lines(lines),
    ensures
        match csv::scan_lines(lines_text(lines, closed), source, number, found) {
            Ok(samples) => found.is_prefix_of(samples) && are_samples(
                lines,
                samples.skip(found.len() as int),
            ),
            Err(error) => exists|i: int|
                0 <= i < lines.len() && #[trigger] tells_fault(error, lines[i], source, number + i)
                    && are_good(lines.take(i)),
        },
    decreases lines.len(),
{
    let all = lines_text(lines, closed);
    let outcome = csv::scan_lines(all, source, number, found);
    if lines.len() == 0 {
        let none = Seq::<Seq<u8>>::empty();
        assert(found.skip(found.len() as int) =~= flat(none));
        assert(are_samples(lines, found.skip(found.len() as int)));
    } else {
        let rest = lines.drop_first();
        lemma_lines_text(lines, closed);
        lemma_line(lines[0], source, number);
        assert forall|i: int, k: int|
            0 <= i < rest.len() && 0 <= k < rest[i].len() implies #[trigger] rest[i][k] != '\n' by {
            assert(lines[i + 1][k] != '\n');
        }
        if all.len() == 0 {
            lemma_empty_line();
            let parts = seq![Seq::<u8>::empty()];
            assert(flat(parts.drop_first()).len() == 0);
            assert(flat(parts) =~= Seq::empty());
            assert(found.skip(found.len() as int) =~= flat(parts));
            assert(is_line_samples(lines[0], parts[0]));
            assert(are_samples(lines, found.skip(found.len() as int)));
        } else {
            let own: Seq<u8> = match csv::line_cell(lines[0]) {
                csv::Cell::Sample(v) => seq![v],
                _ => Seq::empty(),
            };
            match csv::line_cell(lines[0]) {
                csv::Cell::Blank => {
                    lemma_scan(rest, closed, source, number + 1, found);
                    lemma_one_more(lines, own, outcome, source, number, found);
                },
                csv::Cell::Sample(v) => {
                    lemma_scan(rest, closed, source, number + 1, found.push(v));
                    assert(found + own =~= found.push(v));
                    lemma_one_more(lines, own, outcome, source, number, found);
                },
                _ => {
                    assert(outcome is Err);
                    assert(tells_fault(outcome->Err_0, lines[0], source, number as int + 0));
                    let none = Seq::<Seq<u8>>::empty();
                    assert(are_samples(lines.take(0), flat(none)));
                },
            }
        }
    }
}

/// Lines that each hold a sample or nothing.
pub open spec fn are_good(lines: Seq<Seq<char>>) -> bool {
    exists|samples: Seq<u8>| #[trigger] are_samples(lines, samples)
}

proof fn lemma_empty_line()
    ensures
        is_line_samples(Seq::empty(), Seq::empty()),
{
    let none = Seq::<char>::empty();
    lemma_first_column(none);
    crate::text_laws::law_trim_cuts_the_ends(none);
    lemma_line(none, none, 0);
    let column = csv::first_column(none);
    assert(is_column(none, column));
    let end = choose|e: int| 0 <= e <= none.len() && column == text::trim(#[trigger] none.take(e));
    assert(none.take(end) =~= none);
    assert(column.len() == 0);
}

/// What is said of the lines behind the first is said of them all.
proof fn lemma_one_more(
    lines: Seq<Seq<char>>,
    own: Seq<u8>,
    outcome: Result<Seq<u8>, CsvErrorView>,
    source: Seq<char>,
    number: nat,
    found: Seq<u8>,
)
    requires
        lines.len() > 0,
        is_line_samples(lines[0], own),
        match outcome {
            Ok(samples) => (found + own).is_prefix_of(samples) && are_samples(
                lines.drop_first(),
                samples.skip((found + own).len() as int),
            ),
            Err(error) => exists|i: int|
                0 <= i < lines.len() - 1 && #[trigger] tells_fault(
                    error,
                    lines.drop_first()[i],
                    source,
                    (number + 1) + i,
                ) && are_good(lines.drop_first().take(i)),
        },
    ensures
        match outcome {
            Ok(samples) => found.is_prefix_of(samples) && are_samples(
                lines,
                samples.skip(found.len() as int),
            ),
            Err(error) => exists|i: int|
                0 <= i < lines.len() && #[trigger] tells_fault(error, lines[i], source, number + i)
                    && are_good(lines.take(i)),
        },
{
    let rest = lines.drop_first();
    match outcome {
        Ok(samples) => {
            let tail = samples.skip((found + own).len() as int);
            lemma_more_samples(lines, own, tail);
            assert forall|k: int| 0 <= k < (found + own).len() implies samples[k] == (found
                + own)[k] by {
                assert(samples.subrange(0, (found + own).len() as int)[k] == samples[k]);
            }
            assert(samples.skip(found.len() as int) =~= own + tail);
            assert(found =~= samples.subrange(0, found.len() as int)) by {
                assert forall|k: int| 0 <= k < found.len() implies found[k] == samples[k] by {
                    assert((found + own)[k] == found[k]);
                }
            }
        },
        Err(error) => {
            let i = choose|i: int|
                0 <= i < lines.len() - 1 && #[trigger] tells_fault(
                    error,
                    rest[i],
                    source,
                    (number + 1) + i,
                ) && are_good(rest.take(i));
            let some = choose|some: Seq<u8>| #[trigger] are_samples(rest.take(i), some);
            let front = lines.take(i + 1);
            assert(front.drop_first() =~= rest.take(i));
            lemma_more_samples(front, own, some);
            assert(tells_fault(error, lines[i + 1], source, number + (i + 1)));
        },
    }
}

proof fn lemma_more_samples(lines: Seq<Seq<char>>, own: Seq<u8>, tail: Seq<u8>)
    requires
        lines.len() > 0,
        is_line_samples(lines[0], own),
        are_samples(lines.drop_first(), tail),
    ensures
        are_samples(lines, own + tail),
{
    let rest = lines.drop_first();
    let parts = choose|parts: Seq<Seq<u8>>|
        {
            &&& parts.len() == rest.len()
            &&& #[trigger] flat(parts) == tail
            &&& forall|i: int| 0 <= i < rest.len() ==> is_line_samples(rest[i], #[trigger] parts[i])
        };
    let all = seq![own] + parts;
    assert(all.drop_first() =~= parts);
    assert(flat(all) == own + tail);
    assert forall|i: int| 0 <= i < lines.len() implies is_line_samples(lines[i], #[trigger] all[i]) by {
        if i > 0 {
            assert(all[i] == parts[i - 1]);
            assert(lines[i] == rest[i - 1]);
        }
    }
}

/// What a call of `parse_csv_samples` makes of lines, whether a newline stands behind the last of
/// them or not. Each line holds a sample in its first column, or nothing: then the samples come out
/// in the order of the lines, the last one too. Where a line holds something else, the first such line
/// is told, with its number; and where no line holds a sample, that is.
pub proof fn law_csv_lines_are_read(
    csv_text: &str,
    source_name: &str,
    parsed: Result<Vec<u8>, CsvError>,
    lines: Seq<Seq<char>>,
    closed: bool,
)
    requires
        call_ensures(csv::parse_csv_samples, (csv_text, source_name), parsed),
        are_lines(lines),
        csv_text@ == lines_text(lines, closed),
    ensures
        match parsed {
            Ok(samples) => samples@.len() > 0 && are_samples(lines, samples@),
            Err(CsvError::NoSamples { source }) => source@ == source_name@ && are_samples(
                lines,
                Seq::empty(),
            ),
            Err(error) => exists|i: int|
                0 <= i < lines.len() && #[trigger] tells_fault(
                    error@,
                    lines[i],
                    source_name@,
                    i + 1,
                ) && are_good(lines.take(i)),
        },
{
    lemma_scan(lines, closed, source_name@, 1, Seq::empty());
    match csv::scan_lines(csv_text@, source_name@, 1, Seq::empty()) {
        Ok(samples) => {
            assert(samples.skip(0) =~= samples);
            if samples.len() == 0 {
                assert(samples =~= Seq::empty());
            }
        },
        Err(error) => {
            let i = choose|i: int|
                0 <= i < lines.len() && #[trigger] tells_fault(
                    error,
                    lines[i],
                    source_name@,
                    1nat + i,
                ) && are_good(lines.take(i));
            assert(tells_fault(error, lines[i], source_name@, i + 1));
        },
    }
}

/// A newline at the end of the text changes nothing that is read from it.
proof fn lemma_last_newline(all: Seq<char>, source: Seq<char>, number: nat, found: Seq<u8>)
    ensures
        csv::scan_lines(all.push('\n'), source, number, found) == csv::scan_lines(
            all,
            source,
            number,
            found,
        ),
    decreases all.len(),
{
    reveal_with_fuel(csv::scan_lines, 2);
    let more = all.push('\n');
    let end = text::position_of(all, '\n') as int;
    text::lemma_position_of(all, '\n');
    assert forall|i: int| 0 <= i < end implies more[i] != '\n' by {
        assert(more[i] == all[i]);
    }
    text::lemma_position_is(more, '\n', end);
    assert(text::before(more, '\n') =~= text::before(all, '\n'));
    if all.len() == 0 {
        lemma_empty_line();
        lemma_line(all, source, number);
        lemma_first_column(all);
        let column = csv::first_column(all);
        assert(text::before(all, '\n') =~= all);
        assert(csv::line_cell(all) == csv::Cell::Blank);
        assert(csv::after_line(more).len() == 0);
    } else if end < all.len() {
        let rest = csv::after_line(all);
        assert(csv::after_line(more) =~= rest.push('\n'));
        match csv::line_cell(text::before(all, '\n')) {
            csv::Cell::Blank => lemma_last_newline(rest, source, number + 1, found),
            csv::Cell::Sample(v) => lemma_last_newline(rest, source, number + 1, found.push(v)),
            _ => {},
        }
    } else {
        assert(csv::after_line(more) =~= csv::after_line(all));
    }
}

/// Text with and without a newline behind its last line reads the same.
pub proof fn law_last_newline_does_not_matter(
    without: &str,
    with: &str,
    source_name: &str,
    parsed_without: Result<Vec<u8>, CsvError>,
    parsed_with: Result<Vec<u8>, CsvError>,
)
    requires
        call_ensures(csv::parse_csv_samples, (without, source_name), parsed_without),
        call_ensures(csv::parse_csv_samples, (with, source_name), parsed_with),
        with@ == without@.push('\n'),
    ensures
        match (parsed_without, parsed_with) {
            (Ok(a), Ok(b)) => a@ == b@,
            (Err(a), Err(b)) => a@ == b@,
            _ => false,
        },
{
    lemma_last_newline(without@, source_name@, 1, Seq::empty());
}

/// Text in two parts with a newline between them is read part by part, as far as both hold samples.
pub proof fn law_parts_are_read_in_order(
    first: &str,
    second: &str,
    both: &str,
    source_name: &str,
    parsed_first: Result<Vec<u8>, CsvError>,
    parsed_second: Result<Vec<u8>, CsvError>,
    parsed_both: Result<Vec<u8>, CsvError>,
)
    requires
        call_ensures(csv::parse_csv_samples, (first, source_name), parsed_first),
        call_ensures(csv::parse_csv_samples, (second, source_name), parsed_second),
        call_ensures(csv::parse_csv_samples, (both, source_name), parsed_both),
        both@ == first@.push('\n') + second@,
        parsed_first is Ok,
        parsed_second is Ok,
    ensures
        parsed_both is Ok,
        parsed_both->Ok_0@ == parsed_first->Ok_0@ + parsed_second->Ok_0@,
{
    let a = parsed_first->Ok_0@;
    let b = parsed_second->Ok_0@;
    let lines = lemma_parts(first@, second@, source_name@, 1, Seq::empty());
    lemma_numbers(second@, source_name@, 1, lines, Seq::empty(), a);
    assert(a + b.skip(0) =~= a + b);
}

/// Reading goes through the first part and then through the second one.
proof fn lemma_parts(
    first: Seq<char>,
    second: Seq<char>,
    source: Seq<char>,
    number: nat,
    found: Seq<u8>,
) -> (next: nat)
    ensures
        csv::scan_lines(first, source, number, found) matches Ok(some) ==> csv::scan_lines(
            first.push('\n') + second,
            source,
            number,
            found,
        ) == csv::scan_lines(second, source, next, some),
    decreases first.len(),
{
    reveal_with_fuel(csv::scan_lines, 2);
    let all = first.push('\n') + second;
    let end = text::position_of(first, '\n') as int;
    text::lemma_position_of(first, '\n');
    assert forall|i: int| 0 <= i < end implies all[i] != '\n' by {
        assert(all[i] == first[i]);
    }
    text::lemma_position_is(all, '\n', end);
    assert(text::before(all, '\n') =~= text::before(first, '\n'));
    let rest = csv::after_line(first);
    if end < first.len() {
        assert(csv::after_line(all) =~= rest.push('\n') + second);
        match csv::line_cell(text::before(first, '\n')) {
            csv::Cell::Blank => lemma_parts(rest, second, source, number + 1, found),
            csv::Cell::Sample(v) => lemma_parts(rest, second, source, number + 1, found.push(v)),
            _ => 0,
        }
    } else {
        assert(csv::after_line(all) =~= second);
        assert(text::before(first, '\n') =~= first);
        if first.len() == 0 {
            lemma_empty_line();
            lemma_line(first, source, number);
            lemma_first_column(first);
            assert(csv::line_cell(first) == csv::Cell::Blank);
        } else {
            assert(rest.len() == 0);
        }
        number + 1
    }
}

/// The numbers of lines and what was found before do not matter to the samples.
proof fn lemma_numbers(
    all: Seq<char>,
    source: Seq<char>,
    number: nat,
    other: nat,
    found: Seq<u8>,
    before: Seq<u8>,
)
    ensures
        csv::scan_lines(all, source, number, found) matches Ok(some) ==> {
            &&& found.is_prefix_of(some)
            &&& csv::scan_lines(all, source, other, before) == Ok::<Seq<u8>, CsvErrorView>(
                before + some.skip(found.len() as int),
            )
        },
    decreases all.len(),
{
    if all.len() == 0 {
        assert(before + found.skip(found.len() as int) =~= before);
    } else {
        let rest = csv::after_line(all);
        text::lemma_position_of(all, '\n');
        match csv::line_cell(text::before(all, '\n')) {
            csv::Cell::Blank => lemma_numbers(rest, source, number + 1, other + 1, found, before),
            csv::Cell::Sample(v) => {
                lemma_numbers(rest, source, number + 1, other + 1, found.push(v), before.push(v));
                match csv::scan_lines(rest, source, number + 1, found.push(v)) {
                    Ok(some) => {
                        assert(some[found.len() as int] == v) by {
                            assert(found.push(v)[found.len() as int] == v);
                            assert(some.subrange(0, found.len() as int + 1)[found.len() as int]
                                == some[found.len() as int]);
                        }
                        assert(before.push(v) + some.skip(found.len() as int + 1) =~= before
                            + some.skip(found.len() as int));
                        assert(found =~= some.subrange(0, found.len() as int)) by {
                            assert forall|k: int| 0 <= k < found.len() implies found[k]
                                == some[k] by {
                                assert(found.push(v)[k] == some.subrange(
                                    0,
                                    found.len() as int + 1,
                                )[k]);
                            }
                        }
                    },
                    _ => {},
                }
            },
            _ => {},
        }
    }
}

/// Samples written as CSV lines, in decimal or hexadecimal, with further columns, comments and empty
/// lines, are what a call of `parse_csv_samples` gives, all of them and in their order, whether a
/// newline stands behind the last line or not.
pub proof fn law_written_samples_are_parsed(
    csv_text: &str,
    source_name: &str,
    parsed: Result<Vec<u8>, CsvError>,
    entries: Seq<csv_round_trip::CsvEntry>,
)
    requires
        call_ensures(csv::parse_csv_samples, (csv_text, source_name), parsed),
        entries.len() > 0,
        forall|i: int|
            0 <= i < entries.len() ==> csv_round_trip::on_one_line(#[trigger] entries[i]),
        csv_text@ == csv_round_trip::entries_text(entries) || csv_text@.push('\n')
            == csv_round_trip::entries_text(entries),
    ensures
        parsed is Ok,
        parsed->Ok_0@.len() == entries.len(),
        forall|i: int| 0 <= i < entries.len() ==> #[trigger] parsed->Ok_0@[i] == entries[i].value,
{
    csv_round_trip::law_csv_round_trip(entries, source_name@);
    lemma_last_newline(csv_text@, source_name@, 1, Seq::empty());
}

/// The message of an error, as a reader sees it.
pub proof fn law_csv_message(error: &CsvError, out: String)
    requires
        call_ensures(CsvError::message, (error,), out),
    ensures
        out@ == match *error {
            CsvError::InvalidHex { text, source, line, cause } => "invalid hex byte '"@ + text@
                + "' at "@ + source@ + ":"@ + text::dec_text(line as nat) + ": "@ + cause_text(cause),
            CsvError::InvalidDecimal { text, source, line, cause } => "invalid decimal byte '"@
                + text@ + "' at "@ + source@ + ":"@ + text::dec_text(line as nat) + ": "@
                + cause_text(cause),
            CsvError::OutOfRange { value, source, line } => "value "@ + text::dec_text(value as nat)
                + " out of range at "@ + source@ + ":"@ + text::dec_text(line as nat)
                + " (must be 0..255)"@,
            CsvError::NoSamples { source } => source@ + " does not contain any usable CSV samples"@,
        },
{
}

/// The words for why a text is no number.
pub open spec fn cause_text(cause: NumberFault) -> Seq<char> {
    match cause {
        NumberFault::Empty => "cannot parse integer from empty string"@,
        NumberFault::InvalidDigit => "invalid digit found in string"@,
        NumberFault::TooLarge => "number too large to fit in target type"@,
    }
}

}
