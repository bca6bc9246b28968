//! CSV text written from samples gives the samples back.
use vstd::prelude::*;

use crate::csv;
use crate::text;

verus! {

/// How a sample is written.
pub enum Style {
    /// `42`
    Decimal,
    /// `0x2a`
    LowerHex,
    /// `0X2A`
    UpperHex,
}

/// One line that holds a sample, and the comment lines that stand before it.
pub struct CsvEntry {
    pub value: u8,
    pub style: Style,
    /// Further columns, behind a comma.
    pub columns: Option<Seq<char>>,
    /// A comment at the end of the line, behind ` #`.
    pub comment: Option<Seq<char>>,
    /// A comment on a line of its own before the sample, followed by an empty line.
    pub heading: Option<Seq<char>>,
}

/// A hexadecimal digit in lower case.
pub open spec fn lower_digit(d: int) -> char {
    if d < 10 { text::digit_char(d) } else { ('a' as int + d - 10) as char }
}

/// A sample as it is written.
pub open spec fn token(value: u8, style: Style) -> Seq<char> {
    match style {
        Style::Decimal => text::dec_text(value as nat),
        Style::LowerHex => seq![
            '0',
            'x',
            lower_digit(value as int / 16),
            lower_digit(value as int % 16),
        ],
        Style::UpperHex => seq![
            '0',
            'X',
            text::digit_char(value as int / 16),
            text::digit_char(value as int % 16),
        ],
    }
}

/// What stands on the line behind a sample.
pub open spec fn line_tail(entry: CsvEntry) -> Seq<char> {
    let columns = match entry.columns {
        Some(c) => seq![','] + c,
        None => Seq::empty(),
    };
    let comment = match entry.comment {
        Some(c) => seq![' ', '#'] + c,
        None => Seq::empty(),
    };
    columns + comment
}

/// The line of a sample, without its newline.
pub open spec fn entry_line(entry: CsvEntry) -> Seq<char> {
    token(entry.value, entry.style) + line_tail(entry)
}

/// An entry as text.
pub open spec fn entry_text(entry: CsvEntry) -> Seq<char> {
    let heading = match entry.heading {
        Some(h) => seq!['#'] + h + seq!['\n', '\n'],
        None => Seq::empty(),
    };
    heading + entry_line(entry) + seq!['\n']
}

/// Entries as CSV text.
pub open spec fn entries_text(entries: Seq<CsvEntry>) -> Seq<char>
    decreases entries.len(),
{
    if entries.len() == 0 {
        Seq::empty()
    } else {
        entry_text(entries[0]) + entries_text(entries.drop_first())
    }
}

pub open spec fn no_newline(s: Option<Seq<char>>) -> bool {
    s matches Some(c) ==> !c.contains('\n')
}

/// The free text of an entry stays on its line.
pub open spec fn on_one_line(entry: CsvEntry) -> bool {
    no_newline(entry.columns) && no_newline(entry.comment) && no_newline(entry.heading)
}

/// The samples of entries.
pub open spec fn entry_values(entries: Seq<CsvEntry>) -> Seq<u8> {
    entries.map_values(|e: CsvEntry| e.value)
}

/// CSV text written from any samples, in decimal or hexadecimal, with further columns, comments
/// and empty lines, parses to those samples in their order.
pub proof fn law_csv_round_trip(entries: Seq<CsvEntry>, source: Seq<char>)
    requires
        entries.len() > 0,
        forall|i: int| 0 <= i < entries.len() ==> on_one_line(#[trigger] entries[i]),
    ensures
        csv::csv_samples(entries_text(entries), source) == Ok::<Seq<u8>, csv::CsvErrorView>(
            entry_values(entries),
        ),
{
    lemma_scan_entries(entries, source, 1, Seq::empty());
    assert(Seq::<u8>::empty() + entry_values(entries) =~= entry_values(entries));
}

proof fn lemma_scan_entries(entries: Seq<CsvEntry>, source: Seq<char>, line: nat, found: Seq<u8>)
    requires
        forall|i: int| 0 <= i < entries.len() ==> on_one_line(#[trigger] entries[i]),
    ensures
        csv::scan_lines(entries_text(entries), source, line, found) == Ok::<
            Seq<u8>,
            csv::CsvErrorView,
        >(found + entry_values(entries)),
    decreases entries.len(),
{
    if entries.len() == 0 {
        assert(found + entry_values(entries) =~= found);
    } else {
        let entry = entries[0];
        let rest = entries_text(entries.drop_first());
        let own = entry_line(entry) + seq!['\n'] + rest;
        assert forall|i: int| 0 <= i < entries.drop_first().len() implies on_one_line(
            #[trigger] entries.drop_first()[i],
        ) by {
            assert(entries.drop_first()[i] == entries[i + 1]);
        }
        let own_line = match entry.heading {
            Some(h) => {
                let comment = seq!['#'] + h;
                assert(entries_text(entries) =~= comment + seq!['\n'] + (seq!['\n'] + own));
                assert(!comment.contains('\n'));
                lemma_scan_line(comment, seq!['\n'] + own, source, line, found);
                lemma_comment_is_blank(h);
                assert(seq!['\n'] + own =~= Seq::<char>::empty() + seq!['\n'] + own);
                lemma_scan_line(Seq::empty(), own, source, line + 1, found);
                lemma_empty_is_blank();
                line + 2
            },
            None => {
                assert(entries_text(entries) =~= own);
                line
            },
        };
        lemma_entry_line(entry);
        lemma_scan_line(entry_line(entry), rest, source, own_line, found);
        lemma_scan_entries(entries.drop_first(), source, own_line + 1, found.push(entry.value));
        assert(found.push(entry.value) + entry_values(entries.drop_first()) =~= found
            + entry_values(entries));
    }
}

/// Reading starts with the first line.
proof fn lemma_scan_line(
    line_text: Seq<char>,
    rest: Seq<char>,
    source: Seq<char>,
    line: nat,
    found: Seq<u8>,
)
    requires
        !line_text.contains('\n'),
    ensures
        csv::line_cell(line_text) matches csv::Cell::Blank ==> csv::scan_lines(
            line_text + seq!['\n'] + rest,
            source,
            line,
            found,
        ) == csv::scan_lines(rest, source, line + 1, found),
        csv::line_cell(line_text) matches csv::Cell::Sample(v) ==> csv::scan_lines(
            line_text + seq!['\n'] + rest,
            source,
            line,
            found,
        ) == csv::scan_lines(rest, source, line + 1, found.push(v)),
{
    let all = line_text + seq!['\n'] + rest;
    let end = line_text.len() as int;
    assert forall|i: int| 0 <= i < end implies all[i] != '\n' by {
        assert(all[i] == line_text[i]);
    }
    text::lemma_position_is(all, '\n', end);
    assert(text::before(all, '\n') =~= line_text);
    assert(csv::after_line(all) =~= rest);
}

proof fn lemma_empty_is_blank()
    ensures
        csv::line_cell(Seq::empty()) is Blank,
{
    let none = Seq::<char>::empty();
    text::lemma_position_of(none, '#');
    assert(text::before(none, '#') =~= none);
    text::lemma_position_of(none, ',');
    assert(text::before(none, ',') =~= none);
}

proof fn lemma_comment_is_blank(h: Seq<char>)
    ensures
        csv::line_cell(seq!['#'] + h) is Blank,
{
    let line = seq!['#'] + h;
    text::lemma_position_is(line, '#', 0);
    assert(text::before(line, '#') =~= Seq::<char>::empty());
    lemma_empty_is_blank();
    text::lemma_position_of(Seq::<char>::empty(), '#');
    assert(text::before(Seq::<char>::empty(), '#') =~= Seq::<char>::empty());
}

/// The line of an entry holds its sample, and no newline.
proof fn lemma_entry_line(entry: CsvEntry)
    requires
        on_one_line(entry),
    ensures
        !entry_line(entry).contains('\n'),
        csv::line_cell(entry_line(entry)) == csv::Cell::Sample(entry.value),
{
    let t = token(entry.value, entry.style);
    lemma_token(entry.value, entry.style);
    let tail = line_tail(entry);
    assert(!tail.contains('\n')) by {
        if tail.contains('\n') {
            let i = choose|i: int| 0 <= i < tail.len() && tail[i] == '\n';
            match entry.columns {
                Some(c) => {
                    if 0 < i <= c.len() {
                        assert(c[i - 1] == '\n');
                    }
                    match entry.comment {
                        Some(m) => {
                            if i >= c.len() + 3 {
                                assert(m[i - c.len() - 3] == '\n');
                            }
                        },
                        None => {},
                    }
                },
                None => {
                    match entry.comment {
                        Some(m) => {
                            if i >= 2 {
                                assert(m[i - 2] == '\n');
                            }
                        },
                        None => {},
                    }
                },
            }
        }
    }
    assert(!entry_line(entry).contains('\n')) by {
        let line = entry_line(entry);
        if line.contains('\n') {
            let i = choose|i: int| 0 <= i < line.len() && line[i] == '\n';
            if i < t.len() {
                assert(is_token_char(t[i]));
            } else {
                assert(tail[i - t.len()] == '\n');
            }
        }
    }
    lemma_first_column(t, tail);
}

/// A character that a written sample may hold.
pub open spec fn is_token_char(c: char) -> bool {
    ||| '0' <= c <= '9'
    ||| 'a' <= c <= 'z'
    ||| 'A' <= c <= 'Z'
}

proof fn lemma_first_column(t: Seq<char>, tail: Seq<char>)
    requires
        t.len() > 0,
        forall|i: int| 0 <= i < t.len() ==> is_token_char(#[trigger] t[i]),
        tail.len() == 0 || tail[0] == ',' || (tail.len() >= 2 && tail[0] == ' ' && tail[1] == '#'),
    ensures
        csv::first_column(t + tail) == t,
{
    let line = t + tail;
    let n = t.len() as int;
    assert(forall|i: int| 0 <= i < n ==> line[i] == t[i]);
    text::lemma_position_of(line, '#');
    let p = text::position_of(line, '#') as int;
    assert(n <= p) by {
        if p < n {
            assert(is_token_char(t[p]));
        }
    }
    let uncommented = text::before(line, '#');
    assert(uncommented[0] == t[0] && is_token_char(t[0]));
    assert(text::trim_start(uncommented) == uncommented);
    let q = lemma_trim_end(uncommented, n);
    let trimmed = text::trim(uncommented);
    assert(trimmed =~= line.take(q));
    if tail.len() >= 2 && tail[0] == ' ' && tail[1] == '#' {
        text::lemma_position_is(line, '#', n + 1);
        assert(q == n) by {
            if q == n + 1 {
                assert(trimmed.last() == ' ');
            }
        }
    }
    if tail.len() > 0 && tail[0] == ',' {
        assert(line[n] == ',');
        assert(p > n);
        assert(q > n) by {
            if q == n {
                assert(uncommented[n] == ',');
            }
        }
    }
    assert forall|i: int| 0 <= i < n implies trimmed[i] != ',' by {
        assert(trimmed[i] == t[i] && is_token_char(t[i]));
    }
    text::lemma_position_is(trimmed, ',', n);
    assert(text::before(trimmed, ',') =~= t);
    assert(is_token_char(t[0]) && is_token_char(t.last()));
}

/// Trimming the end of `s` leaves a prefix that holds at least the first `n` characters, the last
/// of which is no white space.
proof fn lemma_trim_end(s: Seq<char>, n: int) -> (q: int)
    requires
        0 < n <= s.len(),
        !text::is_white_space(s[n - 1]),
    ensures
        n <= q <= s.len(),
        text::trim_end(s) == s.take(q),
        !text::is_white_space(s[q - 1]),
        forall|i: int| q <= i < s.len() ==> text::is_white_space(#[trigger] s[i]),
    decreases s.len(),
{
    if text::is_white_space(s.last()) {
        let q = lemma_trim_end(s.drop_last(), n);
        assert(s.drop_last().take(q) =~= s.take(q));
        assert forall|i: int| q <= i < s.len() implies text::is_white_space(#[trigger] s[i]) by {
            if i < s.len() - 1 {
                assert(s.drop_last()[i] == s[i]);
            }
        }
        q
    } else {
        assert(s.take(s.len() as int) =~= s);
        s.len() as int
    }
}

/// A written sample is a number in its radix.
proof fn lemma_token(value: u8, style: Style)
    ensures
        token(value, style).len() > 0,
        forall|i: int|
            0 <= i < token(value, style).len() ==> is_token_char(#[trigger] token(value, style)[i]),
        csv::column_cell(token(value, style)) == csv::Cell::Sample(value),
{
    let t = token(value, style);
    match style {
        Style::Decimal => {
            lemma_dec_value(value as nat);
        },
        _ => {
            let digits = t.skip(2);
            let high = value as int / 16;
            let low = value as int % 16;
            assert(csv::digit_value(digits[0], 16) == Some(high));
            assert(csv::digit_value(digits[1], 16) == Some(low));
            reveal_with_fuel(csv::digits_value, 3);
            assert(digits.drop_last().last() == digits[0]);
            assert(digits.drop_last().drop_last().len() == 0);
            assert(csv::digits_value(digits, 16) == Some(value as int));
        },
    }
}

proof fn lemma_dec_value(n: nat)
    ensures
        text::dec_text(n).len() > 0,
        forall|i: int|
            0 <= i < text::dec_text(n).len() ==> '0' <= #[trigger] text::dec_text(n)[i] <= '9',
        csv::digits_value(text::dec_text(n), 10) == Some(n as int),
    decreases n,
{
    let t = text::dec_text(n);
    if n < 10 {
        reveal_with_fuel(csv::digits_value, 2);
        assert(t.drop_last().len() == 0);
    } else {
        lemma_dec_value(n / 10);
        assert(t.drop_last() =~= text::dec_text(n / 10));
        assert forall|i: int| 0 <= i < t.len() implies '0' <= #[trigger] t[i] <= '9' by {
            if i < t.len() - 1 {
                assert(t[i] == text::dec_text(n / 10)[i]);
            }
        }
    }
}

}
