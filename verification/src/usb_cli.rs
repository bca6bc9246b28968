//! The command line on the USB serial port.
use vstd::prelude::*;
use vstd::utf8;

use crate::device_model::HOST_STREAM_BUFFER_CAPACITY;
use crate::line;
use crate::log;
use crate::log::{Event, Ring, RING_CAPACITY};
use crate::streams;
use crate::streams::{HostStreamStatus, StreamManager, MAX_STATUS_STREAMS};
use crate::text;

verus! {

/// How many bytes of a command are kept.
pub const COMMAND_BYTES: usize = 64;

/// What is written when a terminal connects.
pub const BANNER: &'static str =
    "mimIIC ready. Commands: dump, reset_i2c, clear, stream_status, help";

/// What ends a line.
pub const LINE_END: &'static str = "\r\n";

/// The byte `\n`.
pub const NEWLINE: u8 = 0x0A;

/// The byte `\r`.
pub const CARRIAGE_RETURN: u8 = 0x0D;

/// The command that is being typed.
pub struct CommandBuffer {
    buf: [u8; COMMAND_BYTES],
    len: usize,
}

impl View for CommandBuffer {
    type V = Seq<u8>;

    closed spec fn view(&self) -> Seq<u8> {
        self.buf@.take(self.len as int)
    }
}

/// Whether a byte ends a command.
pub open spec fn ends_command(byte: u8) -> bool {
    byte == NEWLINE || byte == CARRIAGE_RETURN
}

/// What was typed once another byte comes: what does not fit is dropped.
pub open spec fn typed_after(typed: Seq<u8>, byte: u8) -> Seq<u8> {
    if ends_command(byte) {
        Seq::empty()
    } else if typed.len() < COMMAND_BYTES {
        typed.push(byte)
    } else {
        typed
    }
}

/// The command that a byte completes. An empty line is none.
pub open spec fn completed(typed: Seq<u8>, byte: u8) -> Option<Seq<u8>> {
    if ends_command(byte) && typed.len() > 0 { Some(typed) } else { None }
}

impl CommandBuffer {
    /// What was typed fits.
    pub closed spec fn wf(self) -> bool {
        self.len <= COMMAND_BYTES
    }

    /// Nothing typed.
    pub fn new() -> (buffer: Self)
        ensures
            buffer.wf(),
            buffer@ == Seq::<u8>::empty(),
    {
        let buffer = CommandBuffer { buf: [0u8; 64], len: 0 };
        assert(buffer@ =~= Seq::<u8>::empty());
        buffer
    }

    /// Takes a byte, and gives the command that it completes.
    pub fn accept(&mut self, byte: u8) -> (command: Option<Vec<u8>>)
        requires
            old(self).wf(),
        ensures
            final(self).wf(),
            final(self)@ == typed_after(old(self)@, byte),
            command is Some <==> completed(old(self)@, byte) is Some,
            command matches Some(bytes) ==> Some(bytes@) == completed(old(self)@, byte),
    {
        let ghost before = self@;
        if byte == NEWLINE || byte == CARRIAGE_RETURN {
            if self.len == 0 {
                assert(self@ =~= Seq::<u8>::empty());
                return None;
            }
            let command = crate::protocol::copy_range(&self.buf, 0, self.len);
            assert(command@ =~= before);
            self.len = 0;
            assert(self@ =~= Seq::<u8>::empty());
            return Some(command);
        }
        if self.len < COMMAND_BYTES {
            let at: usize = self.len;
            self.buf[at] = byte;
            self.len = at + 1;
            assert(self@ =~= before.push(byte));
        }
        None
    }
}

/// What is typed when bytes come behind what was typed before.
pub open spec fn typed_all(typed: Seq<u8>, bytes: Seq<u8>) -> Seq<u8>
    decreases bytes.len(),
{
    if bytes.len() == 0 {
        typed
    } else {
        typed_after(typed_all(typed, bytes.drop_last()), bytes.last())
    }
}

/// A line of at most as many bytes as are kept is the command that its end completes; of a longer
/// one, the first bytes are.
pub proof fn law_typed_line_is_the_command(line: Seq<u8>, end: u8)
    requires
        line.len() > 0,
        forall|i: int| 0 <= i < line.len() ==> !ends_command(#[trigger] line[i]),
        ends_command(end),
    ensures
        completed(typed_all(Seq::empty(), line), end) == Some(
            if line.len() <= COMMAND_BYTES {
                line
            } else {
                line.take(COMMAND_BYTES as int)
            },
        ),
{
    lemma_typed_line(line);
}

proof fn lemma_typed_line(line: Seq<u8>)
    requires
        forall|i: int| 0 <= i < line.len() ==> !ends_command(#[trigger] line[i]),
    ensures
        typed_all(Seq::empty(), line) == if line.len() <= COMMAND_BYTES {
            line
        } else {
            line.take(COMMAND_BYTES as int)
        },
    decreases line.len(),
{
    if line.len() == 0 {
        assert(line =~= Seq::empty());
    } else {
        let head = line.drop_last();
        assert forall|i: int| 0 <= i < head.len() implies !ends_command(#[trigger] head[i]) by {
            assert(head[i] == line[i]);
        }
        lemma_typed_line(head);
        assert(head.push(line.last()) =~= line);
        if line.len() > COMMAND_BYTES {
            assert(!ends_command(line[line.len() - 1]));
            if head.len() > COMMAND_BYTES {
                assert(head.take(COMMAND_BYTES as int) =~= line.take(COMMAND_BYTES as int));
            } else {
                assert(head =~= line.take(COMMAND_BYTES as int));
            }
        }
    }
}

/// What a command asks for.
#[derive(Copy, Clone, Debug, PartialEq, Eq, Structural)]
pub enum CliCommand {
    Help,
    Dump,
    Clear,
    ResetI2c,
    StreamStatus,
    Unknown,
    InvalidUtf8,
}

/// What a command asks for: its case and the white space around it do not matter.
pub open spec fn command_of(bytes: Seq<u8>) -> CliCommand {
    if !utf8::valid_utf8(bytes) {
        CliCommand::InvalidUtf8
    } else {
        let word = text::trim(utf8::decode_utf8(bytes));
        if text::same_ignoring_ascii_case(word, "help"@) {
            CliCommand::Help
        } else if text::same_ignoring_ascii_case(word, "dump"@) {
            CliCommand::Dump
        } else if text::same_ignoring_ascii_case(word, "clear"@) {
            CliCommand::Clear
        } else if text::same_ignoring_ascii_case(word, "reset_i2c"@) {
            CliCommand::ResetI2c
        } else if text::same_ignoring_ascii_case(word, "stream_status"@) {
            CliCommand::StreamStatus
        } else {
            CliCommand::Unknown
        }
    }
}

/// `core::str::from_utf8`: the string with these bytes, if they are valid UTF-8.
#[verifier::external_body]
fn utf8_str(bytes: &[u8]) -> (s: Option<&str>)
    ensures
        s is Some <==> utf8::valid_utf8(bytes@),
        s matches Some(string) ==> utf8::encode_utf8(string@) == bytes@,
{
    core::str::from_utf8(bytes).ok()
}

/// Reads a command.
pub fn parse_command(cmd: &[u8]) -> (command: CliCommand)
    ensures
        command == command_of(cmd@),
{
    match utf8_str(cmd) {
        None => CliCommand::InvalidUtf8,
        Some(string) => {
            let chars = text::chars_of(string);
            proof {
                utf8::encode_utf8_decode_utf8(string@);
                assert(chars@ == utf8::decode_utf8(cmd@));
                assert(chars@.subrange(0, chars@.len() as int) =~= chars@);
            }
            let (lo, hi) = text::trimmed_bounds(&chars, 0, chars.len());
            if text::matches_word(&chars, lo, hi, "help") {
                CliCommand::Help
            } else if text::matches_word(&chars, lo, hi, "dump") {
                CliCommand::Dump
            } else if text::matches_word(&chars, lo, hi, "clear") {
                CliCommand::Clear
            } else if text::matches_word(&chars, lo, hi, "reset_i2c") {
                CliCommand::ResetI2c
            } else if text::matches_word(&chars, lo, hi, "stream_status") {
                CliCommand::StreamStatus
            } else {
                CliCommand::Unknown
            }
        },
    }
}

/// The line of a stream in the status report.
pub open spec fn status_text(status: HostStreamStatus) -> Seq<char> {
    "id="@ + text::dec_text(status.stream_id as nat) + " addr=0x"@ + log::hex_byte(status.addr)
        + " fill="@ + text::dec_text(status.level as nat) + "/"@ + text::dec_text(
        HOST_STREAM_BUFFER_CAPACITY as nat,
    ) + " free="@ + text::dec_text(status.free as nat) + " underruns="@ + text::dec_text(
        status.underruns as nat,
    ) + " drops="@ + text::dec_text(status.drops as nat) + " "@ + if status.has_last {
        "last=0x"@ + log::hex_byte(status.last_value)
    } else {
        "last=--"@
    }
}

/// How many digits the numbers of a status have at most.
proof fn lemma_status_lengths(status: HostStreamStatus)
    ensures
        text::dec_text(status.stream_id as nat).len() <= 3,
        text::dec_text(status.level as nat).len() <= 20,
        text::dec_text(HOST_STREAM_BUFFER_CAPACITY as nat).len() <= 4,
        text::dec_text(status.free as nat).len() <= 20,
        text::dec_text(status.underruns as nat).len() <= 10,
        text::dec_text(status.drops as nat).len() <= 10,
{
    assert(status.stream_id < text::dec_limit(3)) by {
        reveal_with_fuel(text::dec_limit, 4);
    }
    assert(HOST_STREAM_BUFFER_CAPACITY < text::dec_limit(4)) by {
        reveal_with_fuel(text::dec_limit, 5);
    }
    assert(0xFFFF_FFFF < text::dec_limit(10)) by {
        reveal_with_fuel(text::dec_limit, 11);
    }
    assert(0xFFFF_FFFF_FFFF_FFFF < text::dec_limit(20)) by {
        reveal_with_fuel(text::dec_limit, 21);
    }
    text::lemma_dec_text_len(status.stream_id as nat, 3);
    text::lemma_dec_text_len(status.level as nat, 20);
    text::lemma_dec_text_len(HOST_STREAM_BUFFER_CAPACITY as nat, 4);
    text::lemma_dec_text_len(status.free as nat, 20);
    text::lemma_dec_text_len(status.underruns as nat, 10);
    text::lemma_dec_text_len(status.drops as nat, 10);
}

/// Writes the line of a stream in the status report.
pub fn format_status_line(status: &HostStreamStatus, line: &mut heapless::String<192>)
    ensures
        line::line_text(*final(line)) == status_text(*status),
{
    proof {
        reveal_strlit("id=");
        reveal_strlit(" addr=0x");
        reveal_strlit(" fill=");
        reveal_strlit("/");
        reveal_strlit(" free=");
        reveal_strlit(" underruns=");
        reveal_strlit(" drops=");
        reveal_strlit(" ");
        reveal_strlit("last=0x");
        reveal_strlit("last=--");
        lemma_status_lengths(*status);
        log::lemma_hex_byte_len(status.addr);
    }
    line::clear_line(line);
    line::put_str(line, "id=");
    assert(line::line_text(*line) =~= "id="@);
    line::put_dec(line, status.stream_id as u64, 0);
    line::put_str(line, " addr=0x");
    line::put_hex(line, status.addr as u64, 2);
    line::put_str(line, " fill=");
    line::put_dec(line, status.level as u64, 0);
    line::put_str(line, "/");
    line::put_dec(line, HOST_STREAM_BUFFER_CAPACITY as u64, 0);
    line::put_str(line, " free=");
    line::put_dec(line, status.free as u64, 0);
    line::put_str(line, " underruns=");
    line::put_dec(line, status.underruns as u64, 0);
    line::put_str(line, " drops=");
    line::put_dec(line, status.drops as u64, 0);
    line::put_str(line, " ");
    let ghost head = line::line_text(*line);
    if status.has_last {
        line::put_str(line, "last=0x");
        line::put_hex(line, status.last_value as u64, 2);
        assert(line::line_text(*line) =~= head + ("last=0x"@ + log::hex_byte(status.last_value)));
    } else {
        line::put_str(line, "last=--");
    }
}

/// The lines as sequences.
pub open spec fn line_views(lines: Seq<String>) -> Seq<Seq<char>> {
    lines.map_values(|l: String| l@)
}

/// What a command is answered, line by line.
pub open spec fn answer_lines(
    command: CliCommand,
    j: log::Journal,
    s: streams::Streams,
) -> Seq<Seq<char>> {
    match command {
        CliCommand::Help => seq![
            "Commands:"@,
            "  dump          -> dump I2C transaction log ring"@,
            "  reset_i2c     -> reset RP2040 I2C peripheral"@,
            "  clear         -> clear transaction ring"@,
            "  stream_status -> show host stream buffer status"@,
        ],
        CliCommand::Dump => if j.entries.len() == 0 {
            seq!["log is empty"@]
        } else {
            seq!["--- log dump begin ---"@] + j.entries.map_values(|e: log::Entry| log::event_text(e))
                + seq!["--- log dump end ---"@]
        },
        CliCommand::Clear => seq!["log cleared"@],
        CliCommand::ResetI2c => seq!["i2c reset requested"@],
        CliCommand::StreamStatus => if s.host_count == 0 {
            seq!["no host_stream registers configured"@]
        } else {
            seq!["--- stream status ---"@] + Seq::new(
                s.host_count,
                |k: int| status_text(streams::status_of(s, k)),
            )
        },
        CliCommand::Unknown => seq!["ERR unknown command. Try: help"@],
        CliCommand::InvalidUtf8 => seq!["ERR invalid UTF-8 command"@],
    }
}

/// The answer to a command.
#[derive(Debug)]
pub struct CliAnswer {
    /// The lines to write.
    pub lines: Vec<String>,
    /// Whether the I2C peripheral is to be reset.
    pub reset_i2c: bool,
}

fn one_line(line: &str) -> (lines: Vec<String>)
    ensures
        line_views(lines@) == seq![line@],
{
    let mut lines: Vec<String> = Vec::new();
    lines.push(line.to_owned());
    assert(line_views(lines@) =~= seq![line@]);
    lines
}

fn push_line(lines: &mut Vec<String>, line: &str)
    ensures
        line_views(final(lines)@) == line_views(old(lines)@).push(line@),
{
    let ghost before = line_views(lines@);
    lines.push(line.to_owned());
    assert(line_views(lines@) =~= before.push(line@));
}

fn help_lines() -> (lines: Vec<String>)
    ensures
        line_views(lines@) == answer_lines(
            CliCommand::Help,
            log::empty_journal(),
            streams::no_streams(),
        ),
{
    let mut lines = one_line("Commands:");
    push_line(&mut lines, "  dump          -> dump I2C transaction log ring");
    push_line(&mut lines, "  reset_i2c     -> reset RP2040 I2C peripheral");
    push_line(&mut lines, "  clear         -> clear transaction ring");
    push_line(&mut lines, "  stream_status -> show host stream buffer status");
    assert(line_views(lines@) =~= answer_lines(
        CliCommand::Help,
        log::empty_journal(),
        streams::no_streams(),
    ));
    lines
}

/// The lines of all events in the log.
fn dump_lines(ring: &Ring) -> (lines: Vec<String>)
    requires
        ring.wf(),
    ensures
        line_views(lines@) == answer_lines(CliCommand::Dump, ring@, streams::no_streams()),
{
    proof {
        ring.lemma_view_wf();
    }
    let empty = Event::empty();
    let mut events: [Event; RING_CAPACITY] = [empty; 128];
    let count: usize = log::snapshot(ring, &mut events);
    let ghost entries = ring@.entries;
    assert(log::newest(ring@, count as nat) =~= entries);
    if count == 0 {
        return one_line("log is empty");
    }
    let mut buffer = line::new_line();
    let mut lines = one_line("--- log dump begin ---");
    let ghost texts = entries.map_values(|e: log::Entry| log::event_text(e));
    let mut i: usize = 0;
    assert(line_views(lines@) =~= seq!["--- log dump begin ---"@] + texts.take(0));
    while i < count
        invariant
            i <= count <= RING_CAPACITY,
            count == entries.len(),
            texts == entries.map_values(|e: log::Entry| log::event_text(e)),
            forall|k: int| 0 <= k < count ==> (#[trigger] events@[k])@ == entries[k],
            forall|k: int| 0 <= k < entries.len() ==> (#[trigger] entries[k]).wf(),
            line_views(lines@) == seq!["--- log dump begin ---"@] + texts.take(i as int),
        decreases count - i,
    {
        assert(events@[i as int]@ == entries[i as int]);
        log::format_event_line(&events[i], &mut buffer);
        push_line(&mut lines, line::line_str(&buffer));
        assert(line_views(lines@) =~= seq!["--- log dump begin ---"@] + texts.take(i + 1));
        i = i + 1;
    }
    assert(texts.take(i as int) =~= texts);
    push_line(&mut lines, "--- log dump end ---");
    assert(line_views(lines@) =~= seq!["--- log dump begin ---"@] + texts
        + seq!["--- log dump end ---"@]);
    lines
}

/// The lines of all streams in use.
fn status_lines(manager: &StreamManager) -> (lines: Vec<String>)
    requires
        manager.wf(),
    ensures
        line_views(lines@) == answer_lines(
            CliCommand::StreamStatus,
            log::empty_journal(),
            manager@,
        ),
{
    proof {
        manager.lemma_view_wf();
    }
    let none = HostStreamStatus {
        stream_id: 0,
        addr: 0,
        level: 0,
        free: 0,
        underruns: 0,
        drops: 0,
        has_last: false,
        last_value: 0,
    };
    let mut statuses: [HostStreamStatus; MAX_STATUS_STREAMS] = [none; 9];
    let count: usize = manager.statuses(&mut statuses);
    let ghost s = manager@;
    if count == 0 {
        return one_line("no host_stream registers configured");
    }
    let mut buffer = line::new_line();
    let mut lines = one_line("--- stream status ---");
    let ghost texts = Seq::new(s.host_count, |k: int| status_text(streams::status_of(s, k)));
    let mut i: usize = 0;
    assert(line_views(lines@) =~= seq!["--- stream status ---"@] + texts.take(0));
    while i < count
        invariant
            i <= count <= MAX_STATUS_STREAMS,
            count == s.host_count,
            texts == Seq::new(s.host_count, |k: int| status_text(streams::status_of(s, k))),
            forall|k: int| 0 <= k < count ==> #[trigger] statuses@[k] == streams::status_of(s, k),
            line_views(lines@) == seq!["--- stream status ---"@] + texts.take(i as int),
        decreases count - i,
    {
        format_status_line(&statuses[i], &mut buffer);
        push_line(&mut lines, line::line_str(&buffer));
        assert(line_views(lines@) =~= seq!["--- stream status ---"@] + texts.take(i + 1));
        i = i + 1;
    }
    assert(texts.take(i as int) =~= texts);
    lines
}

/// Does what a command asks for.
pub fn handle_cli_command(cmd: &[u8], ring: &mut Ring, manager: &StreamManager) -> (answer: CliAnswer)
    requires
        old(ring).wf(),
        manager.wf(),
    ensures
        final(ring).wf(),
        line_views(answer.lines@) == answer_lines(command_of(cmd@), old(ring)@, manager@),
        answer.reset_i2c == (command_of(cmd@) == CliCommand::ResetI2c),
        final(ring)@ == if command_of(cmd@) == CliCommand::Clear {
            log::empty_journal()
        } else {
            old(ring)@
        },
{
    match parse_command(cmd) {
        CliCommand::Help => CliAnswer { lines: help_lines(), reset_i2c: false },
        CliCommand::Dump => CliAnswer { lines: dump_lines(ring), reset_i2c: false },
        CliCommand::Clear => {
            log::clear(ring);
            CliAnswer { lines: one_line("log cleared"), reset_i2c: false }
        },
        CliCommand::ResetI2c => {
            CliAnswer { lines: one_line("i2c reset requested"), reset_i2c: true }
        },
        CliCommand::StreamStatus => CliAnswer { lines: status_lines(manager), reset_i2c: false },
        CliCommand::Unknown => {
            CliAnswer { lines: one_line("ERR unknown command. Try: help"), reset_i2c: false }
        },
        CliCommand::InvalidUtf8 => {
            CliAnswer { lines: one_line("ERR invalid UTF-8 command"), reset_i2c: false }
        },
    }
}

}
