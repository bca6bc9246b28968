//! What a terminal on the USB command line shows.
use vstd::prelude::*;
use vstd::utf8;

use crate::line;
use crate::log;
use crate::log::{Event, EventKind, Ring};
use crate::streams;
use crate::streams::{HostStreamStatus, StreamManager};
use crate::text;
use crate::usb_cli;
use crate::usb_cli::{CliAnswer, CliCommand, CommandBuffer};

verus! {

/// The bytes are a word, in capital or small letters, with white space around it or without.
pub open spec fn is_word(bytes: Seq<u8>, word: Seq<char>) -> bool {
    utf8::valid_utf8(bytes) && text::same_ignoring_ascii_case(
        text::trim(utf8::decode_utf8(bytes)),
        word,
    )
}

/// A call of `parse_command` knows the five commands by their words, and nothing else.
pub proof fn law_commands_are_known_by_their_words(cmd: &[u8], command: CliCommand)
    requires
        call_ensures(usb_cli::parse_command, (cmd,), command),
    ensures
        command == CliCommand::Help <==> is_word(cmd@, seq!['h', 'e', 'l', 'p']),
        command == CliCommand::Dump <==> is_word(cmd@, seq!['d', 'u', 'm', 'p']),
        command == CliCommand::Clear <==> is_word(cmd@, seq!['c', 'l', 'e', 'a', 'r']),
        command == CliCommand::ResetI2c <==> is_word(
            cmd@,
            seq!['r', 'e', 's', 'e', 't', '_', 'i', '2', 'c'],
        ),
        command == CliCommand::StreamStatus <==> is_word(
            cmd@,
            seq!['s', 't', 'r', 'e', 'a', 'm', '_', 's', 't', 'a', 't', 'u', 's'],
        ),
        command == CliCommand::InvalidUtf8 <==> !utf8::valid_utf8(cmd@),
{
    lemma_words(cmd@);
}

proof fn lemma_words(bytes: Seq<u8>)
    ensures
        ({
            let command = usb_cli::command_of(bytes);
            &&& command == CliCommand::Help <==> is_word(bytes, seq!['h', 'e', 'l', 'p'])
            &&& command == CliCommand::Dump <==> is_word(bytes, seq!['d', 'u', 'm', 'p'])
            &&& command == CliCommand::Clear <==> is_word(bytes, seq!['c', 'l', 'e', 'a', 'r'])
            &&& command == CliCommand::ResetI2c <==> is_word(
                bytes,
                seq!['r', 'e', 's', 'e', 't', '_', 'i', '2', 'c'],
            )
            &&& command == CliCommand::StreamStatus <==> is_word(
                bytes,
                seq!['s', 't', 'r', 'e', 'a', 'm', '_', 's', 't', 'a', 't', 'u', 's'],
            )
            &&& command == CliCommand::InvalidUtf8 <==> !utf8::valid_utf8(bytes)
        }),
{
    reveal_strlit("help");
    reveal_strlit("dump");
    reveal_strlit("clear");
    reveal_strlit("reset_i2c");
    reveal_strlit("stream_status");
    assert("help"@ =~= seq!['h', 'e', 'l', 'p']);
    assert("dump"@ =~= seq!['d', 'u', 'm', 'p']);
    assert("clear"@ =~= seq!['c', 'l', 'e', 'a', 'r']);
    assert("reset_i2c"@ =~= seq!['r', 'e', 's', 'e', 't', '_', 'i', '2', 'c']);
    assert("stream_status"@ =~= seq![
        's',
        't',
        'r',
        'e',
        'a',
        'm',
        '_',
        's',
        't',
        'a',
        't',
        'u',
        's',
    ]);
    if utf8::valid_utf8(bytes) {
        let word = text::trim(utf8::decode_utf8(bytes));
        lemma_one_word(word);
    }
}

/// A word is at most one of the commands: their lengths differ, or their first letters do.
proof fn lemma_one_word(word: Seq<char>)
    ensures
        !(text::same_ignoring_ascii_case(word, seq!['h', 'e', 'l', 'p'])
            && text::same_ignoring_ascii_case(word, seq!['d', 'u', 'm', 'p'])),
{
    if text::same_ignoring_ascii_case(word, seq!['h', 'e', 'l', 'p'])
        && text::same_ignoring_ascii_case(word, seq!['d', 'u', 'm', 'p']) {
        assert(text::ascii_lower(word[0]) == text::ascii_lower(seq!['h', 'e', 'l', 'p'][0]));
        assert(text::ascii_lower(word[0]) == text::ascii_lower(seq!['d', 'u', 'm', 'p'][0]));
    }
}

/// The name of a kind of event.
pub open spec fn kind_word(kind: EventKind) -> Seq<char> {
    match kind {
        EventKind::Write => seq!['W', 'R', 'I', 'T', 'E'],
        EventKind::WriteRead => seq!['W', 'R', 'R', 'D'],
        EventKind::Read => seq!['R', 'E', 'A', 'D'],
        EventKind::GeneralCall => seq!['G', 'C', 'A', 'L', 'L'],
        EventKind::ListenError => seq!['L', 'E', 'R', 'R'],
        EventKind::ReadError => seq!['R', 'E', 'R', 'R'],
        EventKind::Reset => seq!['R', 'E', 'S', 'E', 'T'],
    }
}

/// Two hexadecimal digits for each byte, and a space between bytes.
pub open spec fn bytes_text(bytes: Seq<u8>) -> Seq<char>
    decreases bytes.len(),
{
    if bytes.len() == 0 {
        Seq::empty()
    } else {
        let digits = text::zero_padded(text::hex_text(bytes[0] as nat), 2);
        if bytes.len() == 1 {
            digits
        } else {
            digits + seq![' '] + bytes_text(bytes.drop_first())
        }
    }
}

/// The parts of an event's line, in their order: its number in at least five digits, its kind, the
/// pointer, the length, the status, the error in eight hexadecimal digits, and the bytes that it
/// shows, or a dash.
pub open spec fn line_parts(e: log::Entry) -> Seq<Seq<char>> {
    seq![
        "#"@ + text::zero_padded(text::dec_text(e.seq as nat), 5),
        kind_word(e.kind),
        "ptr=0x"@ + text::zero_padded(text::hex_text(e.pointer as nat), 2),
        "len="@ + text::dec_text(e.len as nat),
        "st="@ + text::dec_text(e.status as nat),
        "err=0x"@ + text::zero_padded(text::hex_text(e.error as nat), 8),
        "data="@ + if e.data_len == 0 {
            "-"@
        } else {
            bytes_text(e.data.take(e.data_len as int))
        },
    ]
}

/// Parts with a space between them.
pub open spec fn spaced(parts: Seq<Seq<char>>) -> Seq<char>
    decreases parts.len(),
{
    if parts.len() == 0 {
        Seq::empty()
    } else if parts.len() == 1 {
        parts[0]
    } else {
        parts[0] + seq![' '] + spaced(parts.drop_first())
    }
}

proof fn lemma_bytes_text(bytes: Seq<u8>)
    ensures
        log::hex_bytes(bytes) == bytes_text(bytes),
    decreases bytes.len(),
{
    if bytes.len() > 1 {
        lemma_bytes_text(bytes.drop_last());
        lemma_last_byte(bytes);
    }
}

proof fn lemma_last_byte(bytes: Seq<u8>)
    requires
        bytes.len() > 1,
    ensures
        bytes_text(bytes) == bytes_text(bytes.drop_last()) + seq![' '] + log::hex_byte(bytes.last()),
    decreases bytes.len(),
{
    let rest = bytes.drop_first();
    let digits = text::zero_padded(text::hex_text(bytes[0] as nat), 2);
    if bytes.len() == 2 {
        assert(bytes_text(rest) == log::hex_byte(bytes.last()));
        assert(bytes_text(bytes.drop_last()) == digits);
    } else {
        lemma_last_byte(rest);
        assert(rest.drop_last() =~= bytes.drop_last().drop_first());
        assert(bytes_text(bytes) =~= bytes_text(bytes.drop_last()) + seq![' '] + log::hex_byte(
            bytes.last(),
        ));
    }
}

/// One more part behind a space.
proof fn lemma_last_part(parts: Seq<Seq<char>>)
    requires
        parts.len() > 1,
    ensures
        spaced(parts) == spaced(parts.drop_last()) + seq![' '] + parts.last(),
    decreases parts.len(),
{
    let rest = parts.drop_first();
    if parts.len() == 2 {
        assert(spaced(rest) == parts.last());
        assert(spaced(parts.drop_last()) == parts[0]);
    } else {
        lemma_last_part(rest);
        assert(rest.drop_last() =~= parts.drop_last().drop_first());
        let head = parts[0] + seq![' '];
        let middle = spaced(rest.drop_last());
        let tail = seq![' '] + parts.last();
        assert(head + (middle + seq![' '] + parts.last()) =~= head + middle + seq![' ']
            + parts.last());
    }
}

/// A label with a space in front, and what stands behind it, are one more part.
proof fn lemma_labelled(front: Seq<char>, spaced_label: Seq<char>, label: Seq<char>, rest: Seq<char>)
    requires
        spaced_label == seq![' '] + label,
    ensures
        front + spaced_label + rest == front + seq![' '] + (label + rest),
{
    assert(front + spaced_label + rest =~= front + seq![' '] + (label + rest));
}

proof fn lemma_event_labels()
    ensures
        " "@ == seq![' '],
        " ptr=0x"@ == seq![' '] + "ptr=0x"@,
        " len="@ == seq![' '] + "len="@,
        " st="@ == seq![' '] + "st="@,
        " err=0x"@ == seq![' '] + "err=0x"@,
        " data="@ == seq![' '] + "data="@,
{
    reveal_strlit(" ");
    reveal_strlit(" ptr=0x");
    reveal_strlit(" len=");
    reveal_strlit(" st=");
    reveal_strlit(" err=0x");
    reveal_strlit(" data=");
    reveal_strlit("ptr=0x");
    reveal_strlit("len=");
    reveal_strlit("st=");
    reveal_strlit("err=0x");
    reveal_strlit("data=");
    assert(" "@ =~= seq![' ']);
    assert(" ptr=0x"@ =~= seq![' '] + "ptr=0x"@);
    assert(" len="@ =~= seq![' '] + "len="@);
    assert(" st="@ =~= seq![' '] + "st="@);
    assert(" err=0x"@ =~= seq![' '] + "err=0x"@);
    assert(" data="@ =~= seq![' '] + "data="@);
}

proof fn lemma_kind_words(kind: EventKind)
    ensures
        log::kind_text(kind) == kind_word(kind),
{
    reveal_strlit("WRITE");
    reveal_strlit("WRRD");
    reveal_strlit("READ");
    reveal_strlit("GCALL");
    reveal_strlit("LERR");
    reveal_strlit("RERR");
    reveal_strlit("RESET");
    assert(log::kind_text(kind) =~= kind_word(kind));
}

/// Seven parts, one behind the other.
proof fn lemma_seven(parts: Seq<Seq<char>>)
    requires
        parts.len() == 7,
    ensures
        spaced(parts) == parts[0] + seq![' '] + parts[1] + seq![' '] + parts[2] + seq![' ']
            + parts[3] + seq![' '] + parts[4] + seq![' '] + parts[5] + seq![' '] + parts[6],
{
    let six = parts.drop_last();
    let five = six.drop_last();
    let four = five.drop_last();
    let three = four.drop_last();
    let two = three.drop_last();
    let one = two.drop_last();
    lemma_last_part(parts);
    lemma_last_part(six);
    lemma_last_part(five);
    lemma_last_part(four);
    lemma_last_part(three);
    lemma_last_part(two);
    assert(spaced(one) == parts[0]);
}

proof fn lemma_event_text(e: log::Entry)
    ensures
        log::event_text(e) == spaced(line_parts(e)),
{
    lemma_event_labels();
    lemma_kind_words(e.kind);
    lemma_bytes_text(e.data.take(e.data_len as int));
    let parts = line_parts(e);
    let pointer = text::zero_padded(text::hex_text(e.pointer as nat), 2);
    let len = text::dec_text(e.len as nat);
    let status = text::dec_text(e.status as nat);
    let error = text::zero_padded(text::hex_text(e.error as nat), 8);
    let data = if e.data_len == 0 { "-"@ } else { log::hex_bytes(e.data.take(e.data_len as int)) };
    lemma_seven(parts);
    let a = parts[0] + seq![' '] + parts[1];
    lemma_labelled(a, " ptr=0x"@, "ptr=0x"@, pointer);
    let b = a + seq![' '] + parts[2];
    lemma_labelled(b, " len="@, "len="@, len);
    let c = b + seq![' '] + parts[3];
    lemma_labelled(c, " st="@, "st="@, status);
    let d = c + seq![' '] + parts[4];
    lemma_labelled(d, " err=0x"@, "err=0x"@, error);
    let f = d + seq![' '] + parts[5];
    lemma_labelled(f, " data="@, "data="@, data);
}

/// A call of `format_event_line` writes the parts of the line with a space between them.
pub proof fn law_event_line_has_its_parts(event: &Event, line: &mut heapless::String<192>)
    requires
        call_ensures(log::format_event_line, (event, line), ()),
    ensures
        line::line_text(*final(line)) == spaced(line_parts(event@)),
{
    lemma_event_text(event@);
}

/// What a call of `handle_cli_command` answers to `dump`: nothing but a notice where the log is
/// empty. Otherwise one line for every event that the log holds, oldest first, between a first and a
/// last line. The log stays as it is.
pub proof fn law_dump_shows_every_event(
    cmd: &[u8],
    ring: &mut Ring,
    manager: &StreamManager,
    answer: CliAnswer,
)
    requires
        call_ensures(usb_cli::handle_cli_command, (cmd, ring, manager), answer),
        is_word(cmd@, seq!['d', 'u', 'm', 'p']),
    ensures
        final(ring)@ == old(ring)@,
        !answer.reset_i2c,
        old(ring)@.entries.len() == 0 ==> answer.lines@.len() == 1 && answer.lines@[0]@
            == "log is empty"@,
        old(ring)@.entries.len() > 0 ==> {
            &&& answer.lines@.len() == old(ring)@.entries.len() + 2
            &&& answer.lines@[0]@ == "--- log dump begin ---"@
            &&& answer.lines@.last()@ == "--- log dump end ---"@
            &&& forall|k: int|
                0 <= k < old(ring)@.entries.len() ==> (#[trigger] answer.lines@[k + 1])@ == spaced(
                    line_parts(old(ring)@.entries[k]),
                )
        },
{
    let entries = old(ring)@.entries;
    let lines = usb_cli::line_views(answer.lines@);
    lemma_words(cmd@);
    assert(lines.len() == answer.lines@.len());
    assert(forall|k: int| 0 <= k < lines.len() ==> lines[k] == (#[trigger] answer.lines@[k])@);
    if entries.len() > 0 {
        assert(lines.len() == entries.len() + 2);
        assert(lines[0] == "--- log dump begin ---"@);
        assert(lines.last() == "--- log dump end ---"@);
        assert forall|k: int| 0 <= k < entries.len() implies (#[trigger] answer.lines@[k + 1])@
            == spaced(line_parts(entries[k])) by {
            lemma_event_text(entries[k]);
            assert(lines[k + 1] == log::event_text(entries[k]));
        }
    } else {
        assert(lines[0] == "log is empty"@);
    }
}

/// After some events in an empty log, a dump has a line for each of them as long as there are at most
/// a hundred and twenty-eight: line `k` is that of event `k`, under the number `k`. Of more events it
/// shows the last hundred and twenty-eight.
pub proof fn law_dump_follows_the_events(
    cmd: &[u8],
    ring: &mut Ring,
    manager: &StreamManager,
    answer: CliAnswer,
    events: Seq<log::Entry>,
)
    requires
        call_ensures(usb_cli::handle_cli_command, (cmd, ring, manager), answer),
        is_word(cmd@, seq!['d', 'u', 'm', 'p']),
        old(ring)@ == log::journal_of(events),
        events.len() > 0,
    ensures
        ({
            let gone = if events.len() > 128 { events.len() - 128 } else { 0 };
            &&& answer.lines@.len() == events.len() - gone + 2
            &&& forall|k: int|
                1 <= k <= events.len() - gone ==> (#[trigger] answer.lines@[k])@ == spaced(
                    line_parts(
                        log::Entry {
                            seq: ((gone + k) % 4294967296) as u32,
                            ..events[gone + k - 1]
                        },
                    ),
                )
        }),
{
    let gone = if events.len() > 128 { events.len() - 128 } else { 0 };
    law_dump_shows_every_event(cmd, ring, manager, answer);
    log::law_log_keeps_the_latest_events(events);
    let entries = old(ring)@.entries;
    assert(entries.len() == events.len() - gone);
    assert forall|k: int| 1 <= k <= events.len() - gone implies (#[trigger] answer.lines@[k])@
        == spaced(
        line_parts(
            log::Entry { seq: ((gone + k) % 4294967296) as u32, ..events[gone + k - 1] },
        ),
    ) by {
        let at = k - 1;
        assert(answer.lines@[at + 1]@ == spaced(line_parts(entries[at])));
        assert(entries[at] == (log::Entry {
            seq: ((gone + at + 1) % 4294967296) as u32,
            ..events[gone + at]
        }));
    }
}

/// What a call of `handle_cli_command` does to the log and asks of the bus: `clear` empties the log
/// and lets the numbers start again, `reset_i2c` asks for a reset, and nothing else does either.
pub proof fn law_only_clear_empties_the_log(
    cmd: &[u8],
    ring: &mut Ring,
    manager: &StreamManager,
    answer: CliAnswer,
)
    requires
        call_ensures(usb_cli::handle_cli_command, (cmd, ring, manager), answer),
    ensures
        is_word(cmd@, seq!['c', 'l', 'e', 'a', 'r']) ==> {
            &&& final(ring)@.entries.len() == 0
            &&& final(ring)@.seq == 0
            &&& answer.lines@.len() == 1
            &&& answer.lines@[0]@ == "log cleared"@
        },
        !is_word(cmd@, seq!['c', 'l', 'e', 'a', 'r']) ==> final(ring)@ == old(ring)@,
        answer.reset_i2c <==> is_word(cmd@, seq!['r', 'e', 's', 'e', 't', '_', 'i', '2', 'c']),
        answer.reset_i2c ==> answer.lines@.len() == 1 && answer.lines@[0]@ == "i2c reset requested"@,
{
    lemma_words(cmd@);
    let lines = usb_cli::line_views(answer.lines@);
    assert(lines.len() == answer.lines@.len());
    if lines.len() > 0 {
        assert(lines[0] == answer.lines@[0]@);
    }
    if is_word(cmd@, seq!['c', 'l', 'e', 'a', 'r']) {
        assert(lines =~= seq!["log cleared"@]);
    }
    if answer.reset_i2c {
        assert(lines =~= seq!["i2c reset requested"@]);
    }
}

/// What a call of `handle_cli_command` answers to `help`, to words that it does not know, and to
/// bytes that are no text.
pub proof fn law_help_and_refusals(
    cmd: &[u8],
    ring: &mut Ring,
    manager: &StreamManager,
    answer: CliAnswer,
)
    requires
        call_ensures(usb_cli::handle_cli_command, (cmd, ring, manager), answer),
    ensures
        is_word(cmd@, seq!['h', 'e', 'l', 'p']) ==> {
            &&& answer.lines@.len() == 5
            &&& answer.lines@[0]@ == "Commands:"@
            &&& answer.lines@[1]@ == "  dump          -> dump I2C transaction log ring"@
            &&& answer.lines@[2]@ == "  reset_i2c     -> reset RP2040 I2C peripheral"@
            &&& answer.lines@[3]@ == "  clear         -> clear transaction ring"@
            &&& answer.lines@[4]@ == "  stream_status -> show host stream buffer status"@
        },
        !utf8::valid_utf8(cmd@) ==> answer.lines@.len() == 1 && answer.lines@[0]@
            == "ERR invalid UTF-8 command"@,
        utf8::valid_utf8(cmd@) && !is_word(cmd@, seq!['h', 'e', 'l', 'p']) && !is_word(
            cmd@,
            seq!['d', 'u', 'm', 'p'],
        ) && !is_word(cmd@, seq!['c', 'l', 'e', 'a', 'r']) && !is_word(
            cmd@,
            seq!['r', 'e', 's', 'e', 't', '_', 'i', '2', 'c'],
        ) && !is_word(
            cmd@,
            seq!['s', 't', 'r', 'e', 'a', 'm', '_', 's', 't', 'a', 't', 'u', 's'],
        ) ==> answer.lines@.len() == 1 && answer.lines@[0]@ == "ERR unknown command. Try: help"@,
{
    lemma_words(cmd@);
    let lines = usb_cli::line_views(answer.lines@);
    assert(lines.len() == answer.lines@.len());
    assert(forall|k: int| 0 <= k < lines.len() ==> lines[k] == (#[trigger] answer.lines@[k])@);
}

/// The parts of a stream's line: its number, its register, how full it is of 2048 bytes, how much is
/// free, the underruns and the drops, and the last byte that was read, where there is one.
pub open spec fn status_parts(status: HostStreamStatus) -> Seq<Seq<char>> {
    seq![
        "id="@ + text::dec_text(status.stream_id as nat),
        "addr=0x"@ + text::zero_padded(text::hex_text(status.addr as nat), 2),
        "fill="@ + text::dec_text(status.level as nat) + "/2048"@,
        "free="@ + text::dec_text(status.free as nat),
        "underruns="@ + text::dec_text(status.underruns as nat),
        "drops="@ + text::dec_text(status.drops as nat),
        if status.has_last {
            "last=0x"@ + text::zero_padded(text::hex_text(status.last_value as nat), 2)
        } else {
            "last=--"@
        },
    ]
}

proof fn lemma_status_labels()
    ensures
        " "@ == seq![' '],
        " addr=0x"@ == seq![' '] + "addr=0x"@,
        " fill="@ == seq![' '] + "fill="@,
        " free="@ == seq![' '] + "free="@,
        " underruns="@ == seq![' '] + "underruns="@,
        " drops="@ == seq![' '] + "drops="@,
{
    reveal_strlit(" ");
    reveal_strlit(" addr=0x");
    reveal_strlit(" fill=");
    reveal_strlit(" free=");
    reveal_strlit(" underruns=");
    reveal_strlit(" drops=");
    reveal_strlit("addr=0x");
    reveal_strlit("fill=");
    reveal_strlit("free=");
    reveal_strlit("underruns=");
    reveal_strlit("drops=");
    assert(" "@ =~= seq![' ']);
    assert(" addr=0x"@ =~= seq![' '] + "addr=0x"@);
    assert(" fill="@ =~= seq![' '] + "fill="@);
    assert(" free="@ =~= seq![' '] + "free="@);
    assert(" underruns="@ =~= seq![' '] + "underruns="@);
    assert(" drops="@ =~= seq![' '] + "drops="@);
}

proof fn lemma_capacity_text()
    ensures
        "/"@ + text::dec_text(2048) == "/2048"@,
{
    reveal_strlit("/");
    reveal_strlit("/2048");
    reveal_with_fuel(text::dec_text, 5);
    assert("/"@ + text::dec_text(2048) =~= "/2048"@);
}

proof fn lemma_status_text(status: HostStreamStatus)
    ensures
        usb_cli::status_text(status) == spaced(status_parts(status)),
{
    lemma_status_labels();
    lemma_capacity_text();
    let parts = status_parts(status);
    let addr = text::zero_padded(text::hex_text(status.addr as nat), 2);
    let level = text::dec_text(status.level as nat);
    let free = text::dec_text(status.free as nat);
    let underruns = text::dec_text(status.underruns as nat);
    let drops = text::dec_text(status.drops as nat);
    lemma_seven(parts);
    let a = parts[0];
    lemma_labelled(a, " addr=0x"@, "addr=0x"@, addr);
    let b = a + seq![' '] + parts[1];
    lemma_labelled(b, " fill="@, "fill="@, level);
    let c = b + seq![' '] + ("fill="@ + level);
    assert(c + "/"@ + text::dec_text(2048) =~= c + "/2048"@);
    assert(c + "/2048"@ =~= b + seq![' '] + parts[2]);
    let d = b + seq![' '] + parts[2];
    lemma_labelled(d, " free="@, "free="@, free);
    let e = d + seq![' '] + parts[3];
    lemma_labelled(e, " underruns="@, "underruns="@, underruns);
    let f = e + seq![' '] + parts[4];
    lemma_labelled(f, " drops="@, "drops="@, drops);
}

/// A call of `format_status_line` writes the parts of the line with a space between them.
pub proof fn law_status_line_has_its_parts(
    status: &HostStreamStatus,
    line: &mut heapless::String<192>,
)
    requires
        call_ensures(usb_cli::format_status_line, (status, line), ()),
    ensures
        line::line_text(*final(line)) == spaced(status_parts(*status)),
{
    lemma_status_text(*status);
}

/// A status tells of stream `k` what the device holds.
pub open spec fn tells_stream(status: HostStreamStatus, s: streams::Streams, k: int) -> bool {
    &&& status.stream_id == k
    &&& status.addr == s.hosts[k].addr
    &&& status.level == s.hosts[k].queue.len()
    &&& status.free == 2048 - s.hosts[k].queue.len()
    &&& status.underruns == s.hosts[k].underruns as int % 4294967296
    &&& status.drops == s.hosts[k].drops
    &&& status.has_last == s.hosts[k].has_last
    &&& status.last_value == s.hosts[k].last_value
}

/// What a call of `handle_cli_command` answers to `stream_status`: one line for every stream, in
/// their order, that tells what the device holds of it.
pub proof fn law_status_shows_every_stream(
    cmd: &[u8],
    ring: &mut Ring,
    manager: &StreamManager,
    answer: CliAnswer,
    statuses: Seq<HostStreamStatus>,
)
    requires
        call_ensures(usb_cli::handle_cli_command, (cmd, ring, manager), answer),
        manager.wf(),
        is_word(
            cmd@,
            seq!['s', 't', 'r', 'e', 'a', 'm', '_', 's', 't', 'a', 't', 'u', 's'],
        ),
        statuses.len() == manager@.host_count,
        forall|k: int|
            0 <= k < statuses.len() ==> tells_stream(#[trigger] statuses[k], manager@, k),
    ensures
        statuses.len() == 0 ==> answer.lines@.len() == 1 && answer.lines@[0]@
            == "no host_stream registers configured"@,
        statuses.len() > 0 ==> {
            &&& answer.lines@.len() == statuses.len() + 1
            &&& answer.lines@[0]@ == "--- stream status ---"@
            &&& forall|k: int|
                0 <= k < statuses.len() ==> (#[trigger] answer.lines@[k + 1])@ == spaced(
                    status_parts(statuses[k]),
                )
        },
{
    let s = manager@;
    let lines = usb_cli::line_views(answer.lines@);
    lemma_words(cmd@);
    manager.lemma_view_wf();
    assert(lines.len() == answer.lines@.len());
    assert(forall|k: int| 0 <= k < lines.len() ==> lines[k] == (#[trigger] answer.lines@[k])@);
    if statuses.len() > 0 {
        assert(lines.len() == statuses.len() + 1);
        assert(lines[0] == "--- stream status ---"@);
        assert forall|k: int| 0 <= k < statuses.len() implies (#[trigger] answer.lines@[k + 1])@
            == spaced(status_parts(statuses[k])) by {
            assert(tells_stream(statuses[k], s, k));
            assert(streams::status_of(s, k) == statuses[k]);
            lemma_status_text(statuses[k]);
            assert(lines[k + 1] == usb_cli::status_text(streams::status_of(s, k)));
        }
    } else {
        assert(lines[0] == "no host_stream registers configured"@);
    }
}

/// A call of `accept` collects bytes up to a newline or a carriage return, which completes what was
/// typed, if anything was. Of a longer command the first sixty-four bytes are kept.
pub proof fn law_typed_bytes_are_collected(
    buffer: &mut CommandBuffer,
    byte: u8,
    command: Option<Vec<u8>>,
)
    requires
        call_ensures(CommandBuffer::accept, (buffer, byte), command),
    ensures
        byte == 10 || byte == 13 ==> final(buffer)@.len() == 0 && (if old(buffer)@.len() == 0 {
            command is None
        } else {
            command matches Some(typed) && typed@ == old(buffer)@
        }),
        byte != 10 && byte != 13 ==> command is None && final(buffer)@ == if old(buffer)@.len()
            < 64 {
            old(buffer)@.push(byte)
        } else {
            old(buffer)@
        },
{
}

/// A call of `snapshot` copies the newest events, oldest first, as many as there are and as there is
/// room for, and leaves the rest of the room as it was.
pub proof fn law_snapshot_copies_the_newest(ring: &Ring, out: &mut [Event], count: usize)
    requires
        call_ensures(log::snapshot, (ring, out), count),
    ensures
        count == if ring@.entries.len() < old(out)@.len() {
            ring@.entries.len()
        } else {
            old(out)@.len()
        },
        final(out)@.len() == old(out)@.len(),
        forall|k: int|
            0 <= k < count ==> (#[trigger] final(out)@[k])@ == ring@.entries[ring@.entries.len() - count
                + k],
        forall|k: int| count <= k < final(out)@.len() ==> #[trigger] final(out)@[k] == old(out)@[k],
{
}

/// A call of `clear` leaves an empty log whose next event is the first.
pub proof fn law_clear_empties_the_log(ring: &mut Ring)
    requires
        call_ensures(log::clear, (ring,), ()),
    ensures
        final(ring)@.entries.len() == 0,
        final(ring)@.seq == 0,
{
}

/// A call of `record` adds one event under the next number, with the first fifteen bytes of the
/// payload; the oldest of a hundred and twenty-eight events leaves.
pub proof fn law_record_adds_one_event(
    ring: &mut Ring,
    kind: EventKind,
    pointer: u8,
    len: usize,
    status: u8,
    error: u32,
    payload: &[u8],
)
    requires
        call_ensures(log::record, (ring, kind, pointer, len, status, error, payload), ()),
    ensures
        crate::bus_laws::logs_one(
            old(ring)@,
            final(ring)@,
            kind,
            pointer,
            len as int,
            status as int,
            error as int,
            payload@,
        ),
{
    let j = old(ring)@;
    let after = final(ring)@;
    assert(after.entries.drop_last() =~= if j.entries.len() < 128 {
        j.entries
    } else {
        j.entries.drop_first()
    });
}

}
