//! The log of I2C transactions: a ring that keeps the latest ones.
use vstd::prelude::*;
use vstd::utf8;

use crate::line;
use crate::text;

verus! {

/// How many events the log keeps.
pub const RING_CAPACITY: usize = 128;

/// How many payload bytes an event keeps.
pub const DATA_PREVIEW_BYTES: usize = 15;

/// What happened on the bus.
#[derive(Copy, Clone, Debug, PartialEq, Eq, Structural)]
pub enum EventKind {
    Write,
    WriteRead,
    Read,
    GeneralCall,
    ListenError,
    ReadError,
    Reset,
}

/// An entry of the log.
#[derive(Copy, Clone, Debug, PartialEq, Eq)]
pub struct Event {
    pub seq: u32,
    pub kind: EventKind,
    pub pointer: u8,
    pub len: u16,
    pub status: u8,
    pub error: u32,
    pub data_len: u8,
    pub data: [u8; DATA_PREVIEW_BYTES],
}

/// An [`Event`] with its payload bytes as a sequence.
#[verifier::ext_equal]
pub struct Entry {
    pub seq: u32,
    pub kind: EventKind,
    pub pointer: u8,
    pub len: u16,
    pub status: u8,
    pub error: u32,
    pub data_len: u8,
    pub data: Seq<u8>,
}

impl View for Event {
    type V = Entry;

    open spec fn view(&self) -> Entry {
        Entry {
            seq: self.seq,
            kind: self.kind,
            pointer: self.pointer,
            len: self.len,
            status: self.status,
            error: self.error,
            data_len: self.data_len,
            data: self.data@,
        }
    }
}

impl Entry {
    /// The payload bytes are all there.
    pub open spec fn wf(self) -> bool {
        self.data.len() == DATA_PREVIEW_BYTES && self.data_len <= DATA_PREVIEW_BYTES
    }
}

impl Event {
    /// An event that stands for none.
    pub fn empty() -> (event: Self)
        ensures
            event@ == (Entry {
                seq: 0,
                kind: EventKind::Read,
                pointer: 0,
                len: 0,
                status: 0,
                error: 0,
                data_len: 0,
                data: Seq::new(DATA_PREVIEW_BYTES as nat, |i: int| 0u8),
            }),
    {
        let event = Event {
            seq: 0,
            kind: EventKind::Read,
            pointer: 0,
            len: 0,
            status: 0,
            error: 0,
            data_len: 0,
            data: [0u8; 15],
        };
        assert(event@.data =~= Seq::new(DATA_PREVIEW_BYTES as nat, |i: int| 0u8));
        event
    }
}

/// The log.
pub struct Ring {
    entries: [Event; RING_CAPACITY],
    next: usize,
    count: usize,
    seq: u32,
}

/// A [`Ring`] as the sequence of its events, oldest first, and the number of the last event.
#[verifier::ext_equal]
pub struct Journal {
    pub entries: Seq<Entry>,
    pub seq: u32,
}

/// Where the event `i` places behind place `start` stands in the ring.
spec fn ring_index(start: int, i: int) -> int {
    (start + i) % (RING_CAPACITY as int)
}

impl View for Ring {
    type V = Journal;

    closed spec fn view(&self) -> Journal {
        let start = self.next + RING_CAPACITY - self.count;
        Journal {
            entries: Seq::new(
                self.count as nat,
                |i: int| self.entries@[ring_index(start, i)]@,
            ),
            seq: self.seq,
        }
    }
}

/// A log without events.
pub open spec fn empty_journal() -> Journal {
    Journal { entries: Seq::empty(), seq: 0 }
}

/// A log after one more event: it has the next number, and the oldest event leaves a full log.
pub open spec fn pushed(j: Journal, entry: Entry) -> Journal {
    let seq = ((j.seq + 1) % 0x1_0000_0000) as u32;
    let kept = if j.entries.len() < RING_CAPACITY { j.entries } else { j.entries.drop_first() };
    Journal { entries: kept.push(Entry { seq, ..entry }), seq }
}

/// The newest `count` events of a log, oldest first.
pub open spec fn newest(j: Journal, count: nat) -> Seq<Entry> {
    j.entries.skip(j.entries.len() - count)
}

/// How many events of a log fit into `room` places.
pub open spec fn shown_count(j: Journal, room: nat) -> nat {
    if j.entries.len() < room { j.entries.len() } else { room }
}

impl Ring {
    /// The ring's numbers are in range, and so are its events.
    pub closed spec fn wf(self) -> bool {
        &&& self.next < RING_CAPACITY
        &&& self.count <= RING_CAPACITY
        &&& forall|k: int| 0 <= k < RING_CAPACITY ==> (#[trigger] self.entries@[k])@.wf()
    }

    /// A well-formed log holds well-formed events, no more than it has room for.
    pub proof fn lemma_view_wf(self)
        requires
            self.wf(),
        ensures
            self@.entries.len() <= RING_CAPACITY,
            forall|i: int| 0 <= i < self@.entries.len() ==> (#[trigger] self@.entries[i]).wf(),
    {
    }

    /// An empty log.
    pub fn new() -> (ring: Self)
        ensures
            ring.wf(),
            ring@ == empty_journal(),
    {
        let event = Event::empty();
        let ring = Ring { entries: [event; 128], next: 0, count: 0, seq: 0 };
        assert(ring@ =~= empty_journal());
        ring
    }

    /// Appends an event under the next number.
    pub fn push(&mut self, event: Event)
        requires
            old(self).wf(),
            event@.wf(),
        ensures
            final(self).wf(),
            final(self)@ == pushed(old(self)@, event@),
    {
        let ghost before = self@;
        let mut numbered = event;
        self.seq = self.seq.wrapping_add(1);
        numbered.seq = self.seq;
        let next: usize = self.next;
        self.entries[next] = numbered;
        self.next = (next + 1) % RING_CAPACITY;
        if self.count < RING_CAPACITY {
            self.count = self.count + 1;
        }
        assert(self@.entries =~= pushed(before, event@).entries);
    }

    /// Forgets every event, and starts with the first number again.
    pub fn clear(&mut self)
        requires
            old(self).wf(),
        ensures
            final(self).wf(),
            final(self)@ == empty_journal(),
    {
        self.next = 0;
        self.count = 0;
        self.seq = 0;
        assert(self@ =~= empty_journal());
    }
}

/// The event that some payload and numbers make, before it has a number of its own.
pub open spec fn event_of(
    kind: EventKind,
    pointer: u8,
    len: nat,
    status: u8,
    error: u32,
    payload: Seq<u8>,
) -> Entry {
    let shown = if payload.len() < DATA_PREVIEW_BYTES {
        payload.len() as int
    } else {
        DATA_PREVIEW_BYTES as int
    };
    Entry {
        seq: 0,
        kind,
        pointer,
        len: (len % 0x1_0000) as u16,
        status,
        error,
        data_len: shown as u8,
        data: payload.take(shown) + Seq::new((DATA_PREVIEW_BYTES - shown) as nat, |i: int| 0u8),
    }
}

/// Logs an event.
pub fn record(
    ring: &mut Ring,
    kind: EventKind,
    pointer: u8,
    len: usize,
    status: u8,
    error: u32,
    payload: &[u8],
)
    requires
        old(ring).wf(),
    ensures
        final(ring).wf(),
        final(ring)@ == pushed(
            old(ring)@,
            event_of(kind, pointer, len as nat, status, error, payload@),
        ),
{
    let mut data: [u8; 15] = [0u8; 15];
    let copy_len: usize = if payload.len() < DATA_PREVIEW_BYTES {
        payload.len()
    } else {
        DATA_PREVIEW_BYTES
    };
    let mut i: usize = 0;
    while i < copy_len
        invariant
            i <= copy_len <= payload@.len(),
            copy_len <= DATA_PREVIEW_BYTES,
            forall|k: int| 0 <= k < i ==> #[trigger] data@[k] == payload@[k],
            forall|k: int| i <= k < DATA_PREVIEW_BYTES ==> #[trigger] data@[k] == 0,
        decreases copy_len - i,
    {
        data[i] = payload[i];
        i = i + 1;
    }
    assert(len as u16 == len as u64 % 0x1_0000u64) by (bit_vector);
    let event = Event {
        seq: 0,
        kind,
        pointer,
        len: len as u16,
        status,
        error,
        data_len: copy_len as u8,
        data,
    };
    assert(event@ =~= event_of(kind, pointer, len as nat, status, error, payload@));
    ring.push(event);
}

/// Forgets every event.
pub fn clear(ring: &mut Ring)
    requires
        old(ring).wf(),
    ensures
        final(ring).wf(),
        final(ring)@ == empty_journal(),
{
    ring.clear();
}

/// Copies the newest events, oldest first, into `out`, and says how many there are.
pub fn snapshot(ring: &Ring, out: &mut [Event]) -> (count: usize)
    requires
        ring.wf(),
    ensures
        count == shown_count(ring@, old(out)@.len()),
        final(out)@.len() == old(out)@.len(),
        forall|k: int|
            0 <= k < count ==> (#[trigger] final(out)@[k])@ == newest(ring@, count as nat)[k],
        forall|k: int| count <= k < final(out)@.len() ==> #[trigger] final(out)@[k] == old(out)@[k],
{
    let ghost before = out@;
    let count: usize = if ring.count < out.len() { ring.count } else { out.len() };
    let start: usize = (ring.next + RING_CAPACITY - count) % RING_CAPACITY;
    let mut offset: usize = 0;
    while offset < count
        invariant
            offset <= count <= out@.len(),
            count <= ring.count,
            ring.wf(),
            out@.len() == before.len(),
            start == (ring.next + RING_CAPACITY - count) % RING_CAPACITY as int,
            forall|k: int|
                0 <= k < offset ==> (#[trigger] out@[k])@ == newest(ring@, count as nat)[k],
            forall|k: int| offset <= k < out@.len() ==> #[trigger] out@[k] == before[k],
        decreases count - offset,
    {
        let idx: usize = (start + offset) % RING_CAPACITY;
        assert(newest(ring@, count as nat)[offset as int] == ring.entries@[idx as int]@);
        out[offset] = ring.entries[idx];
        offset = offset + 1;
    }
    count
}

/// The name of a kind of event in the log's lines.
pub open spec fn kind_text(kind: EventKind) -> Seq<char> {
    match kind {
        EventKind::Write => "WRITE"@,
        EventKind::WriteRead => "WRRD"@,
        EventKind::Read => "READ"@,
        EventKind::GeneralCall => "GCALL"@,
        EventKind::ListenError => "LERR"@,
        EventKind::ReadError => "RERR"@,
        EventKind::Reset => "RESET"@,
    }
}

/// A byte as two hexadecimal digits.
pub open spec fn hex_byte(b: u8) -> Seq<char> {
    text::zero_padded(text::hex_text(b as nat), 2)
}

/// Bytes as hexadecimal digits with a space between them.
pub open spec fn hex_bytes(bytes: Seq<u8>) -> Seq<char>
    decreases bytes.len(),
{
    if bytes.len() == 0 {
        Seq::empty()
    } else if bytes.len() == 1 {
        hex_byte(bytes[0])
    } else {
        hex_bytes(bytes.drop_last()).push(' ') + hex_byte(bytes.last())
    }
}

/// The line of an event up to its payload.
pub open spec fn event_head(e: Entry) -> Seq<char> {
    "#"@ + text::zero_padded(text::dec_text(e.seq as nat), 5) + " "@ + kind_text(e.kind)
        + " ptr=0x"@ + hex_byte(e.pointer) + " len="@ + text::dec_text(e.len as nat) + " st="@
        + text::dec_text(e.status as nat) + " err=0x"@ + text::zero_padded(
        text::hex_text(e.error as nat),
        8,
    ) + " data="@
}

/// The line of an event.
pub open spec fn event_text(e: Entry) -> Seq<char> {
    event_head(e) + if e.data_len == 0 {
        "-"@
    } else {
        hex_bytes(e.data.take(e.data_len as int))
    }
}

/// How many digits the numbers of an event have at most.
proof fn lemma_number_lengths(seq: u32, len: u16, status: u8, error: u32)
    ensures
        text::dec_text(seq as nat).len() <= 10,
        text::dec_text(len as nat).len() <= 5,
        text::dec_text(status as nat).len() <= 3,
        text::hex_text(error as nat).len() <= 8,
{
    assert(seq < text::dec_limit(10)) by {
        reveal_with_fuel(text::dec_limit, 11);
    }
    assert(len < text::dec_limit(5)) by {
        reveal_with_fuel(text::dec_limit, 6);
    }
    assert(status < text::dec_limit(3)) by {
        reveal_with_fuel(text::dec_limit, 4);
    }
    assert(error < text::hex_limit(8)) by {
        reveal_with_fuel(text::hex_limit, 9);
    }
    text::lemma_dec_text_len(seq as nat, 10);
    text::lemma_dec_text_len(len as nat, 5);
    text::lemma_dec_text_len(status as nat, 3);
    text::lemma_hex_text_len(error as nat, 8);
}

/// A byte has two hexadecimal digits.
pub proof fn lemma_hex_byte_len(b: u8)
    ensures
        hex_byte(b).len() == 2,
{
    assert(b < text::hex_limit(2)) by {
        reveal_with_fuel(text::hex_limit, 3);
    }
    text::lemma_hex_text_len(b as nat, 2);
}

fn kind_name(kind: EventKind) -> (name: &'static str)
    ensures
        name@ == kind_text(kind),
        utf8::is_ascii_chars(name@),
        name@.len() <= 5,
{
    proof {
        reveal_strlit("WRITE");
        reveal_strlit("WRRD");
        reveal_strlit("READ");
        reveal_strlit("GCALL");
        reveal_strlit("LERR");
        reveal_strlit("RERR");
        reveal_strlit("RESET");
    }
    match kind {
        EventKind::Write => "WRITE",
        EventKind::WriteRead => "WRRD",
        EventKind::Read => "READ",
        EventKind::GeneralCall => "GCALL",
        EventKind::ListenError => "LERR",
        EventKind::ReadError => "RERR",
        EventKind::Reset => "RESET",
    }
}

fn put_event_head(event: &Event, line: &mut heapless::String<192>)
    requires
        line::line_text(*old(line)).len() == 0,
    ensures
        line::line_text(*final(line)) == event_head(event@),
        utf8::is_ascii_chars(line::line_text(*final(line))),
        line::line_text(*final(line)).len() <= 64,
{
    proof {
        reveal_strlit("#");
        reveal_strlit(" ");
        reveal_strlit(" ptr=0x");
        reveal_strlit(" len=");
        reveal_strlit(" st=");
        reveal_strlit(" err=0x");
        reveal_strlit(" data=");
        lemma_number_lengths(event.seq, event.len, event.status, event.error);
        lemma_hex_byte_len(event.pointer);
    }
    line::put_str(line, "#");
    assert(line::line_text(*line) =~= "#"@);
    line::put_dec(line, event.seq as u64, 5);
    line::put_str(line, " ");
    line::put_str(line, kind_name(event.kind));
    line::put_str(line, " ptr=0x");
    line::put_hex(line, event.pointer as u64, 2);
    line::put_str(line, " len=");
    line::put_dec(line, event.len as u64, 0);
    line::put_str(line, " st=");
    line::put_dec(line, event.status as u64, 0);
    line::put_str(line, " err=0x");
    line::put_hex(line, event.error as u64, 8);
    line::put_str(line, " data=");
}

/// Writes the line of an event.
pub fn format_event_line(event: &Event, line: &mut heapless::String<192>)
    requires
        event@.wf(),
    ensures
        line::line_text(*final(line)) == event_text(event@),
{
    line::clear_line(line);
    put_event_head(event, line);
    if event.data_len == 0 {
        proof {
            reveal_strlit("-");
        }
        line::put_str(line, "-");
        return;
    }
    let ghost head = event_head(event@);
    let len: usize = event.data_len as usize;
    let mut i: usize = 0;
    assert(line::line_text(*line) =~= head + hex_bytes(event@.data.take(0)));
    while i < len
        invariant
            i <= len,
            len == event.data_len,
            len <= DATA_PREVIEW_BYTES,
            utf8::is_ascii_chars(line::line_text(*line)),
            line::line_text(*line).len() <= 64 + 3 * i,
            line::line_text(*line) == head + hex_bytes(event@.data.take(i as int)),
        decreases len - i,
    {
        let ghost earlier = line::line_text(*line);
        if i != 0 {
            line::put_char(line, ' ');
        }
        line::put_hex(line, event.data[i] as u64, 2);
        proof {
            let some = event@.data.take(i + 1);
            assert(some.drop_last() =~= event@.data.take(i as int));
            lemma_hex_byte_len(event.data@[i as int]);
            assert(line::line_text(*line) =~= head + hex_bytes(some));
        }
        i = i + 1;
    }
}

/// The log after some events, from an empty one on.
pub open spec fn journal_of(events: Seq<Entry>) -> Journal
    decreases events.len(),
{
    if events.len() == 0 {
        empty_journal()
    } else {
        pushed(journal_of(events.drop_last()), events.last())
    }
}

/// The log keeps the latest events in order, numbered from one on in the order in which they came.
pub proof fn law_log_keeps_the_latest_events(events: Seq<Entry>)
    ensures
        ({
            let kept = if events.len() < RING_CAPACITY { events.len() } else { RING_CAPACITY as nat };
            let first = events.len() - kept;
            let j = journal_of(events);
            &&& j.seq as int == events.len() % 0x1_0000_0000
            &&& j.entries == Seq::new(
                kept,
                |i: int|
                    Entry {
                        seq: ((first + i + 1) % 0x1_0000_0000) as u32,
                        ..events[first + i]
                    },
            )
        }),
    decreases events.len(),
{
    if events.len() > 0 {
        let head = events.drop_last();
        law_log_keeps_the_latest_events(head);
        let kept = if events.len() < RING_CAPACITY { events.len() } else { RING_CAPACITY as nat };
        let first = events.len() - kept;
        assert(journal_of(events).entries =~= Seq::new(
            kept,
            |i: int|
                Entry { seq: ((first + i + 1) % 0x1_0000_0000) as u32, ..events[first + i] },
        ));
    } else {
        assert(journal_of(events).entries =~= Seq::new(
            0,
            |i: int| Entry { seq: ((i + 1) % 0x1_0000_0000) as u32, ..events[i] },
        ));
    }
}

}
