//! The sample streams behind registers: cursors into embedded samples, and byte queues that the
//! host feeds.
use vstd::prelude::*;

use crate::device_model::{CsvModeDef, HOST_STREAM_BUFFER_CAPACITY, MAX_HOST_STREAM_REGS};
use crate::model::ModelTables;

verus! {

/// How many streams a status report may hold.
pub const MAX_STATUS_STREAMS: usize = MAX_HOST_STREAM_REGS;

/// Describes any state change caused by reading a register stream value.
#[derive(Copy, Clone, Debug, PartialEq, Eq, Structural)]
pub enum ReadEffect {
    /// Read had no stream-related side effects.
    NoEffect,
    /// Embedded CSV cursor advanced for the given register address.
    EmbeddedAdvance { addr: u8 },
    /// A host stream value was consumed and last-value state was updated.
    HostPop { stream_id: u8, value: u8, prev_has_last: bool, prev_last: u8 },
    /// Register was read while the host stream buffer was empty.
    HostUnderrun { stream_id: u8 },
}

/// What became of bytes that the host sent.
#[derive(Copy, Clone, Debug, PartialEq, Eq, Structural)]
pub struct FeedResult {
    pub accepted: usize,
    pub free: usize,
}

/// Errors that can occur while feeding bytes into a host-backed stream.
#[derive(Copy, Clone, Debug, PartialEq, Eq, Structural)]
pub enum FeedError {
    InvalidStreamId,
}

/// What the host is told of a stream.
#[derive(Copy, Clone, Debug, PartialEq, Eq, Structural)]
pub struct HostStreamDescriptor {
    pub stream_id: u8,
    pub addr: u8,
    pub capacity: u16,
}

/// The state of a stream, for a status report.
#[derive(Copy, Clone, Debug, PartialEq, Eq, Structural)]
pub struct HostStreamStatus {
    pub stream_id: u8,
    pub addr: u8,
    pub level: usize,
    pub free: usize,
    pub underruns: u32,
    pub drops: u32,
    pub has_last: bool,
    pub last_value: u8,
}

/// A stream that the host feeds: a queue of bytes in a ring buffer, and counters.
#[derive(Copy, Clone)]
pub struct HostStreamState {
    addr: u8,
    buf: [u8; HOST_STREAM_BUFFER_CAPACITY],
    head: usize,
    len: usize,
    has_last: bool,
    last_value: u8,
    /// Every underrun since the last reset; a report shows its low part.
    underruns: u64,
    drops: u32,
}

/// A [`HostStreamState`] with its queue as a sequence, oldest byte first.
#[verifier::ext_equal]
pub struct HostStream {
    pub addr: u8,
    pub queue: Seq<u8>,
    pub has_last: bool,
    pub last_value: u8,
    /// Every underrun since the last reset; a report shows its low part.
    pub underruns: u64,
    pub drops: u32,
}

/// An empty stream for a register.
pub open spec fn empty_stream(addr: u8) -> HostStream {
    HostStream {
        addr,
        queue: Seq::empty(),
        has_last: false,
        last_value: 0,
        underruns: 0,
        drops: 0,
    }
}

/// Where the byte `i` places behind `head` stands in the ring.
spec fn ring_index(head: int, i: int) -> int {
    if head + i < HOST_STREAM_BUFFER_CAPACITY {
        head + i
    } else {
        head + i - HOST_STREAM_BUFFER_CAPACITY
    }
}

impl View for HostStreamState {
    type V = HostStream;

    closed spec fn view(&self) -> HostStream {
        HostStream {
            addr: self.addr,
            queue: Seq::new(self.len as nat, |i: int| self.buf@[ring_index(self.head as int, i)]),
            has_last: self.has_last,
            last_value: self.last_value,
            underruns: self.underruns,
            drops: self.drops,
        }
    }
}

impl HostStreamState {
    /// The ring's numbers are in range.
    pub closed spec fn wf(self) -> bool {
        &&& self.head < HOST_STREAM_BUFFER_CAPACITY
        &&& self.len <= HOST_STREAM_BUFFER_CAPACITY
    }

    /// The queue is no longer than its buffer.
    pub proof fn lemma_queue_fits(self)
        requires
            self.wf(),
        ensures
            self@.queue.len() <= HOST_STREAM_BUFFER_CAPACITY,
    {
    }

    /// Creates an empty stream state with placeholder address metadata.
    pub fn empty() -> (s: Self)
        ensures
            s.wf(),
            s@ == empty_stream(0xFF),
    {
        let s = HostStreamState {
            addr: 0xFF,
            buf: [0u8; 2048],
            head: 0,
            len: 0,
            has_last: false,
            last_value: 0,
            underruns: 0,
            drops: 0,
        };
        assert(s@ =~= empty_stream(0xFF));
        s
    }

    /// Reinitializes stream contents and counters for a specific register address.
    pub fn reset_with_addr(&mut self, addr: u8)
        ensures
            final(self).wf(),
            final(self)@ == empty_stream(addr),
    {
        self.addr = addr;
        self.head = 0;
        self.len = 0;
        self.has_last = false;
        self.last_value = 0;
        self.underruns = 0;
        self.drops = 0;
        assert(self@ =~= empty_stream(addr));
    }

    /// Pops and returns the oldest queued byte, if one is available.
    pub fn pop_front(&mut self) -> (popped: Option<u8>)
        requires
            old(self).wf(),
        ensures
            final(self).wf(),
            match popped {
                Some(value) => {
                    &&& old(self)@.queue.len() > 0
                    &&& value == old(self)@.queue[0]
                    &&& final(self)@ == (HostStream {
                        queue: old(self)@.queue.drop_first(),
                        ..old(self)@
                    })
                },
                None => old(self)@.queue.len() == 0 && final(self)@ == old(self)@,
            },
    {
        if self.len == 0 {
            return None;
        }
        let ghost before = self@;
        let value: u8 = self.buf[self.head];
        self.head = (self.head + 1) % HOST_STREAM_BUFFER_CAPACITY;
        self.len = self.len - 1;
        assert(self@ =~= HostStream { queue: before.queue.drop_first(), ..before });
        Some(value)
    }

    /// Appends as much input data as possible and returns accepted byte count.
    pub fn push_back(&mut self, data: &[u8]) -> (accepted: usize)
        requires
            old(self).wf(),
        ensures
            final(self).wf(),
            accepted == accepted_count(old(self)@, data@.len()),
            final(self)@ == (HostStream {
                queue: old(self)@.queue + data@.take(accepted as int),
                ..old(self)@
            }),
    {
        let ghost before = self@;
        let free: usize = HOST_STREAM_BUFFER_CAPACITY - self.len;
        let accepted: usize = if data.len() < free { data.len() } else { free };
        let mut i: usize = 0;
        assert(before.queue + data@.take(0) =~= before.queue);
        while i < accepted
            invariant
                i <= accepted <= data.len(),
                self.wf(),
                self.len + (accepted - i) <= HOST_STREAM_BUFFER_CAPACITY,
                self@ == (HostStream { queue: before.queue + data@.take(i as int), ..before }),
            decreases accepted - i,
        {
            let ghost earlier = self@;
            let tail: usize = (self.head + self.len) % HOST_STREAM_BUFFER_CAPACITY;
            self.buf[tail] = data[i];
            self.len = self.len + 1;
            proof {
                assert(self@.queue =~= earlier.queue.push(data@[i as int]));
                assert(data@.take(i + 1) =~= data@.take(i as int).push(data@[i as int]));
                assert(self@ =~= HostStream {
                    queue: before.queue + data@.take(i + 1),
                    ..before
                });
            }
            i = i + 1;
        }
        accepted
    }

    /// Restores one byte to the front of the queue when capacity allows.
    pub fn push_front_one(&mut self, value: u8)
        requires
            old(self).wf(),
        ensures
            final(self).wf(),
            final(self)@ == with_front(old(self)@, value),
    {
        if self.len >= HOST_STREAM_BUFFER_CAPACITY {
            return;
        }
        let ghost before = self@;
        self.head = if self.head == 0 { HOST_STREAM_BUFFER_CAPACITY - 1 } else { self.head - 1 };
        let head: usize = self.head;
        self.buf[head] = value;
        self.len = self.len + 1;
        assert(self@.queue =~= seq![value] + before.queue);
    }

    /// Returns the number of currently buffered bytes.
    pub fn level(&self) -> (level: usize)
        ensures
            level == self@.queue.len(),
    {
        self.len
    }

    /// Returns remaining queue capacity in bytes.
    pub fn free(&self) -> (free: usize)
        requires
            self.wf(),
        ensures
            free == HOST_STREAM_BUFFER_CAPACITY - self@.queue.len(),
    {
        HOST_STREAM_BUFFER_CAPACITY - self.len
    }
}

/// How many of `count` further bytes a stream takes.
pub open spec fn accepted_count(s: HostStream, count: nat) -> nat {
    let free = (HOST_STREAM_BUFFER_CAPACITY - s.queue.len()) as nat;
    if count < free { count } else { free }
}

/// A stream with one more byte at the front, where there is room for it.
pub open spec fn with_front(s: HostStream, value: u8) -> HostStream {
    if s.queue.len() >= HOST_STREAM_BUFFER_CAPACITY {
        s
    } else {
        HostStream { queue: seq![value] + s.queue, ..s }
    }
}

/// The streams of a device.
pub struct StreamManager {
    embedded_cursor: [u32; 256],
    host: [HostStreamState; MAX_HOST_STREAM_REGS],
    host_count: usize,
}

/// A [`StreamManager`] with its queues as sequences.
#[verifier::ext_equal]
pub struct Streams {
    /// For every address the place of the next embedded sample.
    pub cursors: Seq<u32>,
    /// The host-fed streams, by stream number.
    pub hosts: Seq<HostStream>,
    /// How many of the host-fed streams are in use.
    pub host_count: nat,
}

impl Streams {
    /// Everything is there, and no queue is longer than its buffer.
    pub open spec fn wf(self) -> bool {
        &&& self.cursors.len() == 256
        &&& self.hosts.len() == MAX_HOST_STREAM_REGS
        &&& self.host_count <= MAX_HOST_STREAM_REGS
        &&& forall|k: int|
            0 <= k < self.hosts.len() ==> (#[trigger] self.hosts[k]).queue.len()
                <= HOST_STREAM_BUFFER_CAPACITY
    }
}

impl View for StreamManager {
    type V = Streams;

    closed spec fn view(&self) -> Streams {
        Streams {
            cursors: self.embedded_cursor@,
            hosts: self.host@.map_values(|h: HostStreamState| h@),
            host_count: self.host_count as nat,
        }
    }
}

/// All cursors at the first sample.
pub open spec fn no_cursors() -> Seq<u32> {
    Seq::new(256, |a: int| 0u32)
}

/// The streams before the model is known.
pub open spec fn no_streams() -> Streams {
    Streams {
        cursors: no_cursors(),
        hosts: Seq::new(MAX_HOST_STREAM_REGS as nat, |k: int| empty_stream(0xFF)),
        host_count: 0,
    }
}

/// How many host-fed streams a model has, as far as there is room for them.
pub open spec fn model_host_count(tables: ModelTables) -> nat {
    if tables.host_stream_addrs@.len() < MAX_HOST_STREAM_REGS {
        tables.host_stream_addrs@.len()
    } else {
        MAX_HOST_STREAM_REGS as nat
    }
}

/// The empty streams of a model.
pub open spec fn model_streams(tables: ModelTables) -> Streams {
    Streams {
        cursors: no_cursors(),
        hosts: Seq::new(
            MAX_HOST_STREAM_REGS as nat,
            |k: int|
                empty_stream(
                    if k < model_host_count(tables) {
                        tables.host_stream_addrs@[k]
                    } else {
                        0xFF
                    },
                ),
        ),
        host_count: model_host_count(tables),
    }
}

/// The streams in use emptied, all cursors at the first sample.
pub open spec fn reset_streams(s: Streams) -> Streams {
    Streams {
        cursors: no_cursors(),
        hosts: Seq::new(
            s.hosts.len(),
            |k: int| if k < s.host_count { empty_stream(s.hosts[k].addr) } else { s.hosts[k] },
        ),
        host_count: s.host_count,
    }
}

/// What a read gives, what it did to the streams, and the streams after it.
pub struct ReadStep {
    pub value: u8,
    pub effect: ReadEffect,
    pub after: Streams,
}

/// A read that leaves the streams as they are.
pub open spec fn plain_read(s: Streams, value: u8) -> ReadStep {
    ReadStep { value, effect: ReadEffect::NoEffect, after: s }
}

/// A read of the embedded samples `data` at an address.
pub open spec fn embedded_read(s: Streams, addr: u8, data: Seq<u8>) -> ReadStep {
    let cursor = s.cursors[addr as int] as int % data.len() as int;
    ReadStep {
        value: data[cursor],
        effect: ReadEffect::EmbeddedAdvance { addr },
        after: Streams {
            cursors: s.cursors.update(addr as int, ((cursor + 1) % data.len() as int) as u32),
            ..s
        },
    }
}

/// The number of underruns that a report shows: it starts again from zero behind its largest value.
pub open spec fn reported_underruns(underruns: u64) -> u32 {
    (underruns % 0x1_0000_0000) as u32
}

/// A number of underruns after one more. Behind the largest number the part that a report shows
/// starts again from zero.
pub open spec fn one_more_underrun(underruns: u64) -> u64 {
    if underruns == u64::MAX {
        0xffff_ffff_0000_0000
    } else {
        (underruns + 1) as u64
    }
}

/// A read of the host-fed stream `id`.
pub open spec fn host_read(s: Streams, id: int, fallback: u8) -> ReadStep {
    let stream = s.hosts[id];
    if stream.queue.len() > 0 {
        let value = stream.queue[0];
        ReadStep {
            value,
            effect: ReadEffect::HostPop {
                stream_id: id as u8,
                value,
                prev_has_last: stream.has_last,
                prev_last: stream.last_value,
            },
            after: Streams {
                hosts: s.hosts.update(
                    id,
                    HostStream {
                        queue: stream.queue.drop_first(),
                        has_last: true,
                        last_value: value,
                        ..stream
                    },
                ),
                ..s
            },
        }
    } else {
        ReadStep {
            value: if stream.has_last { stream.last_value } else { fallback },
            effect: ReadEffect::HostUnderrun { stream_id: id as u8 },
            after: Streams {
                hosts: s.hosts.update(
                    id,
                    HostStream {
                        underruns: one_more_underrun(stream.underruns),
                        ..stream
                    },
                ),
                ..s
            },
        }
    }
}

/// A read of the register at an address whose own value is `fallback`.
pub open spec fn read_step(s: Streams, tables: ModelTables, addr: u8, fallback: u8) -> ReadStep {
    let csv = tables.csv_index_by_addr@[addr as int];
    if csv < 0 {
        plain_read(s, fallback)
    } else {
        let register = tables.csv_registers@[csv as int];
        match register.mode {
            CsvModeDef::Embedded => {
                if register.data@.len() == 0 {
                    plain_read(s, fallback)
                } else {
                    embedded_read(s, addr, register.data@)
                }
            },
            CsvModeDef::HostStream => {
                let id = tables.host_stream_index_by_addr@[addr as int];
                if id < 0 {
                    plain_read(s, fallback)
                } else {
                    host_read(s, id as int, fallback)
                }
            },
        }
    }
}

/// The cursor before the one given, over `len` samples.
pub open spec fn cursor_before(cursor: u32, len: nat) -> u32 {
    let at = cursor as int % len as int;
    if at == 0 { (len - 1) as u32 } else { (at - 1) as u32 }
}

/// The streams with one effect of a read taken back.
pub open spec fn rolled_back(s: Streams, tables: ModelTables, effect: ReadEffect) -> Streams {
    match effect {
        ReadEffect::NoEffect => s,
        ReadEffect::EmbeddedAdvance { addr } => {
            let csv = tables.csv_index_by_addr@[addr as int];
            if csv < 0 || tables.csv_registers@[csv as int].data@.len() == 0 {
                s
            } else {
                let len = tables.csv_registers@[csv as int].data@.len();
                Streams {
                    cursors: s.cursors.update(
                        addr as int,
                        cursor_before(s.cursors[addr as int], len),
                    ),
                    ..s
                }
            }
        },
        ReadEffect::HostPop { stream_id, value, prev_has_last, prev_last } => {
            if stream_id >= s.host_count {
                s
            } else {
                let stream = with_front(s.hosts[stream_id as int], value);
                Streams {
                    hosts: s.hosts.update(
                        stream_id as int,
                        HostStream { has_last: prev_has_last, last_value: prev_last, ..stream },
                    ),
                    ..s
                }
            }
        },
        ReadEffect::HostUnderrun { stream_id } => {
            if stream_id >= s.host_count {
                s
            } else {
                let stream = s.hosts[stream_id as int];
                let underruns = if stream.underruns == 0 { 0 } else { stream.underruns - 1 };
                Streams {
                    hosts: s.hosts.update(
                        stream_id as int,
                        HostStream { underruns: underruns as u64, ..stream },
                    ),
                    ..s
                }
            }
        },
    }
}

/// A stream after bytes were fed to it: what does not fit is dropped and counted.
pub open spec fn fed_stream(s: HostStream, data: Seq<u8>) -> HostStream {
    let accepted = accepted_count(s, data.len());
    HostStream {
        queue: s.queue + data.take(accepted as int),
        drops: ((s.drops + (data.len() - accepted)) % 0x1_0000_0000) as u32,
        ..s
    }
}

/// The streams after bytes were fed to one of them.
pub open spec fn fed(s: Streams, stream_id: u8, data: Seq<u8>) -> Streams {
    if stream_id >= s.host_count {
        s
    } else {
        Streams {
            hosts: s.hosts.update(
                stream_id as int,
                fed_stream(s.hosts[stream_id as int], data),
            ),
            ..s
        }
    }
}

/// What feeding a stream is answered.
pub open spec fn feed_result(s: Streams, stream_id: u8, data: Seq<u8>) -> Result<
    FeedResult,
    FeedError,
> {
    if stream_id >= s.host_count {
        Err(FeedError::InvalidStreamId)
    } else {
        let stream = s.hosts[stream_id as int];
        let accepted = accepted_count(stream, data.len());
        Ok(
            FeedResult {
                accepted: accepted as usize,
                free: (HOST_STREAM_BUFFER_CAPACITY - stream.queue.len() - accepted) as usize,
            },
        )
    }
}

/// What the host is told of stream `k`.
pub open spec fn descriptor_of(s: Streams, k: int) -> HostStreamDescriptor {
    HostStreamDescriptor {
        stream_id: k as u8,
        addr: s.hosts[k].addr,
        capacity: HOST_STREAM_BUFFER_CAPACITY as u16,
    }
}

/// The status of stream `k`.
pub open spec fn status_of(s: Streams, k: int) -> HostStreamStatus {
    let stream = s.hosts[k];
    HostStreamStatus {
        stream_id: k as u8,
        addr: stream.addr,
        level: stream.queue.len() as usize,
        free: (HOST_STREAM_BUFFER_CAPACITY - stream.queue.len()) as usize,
        underruns: reported_underruns(stream.underruns),
        drops: stream.drops,
        has_last: stream.has_last,
        last_value: stream.last_value,
    }
}

/// How many of the streams in use fit into `room` places.
pub open spec fn reported_count(s: Streams, room: nat) -> nat {
    if s.host_count < room { s.host_count } else { room }
}

impl StreamManager {
    /// The host-fed streams are well-formed, and those in use are there.
    pub closed spec fn wf(self) -> bool {
        &&& self.host_count <= MAX_HOST_STREAM_REGS
        &&& forall|k: int| 0 <= k < self.host@.len() ==> (#[trigger] self.host@[k]).wf()
    }

    /// A well-formed manager has a well-formed view.
    pub proof fn lemma_view_wf(self)
        requires
            self.wf(),
        ensures
            self@.wf(),
    {
        assert forall|k: int| 0 <= k < self@.hosts.len() implies (#[trigger] self@.hosts[k]).queue.len()
            <= HOST_STREAM_BUFFER_CAPACITY by {
            assert(self.host@[k].wf());
        }
    }

    /// Builds a stream manager with cleared cursors and empty host streams.
    pub fn new() -> (manager: Self)
        ensures
            manager.wf(),
            manager@ == no_streams(),
    {
        let stream = HostStreamState::empty();
        let manager = StreamManager {
            embedded_cursor: [0u32; 256],
            host: [stream; 9],
            host_count: 0,
        };
        assert(manager@ =~= no_streams());
        manager
    }

    /// Initializes stream routing from model tables and resets all stream state.
    pub fn init_from_model(&mut self, tables: &ModelTables)
        ensures
            final(self).wf(),
            final(self)@ == model_streams(*tables),
    {
        self.embedded_cursor = [0u32; 256];
        let configured: usize = tables.host_stream_addrs.len();
        let count: usize = if configured < MAX_HOST_STREAM_REGS {
            configured
        } else {
            MAX_HOST_STREAM_REGS
        };
        self.host_count = count;
        let mut idx: usize = 0;
        while idx < MAX_HOST_STREAM_REGS
            invariant
                idx <= MAX_HOST_STREAM_REGS,
                count == model_host_count(*tables),
                self.host_count == count,
                self.embedded_cursor@ =~= no_cursors(),
                forall|k: int| 0 <= k < idx ==> (#[trigger] self.host@[k]).wf(),
                forall|k: int|
                    0 <= k < idx ==> (#[trigger] self.host@[k])@ == model_streams(*tables).hosts[k],
            decreases MAX_HOST_STREAM_REGS - idx,
        {
            let addr: u8 = if idx < count { tables.host_stream_addrs[idx] } else { 0xFF };
            self.host[idx].reset_with_addr(addr);
            idx = idx + 1;
        }
        assert(self@ =~= model_streams(*tables));
    }

    /// Clears cursors and buffered data while preserving configured host addresses.
    pub fn reset_all(&mut self)
        requires
            old(self).wf(),
        ensures
            final(self).wf(),
            final(self)@ == reset_streams(old(self)@),
    {
        let ghost before = self@;
        self.embedded_cursor = [0u32; 256];
        let mut idx: usize = 0;
        while idx < self.host_count
            invariant
                idx <= self.host_count,
                self.wf(),
                self.embedded_cursor@ =~= no_cursors(),
                self.host_count == before.host_count,
                before.hosts.len() == MAX_HOST_STREAM_REGS,
                forall|k: int|
                    0 <= k < idx ==> (#[trigger] self.host@[k])@ == empty_stream(before.hosts[k].addr),
                forall|k: int|
                    idx <= k < MAX_HOST_STREAM_REGS ==> (#[trigger] self.host@[k])@
                        == before.hosts[k],
            decreases self.host_count - idx,
        {
            let addr: u8 = self.host[idx].addr;
            self.host[idx].reset_with_addr(addr);
            idx = idx + 1;
        }
        assert(self@ =~= reset_streams(before));
    }

    /// Reads the next value for a register and records how state was affected.
    pub fn read_for_register(&mut self, tables: &ModelTables, addr: u8, fallback: u8) -> (read: (
        u8,
        ReadEffect,
    ))
        requires
            old(self).wf(),
            tables.wf(),
        ensures
            final(self).wf(),
            (ReadStep { value: read.0, effect: read.1, after: final(self)@ }) == read_step(
                old(self)@,
                *tables,
                addr,
                fallback,
            ),
    {
        let ghost before = self@;
        let ghost step = read_step(before, *tables, addr, fallback);
        let at: usize = addr as usize;
        let csv_idx: i16 = tables.csv_index_by_addr[at];
        assert(tables.csv_index_by_addr@[at as int] < tables.csv_registers@.len());
        if csv_idx < 0 {
            return (fallback, ReadEffect::NoEffect);
        }
        let register = &tables.csv_registers[csv_idx as usize];
        match register.mode {
            CsvModeDef::Embedded => {
                if register.data.len() == 0 {
                    return (fallback, ReadEffect::NoEffect);
                }
                let len: u32 = register.data.len() as u32;
                let cursor: u32 = self.embedded_cursor[at] % len;
                let value: u8 = register.data[cursor as usize];
                let next: u32 = if cursor + 1 == len { 0 } else { cursor + 1 };
                self.embedded_cursor[at] = next;
                proof {
                    if cursor + 1 == len {
                        vstd::arithmetic::div_mod::lemma_mod_self_0(len as int);
                    } else {
                        vstd::arithmetic::div_mod::lemma_small_mod((cursor + 1) as nat, len as nat);
                    }
                    assert(self@ =~= step.after);
                }
                (value, ReadEffect::EmbeddedAdvance { addr })
            },
            CsvModeDef::HostStream => {
                let host_idx: i16 = tables.host_stream_index_by_addr[at];
                assert(tables.host_stream_index_by_addr@[at as int]
                    < tables.host_stream_addrs@.len());
                if host_idx < 0 {
                    return (fallback, ReadEffect::NoEffect);
                }
                let id: usize = host_idx as usize;
                assert(self.host@[id as int].wf());
                let prev_has_last: bool = self.host[id].has_last;
                let prev_last: u8 = self.host[id].last_value;
                match self.host[id].pop_front() {
                    Some(value) => {
                        self.host[id].has_last = true;
                        self.host[id].last_value = value;
                        assert(self@.hosts =~= step.after.hosts);
                        (
                            value,
                            ReadEffect::HostPop {
                                stream_id: id as u8,
                                value,
                                prev_has_last,
                                prev_last,
                            },
                        )
                    },
                    None => {
                        let underruns: u64 = self.host[id].underruns;
                        self.host[id].underruns = if underruns == u64::MAX {
                            0xffff_ffff_0000_0000
                        } else {
                            underruns + 1
                        };
                        assert(self@.hosts =~= step.after.hosts);
                        let value: u8 = if prev_has_last { prev_last } else { fallback };
                        (value, ReadEffect::HostUnderrun { stream_id: id as u8 })
                    },
                }
            },
        }
    }

    /// Reverts a previously returned `ReadEffect` to undo speculative reads.
    pub fn rollback_effect(&mut self, tables: &ModelTables, effect: ReadEffect)
        requires
            old(self).wf(),
            tables.wf(),
        ensures
            final(self).wf(),
            final(self)@ == rolled_back(old(self)@, *tables, effect),
    {
        let ghost after = rolled_back(self@, *tables, effect);
        match effect {
            ReadEffect::NoEffect => {},
            ReadEffect::EmbeddedAdvance { addr } => {
                let at: usize = addr as usize;
                let csv_idx: i16 = tables.csv_index_by_addr[at];
                assert(tables.csv_index_by_addr@[at as int] < tables.csv_registers@.len());
                if csv_idx < 0 {
                    return;
                }
                let register = &tables.csv_registers[csv_idx as usize];
                if register.data.len() == 0 {
                    return;
                }
                let len: u32 = register.data.len() as u32;
                let cursor: u32 = self.embedded_cursor[at] % len;
                self.embedded_cursor[at] = if cursor == 0 { len - 1 } else { cursor - 1 };
                assert(self@ =~= after);
            },
            ReadEffect::HostPop { stream_id, value, prev_has_last, prev_last } => {
                let idx: usize = stream_id as usize;
                if idx >= self.host_count {
                    return;
                }
                assert(self.host@[idx as int].wf());
                self.host[idx].push_front_one(value);
                self.host[idx].has_last = prev_has_last;
                self.host[idx].last_value = prev_last;
                assert(self@.hosts =~= after.hosts);
            },
            ReadEffect::HostUnderrun { stream_id } => {
                let idx: usize = stream_id as usize;
                if idx >= self.host_count {
                    return;
                }
                assert(self.host@[idx as int].wf());
                let underruns: u64 = self.host[idx].underruns;
                self.host[idx].underruns = underruns.saturating_sub(1);
                assert(self@.hosts =~= after.hosts);
            },
        }
    }

    /// Feeds host stream data and reports accepted bytes and remaining capacity.
    pub fn feed(&mut self, stream_id: u8, data: &[u8]) -> (result: Result<FeedResult, FeedError>)
        requires
            old(self).wf(),
        ensures
            final(self).wf(),
            final(self)@ == fed(old(self)@, stream_id, data@),
            result == feed_result(old(self)@, stream_id, data@),
    {
        let ghost after = fed(self@, stream_id, data@);
        let idx: usize = stream_id as usize;
        if idx >= self.host_count {
            return Err(FeedError::InvalidStreamId);
        }
        assert(self.host@[idx as int].wf());
        let accepted: usize = self.host[idx].push_back(data);
        let dropped: usize = data.len() - accepted;
        if dropped > 0 {
            let drops: u32 = self.host[idx].drops;
            assert(dropped as u32 == dropped as u64 % 0x1_0000_0000u64) by (bit_vector);
            self.host[idx].drops = drops.wrapping_add(dropped as u32);
        }
        assert(self@.hosts =~= after.hosts);
        let free: usize = self.host[idx].free();
        Ok(FeedResult { accepted, free })
    }

    /// Writes stream descriptors into `out` and returns number of entries written.
    pub fn descriptors(&self, out: &mut [HostStreamDescriptor]) -> (count: usize)
        requires
            self.wf(),
        ensures
            count == reported_count(self@, old(out)@.len()),
            final(out)@ == Seq::new(
                old(out)@.len(),
                |k: int| if k < count { descriptor_of(self@, k) } else { old(out)@[k] },
            ),
    {
        let ghost before = out@;
        let count: usize = if self.host_count < out.len() { self.host_count } else { out.len() };
        let mut idx: usize = 0;
        while idx < count
            invariant
                idx <= count <= out@.len(),
                count <= self.host_count,
                self.wf(),
                out@.len() == before.len(),
                forall|k: int| 0 <= k < idx ==> #[trigger] out@[k] == descriptor_of(self@, k),
                forall|k: int| idx <= k < out@.len() ==> #[trigger] out@[k] == before[k],
            decreases count - idx,
        {
            out[idx] = HostStreamDescriptor {
                stream_id: idx as u8,
                addr: self.host[idx].addr,
                capacity: HOST_STREAM_BUFFER_CAPACITY as u16,
            };
            idx = idx + 1;
        }
        count
    }

    /// Writes current stream status snapshots into `out` and returns count written.
    pub fn statuses(&self, out: &mut [HostStreamStatus]) -> (count: usize)
        requires
            self.wf(),
        ensures
            count == reported_count(self@, old(out)@.len()),
            final(out)@ == Seq::new(
                old(out)@.len(),
                |k: int| if k < count { status_of(self@, k) } else { old(out)@[k] },
            ),
    {
        let ghost before = out@;
        let count: usize = if self.host_count < out.len() { self.host_count } else { out.len() };
        let mut idx: usize = 0;
        while idx < count
            invariant
                idx <= count <= out@.len(),
                count <= self.host_count,
                self.wf(),
                out@.len() == before.len(),
                forall|k: int| 0 <= k < idx ==> #[trigger] out@[k] == status_of(self@, k),
                forall|k: int| idx <= k < out@.len() ==> #[trigger] out@[k] == before[k],
            decreases count - idx,
        {
            let stream = &self.host[idx];
            assert(self.host@[idx as int].wf());
            let underruns: u64 = stream.underruns;
            assert(underruns as u32 == underruns % 0x1_0000_0000) by (bit_vector);
            out[idx] = HostStreamStatus {
                stream_id: idx as u8,
                addr: stream.addr,
                level: stream.level(),
                free: stream.free(),
                underruns: underruns as u32,
                drops: stream.drops,
                has_last: stream.has_last,
                last_value: stream.last_value,
            };
            idx = idx + 1;
        }
        count
    }
}

}
