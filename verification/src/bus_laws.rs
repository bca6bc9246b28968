//! What the bus master sees of the device.
use vstd::prelude::*;

use crate::i2c_service;
use crate::i2c_service::{BusAction, BusEvent, I2cError, ReadOutcome, ReadSession};
use crate::log;
use crate::log::{EventKind, Ring};
use crate::model::ModelTables;
use crate::regfile;
use crate::regfile::{RegisterFile, Registers};
use crate::regfile_laws;
use crate::stream_laws;
use crate::streams;
use crate::streams::StreamManager;

verus! {

/// A write of `len` bytes, with or without a read behind it.
pub open spec fn writes(event: BusEvent, len: int) -> bool {
    event == (BusEvent::Write { len: len as usize }) || event == (BusEvent::WriteRead {
        len: len as usize,
    })
}

/// The address that byte `i` of a write goes to, whose first byte is `first`.
pub open spec fn write_addr(first: u8, auto_increment: bool, i: int) -> int {
    if auto_increment { (first + i - 1) % 256 } else { first as int }
}

/// A write of at least one byte, whether a read follows it or not, points the device to the address
/// that the first byte gives, moved on by one for each further byte where the device does that.
pub proof fn law_write_sets_the_pointer(
    f: Registers,
    tables: ModelTables,
    event: BusEvent,
    buffer: Seq<u8>,
    len: int,
)
    requires
        1 <= len <= buffer.len() <= usize::MAX,
        writes(event, len),
    ensures
        i2c_service::registers_after(f, tables, event, buffer).pointer as int == if tables.auto_increment {
            (buffer[0] + len - 1) % 256
        } else {
            buffer[0] as int
        },
{
    let payload = buffer.take(len).drop_first();
    regfile_laws::law_writes_move_the_pointer(
        Registers { pointer: buffer[0], ..f },
        tables.auto_increment,
        payload,
    );
}

/// An address alone changes no register: with or without a read behind it, a write of one byte only
/// points the device to that address.
pub proof fn law_address_alone_changes_no_register(
    f: Registers,
    tables: ModelTables,
    event: BusEvent,
    buffer: Seq<u8>,
)
    requires
        1 <= buffer.len() <= usize::MAX,
        writes(event, 1),
    ensures
        ({
            let after = i2c_service::registers_after(f, tables, event, buffer);
            &&& after.pointer == buffer[0]
            &&& after.regs == f.regs
            &&& after.writable == f.writable
        }),
{
    assert(buffer.take(1).drop_first().len() == 0);
}

/// Behind the address come the bytes for the registers from there on: where such a byte goes to a
/// register that can be written, and no later byte goes there too, the register holds it.
pub proof fn law_written_byte_is_in_its_register(
    f: Registers,
    tables: ModelTables,
    event: BusEvent,
    buffer: Seq<u8>,
    len: int,
    i: int,
)
    requires
        f.wf(),
        1 <= i < len <= buffer.len() <= usize::MAX,
        writes(event, len),
        f.writable[write_addr(buffer[0], tables.auto_increment, i)],
        forall|j: int|
            i < j < len ==> #[trigger] write_addr(buffer[0], tables.auto_increment, j) != write_addr(
                buffer[0],
                tables.auto_increment,
                i,
            ),
    ensures
        i2c_service::registers_after(f, tables, event, buffer).regs[write_addr(
            buffer[0],
            tables.auto_increment,
            i,
        )] == buffer[i],
{
    let payload = buffer.take(len).drop_first();
    let from = Registers { pointer: buffer[0], ..f };
    assert(payload[i - 1] == buffer[i]);
    assert forall|j: int| i - 1 < j < payload.len() implies #[trigger] write_addr(
        buffer[0],
        tables.auto_increment,
        j + 1,
    ) != write_addr(buffer[0], tables.auto_increment, i) by {}
    lemma_written_value(from, tables.auto_increment, payload, i - 1);
}

pub proof fn lemma_written_value(f: Registers, auto_increment: bool, payload: Seq<u8>, k: int)
    requires
        f.wf(),
        0 <= k < payload.len(),
        f.writable[write_addr(f.pointer, auto_increment, k + 1)],
        forall|j: int|
            k < j < payload.len() ==> #[trigger] write_addr(f.pointer, auto_increment, j + 1)
                != write_addr(f.pointer, auto_increment, k + 1),
    ensures
        regfile::written(f, auto_increment, payload).regs[write_addr(
            f.pointer,
            auto_increment,
            k + 1,
        )] == payload[k],
    decreases payload.len(),
{
    let head = payload.drop_last();
    let at = write_addr(f.pointer, auto_increment, k + 1);
    regfile_laws::law_read_only_registers_keep_their_values(f, auto_increment, head, at);
    regfile_laws::law_writes_move_the_pointer(f, auto_increment, head);
    assert(regfile::written(f, auto_increment, head).pointer == write_addr(
        f.pointer,
        auto_increment,
        head.len() as int + 1,
    ));
    if k < head.len() {
        lemma_written_value(f, auto_increment, head, k);
    }
}

/// Nothing else changes a register: a register that cannot be written keeps its value, and so does
/// one that no byte behind the address goes to; and no event changes which can be written.
pub proof fn law_other_registers_keep_their_values(
    f: Registers,
    tables: ModelTables,
    event: BusEvent,
    buffer: Seq<u8>,
    addr: int,
)
    requires
        f.wf(),
        buffer.len() <= usize::MAX,
        i2c_service::is_in_buffer(event, buffer),
        0 <= addr < 256,
        !f.writable[addr] || forall|len: int, i: int|
            1 <= i < len && #[trigger] writes(event, len) && len <= buffer.len()
                ==> #[trigger] write_addr(buffer[0], tables.auto_increment, i) != addr,
    ensures
        ({
            let after = i2c_service::registers_after(f, tables, event, buffer);
            &&& after.wf()
            &&& after.writable == f.writable
            &&& after.regs[addr] == f.regs[addr]
        }),
{
    let len = match event {
        BusEvent::Write { len } => len as int,
        BusEvent::WriteRead { len } => len as int,
        _ => 0,
    };
    if len > 0 {
        let payload = buffer.take(len).drop_first();
        let from = Registers { pointer: buffer[0], ..f };
        regfile_laws::law_read_only_registers_keep_their_values(
            from,
            tables.auto_increment,
            payload,
            addr,
        );
        if f.writable[addr] {
            assert(writes(event, len));
            assert forall|k: int| 0 <= k < payload.len() implies #[trigger] write_addr(
                buffer[0],
                tables.auto_increment,
                k + 1,
            ) != addr by {}
            lemma_not_written(from, tables.auto_increment, payload, addr);
        }
    }
}

pub proof fn lemma_not_written(f: Registers, auto_increment: bool, payload: Seq<u8>, addr: int)
    requires
        f.wf(),
        0 <= addr < 256,
        forall|k: int|
            0 <= k < payload.len() ==> #[trigger] write_addr(f.pointer, auto_increment, k + 1)
                != addr,
    ensures
        regfile::written(f, auto_increment, payload).regs[addr] == f.regs[addr],
    decreases payload.len(),
{
    if payload.len() > 0 {
        let head = payload.drop_last();
        lemma_not_written(f, auto_increment, head, addr);
        regfile_laws::law_read_only_registers_keep_their_values(f, auto_increment, head, addr);
        regfile_laws::law_writes_move_the_pointer(f, auto_increment, head);
        assert(write_addr(f.pointer, auto_increment, (payload.len() - 1) + 1) != addr);
    }
}

/// Only a write moves the pointer, and an empty one does not.
pub proof fn law_other_events_leave_the_registers(
    f: Registers,
    tables: ModelTables,
    event: BusEvent,
    buffer: Seq<u8>,
)
    requires
        match event {
            BusEvent::Write { len } => len == 0,
            BusEvent::WriteRead { len } => len == 0,
            _ => true,
        },
    ensures
        i2c_service::registers_after(f, tables, event, buffer) == f,
{
}

/// The address that the `i`th byte of a read comes from.
pub open spec fn read_addr(pointer: u8, auto_increment: bool, i: int) -> int {
    if auto_increment { (pointer + i) % 256 } else { pointer as int }
}

/// A read gives one byte after the other from the pointer on: where a register has no CSV source, it
/// gives the value of that register; the pointer ends behind the last byte.
pub proof fn law_read_gives_the_registers(
    f: Registers,
    s: streams::Streams,
    tables: ModelTables,
    count: nat,
)
    ensures
        ({
            let run = regfile::read_run(f, s, tables, count);
            &&& run.values.len() == count
            &&& run.effects.len() == count
            &&& run.pointer as int == read_addr(f.pointer, tables.auto_increment, count as int)
            &&& forall|i: int|
                0 <= i < count && tables.csv_index_by_addr@[read_addr(
                    f.pointer,
                    tables.auto_increment,
                    i,
                )] < 0 ==> #[trigger] run.values[i] == f.regs[read_addr(
                    f.pointer,
                    tables.auto_increment,
                    i,
                )]
        }),
    decreases count,
{
    if count > 0 {
        let before = (count - 1) as nat;
        law_read_gives_the_registers(f, s, tables, before);
        let earlier = regfile::read_run(f, s, tables, before);
        let run = regfile::read_run(f, s, tables, count);
        assert forall|i: int|
            0 <= i < count && tables.csv_index_by_addr@[read_addr(
                f.pointer,
                tables.auto_increment,
                i,
            )] < 0 implies #[trigger] run.values[i] == f.regs[read_addr(
            f.pointer,
            tables.auto_increment,
            i,
        )] by {
            if i < before {
                assert(run.values[i] == earlier.values[i]);
            }
        }
    }
}

/// Reads are one after the other: a longer one is a shorter one and one more read of the streams at
/// the address that the pointer has come to.
pub proof fn law_read_goes_on(f: Registers, s: streams::Streams, tables: ModelTables, count: nat)
    ensures
        ({
            let run = regfile::read_run(f, s, tables, count);
            let longer = regfile::read_run(f, s, tables, count + 1);
            let step = streams::read_step(
                run.streams,
                tables,
                run.pointer,
                f.regs[run.pointer as int],
            );
            &&& longer.values == run.values.push(step.value)
            &&& longer.effects == run.effects.push(step.effect)
            &&& longer.streams == step.after
            &&& regfile::read_run(f, s, tables, 0).streams == s
        }),
{
}

/// The usual register read: the bus master writes an address and reads by repeated start. The first
/// byte that it reads is the value at that address, where no CSV source stands behind it.
pub proof fn law_addressed_register_is_read(
    f: Registers,
    s: streams::Streams,
    tables: ModelTables,
    buffer: Seq<u8>,
    count: nat,
)
    requires
        1 <= buffer.len() <= usize::MAX,
        count > 0,
        tables.csv_index_by_addr@[buffer[0] as int] < 0,
    ensures
        ({
            let event = BusEvent::WriteRead { len: 1 };
            let after = i2c_service::registers_after(f, tables, event, buffer);
            &&& i2c_service::next_action(event) == (BusAction::ServeRead {
                kind: EventKind::WriteRead,
            })
            &&& regfile::read_run(after, s, tables, count).values[0] == f.regs[buffer[0] as int]
        }),
{
    let event = BusEvent::WriteRead { len: 1 };
    let after = i2c_service::registers_after(f, tables, event, buffer);
    law_address_alone_changes_no_register(f, tables, event, buffer);
    law_read_gives_the_registers(after, s, tables, count);
}

/// What the device does after an event: it serves reads, resets the bus when asked to, and listens
/// again after everything else.
pub proof fn law_reads_are_served(event: BusEvent)
    ensures
        i2c_service::next_action(event) == (BusAction::ServeRead { kind: EventKind::Read }) <==> event
            is Read,
        i2c_service::next_action(event) == (BusAction::ServeRead { kind: EventKind::WriteRead })
            <==> event is WriteRead,
        i2c_service::next_action(event) is ServeRead <==> event is Read || event is WriteRead,
        i2c_service::next_action(event) is ResetPeripheral <==> event is ResetRequested,
{
}

/// How many of the bytes behind the address go to registers that can be written.
pub open spec fn writable_bytes(f: Registers, auto_increment: bool, first: u8, len: int) -> nat
    decreases len,
{
    if len <= 1 {
        0
    } else {
        writable_bytes(f, auto_increment, first, len - 1) + if f.writable[write_addr(
            first,
            auto_increment,
            len - 1,
        )] {
            1nat
        } else {
            0nat
        }
    }
}

pub proof fn lemma_accepted(f: Registers, auto_increment: bool, payload: Seq<u8>)
    requires
        f.wf(),
    ensures
        regfile::accepted_writes(f, auto_increment, payload) == writable_bytes(
            f,
            auto_increment,
            f.pointer,
            payload.len() as int + 1,
        ),
        regfile::accepted_writes(f, auto_increment, payload) <= payload.len(),
    decreases payload.len(),
{
    if payload.len() > 0 {
        let head = payload.drop_last();
        lemma_accepted(f, auto_increment, head);
        regfile_laws::law_writes_move_the_pointer(f, auto_increment, head);
        regfile_laws::law_read_only_registers_keep_their_values(f, auto_increment, head, 0);
    }
}

/// An entry of the log that shows some bytes.
pub open spec fn entry_shows(
    entry: log::Entry,
    kind: EventKind,
    pointer: u8,
    len: int,
    status: int,
    error: int,
    data: Seq<u8>,
) -> bool {
    let shown = if data.len() < 15 { data.len() } else { 15 };
    &&& entry.kind == kind
    &&& entry.pointer == pointer
    &&& entry.len == len % 65536
    &&& entry.status == status
    &&& entry.error == error
    &&& entry.data_len == shown
    &&& entry.data.len() == 15
    &&& forall|i: int| 0 <= i < shown ==> #[trigger] entry.data[i] == data[i]
}

/// A write is logged under its address, with the bytes behind it and how many of them registers
/// took; an empty one under the pointer.
pub proof fn law_write_is_logged(f: Registers, tables: ModelTables, len: int, buffer: Seq<u8>)
    requires
        f.wf(),
        0 <= len <= buffer.len() <= usize::MAX,
    ensures
        ({
            let logged = i2c_service::logged_event(
                f,
                tables,
                BusEvent::Write { len: len as usize },
                buffer,
            );
            &&& logged is Some
            &&& len == 0 ==> entry_shows(
                logged->0,
                EventKind::Write,
                f.pointer,
                0,
                0,
                0,
                Seq::empty(),
            )
            &&& len > 0 ==> entry_shows(
                logged->0,
                EventKind::Write,
                buffer[0],
                len - 1,
                writable_bytes(f, tables.auto_increment, buffer[0], len) as int % 256,
                0,
                buffer.subrange(1, len),
            )
        }),
{
    if len > 0 {
        let from = Registers { pointer: buffer[0], ..f };
        lemma_accepted(from, tables.auto_increment, buffer.subrange(1, len));
        lemma_same_writable(f, from, tables.auto_increment, buffer[0], len);
    }
}

proof fn lemma_same_writable(a: Registers, b: Registers, auto_increment: bool, first: u8, len: int)
    requires
        a.writable == b.writable,
    ensures
        writable_bytes(a, auto_increment, first, len) == writable_bytes(b, auto_increment, first, len),
    decreases len,
{
    if len > 1 {
        lemma_same_writable(a, b, auto_increment, first, len - 1);
    }
}

/// A reset, a general call and a failure to listen are logged under the pointer; reads are logged
/// only when they end.
pub proof fn law_other_events_are_logged(
    f: Registers,
    tables: ModelTables,
    buffer: Seq<u8>,
    len: usize,
    error: I2cError,
)
    requires
        buffer.len() <= usize::MAX,
    ensures
        i2c_service::logged_event(f, tables, BusEvent::Read, buffer) is None,
        i2c_service::logged_event(f, tables, BusEvent::WriteRead { len }, buffer) is None,
        i2c_service::logged_event(f, tables, BusEvent::ResetRequested, buffer) matches Some(e)
            && entry_shows(e, EventKind::Reset, f.pointer, 0, 0, 0, Seq::empty()),
        i2c_service::logged_event(f, tables, BusEvent::GeneralCall { len }, buffer) matches Some(e)
            && entry_shows(
            e,
            EventKind::GeneralCall,
            f.pointer,
            len as int,
            0,
            0,
            if len < buffer.len() {
                buffer.take(len as int)
            } else {
                buffer
            },
        ),
        i2c_service::logged_event(f, tables, BusEvent::Failed { error }, buffer) matches Some(e)
            && entry_shows(
            e,
            EventKind::ListenError,
            f.pointer,
            0,
            0,
            i2c_service::error_code(error) as int,
            Seq::empty(),
        ),
{
}

/// The first eight of some bytes.
pub open spec fn first_eight(bytes: Seq<u8>) -> Seq<u8> {
    if bytes.len() < 8 { bytes } else { bytes.take(8) }
}

/// A read of `n` bytes is logged once, when it ends: under the address that it began at, with the
/// number of bytes that the bus master took and the first of them. Where the bus master left some,
/// they are not counted, and their number is noted.
pub proof fn law_read_is_logged(
    f: Registers,
    s: streams::Streams,
    tables: ModelTables,
    kind: EventKind,
    n: nat,
    left: u16,
    error: I2cError,
)
    ensures
        ({
            let session = i2c_service::session_after(f, s, tables, kind, n);
            let values = regfile::read_run(f, s, tables, n).values;
            let taken = if left < n { n - left } else { 0 };
            &&& i2c_service::closing_event(session, ReadOutcome::NeedMoreBytes) is None
            &&& i2c_service::closing_event(session, ReadOutcome::Done) matches Some(e)
                && entry_shows(e, kind, f.pointer, n as int, 0, 0, first_eight(values))
            &&& i2c_service::closing_event(
                session,
                ReadOutcome::LeftoverBytes { count: left },
            ) matches Some(e) && entry_shows(
                e,
                kind,
                f.pointer,
                taken,
                1,
                left as int,
                first_eight(values.take(taken)),
            )
            &&& i2c_service::closing_event(session, ReadOutcome::Failed { error }) matches Some(e)
                && entry_shows(
                e,
                EventKind::ReadError,
                f.pointer,
                n as int,
                0,
                i2c_service::error_code(error) as int,
                first_eight(values),
            )
        }),
{
    let session = i2c_service::session_after(f, s, tables, kind, n);
    let values = regfile::read_run(f, s, tables, n).values;
    let taken = if left < n { n - left } else { 0 };
    i2c_service::law_chunks_make_one_read(f, s, tables, kind, n);
    regfile_laws::lemma_run_lengths(f, s, tables, n);
    assert(session.preview =~= first_eight(values));
    let shown = if taken < session.preview.len() {
        session.preview.take(taken)
    } else {
        session.preview
    };
    assert(shown =~= first_eight(values.take(taken)));
}

/// Bytes that the bus master leaves move the pointer back by their number; nothing else does at the
/// end of a read.
pub proof fn law_left_bytes_move_the_pointer_back(pointer: u8, tables: ModelTables, outcome: ReadOutcome)
    ensures
        i2c_service::closing_pointer(pointer, tables, outcome) as int == match outcome {
            ReadOutcome::LeftoverBytes { count } if tables.auto_increment => (pointer - count) % 256,
            _ => pointer as int,
        },
{
}

/// A chunk of a read is one byte.
pub proof fn law_chunks_are_single_bytes()
    ensures
        i2c_service::I2C_READ_CHUNK == 1,
        log::RING_CAPACITY == 128,
{
}

/// The codes of errors in the log: a mark of the kind, and the number of the error beside it.
pub proof fn law_error_codes(error: I2cError)
    requires
        i2c_service::has_small_numbers(error),
    ensures
        i2c_service::error_code(error) as int == match error {
            I2cError::Abort { reason: i2c_service::AbortReason::NoAcknowledge } => 4097,
            I2cError::Abort { reason: i2c_service::AbortReason::ArbitrationLoss } => 4098,
            I2cError::Abort { reason: i2c_service::AbortReason::TxNotEmpty { left } } => 4864 + left,
            I2cError::Abort { reason: i2c_service::AbortReason::Other { bits } } => 5120 + bits as int
                % 256,
            I2cError::InvalidResponseBufferLength => 8192,
            I2cError::PartialWrite { len } => 12288 + len,
            I2cError::PartialGeneralCall { len } => 16384 + len,
            I2cError::Unknown => 65535,
        },
{
    i2c_service::lemma_code_parts(error);
}

/// The journal has one more event than before, which shows some bytes under the next number; what it
/// held before is still there, but for the oldest of a hundred and twenty-eight.
pub open spec fn logs_one(
    before: log::Journal,
    after: log::Journal,
    kind: EventKind,
    pointer: u8,
    len: int,
    status: int,
    error: int,
    data: Seq<u8>,
) -> bool {
    &&& after.seq == (before.seq + 1) % 4294967296
    &&& after.entries.len() > 0
    &&& after.entries.last().seq == after.seq
    &&& entry_shows(after.entries.last(), kind, pointer, len, status, error, data)
    &&& after.entries.drop_last() == if before.entries.len() < 128 {
        before.entries
    } else {
        before.entries.drop_first()
    }
}

proof fn lemma_logs_one(
    j: log::Journal,
    entry: log::Entry,
    kind: EventKind,
    pointer: u8,
    len: int,
    status: int,
    error: int,
    data: Seq<u8>,
)
    requires
        entry_shows(entry, kind, pointer, len, status, error, data),
    ensures
        logs_one(
            j,
            i2c_service::logged(j, Some(entry)),
            kind,
            pointer,
            len,
            status,
            error,
            data,
        ),
{
    let after = i2c_service::logged(j, Some(entry));
    assert(after.entries.drop_last() =~= if j.entries.len() < 128 {
        j.entries
    } else {
        j.entries.drop_first()
    });
}

/// What a call of `on_event` does with a write of at least one byte: the device points to the first
/// byte, moved on by one for each further one; a further byte is in the register that it went to,
/// where that can be written and no later byte went there; every other register keeps its value. With
/// a read behind it, the read is served; without, the write is logged.
pub proof fn law_on_event_takes_writes(
    file: &mut RegisterFile,
    ring: &mut Ring,
    tables: &ModelTables,
    event: BusEvent,
    buffer: &[u8],
    action: BusAction,
    len: int,
)
    requires
        call_ensures(i2c_service::on_event, (file, ring, tables, event, buffer), action),
        1 <= len <= buffer@.len() <= usize::MAX,
        writes(event, len),
    ensures
        final(file)@.pointer as int == if tables.auto_increment {
            (buffer@[0] + len - 1) % 256
        } else {
            buffer@[0] as int
        },
        forall|i: int|
            1 <= i < len && old(file)@.writable[write_addr(buffer@[0], tables.auto_increment, i)] && (
            forall|j: int|
                i < j < len ==> #[trigger] write_addr(buffer@[0], tables.auto_increment, j)
                    != write_addr(buffer@[0], tables.auto_increment, i)) ==> final(file)@.regs[write_addr(buffer@[0], tables.auto_increment, i)] == #[trigger] buffer@[i],
        forall|addr: int|
            0 <= addr < 256 && (!old(file)@.writable[addr] || forall|i: int|
                1 <= i < len ==> #[trigger] write_addr(buffer@[0], tables.auto_increment, i)
                    != addr) ==> #[trigger] final(file)@.regs[addr] == old(file)@.regs[addr],
        final(file)@.writable == old(file)@.writable,
        len == 1 ==> final(file)@.regs == old(file)@.regs,
        event is WriteRead ==> action == (BusAction::ServeRead { kind: EventKind::WriteRead })
            && final(ring)@ == old(ring)@,
        event is Write ==> action == BusAction::Listen && logs_one(
            old(ring)@,
            final(ring)@,
            EventKind::Write,
            buffer@[0],
            len - 1,
            writable_bytes(old(file)@, tables.auto_increment, buffer@[0], len) as int % 256,
            0,
            buffer@.subrange(1, len),
        ),
{
    let f = old(file)@;
    let bytes = buffer@;
    let inc = tables.auto_increment;
    RegisterFile::lemma_view_wf(*old(file));
    law_write_sets_the_pointer(f, *tables, event, bytes, len);
    assert forall|i: int|
        1 <= i < len && f.writable[write_addr(bytes[0], inc, i)] && (forall|j: int|
            i < j < len ==> #[trigger] write_addr(bytes[0], inc, j) != write_addr(bytes[0], inc, i))
        implies final(file)@.regs[write_addr(bytes[0], inc, i)] == #[trigger] bytes[i] by {
        law_written_byte_is_in_its_register(f, *tables, event, bytes, len, i);
    }
    assert forall|addr: int|
        0 <= addr < 256 && (!f.writable[addr] || forall|i: int|
            1 <= i < len ==> #[trigger] write_addr(bytes[0], inc, i) != addr) implies #[trigger] final(file)@.regs[addr] == f.regs[addr] by {
        law_other_registers_keep_their_values(f, *tables, event, bytes, addr);
    }
    lemma_same_access(f, *tables, event, bytes);
    if len == 1 {
        law_address_alone_changes_no_register(f, *tables, event, bytes);
    }
    if event is Write {
        law_write_is_logged(f, *tables, len, bytes);
        let entry = i2c_service::logged_event(f, *tables, event, bytes)->0;
        lemma_logs_one(
            old(ring)@,
            entry,
            EventKind::Write,
            bytes[0],
            len - 1,
            writable_bytes(f, inc, bytes[0], len) as int % 256,
            0,
            bytes.subrange(1, len),
        );
    }
}

proof fn lemma_same_access(f: Registers, tables: ModelTables, event: BusEvent, buffer: Seq<u8>)
    requires
        f.wf(),
    ensures
        i2c_service::registers_after(f, tables, event, buffer).writable == f.writable,
{
    let len = match event {
        BusEvent::Write { len } => len as int,
        BusEvent::WriteRead { len } => len as int,
        _ => 0,
    };
    if len > 0 {
        let bytes = buffer.take(len);
        regfile_laws::law_read_only_registers_keep_their_values(
            Registers { pointer: bytes[0], ..f },
            tables.auto_increment,
            bytes.drop_first(),
            0,
        );
    }
}

/// What a call of `on_event` does with everything but a write of bytes: the registers stay as they
/// are. Reads are served and logged later; a reset, an empty write, a general call and a failure are
/// logged under the pointer.
pub proof fn law_on_event_leaves_the_registers(
    file: &mut RegisterFile,
    ring: &mut Ring,
    tables: &ModelTables,
    event: BusEvent,
    buffer: &[u8],
    action: BusAction,
)
    requires
        call_ensures(i2c_service::on_event, (file, ring, tables, event, buffer), action),
        buffer@.len() <= usize::MAX,
        match event {
            BusEvent::Write { len } => len == 0,
            BusEvent::WriteRead { len } => len == 0,
            _ => true,
        },
    ensures
        final(file)@ == old(file)@,
        match event {
            BusEvent::Read => {
                &&& action == (BusAction::ServeRead { kind: EventKind::Read })
                &&& final(ring)@ == old(ring)@
            },
            BusEvent::WriteRead { .. } => {
                &&& action == (BusAction::ServeRead { kind: EventKind::WriteRead })
                &&& final(ring)@ == old(ring)@
            },
            BusEvent::ResetRequested => {
                &&& action == BusAction::ResetPeripheral
                &&& logs_one(
                    old(ring)@,
                    final(ring)@,
                    EventKind::Reset,
                    old(file)@.pointer,
                    0,
                    0,
                    0,
                    Seq::empty(),
                )
            },
            BusEvent::Write { .. } => {
                &&& action == BusAction::Listen
                &&& logs_one(
                    old(ring)@,
                    final(ring)@,
                    EventKind::Write,
                    old(file)@.pointer,
                    0,
                    0,
                    0,
                    Seq::empty(),
                )
            },
            BusEvent::GeneralCall { len } => {
                &&& action == BusAction::Listen
                &&& logs_one(
                    old(ring)@,
                    final(ring)@,
                    EventKind::GeneralCall,
                    old(file)@.pointer,
                    len as int,
                    0,
                    0,
                    if len < buffer@.len() {
                        buffer@.take(len as int)
                    } else {
                        buffer@
                    },
                )
            },
            BusEvent::Failed { error } => {
                &&& action == BusAction::Listen
                &&& logs_one(
                    old(ring)@,
                    final(ring)@,
                    EventKind::ListenError,
                    old(file)@.pointer,
                    0,
                    0,
                    i2c_service::error_code(error) as int,
                    Seq::empty(),
                )
            },
        },
{
    let f = old(file)@;
    RegisterFile::lemma_view_wf(*old(file));
    let len = match event {
        BusEvent::GeneralCall { len } => len,
        _ => 0,
    };
    let error = match event {
        BusEvent::Failed { error } => error,
        _ => I2cError::Unknown,
    };
    law_other_events_are_logged(f, *tables, buffer@, len, error);
    law_write_is_logged(f, *tables, 0, buffer@);
    if let Some(e) = i2c_service::logged_event(f, *tables, event, buffer@) {
        let data = match event {
            BusEvent::GeneralCall { len } => if len < buffer@.len() {
                buffer@.take(len as int)
            } else {
                buffer@
            },
            _ => Seq::empty(),
        };
        lemma_logs_one(
            old(ring)@,
            e,
            e.kind,
            f.pointer,
            len as int,
            0,
            e.error as int,
            data,
        );
    }
}

/// What calls of `next_chunk` and `on_outcome` do to the registers, the streams and the log, after
/// `n` bytes of a read that began with the registers `f` and the streams `s`: the next byte is handed
/// to the bus, and at the end the read is logged as one.
pub proof fn law_next_chunk_reads_on(
    session: &mut ReadSession,
    file: &mut RegisterFile,
    tables: &ModelTables,
    manager: &mut StreamManager,
    tx: [u8; 1],
    f: Registers,
    s: streams::Streams,
    kind: EventKind,
    n: nat,
)
    requires
        call_ensures(ReadSession::next_chunk, (session, file, tables, manager), tx),
        old(session)@ == i2c_service::session_after(f, s, *tables, kind, n),
        old(file)@ == (Registers { pointer: regfile::read_run(f, s, *tables, n).pointer, ..f }),
        old(manager)@ == regfile::read_run(f, s, *tables, n).streams,
    ensures
        ({
            let at = read_addr(f.pointer, tables.auto_increment, n as int);
            let step = streams::read_step(old(manager)@, *tables, at as u8, f.regs[at]);
            let longer = regfile::read_run(f, s, *tables, n + 1);
            &&& tx@ == seq![step.value]
            &&& tables.csv_index_by_addr@[at] < 0 ==> tx@ == seq![f.regs[at]]
            &&& longer.values == regfile::read_run(f, s, *tables, n).values + tx@
            &&& final(file)@ == (Registers { pointer: longer.pointer, ..f })
            &&& final(file)@.pointer == read_addr(f.pointer, tables.auto_increment, n as int + 1)
            &&& final(manager)@ == step.after
            &&& final(session)@ == i2c_service::session_after(f, s, *tables, kind, n + 1)
        }),
{
    let run = regfile::read_run(f, s, *tables, n);
    let moved = Registers { pointer: run.pointer, ..f };
    law_read_gives_the_registers(f, s, *tables, n);
    law_read_gives_the_registers(f, s, *tables, n + 1);
    law_read_gives_the_registers(moved, run.streams, *tables, 1);
    law_read_goes_on(moved, run.streams, *tables, 0);
    law_read_goes_on(f, s, *tables, n);
    i2c_service::law_chunks_make_one_read(f, s, *tables, kind, n);
    let chunk = i2c_service::chunk_after(f, s, *tables, n);
    let step = streams::read_step(run.streams, *tables, run.pointer, f.regs[run.pointer as int]);
    assert(regfile::read_run(moved, run.streams, *tables, 0).values =~= Seq::empty());
    assert(chunk.values =~= seq![step.value]);
}

/// What a call of `on_outcome` does after `n` bytes of a read: the read goes on, or it is logged
/// under its first address with the bytes that the bus master took, and what the bus master left is
/// still to be read.
pub proof fn law_on_outcome_ends_the_read(
    session: &mut ReadSession,
    file: &mut RegisterFile,
    tables: &ModelTables,
    manager: &mut StreamManager,
    ring: &mut Ring,
    outcome: ReadOutcome,
    more: bool,
    f: Registers,
    s: streams::Streams,
    kind: EventKind,
    n: nat,
)
    requires
        call_ensures(
            ReadSession::on_outcome,
            (session, file, tables, manager, ring, outcome),
            more,
        ),
        old(session)@ == i2c_service::session_after(f, s, *tables, kind, n),
    ensures
        ({
            let values = regfile::read_run(f, s, *tables, n).values;
            let before = old(ring)@;
            let after = final(ring)@;
            match outcome {
                ReadOutcome::NeedMoreBytes => {
                    &&& more
                    &&& after == before
                    &&& final(file)@ == old(file)@
                    &&& final(manager)@ == old(manager)@
                    &&& final(session)@ == old(session)@
                },
                ReadOutcome::Done => {
                    &&& !more
                    &&& final(file)@ == old(file)@
                    &&& final(manager)@ == old(manager)@
                    &&& logs_one(
                        before,
                        after,
                        kind,
                        f.pointer,
                        n as int,
                        0,
                        0,
                        first_eight(values),
                    )
                },
                ReadOutcome::LeftoverBytes { count } => {
                    &&& !more
                    &&& final(file)@.regs == old(file)@.regs
                    &&& final(file)@.writable == old(file)@.writable
                    &&& final(file)@.pointer as int == if tables.auto_increment {
                        (old(file)@.pointer - count) % 256
                    } else {
                        old(file)@.pointer as int
                    }
                    &&& logs_one(
                        before,
                        after,
                        kind,
                        f.pointer,
                        if count < n { n - count } else { 0 },
                        1,
                        count as int,
                        first_eight(values.take(if count < n { n - count } else { 0 })),
                    )
                },
                ReadOutcome::Failed { error } => {
                    &&& !more
                    &&& final(file)@ == old(file)@
                    &&& final(manager)@ == old(manager)@
                    &&& logs_one(
                        before,
                        after,
                        EventKind::ReadError,
                        f.pointer,
                        n as int,
                        0,
                        i2c_service::error_code(error) as int,
                        first_eight(values),
                    )
                },
            }
        }),
{
    let values = regfile::read_run(f, s, *tables, n).values;
    let left = match outcome {
        ReadOutcome::LeftoverBytes { count } => count,
        _ => 0,
    };
    let error = match outcome {
        ReadOutcome::Failed { error } => error,
        _ => I2cError::Unknown,
    };
    law_read_is_logged(f, s, *tables, kind, n, left, error);
    regfile_laws::lemma_run_lengths(f, s, *tables, n);
    assert(values.take(n as int) =~= values);
    if let Some(e) = i2c_service::closing_event(old(session)@, outcome) {
        let taken = if left < n { n - left } else { 0 };
        lemma_logs_one(
            old(ring)@,
            e,
            e.kind,
            f.pointer,
            taken,
            e.status as int,
            e.error as int,
            first_eight(values.take(taken)),
        );
    }
}

/// A read starts at the pointer with nothing handed to the bus.
pub proof fn law_session_starts_at_the_pointer(
    file: &RegisterFile,
    kind: EventKind,
    session: ReadSession,
    s: streams::Streams,
    tables: ModelTables,
)
    requires
        call_ensures(ReadSession::start, (file, kind), session),
    ensures
        session@ == i2c_service::session_after(file@, s, tables, kind, 0),
        session@.pointer == file@.pointer,
        session@.kind == kind,
        session@.total == 0,
        session@.preview.len() == 0,
{
}

/// A byte that the bus master leaves at the end of a read of `n` bytes is still to be read: pointer
/// and streams are those of the read without it. (What no report shows of an underrun counter may be
/// less only where the largest number that is kept was reached.)
pub proof fn law_left_byte_is_still_to_be_read(
    session: &mut ReadSession,
    file: &mut RegisterFile,
    tables: &ModelTables,
    manager: &mut StreamManager,
    ring: &mut Ring,
    more: bool,
    f: Registers,
    s: streams::Streams,
    kind: EventKind,
    n: nat,
)
    requires
        call_ensures(
            ReadSession::on_outcome,
            (session, file, tables, manager, ring, ReadOutcome::LeftoverBytes { count: 1 }),
            more,
        ),
        tables.wf(),
        stream_laws::fit(s, *tables),
        n > 0,
        old(session)@ == i2c_service::session_after(f, s, *tables, kind, n),
        old(file)@ == (Registers { pointer: regfile::read_run(f, s, *tables, n).pointer, ..f }),
        old(manager)@ == regfile::read_run(f, s, *tables, n).streams,
    ensures
        ({
            let shorter = regfile::read_run(f, s, *tables, (n - 1) as nat);
            &&& final(file)@ == (Registers { pointer: shorter.pointer, ..f })
            &&& stream_laws::as_reported(final(manager)@) == stream_laws::as_reported(
                shorter.streams,
            )
            &&& !stream_laws::counter_wraps(shorter.streams, *tables, shorter.pointer) ==> final(manager)@ == shorter.streams
        }),
{
    let all = regfile::read_run(f, s, *tables, n);
    let shorter = regfile::read_run(f, s, *tables, (n - 1) as nat);
    let before = (n - 1) as nat;
    let chunk = i2c_service::chunk_after(f, s, *tables, before);
    let moved = Registers { pointer: shorter.pointer, ..f };
    law_read_gives_the_registers(f, s, *tables, n);
    law_read_gives_the_registers(f, s, *tables, before);
    law_read_goes_on(moved, shorter.streams, *tables, 0);
    law_read_goes_on(f, s, *tables, before);
    assert(regfile::read_run(moved, shorter.streams, *tables, 0).effects =~= Seq::empty());
    assert(chunk.effects =~= seq![all.effects.last()]);
    assert(regfile::last_effects(chunk.effects, 1) == chunk.effects);
    regfile_laws::lemma_rollback_undoes_last(f, s, *tables, n);
    let back = streams::rolled_back(all.streams, *tables, all.effects.last());
    assert(chunk.effects.drop_last() =~= Seq::empty());
    assert(regfile::all_rolled_back(back, *tables, chunk.effects.drop_last()) == back);
    assert(regfile::all_rolled_back(all.streams, *tables, chunk.effects) == back);
}

/// A call of `encode_i2c_error` gives a mark of the kind of the error, and beside it the number of
/// the error.
pub proof fn law_encoded_error(err: &I2cError, code: u32)
    requires
        call_ensures(i2c_service::encode_i2c_error, (err,), code),
    ensures
        match *err {
            I2cError::Abort { reason: i2c_service::AbortReason::NoAcknowledge } => code == 4097,
            I2cError::Abort { reason: i2c_service::AbortReason::ArbitrationLoss } => code == 4098,
            I2cError::Abort { reason: i2c_service::AbortReason::TxNotEmpty { left } } => {
                &&& left < 256 ==> code == 4864 + left
                &&& code == 4096u32 | (768u32 | left as u32)
            },
            I2cError::Abort { reason: i2c_service::AbortReason::Other { bits } } => code == 5120
                + bits % 256,
            I2cError::InvalidResponseBufferLength => code == 8192,
            I2cError::PartialWrite { len } => {
                &&& len < 4096 ==> code == 12288 + len
                &&& code == 12288u32 | (len as u32)
            },
            I2cError::PartialGeneralCall { len } => {
                &&& len < 4096 ==> code == 16384 + len
                &&& code == 16384u32 | (len as u32)
            },
            I2cError::Unknown => code == 65535,
        },
{
    if let I2cError::Abort { reason: i2c_service::AbortReason::Other { bits } } = *err {
        law_error_codes(*err);
    }
    if i2c_service::has_small_numbers(*err) {
        law_error_codes(*err);
    }
}

}
