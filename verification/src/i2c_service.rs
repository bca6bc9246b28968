//! What the device does with each event on the I2C bus.
use vstd::prelude::*;

use crate::log;
use crate::log::{EventKind, Ring};
use crate::model::ModelTables;
use crate::regfile;
use crate::regfile::{RegisterFile, Registers};
use crate::regfile_laws;
use crate::stream_laws;
use crate::streams;
use crate::streams::{ReadEffect, StreamManager};

verus! {

/// How many bytes are handed to the bus at a time. With one byte, none is read ahead when the bus
/// master reads single bytes in quick succession.
pub const I2C_READ_CHUNK: usize = 1;

/// How many bytes of a read the log shows at most.
pub const READ_PREVIEW_BYTES: usize = 8;

/// Why the bus gave up on a transfer.
#[derive(Copy, Clone, Debug, PartialEq, Eq, Structural)]
pub enum AbortReason {
    NoAcknowledge,
    ArbitrationLoss,
    TxNotEmpty { left: u16 },
    Other { bits: u32 },
}

/// What went wrong on the bus.
#[derive(Copy, Clone, Debug, PartialEq, Eq, Structural)]
pub enum I2cError {
    Abort { reason: AbortReason },
    InvalidResponseBufferLength,
    PartialWrite { len: usize },
    PartialGeneralCall { len: usize },
    Unknown,
}

/// The code of an abort reason in the log.
pub open spec fn abort_code(reason: AbortReason) -> u32 {
    match reason {
        AbortReason::NoAcknowledge => 0x01,
        AbortReason::ArbitrationLoss => 0x02,
        AbortReason::TxNotEmpty { left } => 0x0300u32 | (left as u32),
        AbortReason::Other { bits } => 0x0400u32 | (bits & 0xff),
    }
}

/// The code of an error in the log.
pub open spec fn error_code(error: I2cError) -> u32 {
    match error {
        I2cError::Abort { reason } => 0x1000u32 | abort_code(reason),
        I2cError::InvalidResponseBufferLength => 0x2000,
        I2cError::PartialWrite { len } => 0x3000u32 | (len as u32),
        I2cError::PartialGeneralCall { len } => 0x4000u32 | (len as u32),
        I2cError::Unknown => 0xFFFF,
    }
}

/// The code of an abort reason in the log.
pub fn encode_abort_reason(reason: &AbortReason) -> (code: u32)
    ensures
        code == abort_code(*reason),
{
    match *reason {
        AbortReason::NoAcknowledge => 0x01,
        AbortReason::ArbitrationLoss => 0x02,
        AbortReason::TxNotEmpty { left } => 0x0300u32 | (left as u32),
        AbortReason::Other { bits } => 0x0400u32 | (bits & 0xff),
    }
}

/// The code of an error in the log.
pub fn encode_i2c_error(err: &I2cError) -> (code: u32)
    ensures
        code == error_code(*err),
{
    match err {
        I2cError::Abort { reason } => 0x1000u32 | encode_abort_reason(reason),
        I2cError::InvalidResponseBufferLength => 0x2000,
        I2cError::PartialWrite { len } => 0x3000u32 | (*len as u32),
        I2cError::PartialGeneralCall { len } => 0x4000u32 | (*len as u32),
        I2cError::Unknown => 0xFFFF,
    }
}

/// An error whose numbers fit beside the mark of its kind.
pub open spec fn has_small_numbers(error: I2cError) -> bool {
    match error {
        I2cError::Abort { reason } => match reason {
            AbortReason::TxNotEmpty { left } => left < 0x100,
            _ => true,
        },
        I2cError::PartialWrite { len } => len < 0x1000,
        I2cError::PartialGeneralCall { len } => len < 0x1000,
        _ => true,
    }
}

/// As long as the numbers of two errors fit beside the marks of their kinds, their codes are the
/// same only where the errors are the same, up to the upper bits of another abort reason.
pub proof fn law_error_codes_differ(a: I2cError, b: I2cError)
    requires
        has_small_numbers(a),
        has_small_numbers(b),
        error_code(a) == error_code(b),
    ensures
        match (a, b) {
            (
                I2cError::Abort { reason: AbortReason::Other { bits: x } },
                I2cError::Abort { reason: AbortReason::Other { bits: y } },
            ) => x % 0x100 == y % 0x100,
            _ => a == b,
        },
{
    lemma_code_parts(a);
    lemma_code_parts(b);
}

/// The number and the mark in the code of an error.
pub proof fn lemma_code_parts(error: I2cError)
    requires
        has_small_numbers(error),
    ensures
        match error {
            I2cError::Abort { reason } => match reason {
                AbortReason::NoAcknowledge => error_code(error) == 0x1001,
                AbortReason::ArbitrationLoss => error_code(error) == 0x1002,
                AbortReason::TxNotEmpty { left } => error_code(error) == 0x1300 + left,
                AbortReason::Other { bits } => error_code(error) == 0x1400 + bits % 0x100,
            },
            I2cError::InvalidResponseBufferLength => error_code(error) == 0x2000,
            I2cError::PartialWrite { len } => error_code(error) == 0x3000 + len,
            I2cError::PartialGeneralCall { len } => error_code(error) == 0x4000 + len,
            I2cError::Unknown => error_code(error) == 0xFFFF,
        },
{
    match error {
        I2cError::Abort { reason } => match reason {
            AbortReason::NoAcknowledge => {
                assert(0x1000u32 | 0x01u32 == 0x1001u32) by (bit_vector);
            },
            AbortReason::ArbitrationLoss => {
                assert(0x1000u32 | 0x02u32 == 0x1002u32) by (bit_vector);
            },
            AbortReason::TxNotEmpty { left } => {
                let n = left as u32;
                assert(0x1000u32 | (0x0300u32 | n) == 0x1300 + n) by (bit_vector)
                    requires
                        n < 0x100,
                ;
            },
            AbortReason::Other { bits } => {
                assert(0x1000u32 | (0x0400u32 | (bits & 0xff)) == 0x1400 + bits % 0x100)
                    by (bit_vector);
            },
        },
        I2cError::PartialWrite { len } => {
            let n = len as u32;
            assert(0x3000u32 | n == 0x3000 + n) by (bit_vector)
                requires
                    n < 0x1000,
            ;
        },
        I2cError::PartialGeneralCall { len } => {
            let n = len as u32;
            assert(0x4000u32 | n == 0x4000 + n) by (bit_vector)
                requires
                    n < 0x1000,
            ;
        },
        _ => {},
    }
}

/// What the device waits for.
#[derive(Copy, Clone, Debug, PartialEq, Eq, Structural)]
pub enum BusEvent {
    /// A reset of the peripheral was asked for.
    ResetRequested,
    /// The bus master wrote `len` bytes.
    Write { len: usize },
    /// The bus master wrote `len` bytes and now reads.
    WriteRead { len: usize },
    /// The bus master reads.
    Read,
    /// The bus master called every device with `len` bytes.
    GeneralCall { len: usize },
    /// Listening failed.
    Failed { error: I2cError },
}

/// What the device does next.
#[derive(Copy, Clone, Debug, PartialEq, Eq, Structural)]
pub enum BusAction {
    /// Reset the peripheral, then listen again.
    ResetPeripheral,
    /// Listen again.
    Listen,
    /// Answer a read, to be logged under this kind.
    ServeRead { kind: EventKind },
}

/// The bytes of an event can be found in the listen buffer.
pub open spec fn is_in_buffer(event: BusEvent, buffer: Seq<u8>) -> bool {
    match event {
        BusEvent::Write { len } => len <= buffer.len(),
        BusEvent::WriteRead { len } => len <= buffer.len(),
        _ => true,
    }
}

/// The registers after the bus master wrote some bytes: the first is an address, the others go to
/// the registers from there on.
pub open spec fn bus_written(f: Registers, tables: ModelTables, bytes: Seq<u8>) -> Registers {
    if bytes.len() == 0 {
        f
    } else {
        regfile::written(
            Registers { pointer: bytes[0], ..f },
            tables.auto_increment,
            bytes.drop_first(),
        )
    }
}

/// The registers after an event.
pub open spec fn registers_after(
    f: Registers,
    tables: ModelTables,
    event: BusEvent,
    buffer: Seq<u8>,
) -> Registers {
    match event {
        BusEvent::Write { len } => bus_written(f, tables, buffer.take(len as int)),
        BusEvent::WriteRead { len } => bus_written(f, tables, buffer.take(len as int)),
        _ => f,
    }
}

/// What is logged of an event.
pub open spec fn logged_event(
    f: Registers,
    tables: ModelTables,
    event: BusEvent,
    buffer: Seq<u8>,
) -> Option<log::Entry> {
    match event {
        BusEvent::ResetRequested => Some(
            log::event_of(EventKind::Reset, f.pointer, 0, 0, 0, Seq::empty()),
        ),
        BusEvent::Write { len } => if len == 0 {
            Some(log::event_of(EventKind::Write, f.pointer, 0, 0, 0, Seq::empty()))
        } else {
            let payload = buffer.subrange(1, len as int);
            let accepted = regfile::accepted_writes(
                Registers { pointer: buffer[0], ..f },
                tables.auto_increment,
                payload,
            );
            Some(
                log::event_of(
                    EventKind::Write,
                    buffer[0],
                    payload.len(),
                    (accepted % 0x100) as u8,
                    0,
                    payload,
                ),
            )
        },
        BusEvent::GeneralCall { len } => Some(
            log::event_of(
                EventKind::GeneralCall,
                f.pointer,
                len as nat,
                0,
                0,
                if len < buffer.len() { buffer.take(len as int) } else { buffer },
            ),
        ),
        BusEvent::Failed { error } => Some(
            log::event_of(EventKind::ListenError, f.pointer, 0, 0, error_code(error), Seq::empty()),
        ),
        BusEvent::WriteRead { .. } => None,
        BusEvent::Read => None,
    }
}

/// What is done next after an event.
pub open spec fn next_action(event: BusEvent) -> BusAction {
    match event {
        BusEvent::ResetRequested => BusAction::ResetPeripheral,
        BusEvent::WriteRead { .. } => BusAction::ServeRead { kind: EventKind::WriteRead },
        BusEvent::Read => BusAction::ServeRead { kind: EventKind::Read },
        _ => BusAction::Listen,
    }
}

/// The log after an event that may be logged.
pub open spec fn logged(j: log::Journal, entry: Option<log::Entry>) -> log::Journal {
    match entry {
        Some(e) => log::pushed(j, e),
        None => j,
    }
}

/// Takes the bytes of a write: an address, and what goes to the registers from there on. Says how
/// many bytes were taken into registers.
fn take_write(file: &mut RegisterFile, tables: &ModelTables, bytes: &[u8]) -> (accepted: usize)
    requires
        bytes@.len() > 0,
    ensures
        final(file)@ == bus_written(old(file)@, *tables, bytes@),
        accepted == regfile::accepted_writes(
            Registers { pointer: bytes@[0], ..old(file)@ },
            tables.auto_increment,
            bytes@.drop_first(),
        ),
{
    file.set_pointer(bytes[0]);
    let payload = vstd::slice::slice_subrange(bytes, 1, bytes.len());
    assert(payload@ =~= bytes@.drop_first());
    file.write_payload(tables, payload)
}

/// Handles an event, with the bytes that came with it in `buffer`.
pub fn on_event(
    file: &mut RegisterFile,
    ring: &mut Ring,
    tables: &ModelTables,
    event: BusEvent,
    buffer: &[u8],
) -> (action: BusAction)
    requires
        old(ring).wf(),
        is_in_buffer(event, buffer@),
    ensures
        final(ring).wf(),
        final(file)@ == registers_after(old(file)@, *tables, event, buffer@),
        final(ring)@ == logged(old(ring)@, logged_event(old(file)@, *tables, event, buffer@)),
        action == next_action(event),
{
    match event {
        BusEvent::ResetRequested => {
            let none: [u8; 0] = [];
            log::record(ring, EventKind::Reset, file.pointer(), 0, 0, 0, &none);
            assert(none@ =~= Seq::empty());
            BusAction::ResetPeripheral
        },
        BusEvent::Write { len } => {
            if len == 0 {
                let none: [u8; 0] = [];
                log::record(ring, EventKind::Write, file.pointer(), 0, 0, 0, &none);
                assert(none@ =~= Seq::empty());
                return BusAction::Listen;
            }
            let bytes = vstd::slice::slice_subrange(buffer, 0, len);
            let pointer: u8 = bytes[0];
            let accepted: usize = take_write(file, tables, bytes);
            let payload = vstd::slice::slice_subrange(buffer, 1, len);
            assert(bytes@ =~= buffer@.take(len as int));
            assert(bytes@.drop_first() =~= payload@);
            assert(accepted as u8 == accepted as u64 % 0x100u64) by (bit_vector);
            log::record(
                ring,
                EventKind::Write,
                pointer,
                payload.len(),
                accepted as u8,
                0,
                payload,
            );
            BusAction::Listen
        },
        BusEvent::WriteRead { len } => {
            if len > 0 {
                let bytes = vstd::slice::slice_subrange(buffer, 0, len);
                assert(bytes@ =~= buffer@.take(len as int));
                take_write(file, tables, bytes);
            }
            BusAction::ServeRead { kind: EventKind::WriteRead }
        },
        BusEvent::Read => BusAction::ServeRead { kind: EventKind::Read },
        BusEvent::GeneralCall { len } => {
            let shown: usize = if len < buffer.len() { len } else { buffer.len() };
            let bytes = vstd::slice::slice_subrange(buffer, 0, shown);
            assert(bytes@ =~= if len < buffer@.len() { buffer@.take(len as int) } else { buffer@ });
            log::record(ring, EventKind::GeneralCall, file.pointer(), len, 0, 0, bytes);
            BusAction::Listen
        },
        BusEvent::Failed { error } => {
            let none: [u8; 0] = [];
            let code: u32 = encode_i2c_error(&error);
            log::record(ring, EventKind::ListenError, file.pointer(), 0, 0, code, &none);
            assert(none@ =~= Seq::empty());
            BusAction::Listen
        },
    }
}

/// How the bus took the bytes of a read.
#[derive(Copy, Clone, Debug, PartialEq, Eq, Structural)]
pub enum ReadOutcome {
    /// The bus master reads on.
    NeedMoreBytes,
    /// The bus master read everything and stopped.
    Done,
    /// The bus master stopped before it read the last `count` bytes.
    LeftoverBytes { count: u16 },
    /// The transfer failed.
    Failed { error: I2cError },
}

/// A read that is being answered.
pub struct ReadSession {
    kind: EventKind,
    pointer: u8,
    total: usize,
    preview: [u8; READ_PREVIEW_BYTES],
    preview_len: usize,
    effects: [ReadEffect; I2C_READ_CHUNK],
}

/// A [`ReadSession`] with its bytes as sequences.
#[verifier::ext_equal]
pub struct Session {
    /// What the read is logged as.
    pub kind: EventKind,
    /// Where the read began.
    pub pointer: u8,
    /// How many bytes were handed to the bus.
    pub total: nat,
    /// The first of these bytes.
    pub preview: Seq<u8>,
    /// What the last chunk did to the streams.
    pub effects: Seq<ReadEffect>,
}

impl View for ReadSession {
    type V = Session;

    closed spec fn view(&self) -> Session {
        Session {
            kind: self.kind,
            pointer: self.pointer,
            total: self.total as nat,
            preview: self.preview@.take(self.preview_len as int),
            effects: self.effects@,
        }
    }
}

/// A read at its start.
pub open spec fn started(kind: EventKind, pointer: u8) -> Session {
    Session {
        kind,
        pointer,
        total: 0,
        preview: Seq::empty(),
        effects: seq![ReadEffect::NoEffect],
    }
}

/// A read after one more chunk was handed to the bus.
pub open spec fn with_chunk(session: Session, run: regfile::ReadRun) -> Session {
    Session {
        total: session.total + I2C_READ_CHUNK as nat,
        preview: if session.preview.len() < READ_PREVIEW_BYTES {
            session.preview + run.values
        } else {
            session.preview
        },
        effects: run.effects,
        ..session
    }
}

/// How many bytes of a read the bus master took, when it left `count` of them.
pub open spec fn taken_count(session: Session, count: u16) -> nat {
    if session.total < count { 0 } else { (session.total - count) as nat }
}

/// What is logged at the end of a read.
pub open spec fn closing_event(session: Session, outcome: ReadOutcome) -> Option<log::Entry> {
    match outcome {
        ReadOutcome::NeedMoreBytes => None,
        ReadOutcome::Done => Some(
            log::event_of(session.kind, session.pointer, session.total, 0, 0, session.preview),
        ),
        ReadOutcome::LeftoverBytes { count } => {
            let taken = taken_count(session, count);
            Some(
                log::event_of(
                    session.kind,
                    session.pointer,
                    taken,
                    1,
                    count as u32,
                    if taken < session.preview.len() {
                        session.preview.take(taken as int)
                    } else {
                        session.preview
                    },
                ),
            )
        },
        ReadOutcome::Failed { error } => Some(
            log::event_of(
                EventKind::ReadError,
                session.pointer,
                session.total,
                0,
                error_code(error),
                session.preview,
            ),
        ),
    }
}

/// The pointer after the end of a read.
pub open spec fn closing_pointer(pointer: u8, tables: ModelTables, outcome: ReadOutcome) -> u8 {
    match outcome {
        ReadOutcome::LeftoverBytes { count } => if tables.auto_increment {
            regfile::moved_pointer(pointer, -(count as int))
        } else {
            pointer
        },
        _ => pointer,
    }
}

/// The streams after the end of a read.
pub open spec fn closing_streams(
    s: streams::Streams,
    tables: ModelTables,
    session: Session,
    outcome: ReadOutcome,
) -> streams::Streams {
    match outcome {
        ReadOutcome::LeftoverBytes { count } => regfile::all_rolled_back(
            s,
            tables,
            regfile::last_effects(session.effects, count as nat),
        ),
        _ => s,
    }
}

impl ReadSession {
    /// The preview is no longer than its place.
    pub closed spec fn wf(self) -> bool {
        self.preview_len <= READ_PREVIEW_BYTES
    }

    /// Begins to answer a read.
    pub fn start(file: &RegisterFile, kind: EventKind) -> (session: Self)
        ensures
            session.wf(),
            session@ == started(kind, file@.pointer),
    {
        let session = ReadSession {
            kind,
            pointer: file.pointer(),
            total: 0,
            preview: [0u8; 8],
            preview_len: 0,
            effects: [ReadEffect::NoEffect; 1],
        };
        assert(session@ =~= started(kind, file@.pointer));
        session
    }

    /// Reads the next bytes for the bus.
    pub fn next_chunk(
        &mut self,
        file: &mut RegisterFile,
        tables: &ModelTables,
        manager: &mut StreamManager,
    ) -> (tx: [u8; I2C_READ_CHUNK])
        requires
            old(self).wf(),
            old(self)@.total < usize::MAX,
            tables.wf(),
            old(manager).wf(),
        ensures
            final(self).wf(),
            final(manager).wf(),
            ({
                let run = regfile::read_run(
                    old(file)@,
                    old(manager)@,
                    *tables,
                    I2C_READ_CHUNK as nat,
                );
                &&& tx@ == run.values
                &&& final(file)@ == (Registers { pointer: run.pointer, ..old(file)@ })
                &&& final(manager)@ == run.streams
                &&& final(self)@ == with_chunk(old(self)@, run)
            }),
    {
        let ghost before = self@;
        let ghost run = regfile::read_run(file@, manager@, *tables, I2C_READ_CHUNK as nat);
        let mut tx: [u8; 1] = [0u8; 1];
        let mut effects: [ReadEffect; 1] = [ReadEffect::NoEffect; 1];
        let ghost effects_before = effects@;
        file.read_into(tables, manager, &mut tx, &mut effects);
        assert(effects_before.skip(1) =~= Seq::empty());
        assert(effects@ =~= run.effects);
        self.effects = effects;
        if self.preview_len < READ_PREVIEW_BYTES {
            let at: usize = self.preview_len;
            self.preview[at] = tx[0];
            self.preview_len = at + 1;
        }
        self.total = self.total + I2C_READ_CHUNK;
        assert(self@ =~= with_chunk(before, run));
        tx
    }

    /// Handles how the bus took the bytes, and says whether it wants more.
    pub fn on_outcome(
        &mut self,
        file: &mut RegisterFile,
        tables: &ModelTables,
        manager: &mut StreamManager,
        ring: &mut Ring,
        outcome: ReadOutcome,
    ) -> (more: bool)
        requires
            old(self).wf(),
            tables.wf(),
            old(manager).wf(),
            old(ring).wf(),
        ensures
            final(manager).wf(),
            final(ring).wf(),
            more == (outcome is NeedMoreBytes),
            more ==> *final(self) == *old(self),
            final(file)@ == (Registers {
                pointer: closing_pointer(old(file)@.pointer, *tables, outcome),
                ..old(file)@
            }),
            final(manager)@ == closing_streams(old(manager)@, *tables, old(self)@, outcome),
            final(ring)@ == logged(old(ring)@, closing_event(old(self)@, outcome)),
    {
        let ghost before = self@;
        match outcome {
            ReadOutcome::NeedMoreBytes => true,
            ReadOutcome::Done => {
                let shown = vstd::slice::slice_subrange(&self.preview, 0, self.preview_len);
                assert(shown@ =~= before.preview);
                log::record(ring, self.kind, self.pointer, self.total, 0, 0, shown);
                false
            },
            ReadOutcome::LeftoverBytes { count } => {
                let unread: usize = count as usize;
                file.rollback_unread(tables, manager, &self.effects, unread);
                let real_len: usize = self.total.saturating_sub(unread);
                if real_len < self.preview_len {
                    self.preview_len = real_len;
                }
                let shown = vstd::slice::slice_subrange(&self.preview, 0, self.preview_len);
                assert(shown@ =~= if real_len < before.preview.len() {
                    before.preview.take(real_len as int)
                } else {
                    before.preview
                });
                log::record(ring, self.kind, self.pointer, real_len, 1, count as u32, shown);
                false
            },
            ReadOutcome::Failed { error } => {
                let shown = vstd::slice::slice_subrange(&self.preview, 0, self.preview_len);
                assert(shown@ =~= before.preview);
                log::record(
                    ring,
                    EventKind::ReadError,
                    self.pointer,
                    self.total,
                    0,
                    encode_i2c_error(&error),
                    shown,
                );
                false
            },
        }
    }
}

/// The run of the next chunk after `n` chunks of a read.
pub open spec fn chunk_after(
    f: Registers,
    s: streams::Streams,
    tables: ModelTables,
    n: nat,
) -> regfile::ReadRun {
    let earlier = regfile::read_run(f, s, tables, n);
    regfile::read_run(
        Registers { pointer: earlier.pointer, ..f },
        earlier.streams,
        tables,
        I2C_READ_CHUNK as nat,
    )
}

/// A read after `n` chunks with nothing else in between.
pub open spec fn session_after(
    f: Registers,
    s: streams::Streams,
    tables: ModelTables,
    kind: EventKind,
    n: nat,
) -> Session
    decreases n,
{
    if n == 0 {
        started(kind, f.pointer)
    } else {
        with_chunk(
            session_after(f, s, tables, kind, (n - 1) as nat),
            chunk_after(f, s, tables, (n - 1) as nat),
        )
    }
}

/// A read in chunks, with nothing else in between, hands the bus what one long read would, leaves
/// the same pointer and streams, and shows the first of the bytes in the log.
pub proof fn law_chunks_make_one_read(
    f: Registers,
    s: streams::Streams,
    tables: ModelTables,
    kind: EventKind,
    n: nat,
)
    ensures
        ({
            let session = session_after(f, s, tables, kind, n);
            let all = regfile::read_run(f, s, tables, n);
            let longer = regfile::read_run(f, s, tables, n + 1);
            let chunk = chunk_after(f, s, tables, n);
            &&& session.kind == kind
            &&& session.pointer == f.pointer
            &&& session.total == n
            &&& session.preview == if n < READ_PREVIEW_BYTES {
                all.values
            } else {
                all.values.take(READ_PREVIEW_BYTES as int)
            }
            &&& longer.values == all.values + chunk.values
            &&& longer.pointer == chunk.pointer
            &&& longer.streams == chunk.streams
        }),
    decreases n,
{
    let all = regfile::read_run(f, s, tables, n);
    let chunk = chunk_after(f, s, tables, n);
    let moved = Registers { pointer: all.pointer, ..f };
    assert(chunk == regfile::read_next(
        regfile::read_run(moved, all.streams, tables, 0),
        f.regs,
        tables,
    )) by {
        reveal_with_fuel(regfile::read_run, 2);
    }
    assert(regfile::read_run(f, s, tables, n + 1).values =~= all.values + chunk.values);
    regfile_laws::lemma_run_lengths(f, s, tables, n);
    if n > 0 {
        let before = (n - 1) as nat;
        law_chunks_make_one_read(f, s, tables, kind, before);
        regfile_laws::lemma_run_lengths(f, s, tables, before);
        let earlier = session_after(f, s, tables, kind, before);
        let session = session_after(f, s, tables, kind, n);
        assert(session.preview =~= if n < READ_PREVIEW_BYTES {
            all.values
        } else {
            all.values.take(READ_PREVIEW_BYTES as int)
        });
    }
}

/// A byte that the bus master leaves is as if it had never been handed to the bus: the next read
/// gives it again, no report counts its underrun, and the log does not count it. (What no report
/// shows of an underrun counter may be less only where the largest number that is kept was
/// reached.)
pub proof fn law_leftover_byte_is_kept(
    f: Registers,
    s: streams::Streams,
    tables: ModelTables,
    session: Session,
)
    requires
        tables.wf(),
        stream_laws::fit(s, tables),
    ensures
        ({
            let run = regfile::read_run(f, s, tables, I2C_READ_CHUNK as nat);
            let after = with_chunk(session, run);
            let outcome = ReadOutcome::LeftoverBytes { count: I2C_READ_CHUNK as u16 };
            &&& closing_pointer(run.pointer, tables, outcome) == f.pointer
            &&& stream_laws::as_reported(closing_streams(run.streams, tables, after, outcome))
                == stream_laws::as_reported(s)
            &&& !stream_laws::counter_wraps(s, tables, f.pointer) ==> closing_streams(
                run.streams,
                tables,
                after,
                outcome,
            ) == s
            &&& taken_count(after, I2C_READ_CHUNK as u16) == session.total
        }),
{
    let run = regfile::read_run(f, s, tables, 1);
    let outcome = ReadOutcome::LeftoverBytes { count: 1 };
    let back = streams::rolled_back(run.streams, tables, run.effects.last());
    regfile_laws::lemma_rollback_undoes_last(f, s, tables, 1);
    regfile_laws::law_reads_move_the_pointer(f, s, tables, 1);
    assert(regfile::read_run(f, s, tables, 0).streams == s);
    assert(regfile::all_rolled_back(back, tables, run.effects.drop_last()) == back);
    assert(closing_streams(run.streams, tables, with_chunk(session, run), outcome) == back);
    assert(closing_pointer(run.pointer, tables, outcome) == f.pointer);
}

}
