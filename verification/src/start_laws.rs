//! How things start, and the small operations on them.
use vstd::prelude::*;

use crate::device_model::{Access, RegisterDef};
use crate::host_link::PayloadTooLarge;
use crate::log::{Event, EventKind, Ring};
use crate::model;
use crate::model::ModelTables;
use crate::protocol;
use crate::regfile::RegisterFile;
use crate::regfile_laws;
use crate::streams::HostStreamState;
use crate::text;
use crate::usb_cli::CommandBuffer;
use crate::usb_stream;
use crate::usb_stream::{DeviceOp, FrameAccumulator, Reply, StreamError};

verus! {

/// A log, a command and what is collected of frames start empty, and so does a stream.
pub proof fn law_everything_starts_empty(
    ring: Ring,
    event: Event,
    command: CommandBuffer,
    accum: FrameAccumulator,
    stream: HostStreamState,
    used: &mut HostStreamState,
    addr: u8,
)
    requires
        call_ensures(Ring::new, (), ring),
        call_ensures(Event::empty, (), event),
        call_ensures(CommandBuffer::new, (), command),
        call_ensures(FrameAccumulator::new, (), accum),
        call_ensures(HostStreamState::empty, (), stream),
        call_ensures(HostStreamState::reset_with_addr, (used, addr), ()),
    ensures
        ring@.entries.len() == 0,
        ring@.seq == 0,
        event@.seq == 0,
        event@.kind == EventKind::Read,
        event@.data_len == 0,
        command@.len() == 0,
        accum@.len() == 0,
        stream@.queue.len() == 0,
        !stream@.has_last,
        stream@.addr == 255,
        stream@.underruns == 0 && stream@.drops == 0,
        final(used)@.queue.len() == 0,
        !final(used)@.has_last,
        final(used)@.addr == addr,
        final(used)@.underruns == 0 && final(used)@.drops == 0,
{
}

/// What a stream holds and what it has room for make 2048 bytes.
pub proof fn law_level_and_room(stream: &HostStreamState, level: usize, free: usize)
    requires
        call_ensures(HostStreamState::level, (stream,), level),
        call_ensures(HostStreamState::free, (stream,), free),
        stream.wf(),
    ensures
        level == stream@.queue.len(),
        free == 2048 - stream@.queue.len(),
{
    stream.lemma_queue_fits();
}

/// What is collected of frames is forgotten when it is cleared; a packet is put behind it where both
/// have at most 512 bytes, and otherwise both are forgotten.
pub proof fn law_collected_bytes(
    accum: &mut FrameAccumulator,
    other: &mut FrameAccumulator,
    packet: &[u8],
    accepted: bool,
)
    requires
        call_ensures(FrameAccumulator::clear, (accum,), ()),
        call_ensures(FrameAccumulator::accept_packet, (other, packet), accepted),
    ensures
        final(accum)@.len() == 0,
        accepted <==> old(other)@.len() + packet@.len() <= 512,
        accepted ==> final(other)@ == old(other)@ + packet@,
        !accepted ==> final(other)@.len() == 0,
{
}

/// A log takes one event more under the next number, and is empty when it is cleared.
pub proof fn law_ring_takes_events(ring: &mut Ring, event: Event, other: &mut Ring)
    requires
        call_ensures(Ring::push, (ring, event), ()),
        call_ensures(Ring::clear, (other,), ()),
    ensures
        final(ring)@.seq == (old(ring)@.seq + 1) % 4294967296,
        final(ring)@.entries.len() > 0,
        final(ring)@.entries.last().seq == final(ring)@.seq,
        final(ring)@.entries.last().kind == event@.kind,
        final(ring)@.entries.last().pointer == event@.pointer,
        final(ring)@.entries.last().len == event@.len,
        final(ring)@.entries.last().status == event@.status,
        final(ring)@.entries.last().error == event@.error,
        final(ring)@.entries.last().data_len == event@.data_len,
        final(ring)@.entries.last().data == event@.data,
        final(ring)@.entries.drop_last() == if old(ring)@.entries.len() < 128 {
            old(ring)@.entries
        } else {
            old(ring)@.entries.drop_first()
        },
        final(other)@.entries.len() == 0,
        final(other)@.seq == 0,
{
    assert(final(ring)@.entries.drop_last() =~= if old(ring)@.entries.len() < 128 {
        old(ring)@.entries
    } else {
        old(ring)@.entries.drop_first()
    });
}

/// A refusal is one byte, the code of the error.
pub proof fn law_refusal_is_its_code(error: StreamError, reply: Reply)
    requires
        call_ensures(usb_stream::stream_error, (error,), reply),
    ensures
        reply.op == DeviceOp::Error,
        reply.payload@.len() == 1,
        reply.payload@[0] == match error {
            StreamError::BadFrame => 1u8,
            StreamError::BadPayload => 2u8,
            StreamError::InvalidStreamId => 3u8,
            StreamError::UnknownOpcode => 4u8,
        },
{
}

/// The defaults of a model reach the registers of the model, and no other address.
pub proof fn law_defaults_are_applied(file: &mut RegisterFile, tables: &ModelTables)
    requires
        call_ensures(RegisterFile::apply_model_defaults, (file, tables), ()),
        regfile_laws::rise(tables.registers@),
    ensures
        final(file)@.pointer == old(file)@.pointer,
        forall|k: int|
            0 <= k < tables.registers@.len() ==> {
                &&& final(file)@.regs[(#[trigger] tables.registers@[k]).addr as int]
                    == tables.registers@[k].default
                &&& final(file)@.writable[tables.registers@[k].addr as int] == (
                tables.registers@[k].access == Access::Rw)
            },
        forall|a: int|
            #![trigger final(file)@.regs[a]]
            0 <= a < 256 && (forall|k: int|
                0 <= k < tables.registers@.len() ==> (#[trigger] tables.registers@[k]).addr != a)
                ==> final(file)@.regs[a] == old(file)@.regs[a] && final(file)@.writable[a] == old(file)@.writable[a],
{
    RegisterFile::lemma_view_wf(*old(file));
    regfile_laws::lemma_with_registers(old(file)@, tables.registers@, tables.registers@.len());
}

/// The order of registers leads through all of them by address.
pub proof fn law_order_is_by_address(regs: &Vec<RegisterDef>, order: Vec<usize>)
    requires
        call_ensures(model::register_order, (regs,), order),
    ensures
        order@.len() == regs@.len(),
        forall|k: int| 0 <= k < order@.len() ==> #[trigger] order@[k] < regs@.len(),
        forall|j: int, k: int|
            0 <= j < k < order@.len() ==> regs@[#[trigger] order@[j] as int].addr
                <= regs@[#[trigger] order@[k] as int].addr,
        Seq::new(order@.len(), |k: int| regs@[order@[k] as int]).to_multiset()
            == regs@.to_multiset(),
{
    let key = model::register_key();
    let sorted = model::sorted_registers(regs@);
    crate::ordering::lemma_sort_by(regs@, key);
    assert(Seq::new(order@.len(), |k: int| regs@[order@[k] as int]) =~= sorted);
    assert forall|j: int, k: int| 0 <= j < k < order@.len() implies regs@[#[trigger] order@[j] as int].addr
        <= regs@[#[trigger] order@[k] as int].addr by {
        assert(key(sorted[j]) <= key(sorted[k]));
    }
}

/// Tables are sound where every number in them leads to an entry, there are at most nine streams, and
/// no source has more samples than thirty-two bits count.
pub proof fn law_sound_tables(tables: &ModelTables, sound: bool)
    requires
        call_ensures(ModelTables::is_sound, (tables,), sound),
    ensures
        sound <==> {
            &&& tables.host_stream_addrs@.len() <= 9
            &&& forall|a: int|
                0 <= a < 256 ==> #[trigger] tables.csv_index_by_addr@[a]
                    < tables.csv_registers@.len()
            &&& forall|a: int|
                0 <= a < 256 ==> #[trigger] tables.host_stream_index_by_addr@[a]
                    < tables.host_stream_addrs@.len()
            &&& forall|k: int|
                0 <= k < tables.csv_registers@.len() ==> (
                #[trigger] tables.csv_registers@[k]).data@.len() <= 4294967295
        },
{
}

/// Numbers and truth values are put behind a text as they are written.
pub proof fn law_numbers_are_appended(
    a: &mut String,
    n: u64,
    b: &mut String,
    m: u64,
    width: usize,
    c: &mut String,
    p: u64,
    padding: usize,
    d: &mut String,
    i: i16,
    e: &mut String,
    truth: bool,
)
    requires
        call_ensures(text::push_dec, (a, n), ()),
        call_ensures(text::push_hex, (b, m, width), ()),
        call_ensures(text::push_padded_dec, (c, p, padding), ()),
        call_ensures(text::push_signed_dec, (d, i), ()),
        call_ensures(text::push_bool, (e, truth), ()),
    ensures
        final(a)@ == old(a)@ + text::dec_text(n as nat),
        final(b)@ == old(b)@ + text::zero_padded(text::hex_text(m as nat), width as nat),
        final(c)@ == old(c)@ + text::zero_padded(text::dec_text(p as nat), padding as nat),
        final(d)@ == old(d)@ + text::signed_dec_text(i as int),
        final(e)@ == old(e)@ + if truth { "true"@ } else { "false"@ },
{
}

/// A part of some bytes is copied as it is, and a payload that is too long is told so.
pub proof fn law_parts_are_copied(
    bytes: &[u8],
    lo: usize,
    hi: usize,
    part: Vec<u8>,
    error: &PayloadTooLarge,
    words: String,
)
    requires
        call_ensures(protocol::copy_range, (bytes, lo, hi), part),
        call_ensures(PayloadTooLarge::message, (error,), words),
        lo <= hi <= bytes@.len(),
    ensures
        part@.len() == hi - lo,
        forall|i: int| 0 <= i < part@.len() ==> #[trigger] part@[i] == bytes@[lo + i],
        words@ == "payload too large"@,
{
}

/// The limits of the library.
pub proof fn law_limits()
    ensures
        crate::device_model::MAX_HOST_STREAM_REGS == 9,
        crate::device_model::HOST_STREAM_BUFFER_CAPACITY == 2048,
        crate::device_model::EMBEDDED_CSV_BUDGET_BYTES == 32768,
        crate::device_model::REGISTER_ADDRESS_SPACE_SIZE == 256,
        crate::device_model::ADDR_WIDTH_BITS == 8,
        crate::log::RING_CAPACITY == 128,
        crate::log::DATA_PREVIEW_BYTES == 15,
        crate::usb_cli::COMMAND_BYTES == 64,
        crate::usb_stream::STREAM_RX_ACCUM_BYTES == 512,
        crate::protocol::STREAM_PROTO_VERSION == 1,
        crate::protocol::STREAM_FRAME_HEADER_BYTES == 3,
        crate::protocol::USB_MAX_PACKET_SIZE == 64,
        crate::csv_streamer::FEED_CHUNK_BYTES == 48,
        crate::usb_cli::BANNER@
            == "mimIIC ready. Commands: dump, reset_i2c, clear, stream_status, help"@,
        crate::usb_cli::LINE_END@ == "\r\n"@,
{
}

}
