//! What calls of the device's operations do to its streams and registers.
use vstd::prelude::*;

use crate::bus_laws;
use crate::device_model::{Access, CsvModeDef};
use crate::i2c_service::BusEvent;
use crate::model::ModelTables;
use crate::regfile;
use crate::regfile::RegisterFile;
use crate::regfile_laws;
use crate::streams;
use crate::streams::{
    FeedError, FeedResult, HostStream, HostStreamDescriptor, HostStreamState, HostStreamStatus,
    ReadEffect, StreamManager, Streams,
};
use crate::whoami::WhoAmI;

verus! {

/// All streams but one are as they were.
pub open spec fn only_stream_changes(before: Streams, after: Streams, id: int) -> bool {
    &&& after.cursors == before.cursors
    &&& after.host_count == before.host_count
    &&& after.hosts.len() == before.hosts.len()
    &&& forall|k: int|
        0 <= k < before.hosts.len() && k != id ==> #[trigger] after.hosts[k] == before.hosts[k]
}

/// A call of `read_for_register` on a register without a CSV source, or with nothing behind it, gives
/// the register's own value and changes nothing.
pub proof fn law_plain_register_reads_as_its_value(
    manager: &mut StreamManager,
    tables: &ModelTables,
    addr: u8,
    fallback: u8,
    read: (u8, ReadEffect),
)
    requires
        call_ensures(StreamManager::read_for_register, (manager, tables, addr, fallback), read),
        ({
            let csv = tables.csv_index_by_addr@[addr as int];
            ||| csv < 0
            ||| tables.csv_registers@[csv as int].mode == CsvModeDef::Embedded
                && tables.csv_registers@[csv as int].data@.len() == 0
            ||| tables.csv_registers@[csv as int].mode == CsvModeDef::HostStream
                && tables.host_stream_index_by_addr@[addr as int] < 0
        }),
    ensures
        read.0 == fallback,
        read.1 == ReadEffect::NoEffect,
        final(manager)@ == old(manager)@,
{
}

/// A call of `read_for_register` on a register with samples in the firmware gives the next of them,
/// and the first one behind the last.
pub proof fn law_embedded_register_reads_its_samples(
    manager: &mut StreamManager,
    tables: &ModelTables,
    addr: u8,
    fallback: u8,
    read: (u8, ReadEffect),
    data: Seq<u8>,
)
    requires
        call_ensures(StreamManager::read_for_register, (manager, tables, addr, fallback), read),
        old(manager).wf(),
        tables.wf(),
        tables.csv_index_by_addr@[addr as int] >= 0,
        ({
            let register = tables.csv_registers@[tables.csv_index_by_addr@[addr as int] as int];
            register.mode == CsvModeDef::Embedded && register.data@ == data
        }),
        data.len() > 0,
    ensures
        ({
            let at = old(manager)@.cursors[addr as int] as int % data.len() as int;
            let next = final(manager)@.cursors[addr as int] as int;
            &&& read.0 == data[at]
            &&& read.1 == (ReadEffect::EmbeddedAdvance { addr })
            &&& next == if at == data.len() - 1 { 0 } else { at + 1 }
            &&& final(manager)@.hosts == old(manager)@.hosts
            &&& final(manager)@.host_count == old(manager)@.host_count
            &&& forall|a: int|
                0 <= a < 256 && a != addr ==> #[trigger] final(manager)@.cursors[a] == old(manager)@.cursors[a]
        }),
{
    let len = data.len() as int;
    old(manager).lemma_view_wf();
    assert(tables.csv_registers@[tables.csv_index_by_addr@[addr as int] as int].data@.len()
        <= u32::MAX);
    let at = old(manager)@.cursors[addr as int] as int % len;
    vstd::arithmetic::div_mod::lemma_mod_bound(old(manager)@.cursors[addr as int] as int, len);
    if at == len - 1 {
        vstd::arithmetic::div_mod::lemma_mod_self_0(len);
    } else {
        vstd::arithmetic::div_mod::lemma_small_mod((at + 1) as nat, len as nat);
    }
}

/// A call of `read_for_register` on a register that the host feeds gives the oldest byte that was fed
/// and not read. Where there is none, it gives the last one that was read, or the register's own
/// value before the first, and counts an underrun.
pub proof fn law_fed_register_reads_its_queue(
    manager: &mut StreamManager,
    tables: &ModelTables,
    addr: u8,
    fallback: u8,
    read: (u8, ReadEffect),
    id: int,
)
    requires
        call_ensures(StreamManager::read_for_register, (manager, tables, addr, fallback), read),
        old(manager).wf(),
        tables.wf(),
        tables.csv_index_by_addr@[addr as int] >= 0,
        tables.csv_registers@[tables.csv_index_by_addr@[addr as int] as int].mode
            == CsvModeDef::HostStream,
        tables.host_stream_index_by_addr@[addr as int] == id,
        0 <= id,
    ensures
        ({
            let before = old(manager)@.hosts[id];
            let after = final(manager)@.hosts[id];
            &&& only_stream_changes(old(manager)@, final(manager)@, id)
            &&& after.addr == before.addr
            &&& after.drops == before.drops
            &&& before.queue.len() > 0 ==> {
                &&& read.0 == before.queue[0]
                &&& read.1 == (ReadEffect::HostPop {
                    stream_id: id as u8,
                    value: before.queue[0],
                    prev_has_last: before.has_last,
                    prev_last: before.last_value,
                })
                &&& before.queue == seq![read.0] + after.queue
                &&& after.has_last
                &&& after.last_value == read.0
                &&& after.underruns == before.underruns
            }
            &&& before.queue.len() == 0 ==> {
                &&& read.0 == if before.has_last { before.last_value } else { fallback }
                &&& read.1 == (ReadEffect::HostUnderrun { stream_id: id as u8 })
                &&& after.queue == before.queue
                &&& after.has_last == before.has_last
                &&& after.last_value == before.last_value
                &&& after.underruns as int % 4294967296 == (before.underruns + 1) % 4294967296
                &&& before.underruns < 18446744073709551615 ==> after.underruns
                    == before.underruns + 1
            }
        }),
{
    old(manager).lemma_view_wf();
    assert(tables.host_stream_index_by_addr@[addr as int] < tables.host_stream_addrs@.len());
    let before = old(manager)@.hosts[id];
    if before.queue.len() > 0 {
        assert(before.queue =~= seq![before.queue[0]] + before.queue.drop_first());
    }
}

/// A call of `rollback_effect` puts a read back: a byte that was taken is in front of the queue
/// again, an underrun is not counted, and a cursor stands one sample before, the last one behind the
/// first.
pub proof fn law_rollback_puts_a_read_back(
    manager: &mut StreamManager,
    tables: &ModelTables,
    effect: ReadEffect,
)
    requires
        call_ensures(StreamManager::rollback_effect, (manager, tables, effect), ()),
        old(manager).wf(),
        tables.wf(),
    ensures
        match effect {
            ReadEffect::NoEffect => final(manager)@ == old(manager)@,
            ReadEffect::EmbeddedAdvance { addr } => {
                let csv = tables.csv_index_by_addr@[addr as int];
                let len = tables.csv_registers@[csv as int].data@.len() as int;
                let at = old(manager)@.cursors[addr as int] as int % len;
                if csv < 0 || len == 0 {
                    final(manager)@ == old(manager)@
                } else {
                    &&& final(manager)@.cursors[addr as int] as int == if at == 0 {
                        len - 1
                    } else {
                        at - 1
                    }
                    &&& final(manager)@.hosts == old(manager)@.hosts
                    &&& final(manager)@.host_count == old(manager)@.host_count
                    &&& forall|a: int|
                        0 <= a < 256 && a != addr ==> #[trigger] final(manager)@.cursors[a] == old(manager)@.cursors[a]
                }
            },
            ReadEffect::HostPop { stream_id, value, prev_has_last, prev_last } => {
                if stream_id >= old(manager)@.host_count {
                    final(manager)@ == old(manager)@
                } else {
                    let before = old(manager)@.hosts[stream_id as int];
                    let after = final(manager)@.hosts[stream_id as int];
                    &&& only_stream_changes(old(manager)@, final(manager)@, stream_id as int)
                    &&& after.queue == if before.queue.len() < 2048 {
                        seq![value] + before.queue
                    } else {
                        before.queue
                    }
                    &&& after.has_last == prev_has_last
                    &&& after.last_value == prev_last
                    &&& after.addr == before.addr
                    &&& after.underruns == before.underruns
                    &&& after.drops == before.drops
                }
            },
            ReadEffect::HostUnderrun { stream_id } => {
                if stream_id >= old(manager)@.host_count {
                    final(manager)@ == old(manager)@
                } else {
                    let before = old(manager)@.hosts[stream_id as int];
                    let after = final(manager)@.hosts[stream_id as int];
                    &&& only_stream_changes(old(manager)@, final(manager)@, stream_id as int)
                    &&& after == (HostStream {
                        underruns: after.underruns,
                        ..before
                    })
                    &&& after.underruns as int == if before.underruns > 0 {
                        before.underruns - 1
                    } else {
                        0
                    }
                }
            },
        },
{
    old(manager).lemma_view_wf();
    if let ReadEffect::EmbeddedAdvance { addr } = effect {
        let csv = tables.csv_index_by_addr@[addr as int];
        if csv >= 0 {
            let len = tables.csv_registers@[csv as int].data@.len() as int;
            assert(csv < tables.csv_registers@.len());
            assert(tables.csv_registers@[csv as int].data@.len() <= u32::MAX);
            if len > 0 {
                vstd::arithmetic::div_mod::lemma_mod_bound(
                    old(manager)@.cursors[addr as int] as int,
                    len,
                );
            }
        }
    }
}

/// A call of `feed` puts as many bytes behind the queue as there is room for in 2048, counts the
/// others as dropped, and tells both how many it took and how much room is left. It refuses a stream
/// that is not there.
pub proof fn law_feed_fills_the_queue(
    manager: &mut StreamManager,
    stream_id: u8,
    data: &[u8],
    result: Result<FeedResult, FeedError>,
)
    requires
        call_ensures(StreamManager::feed, (manager, stream_id, data), result),
        old(manager).wf(),
    ensures
        stream_id >= old(manager)@.host_count ==> result is Err && final(manager)@ == old(manager)@,
        stream_id < old(manager)@.host_count ==> {
            let before = old(manager)@.hosts[stream_id as int];
            let after = final(manager)@.hosts[stream_id as int];
            let room = 2048 - before.queue.len();
            let taken = if data@.len() < room { data@.len() as int } else { room };
            &&& only_stream_changes(old(manager)@, final(manager)@, stream_id as int)
            &&& after.queue == before.queue + data@.subrange(0, taken)
            &&& after.drops as int == (before.drops + (data@.len() - taken)) % 4294967296
            &&& after == (HostStream { queue: after.queue, drops: after.drops, ..before })
            &&& result matches Ok(told) && told.accepted == taken && told.free == room - taken
        },
{
    old(manager).lemma_view_wf();
    if stream_id < old(manager)@.host_count {
        assert(old(manager)@.hosts[stream_id as int].queue.len() <= 2048);
    }
}

/// A stream that is as at the start.
pub open spec fn is_fresh(s: HostStream, addr: int) -> bool {
    &&& s.addr == addr
    &&& s.queue.len() == 0
    &&& !s.has_last
    &&& s.underruns == 0
    &&& s.drops == 0
}

/// Calls of `new`, `init_from_model` and `reset_all`: every cursor is at the first sample and every
/// stream of the model is empty, with its own register.
pub proof fn law_streams_start_empty(
    fresh: StreamManager,
    manager: &mut StreamManager,
    tables: &ModelTables,
    other: &mut StreamManager,
)
    requires
        call_ensures(StreamManager::new, (), fresh),
        call_ensures(StreamManager::init_from_model, (manager, tables), ()),
        call_ensures(StreamManager::reset_all, (other,), ()),
        old(other).wf(),
        tables.host_stream_addrs@.len() <= 9,
    ensures
        fresh@.host_count == 0,
        forall|a: int| 0 <= a < 256 ==> #[trigger] fresh@.cursors[a] == 0,
        final(manager)@.host_count == tables.host_stream_addrs@.len(),
        forall|a: int| 0 <= a < 256 ==> #[trigger] final(manager)@.cursors[a] == 0,
        forall|k: int|
            0 <= k < tables.host_stream_addrs@.len() ==> is_fresh(
                #[trigger] final(manager)@.hosts[k],
                tables.host_stream_addrs@[k] as int,
            ),
        final(other)@.host_count == old(other)@.host_count,
        forall|a: int| 0 <= a < 256 ==> #[trigger] final(other)@.cursors[a] == 0,
        forall|k: int|
            0 <= k < old(other)@.host_count ==> is_fresh(
                #[trigger] final(other)@.hosts[k],
                old(other)@.hosts[k].addr as int,
            ),
{
    old(other).lemma_view_wf();
}

/// Calls of `descriptors` and `statuses` tell of every stream, as far as there is room for it, its
/// number, its register and what it holds.
pub proof fn law_streams_are_told(
    manager: &StreamManager,
    out: &mut [HostStreamDescriptor],
    count: usize,
    statuses: &mut [HostStreamStatus],
    told: usize,
)
    requires
        call_ensures(StreamManager::descriptors, (manager, out), count),
        call_ensures(StreamManager::statuses, (manager, statuses), told),
        manager.wf(),
    ensures
        count == if manager@.host_count < old(out)@.len() {
            manager@.host_count
        } else {
            old(out)@.len()
        },
        final(out)@.len() == old(out)@.len(),
        forall|k: int|
            0 <= k < count ==> (#[trigger] final(out)@[k]).stream_id == k && final(out)@[k].addr
                == manager@.hosts[k].addr && final(out)@[k].capacity == 2048,
        forall|k: int| count <= k < final(out)@.len() ==> #[trigger] final(out)@[k] == old(out)@[k],
        told == if manager@.host_count < old(statuses)@.len() {
            manager@.host_count
        } else {
            old(statuses)@.len()
        },
        final(statuses)@.len() == old(statuses)@.len(),
        forall|k: int|
            0 <= k < told ==> crate::cli_laws::tells_stream(
                #[trigger] final(statuses)@[k],
                manager@,
                k,
            ),
        forall|k: int|
            told <= k < final(statuses)@.len() ==> #[trigger] final(statuses)@[k] == old(statuses)@[k],
{
    manager.lemma_view_wf();
    assert forall|k: int| 0 <= k < told implies crate::cli_laws::tells_stream(
        #[trigger] final(statuses)@[k],
        manager@,
        k,
    ) by {
        assert(manager@.hosts[k].queue.len() <= 2048);
    }
}

/// Calls on one queue of 2048 bytes: what is pushed behind comes out in its order, and what is pushed
/// in front comes out first.
pub proof fn law_queue_is_first_in_first_out(
    a: &mut HostStreamState,
    popped: Option<u8>,
    b: &mut HostStreamState,
    data: &[u8],
    accepted: usize,
    c: &mut HostStreamState,
    value: u8,
)
    requires
        call_ensures(HostStreamState::pop_front, (a,), popped),
        call_ensures(HostStreamState::push_back, (b, data), accepted),
        call_ensures(HostStreamState::push_front_one, (c, value), ()),
        old(a).wf(),
        old(b).wf(),
        old(c).wf(),
    ensures
        match popped {
            Some(byte) => old(a)@.queue == seq![byte] + final(a)@.queue,
            None => old(a)@.queue.len() == 0 && final(a)@.queue.len() == 0,
        },
        accepted as int == if data@.len() < 2048 - old(b)@.queue.len() {
            data@.len() as int
        } else {
            2048 - old(b)@.queue.len()
        },
        final(b)@.queue == old(b)@.queue + data@.subrange(0, accepted as int),
        final(c)@.queue == if old(c)@.queue.len() < 2048 {
            seq![value] + old(c)@.queue
        } else {
            old(c)@.queue
        },
{
    old(a).lemma_queue_fits();
    old(b).lemma_queue_fits();
    if let Some(byte) = popped {
        assert(old(a)@.queue =~= seq![byte] + final(a)@.queue);
    }
    assert(final(b)@.queue =~= old(b)@.queue + data@.subrange(0, accepted as int));
}

/// A call of `RegisterFile::new` gives every register of the model its default and its access, fills
/// the other addresses, which cannot be written, and points to the first address.
pub proof fn law_new_file_holds_the_defaults(tables: &ModelTables, file: RegisterFile)
    requires
        call_ensures(RegisterFile::new, (tables,), file),
        regfile_laws::rise(tables.registers@),
    ensures
        file@.pointer == 0,
        forall|k: int|
            0 <= k < tables.registers@.len() ==> {
                &&& file@.regs[(#[trigger] tables.registers@[k]).addr as int]
                    == tables.registers@[k].default
                &&& file@.writable[tables.registers@[k].addr as int] == (tables.registers@[k].access
                    == Access::Rw)
            },
        forall|a: int|
            #![trigger file@.regs[a]]
            0 <= a < 256 && (forall|k: int|
                0 <= k < tables.registers@.len() ==> (#[trigger] tables.registers@[k]).addr != a)
                ==> file@.regs[a] == tables.default_fill && !file@.writable[a],
{
    regfile_laws::law_fresh_registers(*tables);
}

/// A call of `reset_non_csv_to_defaults` gives the registers without a CSV source their defaults,
/// leaves every other value, and points to the first address.
pub proof fn law_reset_gives_the_defaults(file: &mut RegisterFile, tables: &ModelTables)
    requires
        call_ensures(RegisterFile::reset_non_csv_to_defaults, (file, tables), ()),
        regfile_laws::rise(tables.registers@),
    ensures
        final(file)@.pointer == 0,
        final(file)@.writable == old(file)@.writable,
        forall|k: int|
            0 <= k < tables.registers@.len()
                && tables.csv_index_by_addr@[(#[trigger] tables.registers@[k]).addr as int] < 0
                ==> final(file)@.regs[tables.registers@[k].addr as int]
                == tables.registers@[k].default,
        forall|a: int|
            0 <= a < 256 && (tables.csv_index_by_addr@[a] >= 0 || forall|k: int|
                0 <= k < tables.registers@.len() ==> (#[trigger] tables.registers@[k]).addr != a)
                ==> #[trigger] final(file)@.regs[a] == old(file)@.regs[a],
{
    RegisterFile::lemma_view_wf(*old(file));
    regfile_laws::law_reset_restores_defaults(old(file)@.regs, *tables);
}

/// Calls of `pointer` and `set_pointer`.
pub proof fn law_pointer_is_what_was_set(
    file: &mut RegisterFile,
    address: u8,
    other: &RegisterFile,
    told: u8,
)
    requires
        call_ensures(RegisterFile::set_pointer, (file, address), ()),
        call_ensures(RegisterFile::pointer, (other,), told),
    ensures
        final(file)@.pointer == address,
        final(file)@.regs == old(file)@.regs,
        final(file)@.writable == old(file)@.writable,
        told == other@.pointer,
{
}

/// A call of `write_payload` puts each byte into the register that it goes to, where that can be
/// written and no later byte goes there too, and leaves all others; it tells how many bytes went to
/// registers that can be written.
pub proof fn law_payload_is_written(
    file: &mut RegisterFile,
    tables: &ModelTables,
    payload: &[u8],
    accepted: usize,
)
    requires
        call_ensures(RegisterFile::write_payload, (file, tables, payload), accepted),
    ensures
        final(file)@.writable == old(file)@.writable,
        final(file)@.pointer as int == bus_laws::read_addr(
            old(file)@.pointer,
            tables.auto_increment,
            payload@.len() as int,
        ),
        accepted == bus_laws::writable_bytes(
            old(file)@,
            tables.auto_increment,
            old(file)@.pointer,
            payload@.len() as int + 1,
        ),
        forall|i: int|
            0 <= i < payload@.len() && old(file)@.writable[bus_laws::read_addr(
                old(file)@.pointer,
                tables.auto_increment,
                i,
            )] && (forall|j: int|
                i < j < payload@.len() ==> #[trigger] bus_laws::read_addr(
                    old(file)@.pointer,
                    tables.auto_increment,
                    j,
                ) != bus_laws::read_addr(old(file)@.pointer, tables.auto_increment, i)) ==> final(file)@.regs[bus_laws::read_addr(old(file)@.pointer, tables.auto_increment, i)]
                == #[trigger] payload@[i],
        forall|addr: int|
            0 <= addr < 256 && (!old(file)@.writable[addr] || forall|i: int|
                0 <= i < payload@.len() ==> #[trigger] bus_laws::read_addr(
                    old(file)@.pointer,
                    tables.auto_increment,
                    i,
                ) != addr) ==> #[trigger] final(file)@.regs[addr] == old(file)@.regs[addr],
{
    let f = old(file)@;
    let inc = tables.auto_increment;
    RegisterFile::lemma_view_wf(*old(file));
    regfile_laws::law_writes_move_the_pointer(f, inc, payload@);
    regfile_laws::law_read_only_registers_keep_their_values(f, inc, payload@, 0);
    bus_laws::lemma_accepted(f, inc, payload@);
    assert forall|i: int| bus_laws::write_addr(f.pointer, inc, i + 1) == #[trigger] bus_laws::read_addr(
        f.pointer,
        inc,
        i,
    ) by {}
    assert forall|i: int|
        0 <= i < payload@.len() && f.writable[bus_laws::read_addr(f.pointer, inc, i)] && (forall|j: int|
            i < j < payload@.len() ==> #[trigger] bus_laws::read_addr(f.pointer, inc, j)
                != bus_laws::read_addr(f.pointer, inc, i)) implies final(file)@.regs[bus_laws::read_addr(
        f.pointer,
        inc,
        i,
    )] == #[trigger] payload@[i] by {
        assert forall|j: int| i < j < payload@.len() implies #[trigger] bus_laws::write_addr(
            f.pointer,
            inc,
            j + 1,
        ) != bus_laws::write_addr(f.pointer, inc, i + 1) by {
            assert(bus_laws::read_addr(f.pointer, inc, j) != bus_laws::read_addr(f.pointer, inc, i));
        }
        bus_laws::lemma_written_value(f, inc, payload@, i);
    }
    assert forall|addr: int|
        0 <= addr < 256 && (!f.writable[addr] || forall|i: int|
            0 <= i < payload@.len() ==> #[trigger] bus_laws::read_addr(f.pointer, inc, i) != addr)
        implies #[trigger] final(file)@.regs[addr] == f.regs[addr] by {
        regfile_laws::law_read_only_registers_keep_their_values(f, inc, payload@, addr);
        if f.writable[addr] {
            assert forall|k: int| 0 <= k < payload@.len() implies #[trigger] bus_laws::write_addr(
                f.pointer,
                inc,
                k + 1,
            ) != addr by {
                assert(bus_laws::read_addr(f.pointer, inc, k) != addr);
            }
            bus_laws::lemma_not_written(f, inc, payload@, addr);
        }
    }
}

/// A call of `read_into` fills the room with the bytes from the pointer on: the values of the
/// registers, where no CSV source stands behind them. It moves the pointer and leaves the registers.
pub proof fn law_registers_are_read(
    file: &mut RegisterFile,
    tables: &ModelTables,
    manager: &mut StreamManager,
    out: &mut [u8],
    effects: &mut [ReadEffect],
)
    requires
        call_ensures(RegisterFile::read_into, (file, tables, manager, out, effects), ()),
        old(effects)@.len() >= old(out)@.len(),
    ensures
        final(out)@.len() == old(out)@.len(),
        final(effects)@.len() == old(effects)@.len(),
        final(file)@.regs == old(file)@.regs,
        final(file)@.writable == old(file)@.writable,
        final(file)@.pointer as int == bus_laws::read_addr(
            old(file)@.pointer,
            tables.auto_increment,
            old(out)@.len() as int,
        ),
        forall|i: int|
            0 <= i < old(out)@.len() && tables.csv_index_by_addr@[bus_laws::read_addr(
                old(file)@.pointer,
                tables.auto_increment,
                i,
            )] < 0 ==> #[trigger] final(out)@[i] == old(file)@.regs[bus_laws::read_addr(
                old(file)@.pointer,
                tables.auto_increment,
                i,
            )],
        ({
            let run = regfile::read_run(old(file)@, old(manager)@, *tables, old(out)@.len());
            &&& final(out)@ == run.values
            &&& final(manager)@ == run.streams
            &&& final(effects)@.take(old(out)@.len() as int) == run.effects
            &&& forall|i: int|
                old(out)@.len() <= i < old(effects)@.len() ==> #[trigger] final(effects)@[i] == old(effects)@[i]
        }),
        old(out)@.len() == 1 ==> {
            let step = streams::read_step(
                old(manager)@,
                *tables,
                old(file)@.pointer,
                old(file)@.regs[old(file)@.pointer as int],
            );
            &&& final(out)@[0] == step.value
            &&& final(effects)@[0] == step.effect
            &&& final(manager)@ == step.after
        },
{
    bus_laws::law_read_gives_the_registers(old(file)@, old(manager)@, *tables, old(out)@.len());
    bus_laws::law_read_goes_on(old(file)@, old(manager)@, *tables, 0);
    regfile_laws::lemma_run_lengths(old(file)@, old(manager)@, *tables, 0);
    regfile_laws::lemma_run_lengths(old(file)@, old(manager)@, *tables, old(out)@.len());
    let run = regfile::read_run(old(file)@, old(manager)@, *tables, old(out)@.len());
    assert(final(effects)@.take(old(out)@.len() as int) =~= run.effects);
}

/// A call of `rollback_unread` moves the pointer back by the bytes that were not read, and takes
/// their effects back, last one first.
pub proof fn law_unread_bytes_are_taken_back(
    file: &mut RegisterFile,
    tables: &ModelTables,
    manager: &mut StreamManager,
    effects: &[ReadEffect],
    unread: usize,
)
    requires
        call_ensures(RegisterFile::rollback_unread, (file, tables, manager, effects, unread), ()),
    ensures
        final(file)@.regs == old(file)@.regs,
        final(file)@.writable == old(file)@.writable,
        final(file)@.pointer as int == if tables.auto_increment {
            (old(file)@.pointer - unread) % 256
        } else {
            old(file)@.pointer as int
        },
        final(manager)@ == taken_back(old(manager)@, *tables, effects@, unread as int),
{
    lemma_taken_back(old(manager)@, *tables, effects@, unread as int);
}

/// The streams with the last `count` of some effects taken back, last one first, or all of them where
/// there are fewer.
pub open spec fn taken_back(
    s: Streams,
    tables: ModelTables,
    effects: Seq<ReadEffect>,
    count: int,
) -> Streams
    decreases effects.len(),
{
    if count <= 0 || effects.len() == 0 {
        s
    } else {
        taken_back(
            streams::rolled_back(s, tables, effects[effects.len() - 1]),
            tables,
            effects.take(effects.len() - 1),
            count - 1,
        )
    }
}

proof fn lemma_taken_back(s: Streams, tables: ModelTables, effects: Seq<ReadEffect>, count: int)
    requires
        count >= 0,
    ensures
        regfile::all_rolled_back(s, tables, regfile::last_effects(effects, count as nat))
            == taken_back(s, tables, effects, count),
    decreases effects.len(),
{
    let some = regfile::last_effects(effects, count as nat);
    if count == 0 || effects.len() == 0 {
        assert(some.len() == 0);
    } else {
        let rest = effects.take(effects.len() - 1);
        lemma_taken_back(
            streams::rolled_back(s, tables, effects.last()),
            tables,
            rest,
            count - 1,
        );
        assert(some.last() == effects.last());
        assert(some.drop_last() =~= regfile::last_effects(rest, (count - 1) as nat));
    }
}

/// The device with a single register: it answers a read with 0x42 where the bus master points to
/// 0x0F, as it does at the start, and with nothing else than zero elsewhere; the first byte of a write
/// says where it points to.
pub proof fn law_single_register_is_read(
    fresh: WhoAmI,
    device: &mut WhoAmI,
    event: BusEvent,
    buffer: &[u8],
    answer: Option<u8>,
    shown: &WhoAmI,
    reg: u8,
    other: u8,
    value: u8,
)
    requires
        call_ensures(WhoAmI::new, (), fresh),
        call_ensures(WhoAmI::on_event, (device, event, buffer), answer),
        call_ensures(WhoAmI::current_reg, (shown,), reg),
        call_ensures(crate::whoami::read_register, (other,), value),
    ensures
        fresh.current() == 15,
        reg == shown.current(),
        value == if other == 15 { 66u8 } else { 0u8 },
        match event {
            BusEvent::Write { len } => answer is None && final(device).current() == if len > 0 {
                buffer@[0]
            } else {
                old(device).current()
            },
            BusEvent::WriteRead { len } => {
                let at = if len > 0 { buffer@[0] } else { old(device).current() };
                &&& final(device).current() == at
                &&& answer == Some(if at == 15 { 66u8 } else { 0u8 })
            },
            BusEvent::Read => {
                &&& final(device).current() == old(device).current()
                &&& answer == Some(if old(device).current() == 15 { 66u8 } else { 0u8 })
            },
            _ => answer is None && final(device).current() == old(device).current(),
        },
        crate::whoami::SLAVE_ADDR == 95,
        crate::whoami::FILL_VALUE == 0,
{
}

}
