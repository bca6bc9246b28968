//! What holds of the register file over several calls.
use vstd::prelude::*;

use crate::csv_specs;
use crate::device_model::{Access, DeviceModel};
use crate::model;
use crate::model::{ModelTables, RegisterSpec};
use crate::ordering;
use crate::regfile;
use crate::regfile::Registers;
use crate::stream_laws;
use crate::streams;

verus! {

/// Registers at strictly rising addresses.
pub open spec fn rise(registers: Seq<RegisterSpec>) -> bool {
    forall|i: int, j: int|
        0 <= i < j < registers.len() ==> (#[trigger] registers[i]).addr < (
        #[trigger] registers[j]).addr
}

/// The registers of a valid model are at strictly rising addresses.
pub proof fn law_registers_rise(
    device: DeviceModel,
    specs: Seq<csv_specs::CsvSpec>,
    tables: ModelTables,
)
    requires
        device.is_valid(),
        tables.made_from(device, specs),
    ensures
        rise(tables.registers@),
{
    ordering::lemma_sort_by_strict(device.registers@, model::register_key());
    let regs = model::sorted_registers(device.registers@);
    assert forall|i: int, j: int| 0 <= i < j < tables.registers@.len() implies (
    #[trigger] tables.registers@[i]).addr < (#[trigger] tables.registers@[j]).addr by {
        assert(model::is_register(tables.registers@[i], regs[i]));
        assert(model::is_register(tables.registers@[j], regs[j]));
        assert((model::register_key())(regs[i]) < (model::register_key())(regs[j]));
    }
}

/// What the first `n` registers leave in a file.
pub proof fn lemma_with_registers(f: Registers, registers: Seq<RegisterSpec>, n: nat)
    requires
        f.wf(),
        n <= registers.len(),
        rise(registers),
    ensures
        ({
            let all = regfile::with_registers(f, registers, n);
            &&& all.wf()
            &&& all.pointer == f.pointer
            &&& forall|k: int|
                0 <= k < n ==> {
                    &&& all.regs[(#[trigger] registers[k]).addr as int] == registers[k].default
                    &&& all.writable[registers[k].addr as int] == (registers[k].access
                        == Access::Rw)
                }
            &&& forall|a: int|
                #![trigger all.regs[a]]
                #![trigger all.writable[a]]
                0 <= a < 256 && (forall|k: int| 0 <= k < n ==> (#[trigger] registers[k]).addr != a)
                    ==> all.regs[a] == f.regs[a] && all.writable[a] == f.writable[a]
        }),
    decreases n,
{
    if n > 0 {
        lemma_with_registers(f, registers, (n - 1) as nat);
    }
}

/// At the start every register of the model has its default and its access; every other address
/// holds the fill value and cannot be written; and the first address is pointed to.
pub proof fn law_fresh_registers(tables: ModelTables)
    requires
        rise(tables.registers@),
    ensures
        ({
            let f = regfile::model_registers(tables);
            &&& f.wf()
            &&& f.pointer == 0
            &&& forall|k: int|
                0 <= k < tables.registers@.len() ==> {
                    &&& f.regs[(#[trigger] tables.registers@[k]).addr as int]
                        == tables.registers@[k].default
                    &&& f.writable[tables.registers@[k].addr as int] == (
                    tables.registers@[k].access == Access::Rw)
                }
            &&& forall|a: int|
                #![trigger f.regs[a]]
                #![trigger f.writable[a]]
                0 <= a < 256 && (forall|k: int|
                    0 <= k < tables.registers@.len() ==> (#[trigger] tables.registers@[k]).addr
                        != a) ==> f.regs[a] == tables.default_fill && !f.writable[a]
        }),
{
    lemma_with_registers(
        Registers {
            regs: Seq::new(256, |a: int| tables.default_fill),
            writable: Seq::new(256, |a: int| false),
            pointer: 0,
        },
        tables.registers@,
        tables.registers@.len(),
    );
}

/// What the plain ones of the first `n` registers leave in register values.
proof fn lemma_with_plain_defaults(regs: Seq<u8>, tables: ModelTables, n: nat)
    requires
        regs.len() == 256,
        n <= tables.registers@.len(),
        rise(tables.registers@),
    ensures
        ({
            let all = regfile::with_plain_defaults(regs, tables, n);
            &&& all.len() == 256
            &&& forall|k: int|
                0 <= k < n && tables.csv_index_by_addr@[(#[trigger] tables.registers@[k]).addr as int]
                    < 0 ==> all[tables.registers@[k].addr as int] == tables.registers@[k].default
            &&& forall|a: int|
                0 <= a < 256 && (tables.csv_index_by_addr@[a] >= 0 || forall|k: int|
                    0 <= k < n ==> (#[trigger] tables.registers@[k]).addr != a)
                    ==> #[trigger] all[a] == regs[a]
        }),
    decreases n,
{
    if n > 0 {
        lemma_with_plain_defaults(regs, tables, (n - 1) as nat);
    }
}

/// A reset gives every register of the model without a CSV source its default and leaves the value
/// at every other address.
pub proof fn law_reset_restores_defaults(regs: Seq<u8>, tables: ModelTables)
    requires
        regs.len() == 256,
        rise(tables.registers@),
    ensures
        ({
            let n = tables.registers@.len();
            let all = regfile::with_plain_defaults(regs, tables, n);
            &&& all.len() == 256
            &&& forall|k: int|
                0 <= k < n && tables.csv_index_by_addr@[(#[trigger] tables.registers@[k]).addr as int]
                    < 0 ==> all[tables.registers@[k].addr as int] == tables.registers@[k].default
            &&& forall|a: int|
                0 <= a < 256 && (tables.csv_index_by_addr@[a] >= 0 || forall|k: int|
                    0 <= k < n ==> (#[trigger] tables.registers@[k]).addr != a)
                    ==> #[trigger] all[a] == regs[a]
        }),
{
    lemma_with_plain_defaults(regs, tables, tables.registers@.len());
}

/// A write moves the pointer by the number of its bytes, around the end of the address space, or
/// leaves it where the device does not increment it.
pub proof fn law_writes_move_the_pointer(f: Registers, auto_increment: bool, payload: Seq<u8>)
    ensures
        regfile::written(f, auto_increment, payload).pointer == if auto_increment {
            regfile::moved_pointer(f.pointer, payload.len() as int)
        } else {
            f.pointer
        },
    decreases payload.len(),
{
    if payload.len() > 0 {
        law_writes_move_the_pointer(f, auto_increment, payload.drop_last());
    }
}

/// A read moves the pointer as a write of as many bytes does.
pub proof fn law_reads_move_the_pointer(
    f: Registers,
    s: streams::Streams,
    tables: ModelTables,
    count: nat,
)
    ensures
        regfile::read_run(f, s, tables, count).pointer == if tables.auto_increment {
            regfile::moved_pointer(f.pointer, count as int)
        } else {
            f.pointer
        },
    decreases count,
{
    if count > 0 {
        law_reads_move_the_pointer(f, s, tables, (count - 1) as nat);
    }
}

/// No write changes a read-only register, nor which registers are read-only.
pub proof fn law_read_only_registers_keep_their_values(
    f: Registers,
    auto_increment: bool,
    payload: Seq<u8>,
    addr: int,
)
    requires
        f.wf(),
        0 <= addr < 256,
    ensures
        regfile::written(f, auto_increment, payload).wf(),
        regfile::written(f, auto_increment, payload).writable == f.writable,
        !f.writable[addr] ==> regfile::written(f, auto_increment, payload).regs[addr]
            == f.regs[addr],
    decreases payload.len(),
{
    if payload.len() > 0 {
        law_read_only_registers_keep_their_values(f, auto_increment, payload.drop_last(), addr);
    }
}

/// The byte that a write leaves in a register, where the pointer moves: the last one that came past
/// it.
proof fn lemma_written_byte(f: Registers, payload: Seq<u8>, i: int)
    requires
        f.wf(),
        0 <= i < payload.len() <= i + 256,
        f.writable[regfile::moved_pointer(f.pointer, i) as int],
    ensures
        regfile::written(f, true, payload).regs[regfile::moved_pointer(f.pointer, i) as int]
            == payload[i],
    decreases payload.len(),
{
    let head = payload.drop_last();
    let at = regfile::moved_pointer(f.pointer, i) as int;
    law_read_only_registers_keep_their_values(f, true, head, at);
    law_writes_move_the_pointer(f, true, head);
    if i < head.len() {
        lemma_written_byte(f, head, i);
    }
}

/// Bytes written to plain writable registers are read back from where they were written, up to a
/// whole turn around the address space.
pub proof fn law_written_bytes_are_read_back(
    f: Registers,
    s: streams::Streams,
    tables: ModelTables,
    payload: Seq<u8>,
    i: int,
)
    requires
        f.wf(),
        tables.auto_increment,
        0 <= i < payload.len() <= i + 256,
        f.writable[regfile::moved_pointer(f.pointer, i) as int],
        tables.csv_index_by_addr@[regfile::moved_pointer(f.pointer, i) as int] < 0,
    ensures
        ({
            let after = regfile::written(f, true, payload);
            let again = Registers { pointer: f.pointer, ..after };
            regfile::read_run(again, s, tables, payload.len()).values[i] == payload[i]
        }),
{
    let after = regfile::written(f, true, payload);
    let again = Registers { pointer: f.pointer, ..after };
    lemma_written_byte(f, payload, i);
    lemma_read_value(again, s, tables, payload.len(), i);
}

/// A plain register reads as its value.
proof fn lemma_read_value(
    f: Registers,
    s: streams::Streams,
    tables: ModelTables,
    count: nat,
    i: int,
)
    requires
        tables.auto_increment,
        0 <= i < count,
        tables.csv_index_by_addr@[regfile::moved_pointer(f.pointer, i) as int] < 0,
    ensures
        regfile::read_run(f, s, tables, count).values.len() == count,
        regfile::read_run(f, s, tables, count).values[i] == f.regs[regfile::moved_pointer(
            f.pointer,
            i,
        ) as int],
    decreases count,
{
    let before = (count - 1) as nat;
    lemma_run_lengths(f, s, tables, before);
    law_reads_move_the_pointer(f, s, tables, before);
    if i < before {
        lemma_read_value(f, s, tables, before, i);
    }
}

/// A run has a value and an effect for each read.
pub proof fn lemma_run_lengths(f: Registers, s: streams::Streams, tables: ModelTables, count: nat)
    ensures
        regfile::read_run(f, s, tables, count).values.len() == count,
        regfile::read_run(f, s, tables, count).effects.len() == count,
    decreases count,
{
    if count > 0 {
        lemma_run_lengths(f, s, tables, (count - 1) as nat);
    }
}

/// Reads keep the streams those of the model.
pub proof fn law_reads_keep_streams_fit(
    f: Registers,
    s: streams::Streams,
    tables: ModelTables,
    count: nat,
)
    requires
        tables.wf(),
        stream_laws::fit(s, tables),
    ensures
        stream_laws::fit(regfile::read_run(f, s, tables, count).streams, tables),
    decreases count,
{
    if count > 0 {
        law_reads_keep_streams_fit(f, s, tables, (count - 1) as nat);
        let run = regfile::read_run(f, s, tables, (count - 1) as nat);
        stream_laws::law_streams_stay_fit(
            run.streams,
            tables,
            run.pointer,
            f.regs[run.pointer as int],
            0,
            Seq::empty(),
        );
    }
}

/// Read number `j` of a run would add an underrun to the largest number that is kept of them.
pub open spec fn read_wraps_counter(
    f: Registers,
    s: streams::Streams,
    tables: ModelTables,
    j: int,
) -> bool {
    let run = regfile::read_run(f, s, tables, j as nat);
    stream_laws::counter_wraps(run.streams, tables, run.pointer)
}

/// Taking back the last `unread` of `count` reads gives what fewer reads would have left: the same
/// streams and the same pointer. (The reads that are taken back must not have added to the
/// largest number of underruns that is kept.)
pub proof fn law_rollback_undoes_unread(
    f: Registers,
    s: streams::Streams,
    tables: ModelTables,
    count: nat,
    unread: nat,
)
    requires
        tables.wf(),
        stream_laws::fit(s, tables),
        unread <= count,
        forall|j: int| count - unread <= j < count ==> !#[trigger] read_wraps_counter(f, s, tables, j),
    ensures
        ({
            let all = regfile::read_run(f, s, tables, count);
            let fewer = regfile::read_run(f, s, tables, (count - unread) as nat);
            let back = regfile::last_effects(all.effects, unread);
            &&& regfile::all_rolled_back(all.streams, tables, back) == fewer.streams
            &&& fewer.pointer == if tables.auto_increment {
                regfile::moved_pointer(all.pointer, -(unread as int))
            } else {
                all.pointer
            }
        }),
    decreases unread,
{
    lemma_rollback_undoes_unread(f, s, tables, count, unread);
    law_reads_move_the_pointer(f, s, tables, count);
    law_reads_move_the_pointer(f, s, tables, (count - unread) as nat);
}

/// Taking back the last read of a run leaves the streams of the run without it.
pub proof fn lemma_rollback_undoes_last(
    f: Registers,
    s: streams::Streams,
    tables: ModelTables,
    count: nat,
)
    requires
        tables.wf(),
        stream_laws::fit(s, tables),
        count > 0,
    ensures
        ({
            let all = regfile::read_run(f, s, tables, count);
            let run = regfile::read_run(f, s, tables, (count - 1) as nat);
            let back = streams::rolled_back(all.streams, tables, all.effects.last());
            &&& all.effects.len() == count
            &&& all.effects.drop_last() == run.effects
            &&& stream_laws::as_reported(back) == stream_laws::as_reported(run.streams)
            &&& !read_wraps_counter(f, s, tables, count - 1) ==> back == run.streams
        }),
{
    let all = regfile::read_run(f, s, tables, count);
    let run = regfile::read_run(f, s, tables, (count - 1) as nat);
    let fallback = f.regs[run.pointer as int];
    lemma_run_lengths(f, s, tables, count);
    law_reads_keep_streams_fit(f, s, tables, (count - 1) as nat);
    assert(all.effects.drop_last() =~= run.effects);
    stream_laws::law_rollback_undoes_read(run.streams, tables, run.pointer, fallback);
}

/// Taking back the last `unread` of `count` reads leaves the streams of fewer reads.
proof fn lemma_rollback_undoes_unread(
    f: Registers,
    s: streams::Streams,
    tables: ModelTables,
    count: nat,
    unread: nat,
)
    requires
        tables.wf(),
        stream_laws::fit(s, tables),
        unread <= count,
        forall|j: int| count - unread <= j < count ==> !#[trigger] read_wraps_counter(f, s, tables, j),
    ensures
        ({
            let all = regfile::read_run(f, s, tables, count);
            let fewer = regfile::read_run(f, s, tables, (count - unread) as nat);
            let back = regfile::last_effects(all.effects, unread);
            regfile::all_rolled_back(all.streams, tables, back) == fewer.streams
        }),
    decreases unread,
{
    lemma_run_lengths(f, s, tables, count);
    let effects = regfile::read_run(f, s, tables, count).effects;
    let back = regfile::last_effects(effects, unread);
    if unread > 0 {
        let before = (count - 1) as nat;
        assert(!read_wraps_counter(f, s, tables, count - 1));
        lemma_rollback_undoes_last(f, s, tables, count);
        lemma_rollback_undoes_unread(f, s, tables, before, (unread - 1) as nat);
        assert(back.drop_last() =~= regfile::last_effects(
            effects.drop_last(),
            (unread - 1) as nat,
        ));
        assert(back.last() == effects.last());
    } else {
        assert(back.len() == 0);
    }
}

}
