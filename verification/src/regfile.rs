//! The register file that the I2C bus reads and writes.
use vstd::prelude::*;

use crate::device_model::Access;
use crate::model::{ModelTables, RegisterSpec};
use crate::streams;
use crate::streams::{ReadEffect, StreamManager};

verus! {

/// The registers of a device, and the register that the bus points to.
pub struct RegisterFile {
    regs: [u8; 256],
    writable: [bool; 256],
    pointer: u8,
}

/// A [`RegisterFile`] as sequences over the address space.
#[verifier::ext_equal]
pub struct Registers {
    pub regs: Seq<u8>,
    pub writable: Seq<bool>,
    pub pointer: u8,
}

impl View for RegisterFile {
    type V = Registers;

    closed spec fn view(&self) -> Registers {
        Registers { regs: self.regs@, writable: self.writable@, pointer: self.pointer }
    }
}

impl Registers {
    /// There is a register at every address.
    pub open spec fn wf(self) -> bool {
        self.regs.len() == 256 && self.writable.len() == 256
    }
}

/// The address after another one: the last is followed by the first.
pub open spec fn next_pointer(pointer: u8, auto_increment: bool) -> u8 {
    if auto_increment { moved_pointer(pointer, 1) } else { pointer }
}

/// The address `count` places behind another one, around the end of the address space.
pub open spec fn moved_pointer(pointer: u8, count: int) -> u8 {
    ((pointer + count) % 256) as u8
}

/// A file with the default and the access of one register.
pub open spec fn with_register(f: Registers, reg: RegisterSpec) -> Registers {
    Registers {
        regs: f.regs.update(reg.addr as int, reg.default),
        writable: f.writable.update(reg.addr as int, reg.access == Access::Rw),
        pointer: f.pointer,
    }
}

/// A file with the defaults and the accesses of the first `n` registers.
pub open spec fn with_registers(f: Registers, registers: Seq<RegisterSpec>, n: nat) -> Registers
    decreases n,
{
    if n == 0 {
        f
    } else {
        with_register(with_registers(f, registers, (n - 1) as nat), registers[n - 1])
    }
}

/// The file of a model at the start.
pub open spec fn model_registers(tables: ModelTables) -> Registers {
    with_registers(
        Registers {
            regs: Seq::new(256, |a: int| tables.default_fill),
            writable: Seq::new(256, |a: int| false),
            pointer: 0,
        },
        tables.registers@,
        tables.registers@.len(),
    )
}

/// Register values with the defaults of those of the first `n` registers that have no CSV source.
pub open spec fn with_plain_defaults(regs: Seq<u8>, tables: ModelTables, n: nat) -> Seq<u8>
    decreases n,
{
    if n == 0 {
        regs
    } else {
        let rest = with_plain_defaults(regs, tables, (n - 1) as nat);
        let reg = tables.registers@[n - 1];
        if tables.csv_index_by_addr@[reg.addr as int] >= 0 {
            rest
        } else {
            rest.update(reg.addr as int, reg.default)
        }
    }
}

/// A file after one byte was written to it.
pub open spec fn write_byte(f: Registers, auto_increment: bool, byte: u8) -> Registers {
    Registers {
        regs: if f.writable[f.pointer as int] {
            f.regs.update(f.pointer as int, byte)
        } else {
            f.regs
        },
        pointer: next_pointer(f.pointer, auto_increment),
        writable: f.writable,
    }
}

/// A file after bytes were written to it, first byte first.
pub open spec fn written(f: Registers, auto_increment: bool, payload: Seq<u8>) -> Registers
    decreases payload.len(),
{
    if payload.len() == 0 {
        f
    } else {
        write_byte(
            written(f, auto_increment, payload.drop_last()),
            auto_increment,
            payload.last(),
        )
    }
}

/// How many of some written bytes go to registers that can be written.
pub open spec fn accepted_writes(f: Registers, auto_increment: bool, payload: Seq<u8>) -> nat
    decreases payload.len(),
{
    if payload.len() == 0 {
        0
    } else {
        let before = written(f, auto_increment, payload.drop_last());
        accepted_writes(f, auto_increment, payload.drop_last()) + if before.writable[before.pointer as int] {
            1nat
        } else {
            0nat
        }
    }
}

/// What some reads in a row give, what each did to the streams, and what is left after them.
#[verifier::ext_equal]
pub struct ReadRun {
    pub values: Seq<u8>,
    pub effects: Seq<ReadEffect>,
    pub pointer: u8,
    pub streams: streams::Streams,
}

/// One more read after some.
pub open spec fn read_next(run: ReadRun, regs: Seq<u8>, tables: ModelTables) -> ReadRun {
    let step = streams::read_step(
        run.streams,
        tables,
        run.pointer,
        regs[run.pointer as int],
    );
    ReadRun {
        values: run.values.push(step.value),
        effects: run.effects.push(step.effect),
        pointer: next_pointer(run.pointer, tables.auto_increment),
        streams: step.after,
    }
}

/// `count` reads in a row.
pub open spec fn read_run(
    f: Registers,
    s: streams::Streams,
    tables: ModelTables,
    count: nat,
) -> ReadRun
    decreases count,
{
    if count == 0 {
        ReadRun { values: Seq::empty(), effects: Seq::empty(), pointer: f.pointer, streams: s }
    } else {
        read_next(read_run(f, s, tables, (count - 1) as nat), f.regs, tables)
    }
}

/// The streams with effects of reads taken back, last effect first.
pub open spec fn all_rolled_back(
    s: streams::Streams,
    tables: ModelTables,
    effects: Seq<ReadEffect>,
) -> streams::Streams
    decreases effects.len(),
{
    if effects.len() == 0 {
        s
    } else {
        all_rolled_back(
            streams::rolled_back(s, tables, effects.last()),
            tables,
            effects.drop_last(),
        )
    }
}

/// The last `count` of some effects, or all of them where there are fewer.
pub open spec fn last_effects(effects: Seq<ReadEffect>, count: nat) -> Seq<ReadEffect> {
    if count < effects.len() {
        effects.skip(effects.len() - count)
    } else {
        effects
    }
}

impl RegisterFile {
    /// Every file has a register at every address.
    pub proof fn lemma_view_wf(self)
        ensures
            self@.wf(),
    {
    }

    /// The registers of a model with their defaults, the first of them pointed to.
    pub fn new(tables: &ModelTables) -> (rf: Self)
        ensures
            rf@ == model_registers(*tables),
    {
        let mut regs: [u8; 256] = [0u8; 256];
        let mut i: usize = 0;
        while i < 256
            invariant
                i <= 256,
                forall|k: int| 0 <= k < i ==> #[trigger] regs@[k] == tables.default_fill,
            decreases 256 - i,
        {
            regs[i] = tables.default_fill;
            i = i + 1;
        }
        let mut rf = RegisterFile { regs, writable: [false; 256], pointer: 0 };
        assert(rf@ =~= Registers {
            regs: Seq::new(256, |a: int| tables.default_fill),
            writable: Seq::new(256, |a: int| false),
            pointer: 0,
        });
        rf.apply_model_defaults(tables);
        rf
    }

    /// Gives the registers of a model their defaults and accesses.
    pub fn apply_model_defaults(&mut self, tables: &ModelTables)
        ensures
            final(self)@ == with_registers(old(self)@, tables.registers@, tables.registers@.len()),
    {
        let ghost before = self@;
        let mut i: usize = 0;
        while i < tables.registers.len()
            invariant
                i <= tables.registers.len(),
                self@ == with_registers(before, tables.registers@, i as nat),
            decreases tables.registers.len() - i,
        {
            let reg = &tables.registers[i];
            let idx: usize = reg.addr as usize;
            self.regs[idx] = reg.default;
            self.writable[idx] = matches!(reg.access, Access::Rw);
            i = i + 1;
        }
    }

    /// The address that the next read or write goes to.
    pub fn pointer(&self) -> (pointer: u8)
        ensures
            pointer == self@.pointer,
    {
        self.pointer
    }

    /// Points to another address.
    pub fn set_pointer(&mut self, pointer: u8)
        ensures
            final(self)@ == (Registers { pointer, ..old(self)@ }),
    {
        self.pointer = pointer;
    }

    /// Gives the registers without a CSV source their defaults, and points to the first address.
    pub fn reset_non_csv_to_defaults(&mut self, tables: &ModelTables)
        ensures
            final(self)@ == (Registers {
                regs: with_plain_defaults(old(self)@.regs, *tables, tables.registers@.len()),
                pointer: 0,
                ..old(self)@
            }),
    {
        let ghost before = self@;
        let mut i: usize = 0;
        while i < tables.registers.len()
            invariant
                i <= tables.registers.len(),
                self@ == (Registers {
                    regs: with_plain_defaults(before.regs, *tables, i as nat),
                    ..before
                }),
            decreases tables.registers.len() - i,
        {
            let reg = &tables.registers[i];
            let idx: usize = reg.addr as usize;
            if tables.csv_index_by_addr[idx] < 0 {
                self.regs[idx] = reg.default;
            }
            i = i + 1;
        }
        self.pointer = 0;
    }

    /// Writes bytes from the pointer on, skips those for read-only registers, and says how many it
    /// did not skip.
    pub fn write_payload(&mut self, tables: &ModelTables, payload: &[u8]) -> (accepted: usize)
        ensures
            final(self)@ == written(old(self)@, tables.auto_increment, payload@),
            accepted == accepted_writes(old(self)@, tables.auto_increment, payload@),
    {
        let ghost before = self@;
        let ghost inc = tables.auto_increment;
        let mut ptr: u8 = self.pointer;
        let mut accepted: usize = 0;
        let mut i: usize = 0;
        assert(payload@.take(0) =~= Seq::<u8>::empty());
        while i < payload.len()
            invariant
                i <= payload.len(),
                inc == tables.auto_increment,
                (Registers { pointer: ptr, ..self@ }) == written(
                    before,
                    inc,
                    payload@.take(i as int),
                ),
                accepted == accepted_writes(before, inc, payload@.take(i as int)),
                accepted <= i,
            decreases payload.len() - i,
        {
            let ghost earlier = Registers { pointer: ptr, ..self@ };
            let idx: usize = ptr as usize;
            if self.writable[idx] {
                self.regs[idx] = payload[i];
                accepted = accepted + 1;
            }
            if tables.auto_increment {
                ptr = ptr.wrapping_add(1);
            }
            proof {
                let some = payload@.take(i + 1);
                assert(some.drop_last() =~= payload@.take(i as int));
                assert((Registers { pointer: ptr, ..self@ }) =~= write_byte(
                    earlier,
                    inc,
                    some.last(),
                ));
            }
            i = i + 1;
        }
        assert(payload@.take(i as int) =~= payload@);
        self.pointer = ptr;
        accepted
    }

    /// Reads as many bytes as `out` holds from the pointer on, and notes what each read did to the
    /// streams.
    pub fn read_into(
        &mut self,
        tables: &ModelTables,
        manager: &mut StreamManager,
        out: &mut [u8],
        effects: &mut [ReadEffect],
    )
        requires
            tables.wf(),
            old(manager).wf(),
            old(effects)@.len() >= old(out)@.len(),
        ensures
            final(manager).wf(),
            ({
                let run = read_run(old(self)@, old(manager)@, *tables, old(out)@.len());
                &&& final(self)@ == (Registers { pointer: run.pointer, ..old(self)@ })
                &&& final(manager)@ == run.streams
                &&& final(out)@ == run.values
                &&& final(effects)@ == run.effects + old(effects)@.skip(old(out)@.len() as int)
            }),
    {
        let ghost before = self@;
        let ghost start = manager@;
        let ghost effects_before = effects@;
        let len: usize = out.len();
        let mut ptr: u8 = self.pointer;
        let mut idx: usize = 0;
        let ghost mut run = read_run(before, start, *tables, 0);
        while idx < len
            invariant
                idx <= len,
                tables.wf(),
                manager.wf(),
                out@.len() == len,
                effects@.len() >= len,
                effects@.len() == effects_before.len(),
                self@ == before,
                run == read_run(before, start, *tables, idx as nat),
                run.values.len() == idx,
                run.effects.len() == idx,
                run.pointer == ptr,
                run.streams == manager@,
                forall|k: int| 0 <= k < idx ==> #[trigger] out@[k] == run.values[k],
                forall|k: int| 0 <= k < idx ==> #[trigger] effects@[k] == run.effects[k],
                forall|k: int| len <= k < effects@.len() ==> #[trigger] effects@[k] == effects_before[k],
            decreases len - idx,
        {
            let fallback: u8 = self.regs[ptr as usize];
            let (value, effect) = manager.read_for_register(tables, ptr, fallback);
            out[idx] = value;
            effects[idx] = effect;
            if tables.auto_increment {
                ptr = ptr.wrapping_add(1);
            }
            proof {
                run = read_next(run, before.regs, *tables);
            }
            idx = idx + 1;
        }
        self.pointer = ptr;
        assert(out@ =~= run.values);
        assert(effects@ =~= run.effects + effects_before.skip(len as int));
    }

    /// Takes back the last `unread` of some reads.
    pub fn rollback_unread(
        &mut self,
        tables: &ModelTables,
        manager: &mut StreamManager,
        effects: &[ReadEffect],
        unread: usize,
    )
        requires
            tables.wf(),
            old(manager).wf(),
        ensures
            final(manager).wf(),
            final(self)@ == (Registers {
                pointer: if tables.auto_increment {
                    moved_pointer(old(self)@.pointer, -(unread as int))
                } else {
                    old(self)@.pointer
                },
                ..old(self)@
            }),
            final(manager)@ == all_rolled_back(
                old(manager)@,
                *tables,
                last_effects(effects@, unread as nat),
            ),
    {
        let ghost before = manager@;
        let ghost back = last_effects(effects@, unread as nat);
        if unread == 0 {
            assert(back.len() == 0);
            return;
        }
        if tables.auto_increment {
            assert(unread as u8 == unread % 256) by (bit_vector);
            self.pointer = self.pointer.wrapping_sub(unread as u8);
        }
        let start: usize = effects.len().saturating_sub(unread);
        let mut i: usize = effects.len();
        assert(effects@.subrange(start as int, i as int) =~= back);
        while i > start
            invariant
                start <= i <= effects@.len(),
                tables.wf(),
                manager.wf(),
                all_rolled_back(manager@, *tables, effects@.subrange(start as int, i as int))
                    == all_rolled_back(before, *tables, back),
            decreases i,
        {
            let ghost some = effects@.subrange(start as int, i as int);
            i = i - 1;
            assert(some.drop_last() =~= effects@.subrange(start as int, i as int));
            manager.rollback_effect(tables, effects[i]);
        }
    }
}

}
