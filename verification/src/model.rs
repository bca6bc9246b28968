//! The tables that the firmware runs on, made from a device model and its CSV sources.
use vstd::prelude::*;

use crate::csv_specs;
use crate::csv_specs::ResolvedCsvSpec;
use crate::device_model;
use crate::device_model::{Access, CsvModeDef, DeviceModel, RegisterDef, MAX_HOST_STREAM_REGS};
use crate::ordering;

verus! {

/// What registers are sorted by.
pub open spec fn register_key() -> spec_fn(RegisterDef) -> int {
    |r: RegisterDef| r.addr as int
}

/// Registers sorted by address.
pub open spec fn sorted_registers(regs: Seq<RegisterDef>) -> Seq<RegisterDef> {
    ordering::sort_by(regs, register_key())
}

/// The registers at the given places.
pub open spec fn registers_at(regs: Seq<RegisterDef>, order: Seq<usize>) -> Seq<RegisterDef> {
    order.map_values(|i: usize| regs[i as int])
}

/// The places of registers in the order of their addresses.
pub fn register_order(regs: &Vec<RegisterDef>) -> (order: Vec<usize>)
    ensures
        order@.len() == regs@.len(),
        forall|k: int| 0 <= k < order@.len() ==> #[trigger] order@[k] < regs@.len(),
        registers_at(regs@, order@) == sorted_registers(regs@),
{
    let mut order: Vec<usize> = Vec::new();
    let mut i: usize = 0;
    assert(registers_at(regs@, order@) =~= sorted_registers(regs@.take(0)));
    while i < regs.len()
        invariant
            i <= regs.len(),
            order@.len() == i,
            forall|k: int| 0 <= k < order@.len() ==> #[trigger] order@[k] < regs@.len(),
            registers_at(regs@, order@) == sorted_registers(regs@.take(i as int)),
        decreases regs.len() - i,
    {
        let ghost views = registers_at(regs@, order@);
        let ghost reg = regs@[i as int];
        let mut at: usize = order.len();
        while at > 0 && regs[order[at - 1]].addr > regs[i].addr
            invariant
                i < regs.len(),
                reg == regs@[i as int],
                at <= order.len(),
                views == registers_at(regs@, order@),
                forall|k: int| 0 <= k < order@.len() ==> #[trigger] order@[k] < regs@.len(),
                forall|k: int|
                    at <= k < views.len() ==> register_key()(reg) < register_key()(
                        #[trigger] views[k],
                    ),
            decreases at,
        {
            assert(views[at - 1] == regs@[order@[at - 1] as int]);
            at = at - 1;
        }
        proof {
            if at > 0 {
                assert(views[at - 1] == regs@[order@[at - 1] as int]);
            }
            ordering::lemma_insert_at(views, reg, register_key(), at as int);
            let next = regs@.take(i + 1);
            assert(next.drop_last() =~= regs@.take(i as int));
            assert(next.last() == reg);
        }
        order.insert(at, i);
        assert(registers_at(regs@, order@) =~= views.insert(at as int, reg));
        i = i + 1;
    }
    assert(regs@.take(regs.len() as int) =~= regs@);
    order
}

/// For every address the place of its CSV source among the first `n`, or -1.
pub open spec fn csv_index(specs: Seq<csv_specs::CsvSpec>, n: nat) -> Seq<i16>
    decreases n,
{
    if n == 0 {
        Seq::new(256, |a: int| -1i16)
    } else {
        csv_index(specs, (n - 1) as nat).update(specs[n - 1].addr as int, (n - 1) as i16)
    }
}

/// The addresses of the host-fed sources among the first `n`.
pub open spec fn host_addrs(specs: Seq<csv_specs::CsvSpec>, n: nat) -> Seq<u8>
    decreases n,
{
    if n == 0 {
        Seq::empty()
    } else if specs[n - 1].mode == CsvModeDef::HostStream {
        host_addrs(specs, (n - 1) as nat).push(specs[n - 1].addr as u8)
    } else {
        host_addrs(specs, (n - 1) as nat)
    }
}

/// For every address the place of its source among the host-fed ones of the first `n`, or -1.
pub open spec fn host_index(specs: Seq<csv_specs::CsvSpec>, n: nat) -> Seq<i16>
    decreases n,
{
    if n == 0 {
        Seq::new(256, |a: int| -1i16)
    } else if specs[n - 1].mode == CsvModeDef::HostStream {
        host_index(specs, (n - 1) as nat).update(
            specs[n - 1].addr as int,
            host_addrs(specs, (n - 1) as nat).len() as i16,
        )
    } else {
        host_index(specs, (n - 1) as nat)
    }
}

/// The tables by which the firmware finds a CSV source.
pub struct IndexTables {
    pub csv_index_by_addr: [i16; 256],
    pub host_stream_addrs: Vec<u8>,
    pub host_stream_index_by_addr: [i16; 256],
}

/// Builds the tables by which the firmware finds a CSV source.
pub fn index_tables(specs: &Vec<ResolvedCsvSpec>) -> (tables: IndexTables)
    requires
        forall|k: int| 0 <= k < specs@.len() ==> (#[trigger] specs@[k]).addr < 256,
    ensures
        tables.csv_index_by_addr@ == csv_index(csv_specs::spec_views(specs@), specs@.len()),
        tables.host_stream_addrs@ == host_addrs(csv_specs::spec_views(specs@), specs@.len()),
        tables.host_stream_index_by_addr@ == host_index(
            csv_specs::spec_views(specs@),
            specs@.len(),
        ),
{
    let ghost views = csv_specs::spec_views(specs@);
    let mut csv_index_by_addr: [i16; 256] = [-1i16; 256];
    let mut host_stream_index_by_addr: [i16; 256] = [-1i16; 256];
    let mut host_stream_addrs: Vec<u8> = Vec::new();
    let mut i: usize = 0;
    assert(csv_index_by_addr@ =~= csv_index(views, 0));
    assert(host_stream_index_by_addr@ =~= host_index(views, 0));
    while i < specs.len()
        invariant
            i <= specs.len(),
            views == csv_specs::spec_views(specs@),
            forall|k: int| 0 <= k < specs@.len() ==> (#[trigger] specs@[k]).addr < 256,
            csv_index_by_addr@ == csv_index(views, i as nat),
            host_stream_addrs@ == host_addrs(views, i as nat),
            host_stream_index_by_addr@ == host_index(views, i as nat),
        decreases specs.len() - i,
    {
        let spec = &specs[i];
        assert(views[i as int] == spec@);
        let at: usize = spec.addr as usize;
        csv_index_by_addr[at] = i as i16;
        if spec.mode == CsvModeDef::HostStream {
            host_stream_index_by_addr[at] = host_stream_addrs.len() as i16;
            host_stream_addrs.push(spec.addr as u8);
        }
        i = i + 1;
    }
    IndexTables { csv_index_by_addr, host_stream_addrs, host_stream_index_by_addr }
}

/// A register as the firmware knows it.
#[derive(Debug)]
pub struct RegisterSpec {
    pub addr: u8,
    pub default: u8,
    pub access: Access,
    pub name: String,
}

/// A register with a CSV source as the firmware knows it.
#[derive(Debug)]
pub struct CsvRegisterSpec {
    pub addr: u8,
    pub mode: CsvModeDef,
    pub data: Vec<u8>,
}

/// The tables that the firmware runs on.
pub struct ModelTables {
    pub device_name: String,
    pub i2c_address_7bit: u8,
    pub i2c_internal_pullups: bool,
    pub i2c_respond_to_general_call: bool,
    pub default_fill: u8,
    pub auto_increment: bool,
    /// The registers, by rising address.
    pub registers: Vec<RegisterSpec>,
    /// The registers with a CSV source, by rising address.
    pub csv_registers: Vec<CsvRegisterSpec>,
    /// For every address its place in `csv_registers`, or a negative number.
    pub csv_index_by_addr: [i16; 256],
    /// The addresses of the host-fed registers, by stream number.
    pub host_stream_addrs: Vec<u8>,
    /// For every address its stream number, or a negative number.
    pub host_stream_index_by_addr: [i16; 256],
}

impl ModelTables {
    /// Every number in the tables leads to an entry that is there.
    pub open spec fn wf(self) -> bool {
        &&& forall|a: int|
            0 <= a < 256 ==> #[trigger] self.csv_index_by_addr@[a] < self.csv_registers@.len()
        &&& forall|a: int|
            0 <= a < 256 ==> #[trigger] self.host_stream_index_by_addr@[a]
                < self.host_stream_addrs@.len()
        &&& self.host_stream_addrs@.len() <= MAX_HOST_STREAM_REGS
        &&& forall|k: int|
            0 <= k < self.csv_registers@.len() ==> (#[trigger] self.csv_registers@[k]).data@.len()
                <= u32::MAX
    }

    /// Tells whether every number in the tables leads to an entry that is there.
    pub fn is_sound(&self) -> (sound: bool)
        ensures
            sound == self.wf(),
    {
        if self.host_stream_addrs.len() > MAX_HOST_STREAM_REGS {
            return false;
        }
        let mut a: usize = 0;
        while a < 256
            invariant
                a <= 256,
                self.host_stream_addrs@.len() <= MAX_HOST_STREAM_REGS,
                forall|b: int|
                    0 <= b < a ==> #[trigger] self.csv_index_by_addr@[b]
                        < self.csv_registers@.len(),
                forall|b: int|
                    0 <= b < a ==> #[trigger] self.host_stream_index_by_addr@[b]
                        < self.host_stream_addrs@.len(),
            decreases 256 - a,
        {
            let csv: i16 = self.csv_index_by_addr[a];
            let host: i16 = self.host_stream_index_by_addr[a];
            if csv >= 0 && csv as usize >= self.csv_registers.len() {
                return false;
            }
            if host >= 0 && host as usize >= self.host_stream_addrs.len() {
                return false;
            }
            a = a + 1;
        }
        let mut k: usize = 0;
        while k < self.csv_registers.len()
            invariant
                k <= self.csv_registers@.len(),
                forall|j: int|
                    0 <= j < k ==> (#[trigger] self.csv_registers@[j]).data@.len() <= u32::MAX,
            decreases self.csv_registers@.len() - k,
        {
            if self.csv_registers[k].data.len() as u64 > u32::MAX as u64 {
                return false;
            }
            k = k + 1;
        }
        true
    }

    /// The tables that a model and its resolved CSV sources make.
    pub open spec fn made_from(
        self,
        model: DeviceModel,
        specs: Seq<csv_specs::CsvSpec>,
    ) -> bool {
        let regs = sorted_registers(model.registers@);
        &&& self.device_name@ == model.device_name@
        &&& self.i2c_address_7bit == model.i2c_address_7bit
        &&& self.i2c_internal_pullups == model.i2c_internal_pullups
        &&& self.i2c_respond_to_general_call == model.i2c_respond_to_general_call
        &&& self.default_fill == model.default_fill
        &&& self.auto_increment == model.auto_increment
        &&& self.registers@.len() == regs.len()
        &&& forall|k: int| 0 <= k < regs.len() ==> is_register(#[trigger] self.registers@[k], regs[k])
        &&& self.csv_registers@.len() == specs.len()
        &&& forall|k: int|
            0 <= k < specs.len() ==> is_csv_register(#[trigger] self.csv_registers@[k], specs[k])
        &&& self.csv_index_by_addr@ == csv_index(specs, specs.len())
        &&& self.host_stream_addrs@ == host_addrs(specs, specs.len())
        &&& self.host_stream_index_by_addr@ == host_index(specs, specs.len())
    }
}

/// `spec` is what the firmware knows of `reg`.
pub open spec fn is_register(spec: RegisterSpec, reg: RegisterDef) -> bool {
    &&& spec.addr == reg.addr
    &&& spec.default == reg.default
    &&& spec.access == reg.access
    &&& spec.name@ == reg.name@
}

/// `entry` is what the firmware knows of `spec`.
pub open spec fn is_csv_register(entry: CsvRegisterSpec, spec: csv_specs::CsvSpec) -> bool {
    &&& entry.addr == spec.addr
    &&& entry.mode == spec.mode
    &&& entry.data@ == spec.data
}

/// Makes the tables that the firmware runs on.
pub fn model_tables(model: &DeviceModel, specs: &Vec<ResolvedCsvSpec>) -> (tables: ModelTables)
    requires
        forall|i: int| 0 <= i < model.registers@.len() ==> (#[trigger] model.registers@[i]).addr < 256,
        forall|k: int| 0 <= k < specs@.len() ==> (#[trigger] specs@[k]).addr < 256,
    ensures
        tables.made_from(*model, csv_specs::spec_views(specs@)),
{
    let index = index_tables(specs);
    let order = register_order(&model.registers);
    let ghost regs = sorted_registers(model.registers@);
    let ghost views = csv_specs::spec_views(specs@);
    assert(regs.len() == order@.len());
    let mut registers: Vec<RegisterSpec> = Vec::new();
    let mut i: usize = 0;
    while i < order.len()
        invariant
            i <= order.len(),
            order@.len() == regs.len(),
            regs == registers_at(model.registers@, order@),
            forall|k: int| 0 <= k < order@.len() ==> #[trigger] order@[k] < model.registers@.len(),
            forall|k: int|
                0 <= k < model.registers@.len() ==> (#[trigger] model.registers@[k]).addr < 256,
            registers@.len() == i,
            forall|k: int| 0 <= k < i ==> is_register(#[trigger] registers@[k], regs[k]),
        decreases order.len() - i,
    {
        let reg = &model.registers[order[i]];
        assert(regs[i as int] == reg);
        registers.push(
            RegisterSpec {
                addr: reg.addr as u8,
                default: reg.default,
                access: reg.access,
                name: reg.name.clone(),
            },
        );
        i = i + 1;
    }
    let mut csv_registers: Vec<CsvRegisterSpec> = Vec::new();
    let mut k: usize = 0;
    while k < specs.len()
        invariant
            k <= specs.len(),
            views == csv_specs::spec_views(specs@),
            forall|j: int| 0 <= j < specs@.len() ==> (#[trigger] specs@[j]).addr < 256,
            csv_registers@.len() == k,
            forall|j: int| 0 <= j < k ==> is_csv_register(#[trigger] csv_registers@[j], views[j]),
        decreases specs.len() - k,
    {
        let spec = &specs[k];
        let data = spec.data.clone();
        assert(data@ =~= spec.data@);
        csv_registers.push(CsvRegisterSpec { addr: spec.addr as u8, mode: spec.mode, data });
        k = k + 1;
    }
    ModelTables {
        device_name: model.device_name.clone(),
        i2c_address_7bit: model.i2c_address_7bit,
        i2c_internal_pullups: model.i2c_internal_pullups,
        i2c_respond_to_general_call: model.i2c_respond_to_general_call,
        default_fill: model.default_fill,
        auto_increment: model.auto_increment,
        registers,
        csv_registers,
        csv_index_by_addr: index.csv_index_by_addr,
        host_stream_addrs: index.host_stream_addrs,
        host_stream_index_by_addr: index.host_stream_index_by_addr,
    }
}

}
