//! The device model that JSON describes, and the rules that it keeps.
use vstd::prelude::*;

use crate::text;

verus! {

/// How many registers a host may feed.
pub const MAX_HOST_STREAM_REGS: usize = 9;

/// How many bytes the buffer of a host-fed register holds.
pub const HOST_STREAM_BUFFER_CAPACITY: usize = 2048;

/// How many sample bytes may be compiled into the firmware, over all registers.
pub const EMBEDDED_CSV_BUDGET_BYTES: usize = 32768;

/// How many register addresses there are.
pub const REGISTER_ADDRESS_SPACE_SIZE: usize = 256;

/// How many bits a register address has.
pub const ADDR_WIDTH_BITS: u64 = 8;

/// An emulated device.
#[derive(Debug)]
pub struct DeviceModel {
    pub device_name: String,
    pub i2c_address_7bit: u8,
    pub i2c_internal_pullups: bool,
    pub i2c_respond_to_general_call: bool,
    pub default_fill: u8,
    pub auto_increment: bool,
    pub registers: Vec<RegisterDef>,
}

/// A register of a device.
#[derive(Debug, Clone)]
pub struct RegisterDef {
    pub addr: u16,
    pub default: u8,
    pub access: Access,
    pub name: String,
    pub csv: Option<CsvSourceDef>,
}

/// The CSV file that a register plays.
#[derive(Debug, Clone)]
pub struct CsvSourceDef {
    pub path: String,
    pub mode: CsvModeDef,
}

/// Where the samples of a register come from.
#[derive(Debug, Clone, Copy, PartialEq, Eq, Structural)]
pub enum CsvModeDef {
    /// They are compiled into the firmware.
    Embedded,
    /// The host feeds them over USB.
    HostStream,
}

/// What the bus may do with a register.
#[derive(Debug, Clone, Copy, PartialEq, Eq, Structural)]
pub enum Access {
    Ro,
    Rw,
}

/// A rule that a device model breaks.
#[derive(Debug, Clone, Copy, PartialEq, Eq, Structural)]
pub enum ModelFault {
    ReservedI2cAddress,
    TooManyRegisters { count: usize },
    AddressOutOfRange { addr: u16 },
    DuplicateAddress { addr: u16 },
    CsvNotReadOnly { addr: u16 },
    EmptyCsvPath { addr: u16 },
    TooManyHostStreams { count: usize },
}

/// Why there is no device model.
#[derive(Debug)]
pub enum ModelError {
    /// The JSON text describes none; with the decoder's words.
    Json { detail: String },
    /// It breaks a rule.
    Invalid { fault: ModelFault },
}

impl ModelFault {
    /// The message for a reader.
    pub open spec fn message_text(self) -> Seq<char> {
        match self {
            ModelFault::ReservedI2cAddress =>
                "i2c_address_7bit must be in 0x08..=0x77 (0x00..=0x07 and 0x78..=0x7F are reserved)"@,
            ModelFault::TooManyRegisters { count } => "register count "@ + text::dec_text(
                count as nat,
            ) + " exceeds 8-bit address space capacity "@ + text::dec_text(
                REGISTER_ADDRESS_SPACE_SIZE as nat,
            ),
            ModelFault::AddressOutOfRange { addr } => "register addr "@ + text::dec_text(
                addr as nat,
            ) + " is outside 8-bit address space (0..=255)"@,
            ModelFault::DuplicateAddress { addr } => "duplicate register addr "@ + text::dec_text(
                addr as nat,
            ),
            ModelFault::CsvNotReadOnly { addr } => "register addr "@ + text::dec_text(addr as nat)
                + " uses CSV but is not read-only"@,
            ModelFault::EmptyCsvPath { addr } => "register addr "@ + text::dec_text(addr as nat)
                + " has empty csv.path"@,
            ModelFault::TooManyHostStreams { count } => "host_stream register count "@
                + text::dec_text(count as nat) + " exceeds limit "@ + text::dec_text(
                MAX_HOST_STREAM_REGS as nat,
            ),
        }
    }

    /// The message for a reader.
    pub fn message(&self) -> (out: String)
        ensures
            out@ == self.message_text(),
    {
        let mut out = String::new();
        match *self {
            ModelFault::ReservedI2cAddress => {
                out.append(
                    "i2c_address_7bit must be in 0x08..=0x77 (0x00..=0x07 and 0x78..=0x7F are reserved)",
                );
            },
            ModelFault::TooManyRegisters { count } => {
                out.append("register count ");
                text::push_dec(&mut out, count as u64);
                out.append(" exceeds 8-bit address space capacity ");
                text::push_dec(&mut out, REGISTER_ADDRESS_SPACE_SIZE as u64);
            },
            ModelFault::AddressOutOfRange { addr } => {
                out.append("register addr ");
                text::push_dec(&mut out, addr as u64);
                out.append(" is outside 8-bit address space (0..=255)");
            },
            ModelFault::DuplicateAddress { addr } => {
                out.append("duplicate register addr ");
                text::push_dec(&mut out, addr as u64);
            },
            ModelFault::CsvNotReadOnly { addr } => {
                out.append("register addr ");
                text::push_dec(&mut out, addr as u64);
                out.append(" uses CSV but is not read-only");
            },
            ModelFault::EmptyCsvPath { addr } => {
                out.append("register addr ");
                text::push_dec(&mut out, addr as u64);
                out.append(" has empty csv.path");
            },
            ModelFault::TooManyHostStreams { count } => {
                out.append("host_stream register count ");
                text::push_dec(&mut out, count as u64);
                out.append(" exceeds limit ");
                text::push_dec(&mut out, MAX_HOST_STREAM_REGS as u64);
            },
        }
        assert(out@ =~= self.message_text());
        out
    }
}

impl ModelError {
    /// The message for a reader.
    pub open spec fn message_text(self) -> Seq<char> {
        match self {
            ModelError::Json { detail } => "parsing model JSON: "@ + detail@,
            ModelError::Invalid { fault } => fault.message_text(),
        }
    }

    /// The message for a reader.
    pub fn message(&self) -> (out: String)
        ensures
            out@ == self.message_text(),
    {
        match self {
            ModelError::Json { detail } => {
                let mut out = String::new();
                out.append("parsing model JSON: ");
                out.append(detail.as_str());
                assert(out@ =~= self.message_text());
                out
            },
            ModelError::Invalid { fault } => fault.message(),
        }
    }
}

/// Whether a register is fed by the host.
pub open spec fn is_host_stream(reg: RegisterDef) -> bool {
    reg.csv matches Some(csv) && csv.mode == CsvModeDef::HostStream
}

/// The registers that have a CSV source, in their order.
pub open spec fn csv_registers(regs: Seq<RegisterDef>) -> Seq<RegisterDef> {
    regs.filter(|r: RegisterDef| r.csv is Some)
}

/// The registers that the host feeds, in their order.
pub open spec fn host_stream_registers(regs: Seq<RegisterDef>) -> Seq<RegisterDef> {
    regs.filter(|r: RegisterDef| is_host_stream(r))
}

/// The rule that register `i` breaks, given those before it.
pub open spec fn register_fault(regs: Seq<RegisterDef>, i: int) -> Option<ModelFault> {
    let reg = regs[i];
    if reg.addr >= REGISTER_ADDRESS_SPACE_SIZE {
        Some(ModelFault::AddressOutOfRange { addr: reg.addr })
    } else if exists|j: int| 0 <= j < i && (#[trigger] regs[j]).addr == reg.addr {
        Some(ModelFault::DuplicateAddress { addr: reg.addr })
    } else {
        match reg.csv {
            Some(csv) => if reg.access != Access::Ro {
                Some(ModelFault::CsvNotReadOnly { addr: reg.addr })
            } else if text::trim(csv.path@).len() == 0 {
                Some(ModelFault::EmptyCsvPath { addr: reg.addr })
            } else {
                None
            },
            None => None,
        }
    }
}

/// The rule that the first faulty register among the first `n` breaks.
pub open spec fn first_register_fault(regs: Seq<RegisterDef>, n: nat) -> Option<ModelFault>
    decreases n,
{
    if n == 0 {
        None
    } else {
        match first_register_fault(regs, (n - 1) as nat) {
            Some(fault) => Some(fault),
            None => register_fault(regs, n - 1),
        }
    }
}

impl DeviceModel {
    /// The first rule that the model breaks.
    pub open spec fn fault(self) -> Option<ModelFault> {
        let regs = self.registers@;
        let hosts = host_stream_registers(regs).len();
        if !(0x08 <= self.i2c_address_7bit <= 0x77) {
            Some(ModelFault::ReservedI2cAddress)
        } else if regs.len() > REGISTER_ADDRESS_SPACE_SIZE {
            Some(ModelFault::TooManyRegisters { count: regs.len() as usize })
        } else {
            match first_register_fault(regs, regs.len()) {
                Some(fault) => Some(fault),
                None => if hosts > MAX_HOST_STREAM_REGS {
                    Some(ModelFault::TooManyHostStreams { count: hosts as usize })
                } else {
                    None
                },
            }
        }
    }

    /// The model keeps every rule.
    pub open spec fn is_valid(self) -> bool {
        let regs = self.registers@;
        &&& 0x08 <= self.i2c_address_7bit <= 0x77
        &&& regs.len() <= REGISTER_ADDRESS_SPACE_SIZE
        &&& forall|i: int|
            0 <= i < regs.len() ==> (#[trigger] regs[i]).addr < REGISTER_ADDRESS_SPACE_SIZE
        &&& forall|i: int, j: int|
            0 <= i < j < regs.len() ==> (#[trigger] regs[i]).addr != (#[trigger] regs[j]).addr
        &&& forall|i: int|
            0 <= i < regs.len() && (#[trigger] regs[i]).csv is Some ==> regs[i].access == Access::Ro
                && text::trim(regs[i].csv->0.path@).len() > 0
        &&& host_stream_registers(regs).len() <= MAX_HOST_STREAM_REGS
    }
}

/// No register among the first `n` is faulty when and only when none of them breaks a rule.
proof fn lemma_no_register_fault(regs: Seq<RegisterDef>, n: nat)
    requires
        n <= regs.len(),
    ensures
        first_register_fault(regs, n) is None <==> forall|i: int|
            0 <= i < n ==> #[trigger] register_fault(regs, i) is None,
    decreases n,
{
    if n > 0 {
        lemma_no_register_fault(regs, (n - 1) as nat);
    }
}

/// A model breaks no rule when and only when it keeps them all.
pub proof fn lemma_valid_iff_no_fault(model: DeviceModel)
    ensures
        model.fault() is None <==> model.is_valid(),
{
    let regs = model.registers@;
    lemma_no_register_fault(regs, regs.len());
    if model.fault() is None {
        assert forall|i: int| 0 <= i < regs.len() implies (#[trigger] regs[i]).addr
            < REGISTER_ADDRESS_SPACE_SIZE by {
            assert(register_fault(regs, i) is None);
        }
        assert forall|i: int, j: int| 0 <= i < j < regs.len() implies (#[trigger] regs[i]).addr != (
        #[trigger] regs[j]).addr by {
            assert(register_fault(regs, j) is None);
        }
        assert forall|i: int|
            0 <= i < regs.len() && (#[trigger] regs[i]).csv is Some implies regs[i].access
            == Access::Ro && text::trim(regs[i].csv->0.path@).len() > 0 by {
            assert(register_fault(regs, i) is None);
        }
    }
    if model.is_valid() {
        assert forall|i: int| 0 <= i < regs.len() implies #[trigger] register_fault(
            regs,
            i,
        ) is None by {
            let reg = regs[i];
            assert(regs[i].addr < REGISTER_ADDRESS_SPACE_SIZE);
            assert(!exists|j: int| 0 <= j < i && (#[trigger] regs[j]).addr == reg.addr);
        }
    }
}

fn is_blank(s: &str) -> (b: bool)
    ensures
        b == (text::trim(s@).len() == 0),
{
    let chars = text::chars_of(s);
    let (lo, hi) = text::trimmed_bounds(&chars, 0, chars.len());
    assert(chars@.subrange(0, chars.len() as int) =~= chars@);
    lo == hi
}

/// Holds a model to every rule; the first one that it breaks is reported.
pub fn validate(model: &DeviceModel) -> (checked: Result<(), ModelFault>)
    ensures
        checked is Ok <==> model.is_valid(),
        match checked {
            Ok(_) => model.fault() is None,
            Err(fault) => model.fault() == Some(fault),
        },
{
    proof {
        lemma_valid_iff_no_fault(*model);
    }
    if !(0x08 <= model.i2c_address_7bit && model.i2c_address_7bit <= 0x77) {
        return Err(ModelFault::ReservedI2cAddress);
    }
    let regs = &model.registers;
    if regs.len() > REGISTER_ADDRESS_SPACE_SIZE {
        return Err(ModelFault::TooManyRegisters { count: regs.len() });
    }
    let mut seen: [bool; 256] = [false; 256];
    let mut host_streams: usize = 0;
    let mut i: usize = 0;
    proof {
        reveal(Seq::filter);
    }
    assert(regs@.take(0).len() == 0);
    while i < regs.len()
        invariant
            i <= regs.len() <= 256,
            regs == &model.registers,
            0x08 <= model.i2c_address_7bit <= 0x77,
            first_register_fault(regs@, i as nat) is None,
            host_streams <= i,
            host_streams == host_stream_registers(regs@.take(i as int)).len(),
            forall|a: int|
                0 <= a < 256 ==> (#[trigger] seen@[a] <==> exists|j: int|
                    0 <= j < i && (#[trigger] regs@[j]).addr == a),
            model.fault() is None <==> model.is_valid(),
        decreases regs.len() - i,
    {
        let reg = &regs[i];
        proof {
            reveal(Seq::filter);
            let next = regs@.take(i + 1);
            assert(next.drop_last() =~= regs@.take(i as int));
            assert(next.last() == regs@[i as int]);
            lemma_fault_stands(regs@, i as nat + 1, regs@.len());
        }
        if reg.addr >= REGISTER_ADDRESS_SPACE_SIZE as u16 {
            return Err(ModelFault::AddressOutOfRange { addr: reg.addr });
        }
        let at: usize = reg.addr as usize;
        if seen[at] {
            return Err(ModelFault::DuplicateAddress { addr: reg.addr });
        }
        seen[at] = true;
        if let Some(csv) = &reg.csv {
            if reg.access != Access::Ro {
                return Err(ModelFault::CsvNotReadOnly { addr: reg.addr });
            }
            if is_blank(csv.path.as_str()) {
                return Err(ModelFault::EmptyCsvPath { addr: reg.addr });
            }
            if csv.mode == CsvModeDef::HostStream {
                host_streams = host_streams + 1;
            }
        }
        i = i + 1;
    }
    assert(regs@.take(regs.len() as int) =~= regs@);
    if host_streams > MAX_HOST_STREAM_REGS {
        return Err(ModelFault::TooManyHostStreams { count: host_streams });
    }
    Ok(())
}

/// A fault among the first registers is the fault of them all.
proof fn lemma_fault_stands(regs: Seq<RegisterDef>, n: nat, all: nat)
    requires
        n <= all,
    ensures
        first_register_fault(regs, n) is Some ==> first_register_fault(regs, all)
            == first_register_fault(regs, n),
    decreases all,
{
    if n < all {
        lemma_fault_stands(regs, n, (all - 1) as nat);
    }
}

/// The number of address bits that a model states, which is not that of the register space.
#[derive(Debug, Clone, Copy, PartialEq, Eq, Structural)]
pub struct AddrWidthError {
    pub bits: u64,
}

impl AddrWidthError {
    /// The message for a reader.
    pub open spec fn message_text(self) -> Seq<char> {
        "addr_width_bits must be "@ + text::dec_text(ADDR_WIDTH_BITS as nat) + ", got "@
            + text::dec_text(self.bits as nat)
    }

    /// The message for a reader.
    pub fn message(&self) -> (out: String)
        ensures
            out@ == self.message_text(),
    {
        let mut out = String::new();
        out.append("addr_width_bits must be ");
        text::push_dec(&mut out, ADDR_WIDTH_BITS);
        out.append(", got ");
        text::push_dec(&mut out, self.bits);
        assert(out@ =~= self.message_text());
        out
    }
}

/// A number of address bits that a model may state, or leave out.
pub open spec fn is_addr_width(stated: Option<u64>) -> bool {
    stated is None || stated == Some(ADDR_WIDTH_BITS)
}

/// Holds the number of address bits, where a model states one, to that of the register space.
pub fn check_addr_width(stated: Option<u64>) -> (checked: Result<(), AddrWidthError>)
    ensures
        match checked {
            Ok(_) => is_addr_width(stated),
            Err(error) => stated == Some(error.bits) && error.bits != ADDR_WIDTH_BITS,
        },
{
    match stated {
        Some(bits) => if bits == ADDR_WIDTH_BITS {
            Ok(())
        } else {
            Err(AddrWidthError { bits })
        },
        None => Ok(()),
    }
}

/// The model that decoded JSON text describes. `decoded` is what the decoder made of the text: a
/// model, or the decoder's words on why there is none.
pub fn parse_model(decoded: Result<DeviceModel, String>) -> (parsed: Result<DeviceModel, ModelError>)
    ensures
        parsed is Ok <==> (decoded matches Ok(model) && model.is_valid()),
        match parsed {
            Ok(model) => decoded == Ok::<DeviceModel, String>(model),
            Err(ModelError::Json { detail }) => decoded == Err::<DeviceModel, String>(detail),
            Err(ModelError::Invalid { fault }) => decoded matches Ok(model) && model.fault()
                == Some(fault),
        },
{
    match decoded {
        Ok(model) => match validate(&model) {
            Ok(_) => Ok(model),
            Err(fault) => Err(ModelError::Invalid { fault }),
        },
        Err(detail) => Err(ModelError::Json { detail }),
    }
}

/// Why there is no device model where the text may state a number of address bits.
#[derive(Debug)]
pub enum StatedModelError {
    /// The text describes no model that is usable.
    Model { error: ModelError },
    /// It states a number of address bits that is not that of the register space.
    AddrWidth { error: AddrWidthError },
}

impl StatedModelError {
    /// The message for a reader.
    pub open spec fn message_text(self) -> Seq<char> {
        match self {
            StatedModelError::Model { error } => error.message_text(),
            StatedModelError::AddrWidth { error } => error.message_text(),
        }
    }

    /// The message for a reader.
    pub fn message(&self) -> (out: String)
        ensures
            out@ == self.message_text(),
    {
        match self {
            StatedModelError::Model { error } => error.message(),
            StatedModelError::AddrWidth { error } => error.message(),
        }
    }
}

/// The model that decoded JSON text describes, where the text states the number of address bits, if
/// it does. Words of the decoder come first, then the number of address bits, then the other rules.
pub fn parse_stated_model(decoded: Result<DeviceModel, String>, stated: Option<u64>) -> (parsed:
    Result<DeviceModel, StatedModelError>)
    ensures
        parsed is Ok <==> (decoded matches Ok(model) && model.is_valid() && is_addr_width(stated)),
        match parsed {
            Ok(model) => decoded == Ok::<DeviceModel, String>(model),
            Err(StatedModelError::Model { error: ModelError::Json { detail } }) => decoded == Err::<
                DeviceModel,
                String,
            >(detail),
            Err(StatedModelError::AddrWidth { error }) => decoded is Ok && stated == Some(
                error.bits,
            ) && error.bits != ADDR_WIDTH_BITS,
            Err(StatedModelError::Model { error: ModelError::Invalid { fault } }) => {
                &&& is_addr_width(stated)
                &&& decoded matches Ok(model) && model.fault() == Some(fault)
            },
        },
{
    if decoded.is_ok() {
        match check_addr_width(stated) {
            Ok(_) => {},
            Err(error) => {
                return Err(StatedModelError::AddrWidth { error });
            },
        }
    }
    match parse_model(decoded) {
        Ok(model) => Ok(model),
        Err(error) => Err(StatedModelError::Model { error }),
    }
}

/// A model with a free bus address and with registers at distinct addresses, none of which plays
/// a CSV file, is accepted.
pub proof fn law_plain_model_is_valid(model: DeviceModel)
    requires
        0x08 <= model.i2c_address_7bit <= 0x77,
        model.registers@.len() <= REGISTER_ADDRESS_SPACE_SIZE,
        forall|i: int|
            0 <= i < model.registers@.len() ==> (#[trigger] model.registers@[i]).addr
                < REGISTER_ADDRESS_SPACE_SIZE && model.registers@[i].csv is None,
        forall|i: int, j: int|
            0 <= i < j < model.registers@.len() ==> (#[trigger] model.registers@[i]).addr != (
            #[trigger] model.registers@[j]).addr,
    ensures
        model.is_valid(),
        model.fault() is None,
{
    let regs = model.registers@;
    let hosts = host_stream_registers(regs);
    lemma_valid_iff_no_fault(model);
    assert(hosts.len() == 0) by {
        if hosts.len() > 0 {
            lemma_filter_from(regs, |r: RegisterDef| is_host_stream(r), 0);
        }
    }
}

/// Every element that filtering leaves was there before.
pub proof fn lemma_filter_from<T>(s: Seq<T>, pred: spec_fn(T) -> bool, i: int) -> (j: int)
    requires
        0 <= i < s.filter(pred).len(),
    ensures
        0 <= j < s.len(),
        s[j] == s.filter(pred)[i],
        pred(s[j]),
    decreases s.len(),
{
    reveal(Seq::filter);
    if i == s.filter(pred).len() - 1 && pred(s.last()) {
        s.len() - 1
    } else {
        lemma_filter_from(s.drop_last(), pred, i)
    }
}

/// Two registers at one address are never accepted, and where no register before the second of
/// them breaks a rule, the address is what is reported.
pub proof fn law_duplicate_address_is_rejected(model: DeviceModel, i: int, j: int)
    requires
        0 <= i < j < model.registers@.len(),
        model.registers@[i].addr == model.registers@[j].addr,
    ensures
        !model.is_valid(),
        model.fault() is Some,
        0x08 <= model.i2c_address_7bit <= 0x77 && model.registers@.len()
            <= REGISTER_ADDRESS_SPACE_SIZE && (forall|k: int|
            0 <= k < j ==> #[trigger] register_fault(model.registers@, k) is None)
            ==> model.fault() == Some(
            ModelFault::DuplicateAddress { addr: model.registers@[j].addr },
        ),
{
    let regs = model.registers@;
    lemma_valid_iff_no_fault(model);
    if forall|k: int| 0 <= k < j ==> #[trigger] register_fault(regs, k) is None {
        lemma_no_register_fault(regs, j as nat);
        lemma_fault_stands(regs, j as nat + 1, regs.len());
        assert(register_fault(regs, i) is None);
    }
}

}
