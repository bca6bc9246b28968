//! Which device models are accepted.
use vstd::prelude::*;

use crate::device_model;
use crate::device_model::{
    Access, AddrWidthError, DeviceModel, ModelError, ModelFault, RegisterDef, StatedModelError,
};
use crate::source_laws;
use crate::text;
use crate::text_laws;

verus! {

/// A path with a character that is no white space.
pub open spec fn says_something(path: Seq<char>) -> bool {
    exists|i: int| 0 <= i < path.len() && !text::is_white_space(#[trigger] path[i])
}

/// Register `i` is in the address space, at an address of its own, and where it has a CSV source, it
/// is read-only and names a file.
pub open spec fn is_good_register(regs: Seq<RegisterDef>, i: int) -> bool {
    &&& regs[i].addr < 256
    &&& forall|j: int| 0 <= j < i ==> (#[trigger] regs[j]).addr != regs[i].addr
    &&& regs[i].csv matches Some(csv) ==> regs[i].access == Access::Ro && says_something(csv.path@)
}

/// The first `n` registers are good.
pub open spec fn are_good_registers(regs: Seq<RegisterDef>, n: int) -> bool {
    forall|i: int| 0 <= i < n ==> #[trigger] is_good_register(regs, i)
}

/// A model that keeps every rule: its bus address is none of the reserved ones, there are at most 256
/// registers, all of them good, and at most nine that the host feeds.
pub open spec fn keeps_the_rules(model: DeviceModel) -> bool {
    let regs = model.registers@;
    &&& 8 <= model.i2c_address_7bit <= 119
    &&& regs.len() <= 256
    &&& are_good_registers(regs, regs.len() as int)
    &&& source_laws::file_place(regs, true, regs.len() as int) <= 9
}

/// A fault is what is wrong with register `i`: the first of its rules that it breaks.
pub open spec fn is_fault_of(fault: ModelFault, regs: Seq<RegisterDef>, i: int) -> bool {
    let reg = regs[i];
    let shared = exists|j: int| 0 <= j < i && (#[trigger] regs[j]).addr == reg.addr;
    match fault {
        ModelFault::AddressOutOfRange { addr } => addr == reg.addr && addr >= 256,
        ModelFault::DuplicateAddress { addr } => addr == reg.addr && addr < 256 && shared,
        ModelFault::CsvNotReadOnly { addr } => addr == reg.addr && addr < 256 && !shared && reg.csv
            is Some && reg.access == Access::Rw,
        ModelFault::EmptyCsvPath { addr } => {
            &&& addr == reg.addr && addr < 256 && !shared && reg.access == Access::Ro
            &&& reg.csv matches Some(csv) && !says_something(csv.path@)
        },
        _ => false,
    }
}

/// A fault is the first one of a model: the bus address comes first, then the number of registers,
/// then the registers one by one, then the number of those that the host feeds.
pub open spec fn is_first_fault(fault: ModelFault, model: DeviceModel) -> bool {
    let regs = model.registers@;
    let n = regs.len() as int;
    let address_is_free = 8 <= model.i2c_address_7bit <= 119;
    match fault {
        ModelFault::ReservedI2cAddress => !address_is_free,
        ModelFault::TooManyRegisters { count } => address_is_free && n > 256 && count == n,
        ModelFault::TooManyHostStreams { count } => {
            &&& address_is_free && n <= 256 && are_good_registers(regs, n)
            &&& count == source_laws::file_place(regs, true, n) && count > 9
        },
        _ => address_is_free && n <= 256 && exists|i: int|
            0 <= i < n && are_good_registers(regs, i) && #[trigger] is_fault_of(fault, regs, i),
    }
}

proof fn lemma_says_something(path: Seq<char>)
    ensures
        says_something(path) <==> text::trim(path).len() > 0,
{
    text_laws::law_trim_cuts_the_ends(path);
    let t = text::trim(path);
    let (lo, hi) = choose|lo: int, hi: int|
        {
            &&& 0 <= lo <= hi <= path.len()
            &&& #[trigger] path.subrange(lo, hi) == t
            &&& forall|i: int|
                0 <= i < lo || hi <= i < path.len() ==> text::is_white_space(#[trigger] path[i])
        };
    if t.len() > 0 {
        assert(t[0] == path[lo]);
        assert(!text::is_white_space(path[lo]));
    } else {
        assert(lo == hi);
    }
}

proof fn lemma_register(regs: Seq<RegisterDef>, i: int)
    requires
        0 <= i < regs.len(),
    ensures
        is_good_register(regs, i) <==> device_model::register_fault(regs, i) is None,
        device_model::register_fault(regs, i) matches Some(fault) ==> is_fault_of(fault, regs, i),
{
    if let Some(csv) = regs[i].csv {
        lemma_says_something(csv.path@);
    }
}

proof fn lemma_registers(regs: Seq<RegisterDef>, n: nat)
    requires
        n <= regs.len(),
    ensures
        match device_model::first_register_fault(regs, n) {
            None => are_good_registers(regs, n as int),
            Some(fault) => exists|i: int|
                0 <= i < n && are_good_registers(regs, i) && #[trigger] is_fault_of(fault, regs, i)
                    && !is_good_register(regs, i),
        },
    decreases n,
{
    if n > 0 {
        lemma_registers(regs, (n - 1) as nat);
        lemma_register(regs, n - 1);
        match device_model::first_register_fault(regs, (n - 1) as nat) {
            None => {
                if let Some(fault) = device_model::first_register_fault(regs, n) {
                    assert(is_fault_of(fault, regs, n - 1));
                }
            },
            Some(fault) => {
                let i = choose|i: int|
                    0 <= i < n - 1 && are_good_registers(regs, i) && #[trigger] is_fault_of(
                        fault,
                        regs,
                        i,
                    ) && !is_good_register(regs, i);
                assert(is_fault_of(fault, regs, i));
            },
        }
    }
}

proof fn lemma_fault(model: DeviceModel)
    requires
        model.registers@.len() <= usize::MAX,
    ensures
        match model.fault() {
            None => keeps_the_rules(model),
            Some(fault) => !keeps_the_rules(model) && is_first_fault(fault, model),
        },
        model.is_valid() <==> keeps_the_rules(model),
{
    let regs = model.registers@;
    let n = regs.len() as int;
    device_model::lemma_valid_iff_no_fault(model);
    lemma_registers(regs, regs.len());
    assert(regs.take(n) =~= regs);
    source_laws::lemma_host_places(regs, n);
    if let Some(fault) = device_model::first_register_fault(regs, regs.len()) {
        let i = choose|i: int|
            0 <= i < n && are_good_registers(regs, i) && #[trigger] is_fault_of(fault, regs, i)
                && !is_good_register(regs, i);
        assert(is_fault_of(fault, regs, i));
        assert(!is_good_register(regs, i));
    }
    reveal(Seq::filter);
    regs.lemma_filter_len(|r: RegisterDef| device_model::is_host_stream(r));
}

/// A call of `validate` accepts exactly the models that keep the rules, and tells of any other the
/// first rule that it breaks.
pub proof fn law_models_are_held_to_the_rules(model: &DeviceModel, checked: Result<(), ModelFault>)
    requires
        call_ensures(device_model::validate, (model,), checked),
        model.registers@.len() <= usize::MAX,
    ensures
        checked is Ok <==> keeps_the_rules(*model),
        checked matches Err(fault) ==> is_first_fault(fault, *model),
{
    lemma_fault(*model);
}

/// A call of `parse_model` gives the decoded model where it keeps the rules, and otherwise tells the
/// first rule that it breaks, or the words of the decoder.
pub proof fn law_decoded_models_are_held_to_the_rules(
    decoded: Result<DeviceModel, String>,
    parsed: Result<DeviceModel, ModelError>,
)
    requires
        call_ensures(device_model::parse_model, (decoded,), parsed),
        decoded matches Ok(model) ==> model.registers@.len() <= usize::MAX,
    ensures
        match decoded {
            Err(words) => parsed == Err::<DeviceModel, ModelError>(
                ModelError::Json { detail: words },
            ),
            Ok(model) => if keeps_the_rules(model) {
                parsed == Ok::<DeviceModel, ModelError>(model)
            } else {
                parsed matches Err(ModelError::Invalid { fault }) && is_first_fault(fault, model)
            },
        },
{
    if let Ok(model) = decoded {
        lemma_fault(model);
    }
}

/// Calls of `check_addr_width` and `parse_stated_model`: a stated number of address bits must be
/// eight, whatever else the model holds.
pub proof fn law_stated_width_is_eight(
    stated: Option<u64>,
    checked: Result<(), AddrWidthError>,
    decoded: Result<DeviceModel, String>,
    parsed: Result<DeviceModel, StatedModelError>,
)
    requires
        call_ensures(device_model::check_addr_width, (stated,), checked),
        call_ensures(device_model::parse_stated_model, (decoded, stated), parsed),
        decoded matches Ok(model) ==> model.registers@.len() <= usize::MAX,
    ensures
        match stated {
            Some(bits) => if bits == 8 {
                checked is Ok
            } else {
                checked matches Err(error) && error.bits == bits
            },
            None => checked is Ok,
        },
        match decoded {
            Err(words) => parsed == Err::<DeviceModel, StatedModelError>(
                StatedModelError::Model { error: ModelError::Json { detail: words } },
            ),
            Ok(model) => if stated matches Some(bits) && bits != 8 {
                parsed matches Err(StatedModelError::AddrWidth { error }) && Some(error.bits)
                    == stated
            } else if keeps_the_rules(model) {
                parsed == Ok::<DeviceModel, StatedModelError>(model)
            } else {
                parsed matches Err(
                    StatedModelError::Model { error: ModelError::Invalid { fault } },
                ) && is_first_fault(fault, model)
            },
        },
{
    if let Ok(model) = decoded {
        lemma_fault(model);
    }
}

/// What a reader is told of a fault.
pub proof fn law_fault_messages(fault: &ModelFault, out: String)
    requires
        call_ensures(ModelFault::message, (fault,), out),
    ensures
        out@ == match *fault {
            ModelFault::ReservedI2cAddress =>
                "i2c_address_7bit must be in 0x08..=0x77 (0x00..=0x07 and 0x78..=0x7F are reserved)"@,
            ModelFault::TooManyRegisters { count } => "register count "@ + text::dec_text(
                count as nat,
            ) + " exceeds 8-bit address space capacity "@ + text::dec_text(256),
            ModelFault::AddressOutOfRange { addr } => "register addr "@ + text::dec_text(
                addr as nat,
            ) + " is outside 8-bit address space (0..=255)"@,
            ModelFault::DuplicateAddress { addr } => "duplicate register addr "@ + text::dec_text(
                addr as nat,
            ),
            ModelFault::CsvNotReadOnly { addr } => "register addr "@ + text::dec_text(addr as nat)
                + " uses CSV but is not read-only"@,
            ModelFault::EmptyCsvPath { addr } => "register addr "@ + text::dec_text(addr as nat)
                + " has empty csv.path"@,
            ModelFault::TooManyHostStreams { count } => "host_stream register count "@
                + text::dec_text(count as nat) + " exceeds limit "@ + text::dec_text(9),
        },
{
}

/// What a reader is told where there is no model.
pub proof fn law_model_error_messages(
    error: &ModelError,
    out: String,
    stated: &StatedModelError,
    told: String,
    width: &AddrWidthError,
    words: String,
)
    requires
        call_ensures(ModelError::message, (error,), out),
        call_ensures(StatedModelError::message, (stated,), told),
        call_ensures(AddrWidthError::message, (width,), words),
    ensures
        error matches ModelError::Json { detail } ==> out@ == "parsing model JSON: "@ + detail@,
        error matches ModelError::Invalid { fault } ==> out@ == fault.message_text(),
        stated matches StatedModelError::Model { error: inner } ==> told@ == inner.message_text(),
        stated matches StatedModelError::AddrWidth { error: inner } ==> told@
            == inner.message_text(),
        words@ == "addr_width_bits must be "@ + text::dec_text(8) + ", got "@ + text::dec_text(
            width.bits as nat,
        ),
{
}

}
