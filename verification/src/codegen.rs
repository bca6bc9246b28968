//! The Rust source of the tables that the firmware is compiled with.
use vstd::prelude::*;

use crate::csv_specs;
use crate::csv_specs::{CsvFile, ResolvedCsvSpec, SpecsError};
use crate::device_model;
use crate::device_model::{
    Access, CsvModeDef, DeviceModel, EMBEDDED_CSV_BUDGET_BYTES, HOST_STREAM_BUFFER_CAPACITY,
    MAX_HOST_STREAM_REGS, REGISTER_ADDRESS_SPACE_SIZE,
};
use crate::model;
use crate::model_laws;
use crate::text;

verus! {

/// The items of one row of an array, each with a comma and a space behind it.
pub open spec fn row_text(items: Seq<Seq<char>>) -> Seq<char>
    decreases items.len(),
{
    if items.len() == 0 {
        Seq::empty()
    } else {
        row_text(items.drop_last()) + items.last() + ", "@
    }
}

/// The rows of an array: sixteen items each, and what is left in the last one.
pub open spec fn rows_text(items: Seq<Seq<char>>) -> Seq<char>
    decreases items.len(),
{
    if items.len() == 0 {
        Seq::empty()
    } else if items.len() <= 16 {
        "    "@ + row_text(items) + "\n"@
    } else {
        "    "@ + row_text(items.take(16)) + "\n"@ + rows_text(items.skip(16))
    }
}

/// An array literal.
pub open spec fn array_text(items: Seq<Seq<char>>) -> Seq<char> {
    "[\n"@ + rows_text(items) + "]"@
}

/// The literal of a byte.
pub open spec fn byte_text(b: u8) -> Seq<char> {
    "0x"@ + text::zero_padded(text::hex_text(b as nat), 2)
}

/// The literals of bytes.
pub open spec fn byte_items(values: Seq<u8>) -> Seq<Seq<char>> {
    values.map_values(|b: u8| byte_text(b))
}

/// The literals of signed numbers.
pub open spec fn signed_items(values: Seq<i16>) -> Seq<Seq<char>> {
    values.map_values(|n: i16| text::signed_dec_text(n as int))
}

fn push_byte(out: &mut String, b: u8)
    ensures
        final(out)@ == old(out)@ + byte_text(b),
{
    out.append("0x");
    text::push_hex(out, b as u64, 2);
    assert(final(out)@ =~= old(out)@ + byte_text(b));
}

/// Appends an array literal of signed numbers.
pub fn render_i16_array(out: &mut String, values: &[i16])
    ensures
        final(out)@ == old(out)@ + array_text(signed_items(values@)),
{
    let ghost start = out@;
    let ghost items = signed_items(values@);
    out.append("[\n");
    let mut at: usize = 0;
    assert(items.skip(0) =~= items);
    while at < values.len()
        invariant
            at <= values.len(),
            items == signed_items(values@),
            out@ + rows_text(items.skip(at as int)) == start + "[\n"@ + rows_text(items),
        decreases values.len() - at,
    {
        let ghost before = out@;
        let end: usize = if values.len() - at > 16 { at + 16 } else { values.len() };
        out.append("    ");
        let mut i: usize = at;
        assert(items.subrange(at as int, at as int).len() == 0);
        assert(out@ =~= before + "    "@ + row_text(items.subrange(at as int, i as int)));
        while i < end
            invariant
                at <= i <= end <= values.len(),
                items == signed_items(values@),
                out@ == before + "    "@ + row_text(items.subrange(at as int, i as int)),
            decreases end - i,
        {
            text::push_signed_dec(out, values[i]);
            out.append(", ");
            proof {
                let next = items.subrange(at as int, i + 1);
                assert(next.drop_last() =~= items.subrange(at as int, i as int));
                assert(next.last() == items[i as int]);
                assert(out@ =~= before + "    "@ + row_text(next));
            }
            i = i + 1;
        }
        out.append("\n");
        proof {
            lemma_next_row(items, at as int, end as int);
            assert(out@ + rows_text(items.skip(end as int)) =~= before + rows_text(
                items.skip(at as int),
            ));
        }
        at = end;
    }
    out.append("]");
    assert(rows_text(items.skip(values.len() as int)) =~= Seq::<char>::empty());
    assert(out@ =~= start + array_text(items));
}

/// The rows from `at` on start with the row that ends at `end`.
proof fn lemma_next_row(items: Seq<Seq<char>>, at: int, end: int)
    requires
        0 <= at < items.len(),
        end == if items.len() - at > 16 { at + 16 } else { items.len() as int },
    ensures
        rows_text(items.skip(at)) == "    "@ + row_text(items.subrange(at, end)) + "\n"@ + rows_text(
            items.skip(end),
        ),
{
    let rest = items.skip(at);
    if items.len() - at > 16 {
        assert(rest.take(16) =~= items.subrange(at, end));
        assert(rest.skip(16) =~= items.skip(end));
    } else {
        assert(rest =~= items.subrange(at, end));
        assert(rows_text(rest) =~= "    "@ + row_text(rest) + "\n"@ + rows_text(items.skip(end)));
    }
}

/// Appends an array literal of bytes.
pub fn render_u8_array(out: &mut String, values: &[u8])
    ensures
        final(out)@ == old(out)@ + array_text(byte_items(values@)),
{
    let ghost start = out@;
    let ghost items = byte_items(values@);
    out.append("[\n");
    let mut at: usize = 0;
    assert(items.skip(0) =~= items);
    while at < values.len()
        invariant
            at <= values.len(),
            items == byte_items(values@),
            out@ + rows_text(items.skip(at as int)) == start + "[\n"@ + rows_text(items),
        decreases values.len() - at,
    {
        let ghost before = out@;
        let end: usize = if values.len() - at > 16 { at + 16 } else { values.len() };
        out.append("    ");
        let mut i: usize = at;
        assert(items.subrange(at as int, at as int).len() == 0);
        assert(out@ =~= before + "    "@ + row_text(items.subrange(at as int, i as int)));
        while i < end
            invariant
                at <= i <= end <= values.len(),
                items == byte_items(values@),
                out@ == before + "    "@ + row_text(items.subrange(at as int, i as int)),
            decreases end - i,
        {
            push_byte(out, values[i]);
            out.append(", ");
            proof {
                let next = items.subrange(at as int, i + 1);
                assert(next.drop_last() =~= items.subrange(at as int, i as int));
                assert(next.last() == items[i as int]);
                assert(out@ =~= before + "    "@ + row_text(next));
            }
            i = i + 1;
        }
        out.append("\n");
        proof {
            lemma_next_row(items, at as int, end as int);
            assert(out@ + rows_text(items.skip(end as int)) =~= before + rows_text(
                items.skip(at as int),
            ));
        }
        at = end;
    }
    out.append("]");
    assert(rows_text(items.skip(values.len() as int)) =~= Seq::<char>::empty());
    assert(out@ =~= start + array_text(items));
}

/// The constant that holds the samples of source `idx`.
pub open spec fn csv_data_const_text(idx: nat, values: Seq<u8>) -> Seq<char> {
    "const CSV_DATA_"@ + text::dec_text(idx) + ": &[u8] = &\n"@ + array_text(byte_items(values))
        + ";\n"@
}

/// Appends the constant that holds the samples of source `idx`.
pub fn render_csv_data_const(out: &mut String, idx: usize, values: &[u8])
    ensures
        final(out)@ == old(out)@ + csv_data_const_text(idx as nat, values@),
{
    out.append("const CSV_DATA_");
    text::push_dec(out, idx as u64);
    out.append(": &[u8] = &\n");
    render_u8_array(out, values);
    out.append(";\n");
    assert(final(out)@ =~= old(out)@ + csv_data_const_text(idx as nat, values@));
}

/// The first lines of the source.
pub const PREAMBLE: &'static str = "// Generated by tools/gen_model. Do not edit manually.\n\n#![allow(dead_code)]\n\n";

/// The types of the tables.
pub const TABLE_TYPES: &'static str = "\n\
#[derive(Copy, Clone, Debug, Eq, PartialEq)]\n\
pub enum Access {\n    Ro,\n    Rw,\n}\n\n\
#[derive(Copy, Clone, Debug, Eq, PartialEq)]\n\
pub enum CsvMode {\n    Embedded,\n    HostStream,\n}\n\n\
#[derive(Copy, Clone, Debug, Eq, PartialEq)]\n\
pub struct RegisterSpec {\n    pub addr: u8,\n    pub default: u8,\n    pub access: Access,\n    pub name: &'static str,\n}\n\n\
#[derive(Copy, Clone, Debug, Eq, PartialEq)]\n\
pub struct CsvRegisterSpec {\n    pub addr: u8,\n    pub mode: CsvMode,\n    pub data: &'static [u8],\n}\n\n";

/// The settings of a device, whose name is written as `name_literal`.
pub open spec fn settings_text(
    device: DeviceModel,
    name_literal: Seq<char>,
    embedded_total: nat,
) -> Seq<char> {
    "pub const DEVICE_NAME: &str = "@ + name_literal + ";\npub const I2C_ADDRESS_7BIT: u8 = "@
        + byte_text(device.i2c_address_7bit) + ";\npub const I2C_INTERNAL_PULLUPS: bool = "@
        + text::bool_text(device.i2c_internal_pullups)
        + ";\npub const I2C_RESPOND_TO_GENERAL_CALL: bool = "@ + text::bool_text(
        device.i2c_respond_to_general_call,
    ) + ";\npub const REG_COUNT: usize = "@ + text::dec_text(REGISTER_ADDRESS_SPACE_SIZE as nat)
        + ";\npub const DEFAULT_FILL: u8 = "@ + byte_text(device.default_fill)
        + ";\npub const AUTO_INCREMENT: bool = "@ + text::bool_text(device.auto_increment)
        + ";\npub const MAX_HOST_STREAM_REGS: usize = "@ + text::dec_text(
        MAX_HOST_STREAM_REGS as nat,
    ) + ";\npub const HOST_STREAM_BUFFER_CAPACITY: usize = "@ + text::dec_text(
        HOST_STREAM_BUFFER_CAPACITY as nat,
    ) + ";\npub const EMBEDDED_CSV_BUDGET_BYTES: usize = "@ + text::dec_text(
        EMBEDDED_CSV_BUDGET_BYTES as nat,
    ) + ";\npub const EMBEDDED_CSV_TOTAL_BYTES: usize = "@ + text::dec_text(embedded_total)
        + ";\n"@
}

fn settings(device: &DeviceModel, name_literal: &str, embedded_total: usize) -> (out: String)
    ensures
        out@ == settings_text(*device, name_literal@, embedded_total as nat),
{
    let mut out = String::new();
    out.append("pub const DEVICE_NAME: &str = ");
    assert(out@ =~= "pub const DEVICE_NAME: &str = "@);
    out.append(name_literal);
    out.append(";\npub const I2C_ADDRESS_7BIT: u8 = ");
    push_byte(&mut out, device.i2c_address_7bit);
    out.append(";\npub const I2C_INTERNAL_PULLUPS: bool = ");
    text::push_bool(&mut out, device.i2c_internal_pullups);
    out.append(";\npub const I2C_RESPOND_TO_GENERAL_CALL: bool = ");
    text::push_bool(&mut out, device.i2c_respond_to_general_call);
    out.append(";\npub const REG_COUNT: usize = ");
    text::push_dec(&mut out, REGISTER_ADDRESS_SPACE_SIZE as u64);
    out.append(";\npub const DEFAULT_FILL: u8 = ");
    push_byte(&mut out, device.default_fill);
    out.append(";\npub const AUTO_INCREMENT: bool = ");
    text::push_bool(&mut out, device.auto_increment);
    out.append(";\npub const MAX_HOST_STREAM_REGS: usize = ");
    text::push_dec(&mut out, MAX_HOST_STREAM_REGS as u64);
    out.append(";\npub const HOST_STREAM_BUFFER_CAPACITY: usize = ");
    text::push_dec(&mut out, HOST_STREAM_BUFFER_CAPACITY as u64);
    out.append(";\npub const EMBEDDED_CSV_BUDGET_BYTES: usize = ");
    text::push_dec(&mut out, EMBEDDED_CSV_BUDGET_BYTES as u64);
    out.append(";\npub const EMBEDDED_CSV_TOTAL_BYTES: usize = ");
    text::push_dec(&mut out, embedded_total as u64);
    out.append(";\n");
    out
}

/// A register as a row of the register table; its name is a Rust string literal.
#[derive(Debug)]
pub struct RegisterRow {
    pub addr: u16,
    pub default: u8,
    pub access: Access,
    pub name_literal: String,
}

/// A [`RegisterRow`] with its literal as a sequence.
pub struct RegisterRowView {
    pub addr: u16,
    pub default: u8,
    pub access: Access,
    pub name_literal: Seq<char>,
}

impl View for RegisterRow {
    type V = RegisterRowView;

    open spec fn view(&self) -> RegisterRowView {
        RegisterRowView {
            addr: self.addr,
            default: self.default,
            access: self.access,
            name_literal: self.name_literal@,
        }
    }
}

/// Rows with their literals as sequences.
pub open spec fn row_views(rows: Seq<RegisterRow>) -> Seq<RegisterRowView> {
    rows.map_values(|r: RegisterRow| r@)
}

/// The line of a register.
pub open spec fn register_line(row: RegisterRowView) -> Seq<char> {
    "    RegisterSpec { addr: "@ + csv_specs::addr_text(row.addr) + ", default: "@ + byte_text(
        row.default,
    ) + ", access: "@ + (match row.access {
        Access::Ro => "Access::Ro"@,
        Access::Rw => "Access::Rw"@,
    }) + ", name: "@ + row.name_literal + " },\n"@
}

/// The lines of registers.
pub open spec fn register_lines(rows: Seq<RegisterRowView>) -> Seq<char>
    decreases rows.len(),
{
    if rows.len() == 0 {
        Seq::empty()
    } else {
        register_lines(rows.drop_last()) + register_line(rows.last())
    }
}

fn register_source(row: &RegisterRow) -> (out: String)
    ensures
        out@ == register_line(row@),
{
    let mut out = String::new();
    out.append("    RegisterSpec { addr: ");
    assert(out@ =~= "    RegisterSpec { addr: "@);
    csv_specs::push_addr(&mut out, row.addr);
    out.append(", default: ");
    push_byte(&mut out, row.default);
    out.append(", access: ");
    match row.access {
        Access::Ro => out.append("Access::Ro"),
        Access::Rw => out.append("Access::Rw"),
    }
    out.append(", name: ");
    out.append(row.name_literal.as_str());
    out.append(" },\n");
    out
}

fn push_register_lines(out: &mut String, rows: &Vec<RegisterRow>)
    ensures
        final(out)@ == old(out)@ + register_lines(row_views(rows@)),
{
    let ghost start = out@;
    let ghost views = row_views(rows@);
    let mut i: usize = 0;
    assert(start + register_lines(views.take(0)) =~= start);
    while i < rows.len()
        invariant
            i <= rows.len(),
            views == row_views(rows@),
            out@ == start + register_lines(views.take(i as int)),
        decreases rows.len() - i,
    {
        let row = &rows[i];
        out.append(register_source(row).as_str());
        proof {
            let next = views.take(i + 1);
            assert(next.drop_last() =~= views.take(i as int));
            assert(next.last() == row@);
            assert(out@ =~= start + register_lines(next));
        }
        i = i + 1;
    }
    assert(views.take(rows.len() as int) =~= views);
}

/// The constants of the embedded samples among the first `n` sources, with an empty line behind
/// each.
pub open spec fn csv_data_text(specs: Seq<csv_specs::CsvSpec>, n: nat) -> Seq<char>
    decreases n,
{
    if n == 0 {
        Seq::empty()
    } else if specs[n - 1].mode == CsvModeDef::Embedded {
        csv_data_text(specs, (n - 1) as nat) + csv_data_const_text(
            (n - 1) as nat,
            specs[n - 1].data,
        ) + "\n"@
    } else {
        csv_data_text(specs, (n - 1) as nat)
    }
}

/// The line of source `k`.
pub open spec fn csv_line(specs: Seq<csv_specs::CsvSpec>, k: nat) -> Seq<char> {
    "    CsvRegisterSpec { addr: "@ + csv_specs::addr_text(specs[k as int].addr) + (match specs[
    k as int].mode {
        CsvModeDef::Embedded => ", mode: CsvMode::Embedded, data: CSV_DATA_"@ + text::dec_text(k),
        CsvModeDef::HostStream => ", mode: CsvMode::HostStream, data: &[]"@,
    }) + " },\n"@
}

/// The lines of the first `n` sources.
pub open spec fn csv_lines(specs: Seq<csv_specs::CsvSpec>, n: nat) -> Seq<char>
    decreases n,
{
    if n == 0 {
        Seq::empty()
    } else {
        csv_lines(specs, (n - 1) as nat) + csv_line(specs, (n - 1) as nat)
    }
}

fn push_csv_data(out: &mut String, specs: &Vec<ResolvedCsvSpec>)
    ensures
        final(out)@ == old(out)@ + csv_data_text(csv_specs::spec_views(specs@), specs@.len()),
{
    let ghost start = out@;
    let ghost views = csv_specs::spec_views(specs@);
    let mut i: usize = 0;
    assert(start + csv_data_text(views, 0) =~= start);
    while i < specs.len()
        invariant
            i <= specs.len(),
            views == csv_specs::spec_views(specs@),
            out@ == start + csv_data_text(views, i as nat),
        decreases specs.len() - i,
    {
        let spec = &specs[i];
        assert(views[i as int] == spec@);
        if spec.mode == CsvModeDef::Embedded {
            render_csv_data_const(out, i, spec.data.as_slice());
            out.append("\n");
        }
        assert(out@ =~= start + csv_data_text(views, i as nat + 1));
        i = i + 1;
    }
}

fn push_csv_lines(out: &mut String, specs: &Vec<ResolvedCsvSpec>)
    ensures
        final(out)@ == old(out)@ + csv_lines(csv_specs::spec_views(specs@), specs@.len()),
{
    let ghost start = out@;
    let ghost views = csv_specs::spec_views(specs@);
    let mut i: usize = 0;
    assert(start + csv_lines(views, 0) =~= start);
    while i < specs.len()
        invariant
            i <= specs.len(),
            views == csv_specs::spec_views(specs@),
            out@ == start + csv_lines(views, i as nat),
        decreases specs.len() - i,
    {
        let spec = &specs[i];
        assert(views[i as int] == spec@);
        out.append("    CsvRegisterSpec { addr: ");
        csv_specs::push_addr(out, spec.addr);
        match spec.mode {
            CsvModeDef::Embedded => {
                out.append(", mode: CsvMode::Embedded, data: CSV_DATA_");
                text::push_dec(out, i as u64);
            },
            CsvModeDef::HostStream => {
                out.append(", mode: CsvMode::HostStream, data: &[]");
            },
        }
        out.append(" },\n");
        assert(out@ =~= start + csv_lines(views, i as nat + 1));
        i = i + 1;
    }
}

/// The index tables.
pub open spec fn index_text(specs: Seq<csv_specs::CsvSpec>) -> Seq<char> {
    let n = specs.len();
    "pub const CSV_INDEX_BY_ADDR: [i16; REG_COUNT] = "@ + array_text(
        signed_items(model::csv_index(specs, n)),
    ) + ";\n\npub const HOST_STREAM_COUNT: usize = "@ + text::dec_text(
        model::host_addrs(specs, n).len(),
    ) + ";\npub const HOST_STREAM_ADDRS: [u8; HOST_STREAM_COUNT] = "@ + array_text(
        byte_items(model::host_addrs(specs, n)),
    ) + ";\n\npub const HOST_STREAM_INDEX_BY_ADDR: [i16; REG_COUNT] = "@ + array_text(
        signed_items(model::host_index(specs, n)),
    ) + ";\n"@
}

fn index_source(specs: &Vec<ResolvedCsvSpec>) -> (out: String)
    requires
        forall|k: int| 0 <= k < specs@.len() ==> (#[trigger] specs@[k]).addr < 256,
    ensures
        out@ == index_text(csv_specs::spec_views(specs@)),
{
    let index = model::index_tables(specs);
    let mut out = String::new();
    out.append("pub const CSV_INDEX_BY_ADDR: [i16; REG_COUNT] = ");
    assert(out@ =~= "pub const CSV_INDEX_BY_ADDR: [i16; REG_COUNT] = "@);
    render_i16_array(&mut out, index.csv_index_by_addr.as_slice());
    out.append(";\n\npub const HOST_STREAM_COUNT: usize = ");
    text::push_dec(&mut out, index.host_stream_addrs.len() as u64);
    out.append(";\npub const HOST_STREAM_ADDRS: [u8; HOST_STREAM_COUNT] = ");
    render_u8_array(&mut out, index.host_stream_addrs.as_slice());
    out.append(";\n\npub const HOST_STREAM_INDEX_BY_ADDR: [i16; REG_COUNT] = ");
    render_i16_array(&mut out, index.host_stream_index_by_addr.as_slice());
    out.append(";\n");
    out
}

/// The Rust source of the tables.
pub open spec fn model_rs_text(
    device: DeviceModel,
    name_literal: Seq<char>,
    rows: Seq<RegisterRowView>,
    specs: Seq<csv_specs::CsvSpec>,
) -> Seq<char> {
    PREAMBLE@ + settings_text(device, name_literal, csv_specs::embedded_total(specs)) + TABLE_TYPES@
        + "pub const REGISTERS: &[RegisterSpec] = &[\n"@ + register_lines(rows) + "];\n\n"@
        + csv_data_text(specs, specs.len()) + "pub const CSV_REGISTERS: &[CsvRegisterSpec] = &[\n"@
        + csv_lines(specs, specs.len()) + "];\n\n"@ + index_text(specs)
}

fn embedded_bytes(specs: &Vec<ResolvedCsvSpec>) -> (total: usize)
    requires
        csv_specs::embedded_total(csv_specs::spec_views(specs@)) <= usize::MAX,
    ensures
        total == csv_specs::embedded_total(csv_specs::spec_views(specs@)),
{
    let ghost views = csv_specs::spec_views(specs@);
    let mut total: usize = 0;
    let mut i: usize = 0;
    assert(views.take(0).len() == 0);
    while i < specs.len()
        invariant
            i <= specs.len(),
            views == csv_specs::spec_views(specs@),
            csv_specs::embedded_total(views) <= usize::MAX,
            total == csv_specs::embedded_total(views.take(i as int)),
        decreases specs.len() - i,
    {
        proof {
            let next = views.take(i + 1);
            assert(next.drop_last() =~= views.take(i as int));
            assert(next.last() == specs@[i as int]@);
            csv_specs::lemma_total_grows(views, i + 1);
        }
        if specs[i].mode == CsvModeDef::Embedded {
            total = total + specs[i].data.len();
        }
        i = i + 1;
    }
    assert(views.take(specs.len() as int) =~= views);
    total
}

/// Renders the Rust source of the tables. `name_literal` is the device name as a Rust string
/// literal, and `rows` are the rows of the register table in their order.
pub fn render_model_rs(
    device: &DeviceModel,
    name_literal: &str,
    rows: &Vec<RegisterRow>,
    specs: &Vec<ResolvedCsvSpec>,
) -> (source: String)
    requires
        forall|k: int| 0 <= k < specs@.len() ==> (#[trigger] specs@[k]).addr < 256,
        csv_specs::embedded_total(csv_specs::spec_views(specs@)) <= usize::MAX,
    ensures
        source@ == model_rs_text(
            *device,
            name_literal@,
            row_views(rows@),
            csv_specs::spec_views(specs@),
        ),
{
    let total: usize = embedded_bytes(specs);
    let mut out = String::new();
    out.append(PREAMBLE);
    assert(out@ =~= PREAMBLE@);
    out.append(settings(device, name_literal, total).as_str());
    out.append(TABLE_TYPES);
    out.append("pub const REGISTERS: &[RegisterSpec] = &[\n");
    push_register_lines(&mut out, rows);
    out.append("];\n\n");
    push_csv_data(&mut out, specs);
    out.append("pub const CSV_REGISTERS: &[CsvRegisterSpec] = &[\n");
    push_csv_lines(&mut out, specs);
    out.append("];\n\n");
    out.append(index_source(specs).as_str());
    out
}

/// A string as the Rust string literal that its `Debug` form is.
pub uninterp spec fn debug_literal(s: Seq<char>) -> Seq<char>;

/// Calls `format!` with `{:?}`, that is `<str as Debug>::fmt`, which puts a string in quotes and
/// escapes what cannot stand in a literal. Nothing is claimed of the literal but that it depends on
/// the characters of the string alone.
#[verifier::external_body]
fn quote(s: &str) -> (literal: String)
    ensures
        literal@ == debug_literal(s@),
{
    format!("{:?}", s)
}

/// The rows of registers.
pub open spec fn rows_of(regs: Seq<device_model::RegisterDef>) -> Seq<RegisterRowView> {
    regs.map_values(
        |r: device_model::RegisterDef|
            RegisterRowView {
                addr: r.addr,
                default: r.default,
                access: r.access,
                name_literal: debug_literal(r.name@),
            },
    )
}

/// Generates the Rust source of the tables, with the registers sorted by address.
pub fn generate_model_rs(device: &DeviceModel, specs: &Vec<ResolvedCsvSpec>) -> (source: String)
    requires
        forall|k: int| 0 <= k < specs@.len() ==> (#[trigger] specs@[k]).addr < 256,
        csv_specs::embedded_total(csv_specs::spec_views(specs@)) <= usize::MAX,
    ensures
        source@ == model_rs_text(
            *device,
            debug_literal(device.device_name@),
            rows_of(model::sorted_registers(device.registers@)),
            csv_specs::spec_views(specs@),
        ),
{
    let order = model::register_order(&device.registers);
    let ghost regs = model::sorted_registers(device.registers@);
    assert(regs.len() == order@.len());
    let mut rows: Vec<RegisterRow> = Vec::new();
    let mut i: usize = 0;
    while i < order.len()
        invariant
            i <= order.len(),
            order@.len() == regs.len(),
            regs == model::registers_at(device.registers@, order@),
            forall|k: int| 0 <= k < order@.len() ==> #[trigger] order@[k] < device.registers@.len(),
            rows@.len() == i,
            forall|k: int| 0 <= k < i ==> (#[trigger] rows@[k])@ == rows_of(regs)[k],
        decreases order.len() - i,
    {
        let reg = &device.registers[order[i]];
        assert(regs[i as int] == reg);
        rows.push(
            RegisterRow {
                addr: reg.addr,
                default: reg.default,
                access: reg.access,
                name_literal: quote(reg.name.as_str()),
            },
        );
        i = i + 1;
    }
    assert(row_views(rows@) =~= rows_of(regs));
    let name_literal = quote(device.device_name.as_str());
    render_model_rs(device, name_literal.as_str(), &rows, specs)
}

/// Generates the Rust source of the tables from a valid model and from what reading its CSV files
/// gave, in the order of the registers.
pub fn generate_source(device: &DeviceModel, files: &Vec<CsvFile>) -> (source: Result<
    String,
    SpecsError,
>)
    requires
        device.is_valid(),
        files@.len() == device_model::csv_registers(device.registers@).len(),
    ensures
        match source {
            Ok(text) => csv_specs::resolved_specs(device.registers@, files@) matches Ok(specs)
                && text@ == model_rs_text(
                *device,
                debug_literal(device.device_name@),
                rows_of(model::sorted_registers(device.registers@)),
                specs,
            ),
            Err(error) => csv_specs::resolved_specs(device.registers@, files@) == Err::<
                Seq<csv_specs::CsvSpec>,
                csv_specs::SpecsErrorView,
            >(error@),
        },
{
    match csv_specs::resolve_csv_specs(device, files) {
        Ok(specs) => {
            proof {
                let views = csv_specs::spec_views(specs@);
                model_laws::law_resolved_specs(*device, files@, views);
                assert forall|k: int| 0 <= k < specs@.len() implies (#[trigger] specs@[k]).addr
                    < 256 by {
                    assert(model_laws::is_sound_spec(views[k]));
                }
            }
            Ok(generate_model_rs(device, &specs))
        },
        Err(error) => Err(error),
    }
}

}
