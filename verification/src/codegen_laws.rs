//! What the generated source says, constant by constant.
use vstd::prelude::*;

use crate::codegen;
use crate::csv_specs;
use crate::csv_specs::{CsvFile, ResolvedCsvSpec, SpecsError};
use crate::device_model::{Access, CsvModeDef, DeviceModel, RegisterDef};
use crate::model;
use crate::ordering;
use crate::source_laws;
use crate::text;

verus! {

/// A public constant: its name, its type and its value.
pub struct Constant {
    pub name: Seq<char>,
    pub kind: Seq<char>,
    pub value: Seq<char>,
}

/// The line of a constant.
pub open spec fn constant_line(c: Constant) -> Seq<char> {
    "pub const "@ + c.name + ": "@ + c.kind + " = "@ + c.value + ";\n"@
}

/// Texts one behind the other.
pub open spec fn all_of(parts: Seq<Seq<char>>) -> Seq<char>
    decreases parts.len(),
{
    if parts.len() == 0 {
        Seq::empty()
    } else {
        parts[0] + all_of(parts.drop_first())
    }
}

pub open spec fn constant_lines(constants: Seq<Constant>) -> Seq<Seq<char>> {
    constants.map_values(|c: Constant| constant_line(c))
}

pub open spec fn hex_literal(b: int) -> Seq<char> {
    "0x"@ + text::zero_padded(text::hex_text(b as nat), 2)
}

pub open spec fn bool_literal(b: bool) -> Seq<char> {
    if b { "true"@ } else { "false"@ }
}

/// The settings of a device as constants: each has the value of the model's field of that name, and
/// the limits are those of the firmware.
pub open spec fn settings(device: DeviceModel, embedded: int) -> Seq<Constant> {
    seq![
        Constant {
            name: "DEVICE_NAME"@,
            kind: "&str"@,
            value: codegen::debug_literal(device.device_name@),
        },
        Constant {
            name: "I2C_ADDRESS_7BIT"@,
            kind: "u8"@,
            value: hex_literal(device.i2c_address_7bit as int),
        },
        Constant {
            name: "I2C_INTERNAL_PULLUPS"@,
            kind: "bool"@,
            value: bool_literal(device.i2c_internal_pullups),
        },
        Constant {
            name: "I2C_RESPOND_TO_GENERAL_CALL"@,
            kind: "bool"@,
            value: bool_literal(device.i2c_respond_to_general_call),
        },
        Constant { name: "REG_COUNT"@, kind: "usize"@, value: "256"@ },
        Constant {
            name: "DEFAULT_FILL"@,
            kind: "u8"@,
            value: hex_literal(device.default_fill as int),
        },
        Constant {
            name: "AUTO_INCREMENT"@,
            kind: "bool"@,
            value: bool_literal(device.auto_increment),
        },
        Constant { name: "MAX_HOST_STREAM_REGS"@, kind: "usize"@, value: "9"@ },
        Constant { name: "HOST_STREAM_BUFFER_CAPACITY"@, kind: "usize"@, value: "2048"@ },
        Constant { name: "EMBEDDED_CSV_BUDGET_BYTES"@, kind: "usize"@, value: "32768"@ },
        Constant {
            name: "EMBEDDED_CSV_TOTAL_BYTES"@,
            kind: "usize"@,
            value: text::dec_text(embedded as nat),
        },
    ]
}

/// The names of constants and types, in the words that stand between the values.
proof fn lemma_setting_labels()
    ensures
        "pub const DEVICE_NAME: &str = "@ == "pub const "@ + "DEVICE_NAME"@ + ": "@ + "&str"@
            + " = "@,
        ";\npub const I2C_ADDRESS_7BIT: u8 = "@ == ";\n"@ + ("pub const "@ + "I2C_ADDRESS_7BIT"@
            + ": "@ + "u8"@ + " = "@),
        ";\npub const I2C_INTERNAL_PULLUPS: bool = "@ == ";\n"@ + ("pub const "@
            + "I2C_INTERNAL_PULLUPS"@ + ": "@ + "bool"@ + " = "@),
        ";\npub const I2C_RESPOND_TO_GENERAL_CALL: bool = "@ == ";\n"@ + ("pub const "@
            + "I2C_RESPOND_TO_GENERAL_CALL"@ + ": "@ + "bool"@ + " = "@),
        ";\npub const REG_COUNT: usize = "@ == ";\n"@ + ("pub const "@ + "REG_COUNT"@ + ": "@
            + "usize"@ + " = "@),
        ";\npub const DEFAULT_FILL: u8 = "@ == ";\n"@ + ("pub const "@ + "DEFAULT_FILL"@ + ": "@
            + "u8"@ + " = "@),
{
    reveal_strlit("pub const ");
    reveal_strlit(": ");
    reveal_strlit(" = ");
    reveal_strlit(";\n");
    reveal_strlit("&str");
    reveal_strlit("u8");
    reveal_strlit("bool");
    reveal_strlit("usize");
    reveal_strlit("DEVICE_NAME");
    reveal_strlit("I2C_ADDRESS_7BIT");
    reveal_strlit("I2C_INTERNAL_PULLUPS");
    reveal_strlit("I2C_RESPOND_TO_GENERAL_CALL");
    reveal_strlit("REG_COUNT");
    reveal_strlit("DEFAULT_FILL");
    reveal_strlit("pub const DEVICE_NAME: &str = ");
    reveal_strlit(";\npub const I2C_ADDRESS_7BIT: u8 = ");
    reveal_strlit(";\npub const I2C_INTERNAL_PULLUPS: bool = ");
    reveal_strlit(";\npub const I2C_RESPOND_TO_GENERAL_CALL: bool = ");
    reveal_strlit(";\npub const REG_COUNT: usize = ");
    reveal_strlit(";\npub const DEFAULT_FILL: u8 = ");
    assert("pub const DEVICE_NAME: &str = "@ =~= "pub const "@ + "DEVICE_NAME"@ + ": "@ + "&str"@
        + " = "@);
    assert(";\npub const I2C_ADDRESS_7BIT: u8 = "@ =~= ";\n"@ + ("pub const "@ + "I2C_ADDRESS_7BIT"@
        + ": "@ + "u8"@ + " = "@));
    assert(";\npub const I2C_INTERNAL_PULLUPS: bool = "@ =~= ";\n"@ + ("pub const "@
        + "I2C_INTERNAL_PULLUPS"@ + ": "@ + "bool"@ + " = "@));
    assert(";\npub const I2C_RESPOND_TO_GENERAL_CALL: bool = "@ =~= ";\n"@ + ("pub const "@
        + "I2C_RESPOND_TO_GENERAL_CALL"@ + ": "@ + "bool"@ + " = "@));
    assert(";\npub const REG_COUNT: usize = "@ =~= ";\n"@ + ("pub const "@ + "REG_COUNT"@ + ": "@
        + "usize"@ + " = "@));
    assert(";\npub const DEFAULT_FILL: u8 = "@ =~= ";\n"@ + ("pub const "@ + "DEFAULT_FILL"@ + ": "@
        + "u8"@ + " = "@));
}

proof fn lemma_limit_labels()
    ensures
        ";\npub const AUTO_INCREMENT: bool = "@ == ";\n"@ + ("pub const "@ + "AUTO_INCREMENT"@
            + ": "@ + "bool"@ + " = "@),
        ";\npub const MAX_HOST_STREAM_REGS: usize = "@ == ";\n"@ + ("pub const "@
            + "MAX_HOST_STREAM_REGS"@ + ": "@ + "usize"@ + " = "@),
        ";\npub const HOST_STREAM_BUFFER_CAPACITY: usize = "@ == ";\n"@ + ("pub const "@
            + "HOST_STREAM_BUFFER_CAPACITY"@ + ": "@ + "usize"@ + " = "@),
        ";\npub const EMBEDDED_CSV_BUDGET_BYTES: usize = "@ == ";\n"@ + ("pub const "@
            + "EMBEDDED_CSV_BUDGET_BYTES"@ + ": "@ + "usize"@ + " = "@),
        ";\npub const EMBEDDED_CSV_TOTAL_BYTES: usize = "@ == ";\n"@ + ("pub const "@
            + "EMBEDDED_CSV_TOTAL_BYTES"@ + ": "@ + "usize"@ + " = "@),
{
    reveal_strlit("pub const ");
    reveal_strlit(": ");
    reveal_strlit(" = ");
    reveal_strlit(";\n");
    reveal_strlit("bool");
    reveal_strlit("usize");
    reveal_strlit("AUTO_INCREMENT");
    reveal_strlit("MAX_HOST_STREAM_REGS");
    reveal_strlit("HOST_STREAM_BUFFER_CAPACITY");
    reveal_strlit("EMBEDDED_CSV_BUDGET_BYTES");
    reveal_strlit("EMBEDDED_CSV_TOTAL_BYTES");
    reveal_strlit(";\npub const AUTO_INCREMENT: bool = ");
    reveal_strlit(";\npub const MAX_HOST_STREAM_REGS: usize = ");
    reveal_strlit(";\npub const HOST_STREAM_BUFFER_CAPACITY: usize = ");
    reveal_strlit(";\npub const EMBEDDED_CSV_BUDGET_BYTES: usize = ");
    reveal_strlit(";\npub const EMBEDDED_CSV_TOTAL_BYTES: usize = ");
    assert(";\npub const AUTO_INCREMENT: bool = "@ =~= ";\n"@ + ("pub const "@ + "AUTO_INCREMENT"@
        + ": "@ + "bool"@ + " = "@));
    assert(";\npub const MAX_HOST_STREAM_REGS: usize = "@ =~= ";\n"@ + ("pub const "@
        + "MAX_HOST_STREAM_REGS"@ + ": "@ + "usize"@ + " = "@));
    assert(";\npub const HOST_STREAM_BUFFER_CAPACITY: usize = "@ =~= ";\n"@ + ("pub const "@
        + "HOST_STREAM_BUFFER_CAPACITY"@ + ": "@ + "usize"@ + " = "@));
    assert(";\npub const EMBEDDED_CSV_BUDGET_BYTES: usize = "@ =~= ";\n"@ + ("pub const "@
        + "EMBEDDED_CSV_BUDGET_BYTES"@ + ": "@ + "usize"@ + " = "@));
    assert(";\npub const EMBEDDED_CSV_TOTAL_BYTES: usize = "@ =~= ";\n"@ + ("pub const "@
        + "EMBEDDED_CSV_TOTAL_BYTES"@ + ": "@ + "usize"@ + " = "@));
}

proof fn lemma_limits()
    ensures
        text::dec_text(256) == "256"@,
        text::dec_text(9) == "9"@,
        text::dec_text(2048) == "2048"@,
        text::dec_text(32768) == "32768"@,
{
    reveal_strlit("256");
    reveal_strlit("9");
    reveal_strlit("2048");
    reveal_strlit("32768");
    reveal_with_fuel(text::dec_text, 6);
    assert(text::dec_text(256) =~= "256"@);
    assert(text::dec_text(9) =~= "9"@);
    assert(text::dec_text(2048) =~= "2048"@);
    assert(text::dec_text(32768) =~= "32768"@);
}

/// The lines so far, without what ends the last of them, and the label and value of the next one.
proof fn lemma_next_constant(
    before: Seq<Constant>,
    open: Seq<char>,
    label: Seq<char>,
    next: Constant,
)
    requires
        open + ";\n"@ == all_of(constant_lines(before)),
        label == ";\n"@ + ("pub const "@ + next.name + ": "@ + next.kind + " = "@),
    ensures
        (open + label + next.value) + ";\n"@ == all_of(constant_lines(before.push(next))),
{
    let lines = constant_lines(before);
    assert(constant_lines(before.push(next)) =~= lines.push(constant_line(next)));
    lemma_last(lines, constant_line(next));
    let front = "pub const "@ + next.name + ": "@ + next.kind + " = "@;
    assert((open + label + next.value) + ";\n"@ =~= (open + ";\n"@) + (front + next.value + ";\n"@));
}

proof fn lemma_last(parts: Seq<Seq<char>>, last: Seq<char>)
    ensures
        all_of(parts.push(last)) == all_of(parts) + last,
    decreases parts.len(),
{
    let all = parts.push(last);
    if parts.len() == 0 {
        assert(all_of(all.drop_first()).len() == 0);
        assert(all_of(all) =~= last);
        assert(all_of(parts) + last =~= last);
    } else {
        lemma_last(parts.drop_first(), last);
        assert(all.drop_first() =~= parts.drop_first().push(last));
        assert(all_of(all) =~= all_of(parts) + last);
    }
}

proof fn lemma_settings(device: DeviceModel, embedded: nat)
    ensures
        codegen::settings_text(device, codegen::debug_literal(device.device_name@), embedded)
            == all_of(constant_lines(settings(device, embedded as int))),
{
    let all = settings(device, embedded as int);
    lemma_setting_labels();
    lemma_limit_labels();
    lemma_limits();
    let t0 = "pub const DEVICE_NAME: &str = "@ + all[0].value;
    let s1 = all.take(1);
    assert(all_of(constant_lines(s1)) == constant_line(all[0])) by {
        let lines = constant_lines(s1);
        assert(all_of(lines.drop_first()).len() == 0);
        assert(all_of(lines) =~= lines[0]);
    }
    assert(t0 + ";\n"@ =~= constant_line(all[0]));
    let t1 = t0 + ";\npub const I2C_ADDRESS_7BIT: u8 = "@ + all[1].value;
    lemma_next_constant(s1, t0, ";\npub const I2C_ADDRESS_7BIT: u8 = "@, all[1]);
    let s2 = s1.push(all[1]);
    let t2 = t1 + ";\npub const I2C_INTERNAL_PULLUPS: bool = "@ + all[2].value;
    lemma_next_constant(s2, t1, ";\npub const I2C_INTERNAL_PULLUPS: bool = "@, all[2]);
    let s3 = s2.push(all[2]);
    let t3 = t2 + ";\npub const I2C_RESPOND_TO_GENERAL_CALL: bool = "@ + all[3].value;
    lemma_next_constant(s3, t2, ";\npub const I2C_RESPOND_TO_GENERAL_CALL: bool = "@, all[3]);
    let s4 = s3.push(all[3]);
    let t4 = t3 + ";\npub const REG_COUNT: usize = "@ + all[4].value;
    lemma_next_constant(s4, t3, ";\npub const REG_COUNT: usize = "@, all[4]);
    let s5 = s4.push(all[4]);
    let t5 = t4 + ";\npub const DEFAULT_FILL: u8 = "@ + all[5].value;
    lemma_next_constant(s5, t4, ";\npub const DEFAULT_FILL: u8 = "@, all[5]);
    let s6 = s5.push(all[5]);
    let t6 = t5 + ";\npub const AUTO_INCREMENT: bool = "@ + all[6].value;
    lemma_next_constant(s6, t5, ";\npub const AUTO_INCREMENT: bool = "@, all[6]);
    let s7 = s6.push(all[6]);
    let t7 = t6 + ";\npub const MAX_HOST_STREAM_REGS: usize = "@ + all[7].value;
    lemma_next_constant(s7, t6, ";\npub const MAX_HOST_STREAM_REGS: usize = "@, all[7]);
    let s8 = s7.push(all[7]);
    let t8 = t7 + ";\npub const HOST_STREAM_BUFFER_CAPACITY: usize = "@ + all[8].value;
    lemma_next_constant(s8, t7, ";\npub const HOST_STREAM_BUFFER_CAPACITY: usize = "@, all[8]);
    let s9 = s8.push(all[8]);
    let t9 = t8 + ";\npub const EMBEDDED_CSV_BUDGET_BYTES: usize = "@ + all[9].value;
    lemma_next_constant(s9, t8, ";\npub const EMBEDDED_CSV_BUDGET_BYTES: usize = "@, all[9]);
    let s10 = s9.push(all[9]);
    lemma_next_constant(s10, t9, ";\npub const EMBEDDED_CSV_TOTAL_BYTES: usize = "@, all[10]);
    assert(s10.push(all[10]) =~= all);
}

/// What stands for item `i` in an array: a comma and a space behind it, four spaces before the first
/// of every sixteen items, and a newline behind the last of them and behind the last item of all.
pub open spec fn cell(items: Seq<Seq<char>>, i: int) -> Seq<char> {
    (if i % 16 == 0 {
        "    "@
    } else {
        Seq::empty()
    }) + items[i] + ", "@ + (if i % 16 == 15 || i == items.len() - 1 {
        "\n"@
    } else {
        Seq::empty()
    })
}

/// The items of an array from place `i` on.
pub open spec fn cells_from(items: Seq<Seq<char>>, i: int) -> Seq<char>
    decreases items.len() - i,
{
    if i >= items.len() {
        Seq::empty()
    } else {
        cell(items, i) + cells_from(items, i + 1)
    }
}

/// An array literal.
pub open spec fn array_literal(items: Seq<Seq<char>>) -> Seq<char> {
    "[\n"@ + cells_from(items, 0) + "]"@
}

proof fn lemma_row_front(items: Seq<Seq<char>>)
    requires
        items.len() > 0,
    ensures
        codegen::row_text(items) == items[0] + ", "@ + codegen::row_text(items.drop_first()),
    decreases items.len(),
{
    if items.len() == 1 {
        assert(codegen::row_text(items.drop_last()).len() == 0);
        assert(codegen::row_text(items.drop_first()).len() == 0);
        assert(codegen::row_text(items) =~= items[0] + ", "@ + codegen::row_text(
            items.drop_first(),
        ));
    } else {
        lemma_row_front(items.drop_last());
        assert(items.drop_last().drop_first() =~= items.drop_first().drop_last());
        assert(codegen::row_text(items) =~= items[0] + ", "@ + codegen::row_text(
            items.drop_first(),
        ));
    }
}

/// The cells from place `i` on to the end of its row, and those of the rows behind it.
proof fn lemma_row_cells(items: Seq<Seq<char>>, at: int, end: int, i: int)
    requires
        0 <= at < items.len(),
        at % 16 == 0,
        end == if items.len() - at > 16 { at + 16 } else { items.len() as int },
        at <= i < end,
    ensures
        cells_from(items, i) == (if i == at {
            "    "@
        } else {
            Seq::empty()
        }) + codegen::row_text(items.subrange(i, end)) + "\n"@ + cells_from(items, end),
    decreases end - i,
{
    let sub = items.subrange(i, end);
    lemma_row_front(sub);
    assert(sub.drop_first() =~= items.subrange(i + 1, end));
    let rest = cells_from(items, end);
    let front = if i == at { "    "@ } else { Seq::<char>::empty() };
    assert(i % 16 == 0 <==> i == at);
    if i + 1 < end {
        lemma_row_cells(items, at, end, i + 1);
        let more = codegen::row_text(items.subrange(i + 1, end));
        assert(cells_from(items, i + 1) =~= more + "\n"@ + rest);
        assert(cell(items, i) =~= front + items[i] + ", "@);
        assert(cells_from(items, i) =~= front + (items[i] + ", "@ + more) + "\n"@ + rest);
    } else {
        assert(i % 16 == 15 || i == items.len() - 1);
        assert(codegen::row_text(items.subrange(i + 1, end)).len() == 0);
        assert(cell(items, i) == front + items[i] + ", "@ + "\n"@);
        assert(cells_from(items, i) =~= front + (items[i] + ", "@ + Seq::<char>::empty()) + "\n"@
            + rest);
        assert(codegen::row_text(items.subrange(i + 1, end)) =~= Seq::<char>::empty());
    }
}

proof fn lemma_rows(items: Seq<Seq<char>>, at: int)
    requires
        0 <= at <= items.len(),
        at % 16 == 0 || at == items.len(),
    ensures
        codegen::rows_text(items.skip(at)) == cells_from(items, at),
    decreases items.len() - at,
{
    let rest = items.skip(at);
    if at < items.len() {
        let end = if items.len() - at > 16 { at + 16 } else { items.len() as int };
        lemma_row_cells(items, at, end, at);
        lemma_rows(items, end);
        if items.len() - at > 16 {
            assert(rest.take(16) =~= items.subrange(at, end));
            assert(rest.skip(16) =~= items.skip(end));
        } else {
            assert(rest =~= items.subrange(at, end));
            assert("    "@ + codegen::row_text(rest) + "\n"@ =~= "    "@ + codegen::row_text(rest)
                + "\n"@ + cells_from(items, end));
        }
    }
}

proof fn lemma_array(items: Seq<Seq<char>>)
    ensures
        codegen::array_text(items) == array_literal(items),
{
    assert(items.skip(0) =~= items);
    lemma_rows(items, 0);
}

/// The literals of bytes.
pub open spec fn hex_items(bytes: Seq<u8>) -> Seq<Seq<char>> {
    Seq::new(bytes.len(), |i: int| hex_literal(bytes[i] as int))
}

/// The literals of signed numbers.
pub open spec fn int_items(numbers: Seq<int>) -> Seq<Seq<char>> {
    Seq::new(numbers.len(), |i: int| text::signed_dec_text(numbers[i]))
}

/// Calls of `render_u8_array` and `render_i16_array` append an array literal of the values.
pub proof fn law_arrays_are_literals(
    out: &mut String,
    bytes: &[u8],
    other: &mut String,
    numbers: &[i16],
)
    requires
        call_ensures(codegen::render_u8_array, (out, bytes), ()),
        call_ensures(codegen::render_i16_array, (other, numbers), ()),
    ensures
        final(out)@ == old(out)@ + array_literal(hex_items(bytes@)),
        final(other)@ == old(other)@ + array_literal(
            int_items(Seq::new(numbers@.len(), |i: int| numbers@[i] as int)),
        ),
{
    assert(codegen::byte_items(bytes@) =~= hex_items(bytes@));
    assert(codegen::signed_items(numbers@) =~= int_items(
        Seq::new(numbers@.len(), |i: int| numbers@[i] as int),
    ));
    lemma_array(hex_items(bytes@));
    lemma_array(codegen::signed_items(numbers@));
}

/// The place of the last of the first `n` sources at an address, or -1.
pub open spec fn place_at(specs: Seq<ResolvedCsvSpec>, n: int, addr: int) -> int
    decreases n,
{
    if n <= 0 {
        -1
    } else if specs[n - 1].addr == addr {
        n - 1
    } else {
        place_at(specs, n - 1, addr)
    }
}

/// How many of the first `n` sources the host feeds.
pub open spec fn fed_before(specs: Seq<ResolvedCsvSpec>, n: int) -> int
    decreases n,
{
    if n <= 0 {
        0
    } else {
        fed_before(specs, n - 1) + if specs[n - 1].mode == CsvModeDef::HostStream {
            1int
        } else {
            0int
        }
    }
}

/// The stream of the last of the first `n` sources at an address that the host feeds, or -1.
pub open spec fn stream_at(specs: Seq<ResolvedCsvSpec>, n: int, addr: int) -> int
    decreases n,
{
    if n <= 0 {
        -1
    } else if specs[n - 1].addr == addr && specs[n - 1].mode == CsvModeDef::HostStream {
        fed_before(specs, n - 1)
    } else {
        stream_at(specs, n - 1, addr)
    }
}

/// `addrs` are the addresses of the first `n` sources that the host feeds, by stream.
pub open spec fn are_stream_addrs(specs: Seq<ResolvedCsvSpec>, n: int, addrs: Seq<u8>) -> bool {
    &&& addrs.len() == fed_before(specs, n)
    &&& forall|k: int|
        0 <= k < n && (#[trigger] specs[k]).mode == CsvModeDef::HostStream ==> addrs[fed_before(
            specs,
            k,
        )] == specs[k].addr
}

proof fn lemma_index(specs: Seq<ResolvedCsvSpec>, n: nat)
    requires
        n <= specs.len() <= 256,
        forall|k: int| 0 <= k < specs.len() ==> (#[trigger] specs[k]).addr < 256,
    ensures
        ({
            let views = csv_specs::spec_views(specs);
            &&& model::csv_index(views, n).len() == 256
            &&& model::host_index(views, n).len() == 256
            &&& 0 <= fed_before(specs, n as int) <= n
            &&& are_stream_addrs(specs, n as int, model::host_addrs(views, n))
            &&& forall|a: int|
                #![trigger model::csv_index(views, n)[a]]
                0 <= a < 256 ==> model::csv_index(views, n)[a] == place_at(specs, n as int, a)
            &&& forall|a: int|
                #![trigger model::host_index(views, n)[a]]
                0 <= a < 256 ==> model::host_index(views, n)[a] == stream_at(specs, n as int, a)
        }),
    decreases n,
{
    if n > 0 {
        let views = csv_specs::spec_views(specs);
        let before = (n - 1) as nat;
        lemma_index(specs, before);
        let last = specs[n - 1];
        assert(views[n - 1] == last@);
        let addrs = model::host_addrs(views, n);
        let earlier = model::host_addrs(views, before);
        assert forall|k: int|
            0 <= k < n && (#[trigger] specs[k]).mode == CsvModeDef::HostStream implies addrs[fed_before(
            specs,
            k,
        )] == specs[k].addr by {
            if k < before {
                lemma_fed_grows(specs, k, before as int);
                assert(earlier[fed_before(specs, k)] == specs[k].addr);
            }
        }
    }
}

proof fn lemma_fed_grows(specs: Seq<ResolvedCsvSpec>, k: int, n: int)
    requires
        0 <= k < n,
        specs[k].mode == CsvModeDef::HostStream,
    ensures
        0 <= fed_before(specs, k) < fed_before(specs, n),
    decreases n,
{
    if k == n - 1 {
        lemma_fed_positive(specs, k);
    } else {
        lemma_fed_grows(specs, k, n - 1);
    }
}

proof fn lemma_fed_positive(specs: Seq<ResolvedCsvSpec>, n: int)
    ensures
        0 <= fed_before(specs, n),
    decreases n,
{
    if n > 0 {
        lemma_fed_positive(specs, n - 1);
    }
}

/// A call of `index_tables` gives for every address the place of its source and the number of its
/// stream, or -1, and for every stream its address.
pub proof fn law_index_tables_lead_to_sources(
    specs: &Vec<ResolvedCsvSpec>,
    tables: model::IndexTables,
)
    requires
        call_ensures(model::index_tables, (specs,), tables),
        specs@.len() <= 256,
        forall|k: int| 0 <= k < specs@.len() ==> (#[trigger] specs@[k]).addr < 256,
    ensures
        forall|a: int|
            0 <= a < 256 ==> #[trigger] tables.csv_index_by_addr@[a] == place_at(
                specs@,
                specs@.len() as int,
                a,
            ),
        forall|a: int|
            0 <= a < 256 ==> #[trigger] tables.host_stream_index_by_addr@[a] == stream_at(
                specs@,
                specs@.len() as int,
                a,
            ),
        are_stream_addrs(specs@, specs@.len() as int, tables.host_stream_addrs@),
{
    let views = csv_specs::spec_views(specs@);
    lemma_index(specs@, specs@.len());
    assert(views.len() == specs@.len());
    assert forall|a: int| 0 <= a < 256 implies #[trigger] tables.csv_index_by_addr@[a] == place_at(
        specs@,
        specs@.len() as int,
        a,
    ) by {
        assert(model::csv_index(views, specs@.len())[a] == place_at(
            specs@,
            specs@.len() as int,
            a,
        ));
    }
    assert forall|a: int| 0 <= a < 256 implies #[trigger] tables.host_stream_index_by_addr@[a]
        == stream_at(specs@, specs@.len() as int, a) by {
        assert(model::host_index(views, specs@.len())[a] == stream_at(
            specs@,
            specs@.len() as int,
            a,
        ));
    }
}

/// The line of a register in the source.
pub open spec fn register_line(reg: RegisterDef) -> Seq<char> {
    "    RegisterSpec { addr: "@ + hex_literal(reg.addr as int) + ", default: "@ + hex_literal(
        reg.default as int,
    ) + (match reg.access {
        Access::Ro => ", access: Access::Ro, name: "@,
        Access::Rw => ", access: Access::Rw, name: "@,
    }) + codegen::debug_literal(reg.name@) + " },\n"@
}

/// The constant with the samples of source `k`, where they are compiled in.
pub open spec fn samples_constant(specs: Seq<ResolvedCsvSpec>, k: int) -> Seq<char> {
    if specs[k].mode == CsvModeDef::Embedded {
        "const CSV_DATA_"@ + text::dec_text(k as nat) + ": &[u8] = &\n"@ + array_literal(
            hex_items(specs[k].data@),
        ) + ";\n\n"@
    } else {
        Seq::empty()
    }
}

/// The line of source `k`.
pub open spec fn source_line(specs: Seq<ResolvedCsvSpec>, k: int) -> Seq<char> {
    if specs[k].mode == CsvModeDef::Embedded {
        "    CsvRegisterSpec { addr: "@ + hex_literal(specs[k].addr as int)
            + ", mode: CsvMode::Embedded, data: CSV_DATA_"@ + text::dec_text(k as nat) + " },\n"@
    } else {
        "    CsvRegisterSpec { addr: "@ + hex_literal(specs[k].addr as int)
            + ", mode: CsvMode::HostStream, data: &[] },\n"@
    }
}

/// The generated source: a notice, the settings, the types, the registers by address, the samples
/// that are compiled in, the sources, and the tables that lead from an address to a source and to a
/// stream.
pub open spec fn generated_text(
    device: DeviceModel,
    regs: Seq<RegisterDef>,
    specs: Seq<ResolvedCsvSpec>,
    addrs: Seq<u8>,
) -> Seq<char> {
    "// Generated by tools/gen_model. Do not edit manually.\n\n#![allow(dead_code)]\n\n"@ + all_of(
        constant_lines(settings(device, source_laws::bytes_in(specs))),
    ) + tail_text(regs, specs, addrs)
}

proof fn lemma_register_labels()
    ensures
        ", access: "@ + "Access::Ro"@ + ", name: "@ == ", access: Access::Ro, name: "@,
        ", access: "@ + "Access::Rw"@ + ", name: "@ == ", access: Access::Rw, name: "@,
        ", mode: CsvMode::HostStream, data: &[]"@ + " },\n"@
            == ", mode: CsvMode::HostStream, data: &[] },\n"@,
        ";\n"@ + "\n"@ == ";\n\n"@,
{
    reveal_strlit(", access: ");
    reveal_strlit("Access::Ro");
    reveal_strlit("Access::Rw");
    reveal_strlit(", name: ");
    reveal_strlit(", access: Access::Ro, name: ");
    reveal_strlit(", access: Access::Rw, name: ");
    reveal_strlit(", mode: CsvMode::HostStream, data: &[]");
    reveal_strlit(" },\n");
    reveal_strlit(", mode: CsvMode::HostStream, data: &[] },\n");
    reveal_strlit(";\n");
    reveal_strlit("\n");
    reveal_strlit(";\n\n");
    assert(", access: "@ + "Access::Ro"@ + ", name: "@ =~= ", access: Access::Ro, name: "@);
    assert(", access: "@ + "Access::Rw"@ + ", name: "@ =~= ", access: Access::Rw, name: "@);
    assert(", mode: CsvMode::HostStream, data: &[]"@ + " },\n"@
        =~= ", mode: CsvMode::HostStream, data: &[] },\n"@);
    assert(";\n"@ + "\n"@ =~= ";\n\n"@);
}

proof fn lemma_register_lines(regs: Seq<RegisterDef>)
    ensures
        codegen::register_lines(codegen::rows_of(regs)) == all_of(
            Seq::new(regs.len(), |k: int| register_line(regs[k])),
        ),
    decreases regs.len(),
{
    let lines = Seq::new(regs.len(), |k: int| register_line(regs[k]));
    if regs.len() > 0 {
        let head = regs.drop_last();
        let last = regs.last();
        lemma_register_lines(head);
        assert(codegen::rows_of(regs).drop_last() =~= codegen::rows_of(head));
        lemma_register_labels();
        let row = codegen::rows_of(regs).last();
        let front = "    RegisterSpec { addr: "@ + hex_literal(last.addr as int) + ", default: "@
            + hex_literal(last.default as int);
        let access = match last.access {
            Access::Ro => "Access::Ro"@,
            Access::Rw => "Access::Rw"@,
        };
        assert(front + ", access: "@ + access + ", name: "@ =~= front + (", access: "@ + access
            + ", name: "@));
        assert(codegen::register_line(row) == register_line(last));
        let heads = Seq::new(head.len(), |k: int| register_line(head[k]));
        assert(lines =~= heads.push(register_line(last)));
        lemma_last(heads, register_line(last));
    }
}

proof fn lemma_samples_constants(specs: Seq<ResolvedCsvSpec>, n: nat)
    requires
        n <= specs.len(),
    ensures
        codegen::csv_data_text(csv_specs::spec_views(specs), n) == all_of(
            Seq::new(n, |k: int| samples_constant(specs, k)),
        ),
        codegen::csv_lines(csv_specs::spec_views(specs), n) == all_of(
            Seq::new(n, |k: int| source_line(specs, k)),
        ),
    decreases n,
{
    let views = csv_specs::spec_views(specs);
    if n > 0 {
        let before = (n - 1) as nat;
        let spec = specs[n - 1];
        lemma_samples_constants(specs, before);
        lemma_register_labels();
        assert(views[n - 1] == spec@);
        let constants = Seq::new(before, |k: int| samples_constant(specs, k));
        let lines = Seq::new(before, |k: int| source_line(specs, k));
        assert(Seq::new(n, |k: int| samples_constant(specs, k)) =~= constants.push(
            samples_constant(specs, n - 1),
        ));
        assert(Seq::new(n, |k: int| source_line(specs, k)) =~= lines.push(
            source_line(specs, n - 1),
        ));
        lemma_last(constants, samples_constant(specs, n - 1));
        lemma_last(lines, source_line(specs, n - 1));
        assert(codegen::byte_items(spec.data@) =~= hex_items(spec.data@));
        lemma_array(hex_items(spec.data@));
        let addr = "    CsvRegisterSpec { addr: "@ + hex_literal(spec.addr as int);
        if spec.mode == CsvModeDef::Embedded {
            let front = "const CSV_DATA_"@ + text::dec_text(before) + ": &[u8] = &\n"@
                + array_literal(hex_items(spec.data@));
            assert(front + ";\n"@ + "\n"@ =~= front + (";\n"@ + "\n"@));
            let texts = codegen::csv_data_text(views, before);
            assert(texts + (front + ";\n"@) + "\n"@ =~= texts + (front + ";\n"@ + "\n"@));
            let label = ", mode: CsvMode::Embedded, data: CSV_DATA_"@;
            let number = text::dec_text(before);
            assert(addr + (label + number) + " },\n"@ =~= addr + label + number + " },\n"@);
        } else {
            assert(codegen::csv_data_text(views, before) + Seq::<char>::empty()
                =~= codegen::csv_data_text(views, before));
            let label = ", mode: CsvMode::HostStream, data: &[]"@;
            assert(addr + label + " },\n"@ =~= addr + (label + " },\n"@));
        }
    }
}

/// What a call of `generate_model_rs` writes, read constant by constant: the settings are those of
/// the model, the registers are those of the model by address, and the samples and the tables are
/// those of the sources.
pub proof fn law_source_gives_the_model(
    device: &DeviceModel,
    specs: &Vec<ResolvedCsvSpec>,
    source: String,
    regs: Seq<RegisterDef>,
    addrs: Seq<u8>,
)
    requires
        call_ensures(codegen::generate_model_rs, (device, specs), source),
        specs@.len() <= 256,
        forall|k: int| 0 <= k < specs@.len() ==> (#[trigger] specs@[k]).addr < 256,
        // The registers by address; those at one address, where there are such, keep their order.
        regs == ordering::sort_by(device.registers@, |r: RegisterDef| r.addr as int),
        addrs == model::host_addrs(csv_specs::spec_views(specs@), specs@.len()),
    ensures
        source@ == generated_text(*device, regs, specs@, addrs),
        are_stream_addrs(specs@, specs@.len() as int, addrs),
        regs.len() == device.registers@.len(),
        regs.to_multiset() == device.registers@.to_multiset(),
        forall|i: int, j: int|
            0 <= i < j < regs.len() ==> (#[trigger] regs[i]).addr <= (#[trigger] regs[j]).addr,
{
    let key = model::register_key();
    assert(model::register_key() =~= (|r: RegisterDef| r.addr as int));
    lemma_generated(*device, specs@);
    ordering::lemma_sort_by(device.registers@, key);
    lemma_index(specs@, specs@.len());
    assert forall|i: int, j: int| 0 <= i < j < regs.len() implies (#[trigger] regs[i]).addr <= (
    #[trigger] regs[j]).addr by {
        assert(key(regs[i]) <= key(regs[j]));
    }
}

proof fn lemma_generated(device: DeviceModel, specs: Seq<ResolvedCsvSpec>)
    requires
        specs.len() <= 256,
        forall|k: int| 0 <= k < specs.len() ==> (#[trigger] specs[k]).addr < 256,
    ensures
        codegen::model_rs_text(
            device,
            codegen::debug_literal(device.device_name@),
            codegen::rows_of(model::sorted_registers(device.registers@)),
            csv_specs::spec_views(specs),
        ) == generated_text(
            device,
            model::sorted_registers(device.registers@),
            specs,
            model::host_addrs(csv_specs::spec_views(specs), specs.len()),
        ),
{
    let views = csv_specs::spec_views(specs);
    let n = specs.len();
    let regs = model::sorted_registers(device.registers@);
    let addrs = model::host_addrs(views, n);
    lemma_index(specs, n);
    source_laws::lemma_bytes_in(specs);
    lemma_settings(device, source_laws::bytes_in(specs) as nat);
    lemma_register_lines(regs);
    lemma_samples_constants(specs, n);
    let csv_index = model::csv_index(views, n);
    let host_index = model::host_index(views, n);
    assert(codegen::signed_items(csv_index) =~= int_items(
        Seq::new(256, |a: int| place_at(specs, n as int, a)),
    ));
    assert(codegen::signed_items(host_index) =~= int_items(
        Seq::new(256, |a: int| stream_at(specs, n as int, a)),
    ));
    assert(codegen::byte_items(addrs) =~= hex_items(addrs));
    lemma_array(codegen::signed_items(csv_index));
    lemma_array(codegen::signed_items(host_index));
    lemma_array(hex_items(addrs));
    assert(views.len() == n);
    lemma_regroup(
        codegen::PREAMBLE@ + all_of(constant_lines(settings(device, source_laws::bytes_in(specs)))),
        codegen::TABLE_TYPES@,
        "pub const REGISTERS: &[RegisterSpec] = &[\n"@,
        all_of(Seq::new(regs.len(), |k: int| register_line(regs[k]))),
        "];\n\n"@,
        all_of(Seq::new(specs.len(), |k: int| samples_constant(specs, k))),
        "pub const CSV_REGISTERS: &[CsvRegisterSpec] = &[\n"@,
        all_of(Seq::new(specs.len(), |k: int| source_line(specs, k))),
        index_tables_text(specs, addrs),
    );
}

/// Texts one behind the other, taken together from the front and from the back.
proof fn lemma_regroup(
    a: Seq<char>,
    b: Seq<char>,
    c: Seq<char>,
    d: Seq<char>,
    e: Seq<char>,
    f: Seq<char>,
    g: Seq<char>,
    h: Seq<char>,
    i: Seq<char>,
)
    ensures
        a + b + c + d + e + f + g + h + e + i == a + (b + (c + (d + (e + (f + (g + (h + (e + i)))))))),
{
    lemma_join(a + b + c + d + e + f + g + h, e, i);
    lemma_join(a + b + c + d + e + f + g, h, e + i);
    lemma_join(a + b + c + d + e + f, g, h + (e + i));
    lemma_join(a + b + c + d + e, f, g + (h + (e + i)));
    lemma_join(a + b + c + d, e, f + (g + (h + (e + i))));
    lemma_join(a + b + c, d, e + (f + (g + (h + (e + i)))));
    lemma_join(a + b, c, d + (e + (f + (g + (h + (e + i))))));
    lemma_join(a, b, c + (d + (e + (f + (g + (h + (e + i)))))));
}

proof fn lemma_join(a: Seq<char>, b: Seq<char>, c: Seq<char>)
    ensures
        a + b + c == a + (b + c),
{
    assert(a + b + c =~= a + (b + c));
}

proof fn lemma_split(parts: Seq<Seq<char>>, k: int)
    requires
        0 <= k < parts.len(),
    ensures
        all_of(parts) == all_of(parts.take(k)) + parts[k] + all_of(parts.skip(k + 1)),
    decreases parts.len(),
{
    if k == 0 {
        assert(parts.skip(1) =~= parts.drop_first());
        assert(all_of(parts.take(0)).len() == 0);
        assert(all_of(parts) =~= all_of(parts.take(0)) + parts[0] + all_of(parts.skip(1)));
    } else {
        let rest = parts.drop_first();
        lemma_split(rest, k - 1);
        assert(parts.take(k).drop_first() =~= rest.take(k - 1));
        assert(parts.skip(k + 1) =~= rest.skip(k));
        assert(all_of(parts) =~= all_of(parts.take(k)) + parts[k] + all_of(parts.skip(k + 1)));
    }
}

/// A text is a line with a certain front and a certain rest around it.
pub open spec fn is_around(whole: Seq<char>, front: Seq<char>, line: Seq<char>, rest: Seq<char>) -> bool {
    whole == front + line + rest
}

/// Two models with the same registers and sources whose settings differ in one give sources that
/// differ in the line of that setting and in no other.
#[verifier::spinoff_prover]
#[verifier::rlimit(40)]
pub proof fn law_one_setting_is_one_line(
    a: &DeviceModel,
    b: &DeviceModel,
    specs: &Vec<ResolvedCsvSpec>,
    source_a: String,
    source_b: String,
    k: int,
)
    requires
        call_ensures(codegen::generate_model_rs, (a, specs), source_a),
        call_ensures(codegen::generate_model_rs, (b, specs), source_b),
        specs@.len() <= 256,
        forall|j: int| 0 <= j < specs@.len() ==> (#[trigger] specs@[j]).addr < 256,
        a.registers@ == b.registers@,
        0 <= k < 11,
        forall|j: int|
            0 <= j < 11 && j != k ==> #[trigger] settings(*a, 0)[j] == settings(*b, 0)[j],
    ensures
        exists|front: Seq<char>, rest: Seq<char>|
            {
                &&& #[trigger] is_around(
                    source_a@,
                    front,
                    constant_line(settings(*a, source_laws::bytes_in(specs@))[k]),
                    rest,
                )
                &&& is_around(
                    source_b@,
                    front,
                    constant_line(settings(*b, source_laws::bytes_in(specs@))[k]),
                    rest,
                )
            },
{
    let total = source_laws::bytes_in(specs@);
    let lines_a = constant_lines(settings(*a, total));
    let lines_b = constant_lines(settings(*b, total));
    let regs = model::sorted_registers(a.registers@);
    let addrs = model::host_addrs(csv_specs::spec_views(specs@), specs@.len());
    let tail = tail_text(regs, specs@, addrs);
    assert(source_a@ == generated_text(*a, regs, specs@, addrs)) by {
        lemma_generated(*a, specs@);
    }
    assert(source_b@ == generated_text(*b, regs, specs@, addrs)) by {
        lemma_generated(*b, specs@);
    }
    lemma_same_lines(*a, *b, total, k);
    lemma_around(codegen::PREAMBLE@, lines_a, k, tail);
    lemma_around(codegen::PREAMBLE@, lines_b, k, tail);
    lemma_line_of(settings(*a, total), k);
    lemma_line_of(settings(*b, total), k);
    let front = codegen::PREAMBLE@ + all_of(lines_a.take(k));
    let rest = all_of(lines_a.skip(k + 1)) + tail;
    assert(is_around(source_a@, front, constant_line(settings(*a, total)[k]), rest));
}

proof fn lemma_line_of(constants: Seq<Constant>, k: int)
    requires
        0 <= k < constants.len(),
    ensures
        constant_lines(constants)[k] == constant_line(constants[k]),
        constant_lines(constants).len() == constants.len(),
{
}

proof fn lemma_same_lines(a: DeviceModel, b: DeviceModel, total: int, k: int)
    requires
        0 <= k < 11,
        forall|j: int|
            0 <= j < 11 && j != k ==> #[trigger] settings(a, 0)[j] == settings(b, 0)[j],
    ensures
        ({
            let lines_a = constant_lines(settings(a, total));
            let lines_b = constant_lines(settings(b, total));
            &&& lines_a.take(k) == lines_b.take(k)
            &&& lines_a.skip(k + 1) == lines_b.skip(k + 1)
        }),
{
    let lines_a = constant_lines(settings(a, total));
    let lines_b = constant_lines(settings(b, total));
    assert forall|j: int| 0 <= j < 11 && j != k implies lines_a[j] == lines_b[j] by {
        assert(settings(a, 0)[j] == settings(b, 0)[j]);
        assert(settings(a, total)[j] == settings(b, total)[j]);
    }
    assert(lines_a.take(k) =~= lines_b.take(k));
    assert(lines_a.skip(k + 1) =~= lines_b.skip(k + 1));
}

proof fn lemma_around(notice: Seq<char>, lines: Seq<Seq<char>>, k: int, tail: Seq<char>)
    requires
        0 <= k < lines.len(),
    ensures
        notice + all_of(lines) + tail == notice + all_of(lines.take(k)) + lines[k] + (all_of(
            lines.skip(k + 1),
        ) + tail),
{
    lemma_split(lines, k);
    let before = all_of(lines.take(k));
    let behind = all_of(lines.skip(k + 1));
    lemma_join(before + lines[k], behind, tail);
    assert(notice + (before + lines[k] + behind) + tail =~= notice + before + lines[k] + (behind
        + tail));
}

/// What stands behind the settings.
pub open spec fn tail_text(
    regs: Seq<RegisterDef>,
    specs: Seq<ResolvedCsvSpec>,
    addrs: Seq<u8>,
) -> Seq<char> {
    let n = specs.len() as int;
    "\n#[derive(Copy, Clone, Debug, Eq, PartialEq)]\npub enum Access {\n    Ro,\n    Rw,\n}\n\n#[derive(Copy, Clone, Debug, Eq, PartialEq)]\npub enum CsvMode {\n    Embedded,\n    HostStream,\n}\n\n#[derive(Copy, Clone, Debug, Eq, PartialEq)]\npub struct RegisterSpec {\n    pub addr: u8,\n    pub default: u8,\n    pub access: Access,\n    pub name: &'static str,\n}\n\n#[derive(Copy, Clone, Debug, Eq, PartialEq)]\npub struct CsvRegisterSpec {\n    pub addr: u8,\n    pub mode: CsvMode,\n    pub data: &'static [u8],\n}\n\n"@
        + ("pub const REGISTERS: &[RegisterSpec] = &[\n"@ + (all_of(
        Seq::new(regs.len(), |k: int| register_line(regs[k])),
    ) + ("];\n\n"@ + (all_of(Seq::new(specs.len(), |k: int| samples_constant(specs, k))) + (
    "pub const CSV_REGISTERS: &[CsvRegisterSpec] = &[\n"@ + (all_of(
        Seq::new(specs.len(), |k: int| source_line(specs, k)),
    ) + ("];\n\n"@ + index_tables_text(specs, addrs))))))))
}

/// The tables that lead from an address to a source and to a stream.
pub open spec fn index_tables_text(specs: Seq<ResolvedCsvSpec>, addrs: Seq<u8>) -> Seq<char> {
    let n = specs.len() as int;
    "pub const CSV_INDEX_BY_ADDR: [i16; REG_COUNT] = "@ + array_literal(
        int_items(Seq::new(256, |a: int| place_at(specs, n, a))),
    ) + ";\n\npub const HOST_STREAM_COUNT: usize = "@ + text::dec_text(addrs.len())
        + ";\npub const HOST_STREAM_ADDRS: [u8; HOST_STREAM_COUNT] = "@ + array_literal(
        hex_items(addrs),
    ) + ";\n\npub const HOST_STREAM_INDEX_BY_ADDR: [i16; REG_COUNT] = "@ + array_literal(
        int_items(Seq::new(256, |a: int| stream_at(specs, n, a))),
    ) + ";\n"@
}

/// What a call of `generate_source` writes is what `generate_model_rs` writes of the model and of its
/// resolved sources; where the sources cannot be resolved, the error is that of `resolve_csv_specs`.
pub proof fn law_source_is_generated_from_the_files(
    device: &DeviceModel,
    files: &Vec<CsvFile>,
    source: Result<String, SpecsError>,
    resolved: Result<Vec<ResolvedCsvSpec>, SpecsError>,
)
    requires
        call_ensures(codegen::generate_source, (device, files), source),
        call_ensures(csv_specs::resolve_csv_specs, (device, files), resolved),
        device.is_valid(),
    ensures
        match (source, resolved) {
            (Ok(text), Ok(specs)) => text@ == generated_text(
                *device,
                ordering::sort_by(device.registers@, |r: RegisterDef| r.addr as int),
                specs@,
                model::host_addrs(csv_specs::spec_views(specs@), specs@.len()),
            ),
            (Err(a), Err(b)) => a@ == b@,
            _ => false,
        },
{
    assert(model::register_key() =~= (|r: RegisterDef| r.addr as int));
    if let Ok(specs) = resolved {
        let views = csv_specs::spec_views(specs@);
        crate::model_laws::law_resolved_specs(*device, files@, views);
        assert(views.len() <= 256) by {
            reveal(Seq::filter);
            device.registers@.lemma_filter_len(|r: RegisterDef| r.csv is Some);
        }
        assert forall|k: int| 0 <= k < specs@.len() implies (#[trigger] specs@[k]).addr < 256 by {
            assert(crate::model_laws::is_sound_spec(views[k]));
        }
        lemma_generated(*device, specs@);
    }
}

/// What a call of `model_tables` gives: the settings of the model, its registers by address, its
/// sources in their order, and the tables that lead to them.
pub proof fn law_tables_give_the_model(
    device: &DeviceModel,
    specs: &Vec<ResolvedCsvSpec>,
    tables: model::ModelTables,
)
    requires
        call_ensures(model::model_tables, (device, specs), tables),
        specs@.len() <= 256,
        forall|k: int| 0 <= k < specs@.len() ==> (#[trigger] specs@[k]).addr < 256,
        forall|i: int|
            0 <= i < device.registers@.len() ==> (#[trigger] device.registers@[i]).addr < 256,
    ensures
        tables.device_name@ == device.device_name@,
        tables.i2c_address_7bit == device.i2c_address_7bit,
        tables.i2c_internal_pullups == device.i2c_internal_pullups,
        tables.i2c_respond_to_general_call == device.i2c_respond_to_general_call,
        tables.default_fill == device.default_fill,
        tables.auto_increment == device.auto_increment,
        tables.registers@.len() == device.registers@.len(),
        forall|i: int|
            0 <= i < device.registers@.len() ==> #[trigger] has_its_entry(
                tables.registers@,
                device.registers@[i],
            ),
        forall|j: int, k: int|
            0 <= j < k < tables.registers@.len() ==> (#[trigger] tables.registers@[j]).addr <= (
            #[trigger] tables.registers@[k]).addr,
        tables.csv_registers@.len() == specs@.len(),
        forall|k: int|
            0 <= k < specs@.len() ==> {
                &&& (#[trigger] tables.csv_registers@[k]).addr == specs@[k].addr
                &&& tables.csv_registers@[k].mode == specs@[k].mode
                &&& tables.csv_registers@[k].data@ == specs@[k].data@
            },
        forall|a: int|
            0 <= a < 256 ==> #[trigger] tables.csv_index_by_addr@[a] == place_at(
                specs@,
                specs@.len() as int,
                a,
            ),
        forall|a: int|
            0 <= a < 256 ==> #[trigger] tables.host_stream_index_by_addr@[a] == stream_at(
                specs@,
                specs@.len() as int,
                a,
            ),
        are_stream_addrs(specs@, specs@.len() as int, tables.host_stream_addrs@),
{
    let views = csv_specs::spec_views(specs@);
    let regs = model::sorted_registers(device.registers@);
    let key = model::register_key();
    lemma_index(specs@, specs@.len());
    assert(views.len() == specs@.len());
    ordering::lemma_sort_by(device.registers@, key);
    assert forall|k: int| 0 <= k < regs.len() implies (#[trigger] regs[k]).addr < 256 by {
        let i = ordering::lemma_unsorted_place(device.registers@, key, k);
    }
    assert forall|i: int| 0 <= i < device.registers@.len() implies #[trigger] has_its_entry(
        tables.registers@,
        device.registers@[i],
    ) by {
        let k = ordering::lemma_sorted_place(device.registers@, key, i);
        assert(model::is_register(tables.registers@[k], regs[k]));
    }
    assert forall|j: int, k: int| 0 <= j < k < tables.registers@.len() implies (
    #[trigger] tables.registers@[j]).addr <= (#[trigger] tables.registers@[k]).addr by {
        assert(model::is_register(tables.registers@[j], regs[j]));
        assert(model::is_register(tables.registers@[k], regs[k]));
        assert(key(regs[j]) <= key(regs[k]));
    }
    assert forall|k: int| 0 <= k < specs@.len() implies {
        &&& (#[trigger] tables.csv_registers@[k]).addr == specs@[k].addr
        &&& tables.csv_registers@[k].mode == specs@[k].mode
        &&& tables.csv_registers@[k].data@ == specs@[k].data@
    } by {
        assert(model::is_csv_register(tables.csv_registers@[k], views[k]));
        assert(views[k] == specs@[k]@);
    }
    assert forall|a: int| 0 <= a < 256 implies #[trigger] tables.csv_index_by_addr@[a] == place_at(
        specs@,
        specs@.len() as int,
        a,
    ) by {
        assert(model::csv_index(views, specs@.len())[a] == place_at(
            specs@,
            specs@.len() as int,
            a,
        ));
    }
    assert forall|a: int| 0 <= a < 256 implies #[trigger] tables.host_stream_index_by_addr@[a]
        == stream_at(specs@, specs@.len() as int, a) by {
        assert(model::host_index(views, specs@.len())[a] == stream_at(
            specs@,
            specs@.len() as int,
            a,
        ));
    }
}

/// A register has its entry in a table.
pub open spec fn has_its_entry(table: Seq<model::RegisterSpec>, reg: RegisterDef) -> bool {
    exists|k: int|
        {
            &&& 0 <= k < table.len()
            &&& (#[trigger] table[k]).addr == reg.addr
            &&& table[k].default == reg.default
            &&& table[k].access == reg.access
            &&& table[k].name@ == reg.name@
        }
}

/// What a call of `render_csv_data_const` appends: the constant with the samples of a source.
pub proof fn law_samples_constant(out: &mut String, idx: usize, values: &[u8])
    requires
        call_ensures(codegen::render_csv_data_const, (out, idx, values), ()),
    ensures
        final(out)@ == old(out)@ + ("const CSV_DATA_"@ + text::dec_text(idx as nat)
            + ": &[u8] = &\n"@ + array_literal(hex_items(values@)) + ";\n"@),
{
    assert(codegen::byte_items(values@) =~= hex_items(values@));
    lemma_array(hex_items(values@));
}

}
