use std::path::Path;

use morphiic::codegen::{
    generate_model_rs, generate_source, render_csv_data_const, render_i16_array, render_u8_array,
};
use morphiic::csv::{parse_csv_samples, CsvError, NumberFault};
use morphiic::csv_specs::{
    enforce_embedded_csv_budget, load_csv_samples, resolve_csv_paths, resolve_csv_specs,
    BudgetError, CsvFile, LoadError, ResolvedCsvSpec, SpecsError,
};
use morphiic::device_model::{
    check_addr_width, parse_model, parse_stated_model, validate, Access, AddrWidthError, CsvModeDef,
    CsvSourceDef, DeviceModel, ModelError, ModelFault, RegisterDef, StatedModelError,
    EMBEDDED_CSV_BUDGET_BYTES,
};
use morphiic::host_sources::host_csv_paths;
use morphiic::model::model_tables;
use morphiic::paths::{base_dir, base_from, joined, parent};

fn register(addr: u16, default: u8, access: Access, name: &str) -> RegisterDef {
    RegisterDef { addr, default, access, name: name.to_string(), csv: None }
}

fn csv_register(
    addr: u16,
    default: u8,
    access: Access,
    name: &str,
    path: &str,
    mode: CsvModeDef,
) -> RegisterDef {
    RegisterDef {
        addr,
        default,
        access,
        name: name.to_string(),
        csv: Some(CsvSourceDef { path: path.to_string(), mode }),
    }
}

fn model(name: &str, i2c_address_7bit: u8, registers: Vec<RegisterDef>) -> DeviceModel {
    DeviceModel {
        device_name: name.to_string(),
        i2c_address_7bit,
        i2c_internal_pullups: true,
        i2c_respond_to_general_call: true,
        default_fill: 0,
        auto_increment: true,
        registers,
    }
}

fn file(path: &str, text: &str) -> CsvFile {
    CsvFile { path: path.to_string(), text: Ok(text.to_string()) }
}

fn find_or_panic(string: &str, sub_string: &str) -> usize {
    match string.find(sub_string) {
        Some(at) => at,
        None => panic!("expected to find {sub_string:?} in generated output"),
    }
}

#[test]
fn parse_model_accepts_boundary_variants() {
    let min_model = DeviceModel {
        device_name: "min".to_string(),
        i2c_address_7bit: 0x08,
        default_fill: 0,
        auto_increment: false,
        i2c_internal_pullups: false,
        i2c_respond_to_general_call: false,
        registers: vec![register(0, 1, Access::Ro, "ONLY")],
    };
    assert!(parse_model(Ok(min_model)).is_ok());

    let mut registers = Vec::new();
    for idx in 0u16..9u16 {
        registers.push(csv_register(
            idx,
            idx as u8,
            Access::Ro,
            &format!("HS{}", idx),
            &format!("csv/hs_{}.csv", idx),
            CsvModeDef::HostStream,
        ));
    }
    registers.push(csv_register(
        20,
        0xA0,
        Access::Ro,
        "EMB",
        "csv/embedded.csv",
        CsvModeDef::Embedded,
    ));
    registers.push(register(200, 0x55, Access::Rw, "RW"));

    let max_model = DeviceModel {
        device_name: "max".to_string(),
        i2c_address_7bit: 0x77,
        default_fill: 0xff,
        auto_increment: true,
        i2c_internal_pullups: true,
        i2c_respond_to_general_call: true,
        registers,
    };
    assert!(parse_model(Ok(max_model)).is_ok());
}

#[test]
fn parse_model_accepts_sparse_register_addresses() {
    let sparse = DeviceModel {
        device_name: "sparse".to_string(),
        i2c_address_7bit: 0x42,
        default_fill: 0,
        auto_increment: false,
        i2c_internal_pullups: true,
        i2c_respond_to_general_call: false,
        registers: vec![
            register(0x00, 0x11, Access::Ro, "LOW"),
            register(0x32, 0x22, Access::Rw, "HIGH"),
        ],
    };
    let parsed = parse_model(Ok(sparse)).unwrap();
    assert_eq!(parsed.registers.len(), 2);
    assert_eq!(parsed.registers[1].default, 0x22);
}

#[test]
fn parse_model_rejects_invalid_shape_and_constraints() {
    let mut host_fed = Vec::new();
    for addr in 0u16..10u16 {
        host_fed.push(csv_register(
            addr,
            0,
            Access::Ro,
            &format!("HS{}", addr),
            &format!("{}.csv", addr),
            CsvModeDef::HostStream,
        ));
    }
    let invalid_cases = vec![
        (
            "bad_i2c_address_out_of_7bit_range",
            model("bad", 0x80, vec![]),
            "i2c_address_7bit must be in 0x08..=0x77",
        ),
        (
            "bad_i2c_address_reserved_low",
            model("bad", 0x00, vec![]),
            "i2c_address_7bit must be in 0x08..=0x77",
        ),
        (
            "bad_i2c_address_reserved_high",
            model("bad", 0x7f, vec![]),
            "i2c_address_7bit must be in 0x08..=0x77",
        ),
        (
            "out_of_range_register",
            model("bad", 0x42, vec![register(256, 0, Access::Ro, "X")]),
            "outside 8-bit address space",
        ),
        (
            "duplicate_address",
            model(
                "bad",
                0x42,
                vec![register(2, 0, Access::Ro, "A"), register(2, 1, Access::Rw, "B")],
            ),
            "duplicate register addr",
        ),
        (
            "csv_on_rw",
            model(
                "bad",
                0x42,
                vec![csv_register(2, 0, Access::Rw, "CSV_RW", "x.csv", CsvModeDef::Embedded)],
            ),
            "uses CSV but is not read-only",
        ),
        (
            "empty_csv_path",
            model(
                "bad",
                0x42,
                vec![csv_register(2, 0, Access::Ro, "CSV_EMPTY", " ", CsvModeDef::Embedded)],
            ),
            "empty csv.path",
        ),
        ("too_many_host_stream_registers", model("bad", 0x42, host_fed), "exceeds limit"),
    ];
    for (name, device, expected) in invalid_cases {
        let err = parse_model(Ok(device)).unwrap_err().message();
        assert!(
            err.contains(expected),
            "{name}: expected error containing {expected:?}, got: {err}"
        );
    }

    let shapes = [
        ("unknown field `unknown_field`, expected one of `device_name`", "unknown field"),
        ("missing field `i2c_internal_pullups`", "missing field"),
        ("unknown variant `write_only`, expected `ro` or `rw`", "unknown variant"),
    ];
    for (detail, expected) in shapes {
        let err = parse_model(Err(detail.to_string())).unwrap_err();
        assert!(matches!(err, ModelError::Json { .. }));
        let rendered = err.message();
        assert!(rendered.contains(expected));
        assert_eq!(rendered, format!("parsing model JSON: {detail}"));
    }
}

#[test]
fn parse_csv_samples_parses_expected_formats() {
    let csv = r#"
            # comment only
            42
            0x2a
            0X2A,ignored_column

            255 # inline comment
            0x00
        "#;
    let parsed = parse_csv_samples(csv, "sample.csv").unwrap();
    assert_eq!(parsed, vec![42, 42, 42, 255, 0]);
}

#[test]
fn parse_csv_samples_rejects_invalid_content() {
    let invalid_cases = [
        ("invalid_decimal", "abc\n", "invalid decimal byte"),
        ("invalid_hex", "0xGG\n", "invalid hex byte"),
        ("out_of_range", "256\n", "out of range"),
        ("empty_after_filtering", "  # only comments\n\n", "does not contain"),
    ];

    for (name, csv, expected) in invalid_cases {
        let err = parse_csv_samples(csv, "bad.csv").unwrap_err().message();
        assert!(err.contains(expected), "{name}: expected {expected:?}, got: {err}");
    }
}

fn deterministic() -> (DeviceModel, Vec<CsvFile>) {
    let device = DeviceModel {
        device_name: "deterministic".to_string(),
        i2c_address_7bit: 0x42,
        default_fill: 0xFF,
        auto_increment: true,
        i2c_internal_pullups: true,
        i2c_respond_to_general_call: true,
        registers: vec![
            csv_register(
                32,
                0xA0,
                Access::Ro,
                "REG_EMBEDDED",
                "csv/embedded.csv",
                CsvModeDef::Embedded,
            ),
            register(1, 0x34, Access::Ro, "REG_ID1"),
            csv_register(17, 0xA1, Access::Ro, "REG_HOST", "csv/host.csv", CsvModeDef::HostStream),
            register(16, 0, Access::Rw, "REG_RW"),
        ],
    };
    let files = vec![
        file("models/csv/embedded.csv", "0xA0\n0xA1\n0xA2\n"),
        file("models/csv/host.csv", "10\n20\n30\n"),
    ];
    (device, files)
}

#[test]
fn generate_fw_model_sorts_and_builds_indices() {
    let (device, files) = deterministic();
    let parsed = parse_model(Ok(device)).unwrap();
    let csv_specs = resolve_csv_specs(&parsed, &files).unwrap();
    let generated = generate_model_rs(&parsed, &csv_specs);

    let reg_1 = find_or_panic(&generated, "RegisterSpec { addr: 0x01");
    let reg_16 = find_or_panic(&generated, "RegisterSpec { addr: 0x10");
    let reg_17 = find_or_panic(&generated, "RegisterSpec { addr: 0x11");
    let reg_32 = find_or_panic(&generated, "RegisterSpec { addr: 0x20");
    assert!(reg_1 < reg_16 && reg_16 < reg_17 && reg_17 < reg_32);

    assert!(generated.contains("pub const I2C_INTERNAL_PULLUPS: bool = true;"));
    assert!(generated.contains("pub const I2C_RESPOND_TO_GENERAL_CALL: bool = true;"));
    assert!(generated.contains("pub const HOST_STREAM_COUNT: usize = 1;"));
    assert!(
        generated.contains("CsvRegisterSpec { addr: 0x11, mode: CsvMode::HostStream, data: &[] },")
    );
    assert!(generated
        .contains("CsvRegisterSpec { addr: 0x20, mode: CsvMode::Embedded, data: CSV_DATA_1 },"));
    assert!(generated.contains("const CSV_DATA_1: &[u8] = &"));
    assert!(!generated.contains("const CSV_DATA_0: &[u8] = &"));
    assert!(generated.contains("pub const HOST_STREAM_ADDRS: [u8; HOST_STREAM_COUNT] = ["));
    assert!(generated.contains("    0x11, "));
}

fn index_rows(entries: &[(usize, i16)]) -> String {
    let mut text = "[\n".to_string();
    for row in 0..16 {
        text.push_str("    ");
        for column in 0..16 {
            let addr = row * 16 + column;
            let mut value = -1;
            for entry in entries {
                if entry.0 == addr {
                    value = entry.1;
                }
            }
            text.push_str(&format!("{value}, "));
        }
        text.push('\n');
    }
    text.push_str("]");
    text
}

#[test]
fn generated_source_is_complete() {
    let (device, files) = deterministic();
    let generated = generate_source(&device, &files).unwrap();
    let mut expected = "\
// Generated by tools/gen_model. Do not edit manually.

#![allow(dead_code)]

pub const DEVICE_NAME: &str = \"deterministic\";
pub const I2C_ADDRESS_7BIT: u8 = 0x42;
pub const I2C_INTERNAL_PULLUPS: bool = true;
pub const I2C_RESPOND_TO_GENERAL_CALL: bool = true;
pub const REG_COUNT: usize = 256;
pub const DEFAULT_FILL: u8 = 0xFF;
pub const AUTO_INCREMENT: bool = true;
pub const MAX_HOST_STREAM_REGS: usize = 9;
pub const HOST_STREAM_BUFFER_CAPACITY: usize = 2048;
pub const EMBEDDED_CSV_BUDGET_BYTES: usize = 32768;
pub const EMBEDDED_CSV_TOTAL_BYTES: usize = 3;

#[derive(Copy, Clone, Debug, Eq, PartialEq)]
pub enum Access {
    Ro,
    Rw,
}

#[derive(Copy, Clone, Debug, Eq, PartialEq)]
pub enum CsvMode {
    Embedded,
    HostStream,
}

#[derive(Copy, Clone, Debug, Eq, PartialEq)]
pub struct RegisterSpec {
    pub addr: u8,
    pub default: u8,
    pub access: Access,
    pub name: &'static str,
}

#[derive(Copy, Clone, Debug, Eq, PartialEq)]
pub struct CsvRegisterSpec {
    pub addr: u8,
    pub mode: CsvMode,
    pub data: &'static [u8],
}

pub const REGISTERS: &[RegisterSpec] = &[
    RegisterSpec { addr: 0x01, default: 0x34, access: Access::Ro, name: \"REG_ID1\" },
    RegisterSpec { addr: 0x10, default: 0x00, access: Access::Rw, name: \"REG_RW\" },
    RegisterSpec { addr: 0x11, default: 0xA1, access: Access::Ro, name: \"REG_HOST\" },
    RegisterSpec { addr: 0x20, default: 0xA0, access: Access::Ro, name: \"REG_EMBEDDED\" },
];

const CSV_DATA_1: &[u8] = &
[
    0xA0, 0xA1, 0xA2, 
];

pub const CSV_REGISTERS: &[CsvRegisterSpec] = &[
    CsvRegisterSpec { addr: 0x11, mode: CsvMode::HostStream, data: &[] },
    CsvRegisterSpec { addr: 0x20, mode: CsvMode::Embedded, data: CSV_DATA_1 },
];

pub const CSV_INDEX_BY_ADDR: [i16; REG_COUNT] = "
        .to_string();
    expected.push_str(&index_rows(&[(0x11, 0), (0x20, 1)]));
    expected.push_str(
        ";

pub const HOST_STREAM_COUNT: usize = 1;
pub const HOST_STREAM_ADDRS: [u8; HOST_STREAM_COUNT] = [
    0x11, 
];

pub const HOST_STREAM_INDEX_BY_ADDR: [i16; REG_COUNT] = ",
    );
    expected.push_str(&index_rows(&[(0x11, 0)]));
    expected.push_str(";\n");
    assert_eq!(generated, expected);
}

#[test]
fn names_are_escaped_as_rust_literals() {
    let device = model("a\"b\\c\n", 0x42, vec![register(0, 0, Access::Ro, "tab\there")]);
    let generated = generate_source(&device, &vec![]).unwrap();
    assert!(generated.contains("pub const DEVICE_NAME: &str = \"a\\\"b\\\\c\\n\";"));
    assert!(generated.contains("\"tab\\there\""));
}

fn huge_csv(count: usize) -> String {
    let mut text = String::new();
    for idx in 0..count {
        text.push_str(&format!("{}\n", idx % 256));
    }
    text
}

#[test]
fn generate_from_paths_enforces_embedded_budget() {
    let device = model(
        "budget",
        0x42,
        vec![csv_register(32, 0, Access::Ro, "HUGE", "csv/huge.csv", CsvModeDef::Embedded)],
    );
    let parsed = parse_model(Ok(device)).unwrap();
    let files = vec![file("models/csv/huge.csv", &huge_csv(EMBEDDED_CSV_BUDGET_BYTES + 1))];
    let err = match generate_source(&parsed, &files) {
        Ok(_) => panic!("expected embedded CSV budget overflow to fail"),
        Err(err) => err.message(),
    };
    assert!(err.contains("embedded CSV payload exceeds budget"));
    assert_eq!(
        err,
        "embedded CSV payload exceeds budget: 32769 bytes total (budget 32768 bytes, over by 1 \
         bytes). Per-register embedded sizes: 0x20:32769B. Reduce embedded CSV sizes or \
         switch registers to host_stream."
    );

    let files = vec![file("models/csv/huge.csv", &huge_csv(EMBEDDED_CSV_BUDGET_BYTES))];
    assert!(generate_source(&parsed, &files).is_ok());
}

#[test]
fn valid_model_parses_and_generates() {
    let device = model(
        "test_device",
        0x42,
        vec![
            csv_register(1, 0, Access::Ro, "E", "csv/embedded.csv", CsvModeDef::Embedded),
            csv_register(2, 0, Access::Ro, "H", "csv/host.csv", CsvModeDef::HostStream),
            register(3, 0, Access::Rw, "R"),
        ],
    );
    let parsed = parse_model(Ok(device)).unwrap();

    let csv_paths = resolve_csv_paths(&parsed, "models/device_model.json");
    assert_eq!(csv_paths.len(), 2);
    assert_eq!(csv_paths, vec!["models/csv/embedded.csv", "models/csv/host.csv"]);

    let files = vec![file(&csv_paths[0], "1\n2\n"), file(&csv_paths[1], "3\n")];
    let generated = generate_source(&parsed, &files).unwrap();
    assert!(generated.contains("pub const DEVICE_NAME: &str = \"test_device\";"));
    assert!(generated.contains("CsvMode::Embedded"));
    assert!(generated.contains("CsvMode::HostStream"));
}

#[test]
fn invalid_models_fail_validation() {
    let invalid_cases = vec![
        (
            Ok(model(
                "bad",
                0x42,
                vec![register(2, 0, Access::Ro, "A"), register(2, 1, Access::Rw, "B")],
            )),
            "duplicate register addr",
        ),
        (Err("unknown field `unknown_field`".to_string()), "unknown field"),
        (Err("unknown variant `write_only`".to_string()), "unknown variant"),
        (
            Ok(model(
                "bad",
                0x42,
                vec![csv_register(2, 0, Access::Rw, "C", "x.csv", CsvModeDef::Embedded)],
            )),
            "uses CSV but is not read-only",
        ),
    ];
    for (decoded, expected) in invalid_cases {
        let rendered = parse_model(decoded).unwrap_err().message();
        assert!(rendered.contains(expected), "expected {expected:?}, got {rendered}");
    }
}

#[test]
fn csv_samples_load_expected_values() {
    let embedded = load_csv_samples(&file("csv/embedded.csv", "0xA0\n0xA1\n0xA2\n255\n")).unwrap();
    let host = load_csv_samples(&file("csv/host.csv", "10\n20\n30\n40\n")).unwrap();
    assert_eq!(embedded, vec![0xA0, 0xA1, 0xA2, 255]);
    assert_eq!(host, vec![10, 20, 30, 40]);
}

#[test]
fn every_fault_has_its_message() {
    let cases = vec![
        (
            ModelFault::ReservedI2cAddress,
            "i2c_address_7bit must be in 0x08..=0x77 (0x00..=0x07 and 0x78..=0x7F are reserved)",
        ),
        (
            ModelFault::TooManyRegisters { count: 257 },
            "register count 257 exceeds 8-bit address space capacity 256",
        ),
        (
            ModelFault::AddressOutOfRange { addr: 300 },
            "register addr 300 is outside 8-bit address space (0..=255)",
        ),
        (ModelFault::DuplicateAddress { addr: 7 }, "duplicate register addr 7"),
        (
            ModelFault::CsvNotReadOnly { addr: 10 },
            "register addr 10 uses CSV but is not read-only",
        ),
        (ModelFault::EmptyCsvPath { addr: 0 }, "register addr 0 has empty csv.path"),
        (
            ModelFault::TooManyHostStreams { count: 12 },
            "host_stream register count 12 exceeds limit 9",
        ),
    ];
    for (fault, expected) in cases {
        assert_eq!(fault.message(), expected);
    }
}

#[test]
fn addresses_have_eight_bits() {
    assert!(check_addr_width(None).is_ok());
    assert!(check_addr_width(Some(8)).is_ok());
    let err = check_addr_width(Some(16)).unwrap_err();
    assert_eq!(err, AddrWidthError { bits: 16 });
    assert_eq!(err.message(), "addr_width_bits must be 8, got 16");
}

#[test]
fn models_that_state_another_address_width_are_refused() {
    for stated in [None, Some(8)] {
        let parsed = parse_stated_model(Ok(model("d", 66, vec![])), stated).unwrap();
        assert_eq!((parsed.device_name.as_str(), parsed.i2c_address_7bit), ("d", 66));
    }
    for bits in [0, 7, 9, 16, u64::MAX] {
        let err = parse_stated_model(Ok(model("d", 66, vec![])), Some(bits)).unwrap_err();
        assert!(matches!(
            err,
            StatedModelError::AddrWidth { error: AddrWidthError { bits: got } } if got == bits
        ));
        assert_eq!(err.message(), format!("addr_width_bits must be 8, got {bits}"));
    }
    // The width comes before the other rules, and the decoder's words before both.
    let err = parse_stated_model(Ok(model("d", 0, vec![])), Some(16)).unwrap_err();
    assert!(matches!(err, StatedModelError::AddrWidth { .. }));
    let err = parse_stated_model(Ok(model("d", 0, vec![])), Some(8)).unwrap_err();
    assert!(matches!(
        err,
        StatedModelError::Model {
            error: ModelError::Invalid { fault: ModelFault::ReservedI2cAddress }
        }
    ));
    let err = parse_stated_model(Err("no model".to_string()), Some(16)).unwrap_err();
    assert_eq!(err.message(), "parsing model JSON: no model");
}

#[test]
fn csv_paths_are_relative_to_the_model() {
    let csv = ["csv/a.csv", "../b.csv", "/abs/c.csv"];
    let registers = vec![
        csv_register(1, 0, Access::Ro, "A", csv[0], CsvModeDef::Embedded),
        csv_register(2, 0, Access::Ro, "B", csv[1], CsvModeDef::HostStream),
        csv_register(3, 0, Access::Ro, "C", csv[2], CsvModeDef::Embedded),
    ];
    let device = model("paths", 0x42, registers);
    let places = resolve_csv_paths(&device, "models/device_model.json");
    assert_eq!(places, vec!["models/csv/a.csv", "models/../b.csv", "/abs/c.csv"]);
    assert_eq!(host_csv_paths(&device, "m/x.json"), vec!["m/../b.csv"]);
    for model_path in ["", ".", "/", "x.json", "/x.json", "a/b/../x.json", "./x.json", "a//b/"] {
        let base = Path::new(model_path).parent().unwrap_or_else(|| Path::new("."));
        assert_eq!(base_dir(model_path), base.to_str().unwrap());
        let expected: Vec<String> =
            csv.iter().map(|path| base.join(path).to_str().unwrap().to_string()).collect();
        assert_eq!(resolve_csv_paths(&device, model_path), expected);
    }
    assert_eq!(base_dir(""), ".");
    assert_eq!(base_dir("x.json"), "");
    assert_eq!(base_from(None), ".");
    assert_eq!(base_from(Some("d".to_string())), "d");
    assert_eq!(parent("a/b"), Some("a".to_string()));
    assert_eq!(joined("a", "b"), "a/b");
}

#[test]
fn too_many_registers_are_refused_before_their_addresses() {
    let mut registers = Vec::new();
    for addr in 0u16..257u16 {
        registers.push(register(addr, 0, Access::Ro, "R"));
    }
    let fault = validate(&model("many", 0x42, registers)).unwrap_err();
    assert_eq!(fault, ModelFault::TooManyRegisters { count: 257 });
}

#[test]
fn a_full_register_space_is_accepted() {
    let mut registers = Vec::new();
    for addr in 0u16..256u16 {
        registers.push(register(255 - addr, addr as u8, Access::Rw, "R"));
    }
    assert!(validate(&model("full", 0x08, registers)).is_ok());
}

#[test]
fn csv_errors_name_the_place() {
    let err = parse_csv_samples("1\n2 # ok\n 0x1FG ,3\n", "a.csv").unwrap_err();
    assert!(matches!(err, CsvError::InvalidHex { .. }));
    assert_eq!(err.message(), "invalid hex byte '0x1FG' at a.csv:3: invalid digit found in string");
    let err = parse_csv_samples("-1", "a.csv").unwrap_err();
    assert_eq!(err.message(), "invalid decimal byte '-1' at a.csv:1: invalid digit found in string");
    let err = parse_csv_samples("\n\n0x100", "a.csv").unwrap_err();
    assert_eq!(err.message(), "value 256 out of range at a.csv:3 (must be 0..255)");
    let err = parse_csv_samples("", "a.csv").unwrap_err();
    assert_eq!(err.message(), "a.csv does not contain any usable CSV samples");
}

#[test]
fn csv_errors_tell_their_cause() {
    let err = parse_csv_samples("0x", "a.csv").unwrap_err();
    assert!(matches!(err, CsvError::InvalidHex { cause: NumberFault::Empty, .. }));
    assert_eq!(
        err.message(),
        "invalid hex byte '0x' at a.csv:1: cannot parse integer from empty string"
    );
    let err = parse_csv_samples("70000", "a.csv").unwrap_err();
    assert!(matches!(err, CsvError::InvalidDecimal { cause: NumberFault::TooLarge, .. }));
    assert_eq!(
        err.message(),
        "invalid decimal byte '70000' at a.csv:1: number too large to fit in target type"
    );
    let columns = [
        "-", "+", "+-1", "++1", "-1", "x", "1x", "65536", "065536", "65536x", "6553x6", "99999x9",
        "1 2", "\u{e9}", "+70000", "0b1", "1_0",
    ];
    for column in columns {
        let cause = column.parse::<u16>().unwrap_err().to_string();
        assert_eq!(
            parse_csv_samples(column, "s").unwrap_err().message(),
            format!("invalid decimal byte '{column}' at s:1: {cause}")
        );
    }
    let columns = [
        "0x", "0X+", "0x-", "0x-1", "0xG", "0x10000", "0x1000G", "0x10000G", "0x000G", "0x+10000",
        "0x0x1",
    ];
    for column in columns {
        let cause = u16::from_str_radix(&column[2..], 16).unwrap_err().to_string();
        assert_eq!(
            parse_csv_samples(column, "s").unwrap_err().message(),
            format!("invalid hex byte '{column}' at s:1: {cause}")
        );
    }
}

#[test]
fn csv_round_trip_over_every_value_and_style() {
    let mut csv = String::new();
    let mut expected = Vec::new();
    for value in 0u16..256 {
        let value = value as u8;
        for style in 0..3 {
            for extra in 0..4 {
                if expected.len() % 7 == 0 {
                    csv.push_str("# standalone comment line\n\n");
                }
                let mut token = match style {
                    0 => format!("0X{value:02X}"),
                    1 => format!("0x{value:02x}"),
                    _ => value.to_string(),
                };
                if extra & 1 != 0 {
                    token.push_str(",999,unused");
                }
                if extra & 2 != 0 {
                    token.push_str(" # inline");
                }
                csv.push_str(&token);
                csv.push('\n');
                expected.push(value);
            }
        }
    }
    assert_eq!(parse_csv_samples(&csv, "prop.csv").unwrap(), expected);
}

#[test]
fn models_without_csv_are_accepted_at_any_free_address() {
    for i2c in 0x08u8..=0x77 {
        let device = model(
            "prop_valid",
            i2c,
            vec![
                register(i2c as u16, i2c, Access::Rw, "R0"),
                register(255 - i2c as u16, 0, Access::Ro, "R1"),
            ],
        );
        assert!(parse_model(Ok(device)).is_ok());
    }
}

#[test]
fn duplicate_addresses_are_rejected_everywhere() {
    for addr in 0u16..=255 {
        let device = model(
            "prop_invalid",
            0x42,
            vec![register(addr, 1, Access::Ro, "A"), register(addr, 2, Access::Rw, "B")],
        );
        let err = parse_model(Ok(device)).unwrap_err();
        assert_eq!(err.message(), format!("duplicate register addr {addr}"));
    }
}

#[test]
fn an_unreadable_file_is_reported_with_its_register() {
    let device = model(
        "dev",
        0x42,
        vec![csv_register(10, 0, Access::Ro, "H", "gone.csv", CsvModeDef::HostStream)],
    );
    let files = vec![CsvFile {
        path: "models/gone.csv".to_string(),
        text: Err("No such file or directory (os error 2)".to_string()),
    }];
    let err = resolve_csv_specs(&device, &files).unwrap_err();
    assert!(matches!(err, SpecsError::Load { addr: 10, error: LoadError::Unreadable { .. }, .. }));
    assert_eq!(
        err.message(),
        "loading CSV for register 0x0A from models/gone.csv: reading models/gone.csv: No such \
         file or directory (os error 2)"
    );
}

#[test]
fn resolved_specs_are_sorted_and_keep_only_embedded_samples() {
    let (device, files) = deterministic();
    let specs = resolve_csv_specs(&device, &files).unwrap();
    assert_eq!(specs.len(), 2);
    assert_eq!((specs[0].addr, specs[0].mode), (17, CsvModeDef::HostStream));
    assert!(specs[0].data.is_empty());
    assert_eq!((specs[1].addr, specs[1].mode), (32, CsvModeDef::Embedded));
    assert_eq!(specs[1].data, vec![0xA0, 0xA1, 0xA2]);
}

#[test]
fn sources_at_one_address_keep_their_order() {
    let device = model(
        "twice",
        0x42,
        vec![
            csv_register(5, 0, Access::Ro, "A", "a.csv", CsvModeDef::Embedded),
            csv_register(3, 0, Access::Ro, "B", "b.csv", CsvModeDef::Embedded),
            csv_register(5, 0, Access::Ro, "C", "c.csv", CsvModeDef::Embedded),
        ],
    );
    let files = vec![file("a.csv", "1"), file("b.csv", "2"), file("c.csv", "3")];
    let specs = resolve_csv_specs(&device, &files).unwrap();
    let found: Vec<(u16, u8)> = specs.iter().map(|spec| (spec.addr, spec.data[0])).collect();
    assert_eq!(found, vec![(3, 2), (5, 1), (5, 3)]);
}

#[test]
fn tables_list_registers_by_rising_address() {
    let (device, files) = deterministic();
    let specs = resolve_csv_specs(&device, &files).unwrap();
    let tables = model_tables(&device, &specs);
    let addrs: Vec<u8> = tables.registers.iter().map(|reg| reg.addr).collect();
    assert_eq!(addrs, vec![1, 16, 17, 32]);
    assert_eq!(tables.registers[1].access, Access::Rw);
    assert_eq!(tables.registers[3].name, "REG_EMBEDDED");
    assert_eq!(tables.device_name, "deterministic");
    assert_eq!((tables.i2c_address_7bit, tables.default_fill), (0x42, 0xFF));
}

#[test]
fn the_budget_lists_every_embedded_register() {
    let specs = vec![
        ResolvedCsvSpec { addr: 1, mode: CsvModeDef::Embedded, data: vec![0; 20000] },
        ResolvedCsvSpec { addr: 2, mode: CsvModeDef::HostStream, data: vec![] },
        ResolvedCsvSpec { addr: 0xAB, mode: CsvModeDef::Embedded, data: vec![0; 12769] },
    ];
    let err = enforce_embedded_csv_budget(&specs).unwrap_err();
    match &err {
        BudgetError::Exceeded { total, sizes } => {
            assert_eq!(*total, 32769);
            assert_eq!(sizes, &vec![(1u16, 20000usize), (0xAB, 12769)]);
        }
        BudgetError::Overflow { .. } => panic!("no overflow here"),
    }
    assert!(err.message().contains("Per-register embedded sizes: 0x01:20000B, 0xAB:12769B. "));
}

#[test]
fn arrays_are_rendered_in_rows_of_sixteen() {
    let mut out = String::new();
    let values: Vec<u8> = (0u8..18).collect();
    render_u8_array(&mut out, &values);
    assert_eq!(
        out,
        "[\n    0x00, 0x01, 0x02, 0x03, 0x04, 0x05, 0x06, 0x07, 0x08, 0x09, 0x0A, 0x0B, 0x0C, \
         0x0D, 0x0E, 0x0F, \n    0x10, 0x11, \n]"
    );
    let mut out = String::new();
    render_i16_array(&mut out, &[-1, 0, 12]);
    assert_eq!(out, "[\n    -1, 0, 12, \n]");
    let mut out = String::new();
    render_csv_data_const(&mut out, 3, &[0xFF]);
    assert_eq!(out, "const CSV_DATA_3: &[u8] = &\n[\n    0xFF, \n];\n");
}
