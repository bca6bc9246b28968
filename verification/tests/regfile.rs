use morphiic::csv_specs::{resolve_csv_specs, CsvFile};
use morphiic::device_model::{Access, CsvModeDef, CsvSourceDef, DeviceModel, RegisterDef};
use morphiic::model::{model_tables, ModelTables};
use morphiic::regfile::RegisterFile;
use morphiic::streams::{ReadEffect, StreamManager};

fn tables(auto_increment: bool) -> ModelTables {
    let plain = |addr: u16, default: u8, access: Access| RegisterDef {
        addr,
        default,
        access,
        name: format!("R{addr}"),
        csv: None,
    };
    let model = DeviceModel {
        device_name: "regs".to_string(),
        i2c_address_7bit: 0x42,
        i2c_internal_pullups: false,
        i2c_respond_to_general_call: false,
        default_fill: 0xEE,
        auto_increment,
        registers: vec![
            plain(0x00, 0x11, Access::Rw),
            plain(0x01, 0x22, Access::Ro),
            plain(0x02, 0x33, Access::Rw),
            plain(0xFF, 0x44, Access::Rw),
            RegisterDef {
                addr: 0x03,
                default: 0x55,
                access: Access::Ro,
                name: "EMB".to_string(),
                csv: Some(CsvSourceDef { path: "e.csv".to_string(), mode: CsvModeDef::Embedded }),
            },
        ],
    };
    let files = vec![CsvFile { path: "e.csv".to_string(), text: Ok("7\n8\n9\n".to_string()) }];
    let specs = resolve_csv_specs(&model, &files).unwrap();
    model_tables(&model, &specs)
}

fn read(
    file: &mut RegisterFile,
    tables: &ModelTables,
    manager: &mut StreamManager,
    count: usize,
) -> (Vec<u8>, Vec<ReadEffect>) {
    let mut out = vec![0u8; count];
    let mut effects = vec![ReadEffect::NoEffect; count];
    file.read_into(tables, manager, &mut out, &mut effects);
    (out, effects)
}

fn device(auto_increment: bool) -> (ModelTables, RegisterFile, StreamManager) {
    let tables = tables(auto_increment);
    let file = RegisterFile::new(&tables);
    let mut manager = StreamManager::new();
    manager.init_from_model(&tables);
    (tables, file, manager)
}

#[test]
fn registers_start_with_their_defaults() {
    let (tables, mut file, mut manager) = device(true);
    assert_eq!(file.pointer(), 0);
    let (values, effects) = read(&mut file, &tables, &mut manager, 5);
    assert_eq!(values, vec![0x11, 0x22, 0x33, 7, 0xEE]);
    assert_eq!(effects[3], ReadEffect::EmbeddedAdvance { addr: 3 });
    assert_eq!(effects[0], ReadEffect::NoEffect);
    assert_eq!(file.pointer(), 5);
}

#[test]
fn writes_skip_read_only_registers() {
    let (tables, mut file, mut manager) = device(true);
    file.set_pointer(0xFF);
    assert_eq!(file.write_payload(&tables, &[1, 2, 3, 4, 5]), 3);
    assert_eq!(file.pointer(), 4);
    file.set_pointer(0xFF);
    let (values, _) = read(&mut file, &tables, &mut manager, 4);
    assert_eq!(values, vec![1, 2, 0x22, 4]);
}

#[test]
fn the_pointer_stays_without_auto_increment() {
    let (tables, mut file, mut manager) = device(false);
    file.set_pointer(2);
    assert_eq!(file.write_payload(&tables, &[1, 2, 3]), 3);
    assert_eq!(file.pointer(), 2);
    let (values, _) = read(&mut file, &tables, &mut manager, 2);
    assert_eq!(values, vec![3, 3]);
    file.set_pointer(3);
    let (values, effects) = read(&mut file, &tables, &mut manager, 4);
    assert_eq!(values, vec![7, 8, 9, 7]);
    file.rollback_unread(&tables, &mut manager, &effects, 2);
    assert_eq!(file.pointer(), 3);
    assert_eq!(read(&mut file, &tables, &mut manager, 2).0, vec![9, 7]);
}

#[test]
fn a_reset_leaves_csv_registers() {
    let (tables, mut file, mut manager) = device(true);
    file.write_payload(&tables, &[9, 9, 9]);
    file.reset_non_csv_to_defaults(&tables);
    assert_eq!(file.pointer(), 0);
    let (values, _) = read(&mut file, &tables, &mut manager, 3);
    assert_eq!(values, vec![0x11, 0x22, 0x33]);
}

#[test]
fn unread_bytes_are_read_again() {
    let (tables, mut file, mut manager) = device(true);
    let (values, effects) = read(&mut file, &tables, &mut manager, 4);
    assert_eq!(values[3], 7);
    file.rollback_unread(&tables, &mut manager, &effects, 0);
    assert_eq!(file.pointer(), 4);
    file.rollback_unread(&tables, &mut manager, &effects, 2);
    assert_eq!(file.pointer(), 2);
    assert_eq!(read(&mut file, &tables, &mut manager, 2).0, vec![0x33, 7]);
    // More than there are effects: all are taken back, and the pointer goes back all the way.
    file.set_pointer(1);
    file.rollback_unread(&tables, &mut manager, &[], 3);
    assert_eq!(file.pointer(), 0xFE);
}

#[test]
fn longer_effect_buffers_keep_their_tail() {
    let (tables, mut file, mut manager) = device(true);
    let mark = ReadEffect::HostUnderrun { stream_id: 42 };
    let mut out = [0u8; 1];
    let mut effects = [mark; 3];
    file.read_into(&tables, &mut manager, &mut out, &mut effects);
    assert_eq!(effects, [ReadEffect::NoEffect, mark, mark]);
}
