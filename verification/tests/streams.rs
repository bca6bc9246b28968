use morphiic::csv_specs::{resolve_csv_specs, CsvFile};
use morphiic::device_model::{Access, CsvModeDef, CsvSourceDef, DeviceModel, RegisterDef};
use morphiic::model::{model_tables, ModelTables};
use morphiic::streams::{
    FeedError, FeedResult, HostStreamDescriptor, HostStreamState, HostStreamStatus, ReadEffect,
    StreamManager,
};

fn register(addr: u16, mode: CsvModeDef) -> RegisterDef {
    RegisterDef {
        addr,
        default: 0x5A,
        access: Access::Ro,
        name: format!("R{addr}"),
        csv: Some(CsvSourceDef { path: "x.csv".to_string(), mode }),
    }
}

fn tables() -> ModelTables {
    let model = DeviceModel {
        device_name: "streams".to_string(),
        i2c_address_7bit: 0x42,
        i2c_internal_pullups: false,
        i2c_respond_to_general_call: false,
        default_fill: 0xEE,
        auto_increment: true,
        registers: vec![
            register(0x20, CsvModeDef::HostStream),
            register(0x10, CsvModeDef::Embedded),
            register(0x08, CsvModeDef::HostStream),
        ],
    };
    let files: Vec<CsvFile> = (0..3)
        .map(|_| CsvFile { path: "x.csv".to_string(), text: Ok("1\n2\n3\n".to_string()) })
        .collect();
    let specs = resolve_csv_specs(&model, &files).unwrap();
    model_tables(&model, &specs)
}

fn status() -> HostStreamStatus {
    HostStreamStatus {
        stream_id: 77,
        addr: 77,
        level: 77,
        free: 77,
        underruns: 77,
        drops: 77,
        has_last: true,
        last_value: 77,
    }
}

fn status_of(manager: &StreamManager, id: usize) -> HostStreamStatus {
    let mut statuses = [status(); 9];
    manager.statuses(&mut statuses);
    statuses[id]
}

#[test]
fn tables_lead_to_their_registers() {
    let tables = tables();
    assert_eq!(tables.csv_registers.len(), 3);
    assert_eq!(tables.host_stream_addrs, vec![0x08, 0x20]);
    assert_eq!(tables.csv_index_by_addr[0x08], 0);
    assert_eq!(tables.csv_index_by_addr[0x10], 1);
    assert_eq!(tables.csv_index_by_addr[0x20], 2);
    assert_eq!(tables.csv_index_by_addr[0x21], -1);
    assert_eq!(tables.host_stream_index_by_addr[0x08], 0);
    assert_eq!(tables.host_stream_index_by_addr[0x20], 1);
    assert_eq!(tables.host_stream_index_by_addr[0x10], -1);
    assert_eq!(tables.csv_registers[1].data, vec![1, 2, 3]);
    assert!(tables.csv_registers[0].data.is_empty());
}

#[test]
fn a_queue_gives_back_what_it_took() {
    let mut stream = HostStreamState::empty();
    assert_eq!(stream.pop_front(), None);
    assert_eq!(stream.push_back(&[1, 2, 3]), 3);
    assert_eq!((stream.level(), stream.free()), (3, 2045));
    assert_eq!(stream.pop_front(), Some(1));
    stream.push_front_one(9);
    assert_eq!(stream.pop_front(), Some(9));
    assert_eq!(stream.pop_front(), Some(2));
    assert_eq!(stream.pop_front(), Some(3));
    assert_eq!(stream.pop_front(), None);
}

#[test]
fn a_queue_wraps_around_its_buffer() {
    let mut stream = HostStreamState::empty();
    let block: Vec<u8> = (0..1500u32).map(|i| (i % 251) as u8).collect();
    let mut next = 0u32;
    for _ in 0..5 {
        assert_eq!(stream.push_back(&block), 1500);
        for _ in 0..1500 {
            assert_eq!(stream.pop_front(), Some((next % 251) as u8));
            next = (next + 1) % 1500;
        }
    }
    assert_eq!(stream.push_back(&vec![7; 3000]), 2048);
    assert_eq!(stream.free(), 0);
    stream.push_front_one(1);
    assert_eq!(stream.pop_front(), Some(7));
    stream.push_front_one(1);
    assert_eq!(stream.level(), 2048);
    assert_eq!(stream.pop_front(), Some(1));
    stream.reset_with_addr(3);
    assert_eq!(stream.level(), 0);
}

#[test]
fn embedded_samples_wrap_on_their_end() {
    let tables = tables();
    let mut manager = StreamManager::new();
    manager.init_from_model(&tables);
    let mut values = Vec::new();
    for _ in 0..7 {
        let (value, effect) = manager.read_for_register(&tables, 0x10, 0);
        assert_eq!(effect, ReadEffect::EmbeddedAdvance { addr: 0x10 });
        values.push(value);
    }
    assert_eq!(values, vec![1, 2, 3, 1, 2, 3, 1]);
    manager.rollback_effect(&tables, ReadEffect::EmbeddedAdvance { addr: 0x10 });
    assert_eq!(manager.read_for_register(&tables, 0x10, 0).0, 1);
    manager.reset_all();
    manager.rollback_effect(&tables, ReadEffect::EmbeddedAdvance { addr: 0x10 });
    assert_eq!(manager.read_for_register(&tables, 0x10, 0).0, 3);
}

#[test]
fn embedded_playback_goes_on_between_other_operations() {
    let tables = tables();
    let mut manager = StreamManager::new();
    manager.init_from_model(&tables);
    let mut values = Vec::new();
    for i in 0..7u8 {
        assert!(manager.feed(i % 2, &[i]).is_ok());
        let (_, other) = manager.read_for_register(&tables, 0x08, 0);
        values.push(manager.read_for_register(&tables, 0x10, 0).0);
        manager.rollback_effect(&tables, other);
        manager.read_for_register(&tables, 0x20, 0);
        manager.read_for_register(&tables, 0x30, 0);
    }
    assert_eq!(values, vec![1, 2, 3, 1, 2, 3, 1]);
}

#[test]
fn underruns_that_are_taken_back_are_not_counted() {
    let tables = tables();
    let mut manager = StreamManager::new();
    manager.init_from_model(&tables);
    for _ in 0..3 {
        manager.read_for_register(&tables, 0x08, 0);
    }
    assert_eq!(status_of(&manager, 0).underruns, 3);
    let (value, effect) = manager.read_for_register(&tables, 0x08, 0x77);
    assert_eq!((value, effect), (0x77, ReadEffect::HostUnderrun { stream_id: 0 }));
    assert_eq!(status_of(&manager, 0).underruns, 4);
    manager.rollback_effect(&tables, effect);
    assert_eq!(status_of(&manager, 0).underruns, 3);
    // A reset in between leaves nothing to take back.
    let (_, effect) = manager.read_for_register(&tables, 0x08, 0);
    manager.reset_all();
    manager.rollback_effect(&tables, effect);
    assert_eq!(status_of(&manager, 0).underruns, 0);
    manager.read_for_register(&tables, 0x08, 0);
    assert_eq!(status_of(&manager, 0).underruns, 1);
}

#[test]
fn unsound_tables_are_told_from_sound_ones() {
    assert!(tables().is_sound());
    let mut broken = tables();
    broken.csv_index_by_addr[255] = 3;
    assert!(!broken.is_sound());
    let mut broken = tables();
    broken.host_stream_index_by_addr[0] = 2;
    assert!(!broken.is_sound());
    let mut broken = tables();
    broken.host_stream_addrs = vec![0; 10];
    assert!(!broken.is_sound());
}

#[test]
fn plain_registers_read_as_their_value() {
    let tables = tables();
    let mut manager = StreamManager::new();
    manager.init_from_model(&tables);
    assert_eq!(manager.read_for_register(&tables, 0x30, 0x99), (0x99, ReadEffect::NoEffect));
}

#[test]
fn host_streams_play_underrun_and_roll_back() {
    let tables = tables();
    let mut manager = StreamManager::new();
    manager.init_from_model(&tables);
    // Nothing was fed yet: the register's own value.
    assert_eq!(
        manager.read_for_register(&tables, 0x20, 0x5A),
        (0x5A, ReadEffect::HostUnderrun { stream_id: 1 })
    );
    assert_eq!(status_of(&manager, 1).underruns, 1);
    assert_eq!(manager.feed(1, &[10, 20]), Ok(FeedResult { accepted: 2, free: 2046 }));
    let (value, effect) = manager.read_for_register(&tables, 0x20, 0x5A);
    assert_eq!(value, 10);
    assert_eq!(
        effect,
        ReadEffect::HostPop { stream_id: 1, value: 10, prev_has_last: false, prev_last: 0 }
    );
    manager.rollback_effect(&tables, effect);
    let now = status_of(&manager, 1);
    assert_eq!((now.level, now.has_last), (2, false));
    assert_eq!(manager.read_for_register(&tables, 0x20, 0x5A).0, 10);
    assert_eq!(manager.read_for_register(&tables, 0x20, 0x5A).0, 20);
    // Empty again: the last value.
    let (value, effect) = manager.read_for_register(&tables, 0x20, 0x5A);
    assert_eq!((value, effect), (20, ReadEffect::HostUnderrun { stream_id: 1 }));
    assert_eq!(status_of(&manager, 1).underruns, 2);
    manager.rollback_effect(&tables, effect);
    assert_eq!(status_of(&manager, 1).underruns, 1);
    // The other stream was not touched.
    assert_eq!(status_of(&manager, 0).underruns, 0);
}

#[test]
fn what_does_not_fit_is_counted_as_dropped() {
    let tables = tables();
    let mut manager = StreamManager::new();
    manager.init_from_model(&tables);
    assert_eq!(manager.feed(0, &vec![1; 2000]), Ok(FeedResult { accepted: 2000, free: 48 }));
    assert_eq!(manager.feed(0, &[2; 50]), Ok(FeedResult { accepted: 48, free: 0 }));
    assert_eq!(status_of(&manager, 0).drops, 2);
    assert_eq!(manager.feed(2, &[1]), Err(FeedError::InvalidStreamId));
    manager.reset_all();
    let now = status_of(&manager, 0);
    assert_eq!((now.addr, now.level, now.free, now.drops), (0x08, 0, 2048, 0));
}

#[test]
fn descriptors_fill_what_room_there_is() {
    let tables = tables();
    let mut manager = StreamManager::new();
    let none = HostStreamDescriptor { stream_id: 9, addr: 9, capacity: 9 };
    let mut out = [none; 3];
    assert_eq!(manager.descriptors(&mut out), 0);
    assert_eq!(out, [none; 3]);
    manager.init_from_model(&tables);
    assert_eq!(manager.descriptors(&mut out), 2);
    assert_eq!(out[0], HostStreamDescriptor { stream_id: 0, addr: 0x08, capacity: 2048 });
    assert_eq!(out[1], HostStreamDescriptor { stream_id: 1, addr: 0x20, capacity: 2048 });
    assert_eq!(out[2], none);
    let mut small = [none; 1];
    assert_eq!(manager.descriptors(&mut small), 1);
    let mut statuses = [status(); 1];
    assert_eq!(manager.statuses(&mut statuses), 1);
    assert_eq!(statuses[0].addr, 0x08);
}
