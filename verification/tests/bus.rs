use morphiic::csv_specs::{resolve_csv_specs, CsvFile};
use morphiic::device_model::{Access, CsvModeDef, CsvSourceDef, DeviceModel, RegisterDef};
use morphiic::i2c_service::{
    encode_abort_reason, encode_i2c_error, on_event, AbortReason, BusAction, BusEvent, I2cError,
    ReadOutcome, ReadSession,
};
use morphiic::log::{snapshot, Event, EventKind, Ring};
use morphiic::model::{model_tables, ModelTables};
use morphiic::regfile::RegisterFile;
use morphiic::streams::StreamManager;
use morphiic::whoami::{read_register, WhoAmI, WHOAMI_REG, WHOAMI_VALUE};

struct Device {
    tables: ModelTables,
    file: RegisterFile,
    manager: StreamManager,
    ring: Ring,
}

fn device() -> Device {
    let model = DeviceModel {
        device_name: "bus".to_string(),
        i2c_address_7bit: 0x42,
        i2c_internal_pullups: false,
        i2c_respond_to_general_call: false,
        default_fill: 0,
        auto_increment: true,
        registers: vec![
            RegisterDef {
                addr: 0x10,
                default: 1,
                access: Access::Rw,
                name: "A".to_string(),
                csv: None,
            },
            RegisterDef {
                addr: 0x11,
                default: 2,
                access: Access::Ro,
                name: "B".to_string(),
                csv: None,
            },
            RegisterDef {
                addr: 0x12,
                default: 0,
                access: Access::Ro,
                name: "H".to_string(),
                csv: Some(CsvSourceDef {
                    path: "h.csv".to_string(),
                    mode: CsvModeDef::HostStream,
                }),
            },
        ],
    };
    let files = vec![CsvFile { path: "h.csv".to_string(), text: Ok("1".to_string()) }];
    let specs = resolve_csv_specs(&model, &files).unwrap();
    let tables = model_tables(&model, &specs);
    let file = RegisterFile::new(&tables);
    let mut manager = StreamManager::new();
    manager.init_from_model(&tables);
    Device { tables, file, manager, ring: Ring::new() }
}

fn last_event(ring: &Ring) -> Event {
    let mut events = [Event::empty(); 1];
    assert_eq!(snapshot(ring, &mut events), 1);
    events[0]
}

impl Device {
    fn event(&mut self, event: BusEvent, buffer: &[u8]) -> BusAction {
        on_event(&mut self.file, &mut self.ring, &self.tables, event, buffer)
    }
}

#[test]
fn a_write_sets_the_pointer_and_registers() {
    let mut d = device();
    assert_eq!(d.event(BusEvent::Write { len: 3 }, &[0x10, 7, 8, 99, 99]), BusAction::Listen);
    assert_eq!(d.file.pointer(), 0x12);
    let event = last_event(&d.ring);
    assert_eq!((event.kind, event.pointer, event.len, event.status), (EventKind::Write, 0x10, 2, 1));
    assert_eq!(&event.data[..event.data_len as usize], &[7, 8]);

    assert_eq!(d.event(BusEvent::Write { len: 1 }, &[0x20]), BusAction::Listen);
    assert_eq!(d.file.pointer(), 0x20);
    assert_eq!(last_event(&d.ring).len, 0);

    assert_eq!(d.event(BusEvent::Write { len: 0 }, &[0x33]), BusAction::Listen);
    assert_eq!(d.file.pointer(), 0x20);
    assert_eq!(last_event(&d.ring).pointer, 0x20);
}

#[test]
fn other_events_are_logged() {
    let mut d = device();
    assert_eq!(d.event(BusEvent::ResetRequested, &[]), BusAction::ResetPeripheral);
    assert_eq!(last_event(&d.ring).kind, EventKind::Reset);
    assert_eq!(d.event(BusEvent::GeneralCall { len: 100 }, &[1, 2, 3]), BusAction::Listen);
    let event = last_event(&d.ring);
    assert_eq!((event.kind, event.len, event.data_len), (EventKind::GeneralCall, 100, 3));
    let failed = BusEvent::Failed { error: I2cError::PartialWrite { len: 64 } };
    assert_eq!(d.event(failed, &[]), BusAction::Listen);
    let event = last_event(&d.ring);
    assert_eq!((event.kind, event.error), (EventKind::ListenError, 0x3040));
}

fn serve(d: &mut Device, kind: EventKind, outcomes: &[ReadOutcome]) -> Vec<u8> {
    let mut session = ReadSession::start(&d.file, kind);
    let mut bytes = Vec::new();
    for outcome in outcomes {
        let tx = session.next_chunk(&mut d.file, &d.tables, &mut d.manager);
        bytes.extend_from_slice(&tx);
        let more =
            session.on_outcome(&mut d.file, &d.tables, &mut d.manager, &mut d.ring, *outcome);
        assert_eq!(more, *outcome == ReadOutcome::NeedMoreBytes);
    }
    bytes
}

#[test]
fn a_read_is_served_byte_by_byte() {
    let mut d = device();
    assert_eq!(
        d.event(BusEvent::WriteRead { len: 2 }, &[0x10, 0x77]),
        BusAction::ServeRead { kind: EventKind::WriteRead }
    );
    // The payload moved the pointer behind the register that it wrote.
    assert_eq!(d.file.pointer(), 0x11);
    d.file.set_pointer(0x10);
    let bytes = serve(
        &mut d,
        EventKind::WriteRead,
        &[ReadOutcome::NeedMoreBytes, ReadOutcome::Done],
    );
    assert_eq!(bytes, vec![0x77, 2]);
    let event = last_event(&d.ring);
    assert_eq!((event.kind, event.pointer, event.len), (EventKind::WriteRead, 0x10, 2));
    assert_eq!(&event.data[..event.data_len as usize], &[0x77, 2]);
    assert_eq!(
        d.event(BusEvent::Read, &[]),
        BusAction::ServeRead { kind: EventKind::Read }
    );
}

#[test]
fn a_leftover_byte_is_read_again() {
    let mut d = device();
    d.manager.feed(0, &[0xAA, 0xBB]).unwrap();
    d.file.set_pointer(0x12);
    let bytes = serve(&mut d, EventKind::Read, &[ReadOutcome::LeftoverBytes { count: 1 }]);
    assert_eq!(bytes, vec![0xAA]);
    assert_eq!(d.file.pointer(), 0x12);
    let event = last_event(&d.ring);
    assert_eq!((event.len, event.status, event.error, event.data_len), (0, 1, 1, 0));
    let bytes = serve(&mut d, EventKind::Read, &[ReadOutcome::Done]);
    assert_eq!(bytes, vec![0xAA]);
}

#[test]
fn the_preview_of_a_read_is_short() {
    let mut d = device();
    d.file.set_pointer(0x10);
    let mut outcomes = vec![ReadOutcome::NeedMoreBytes; 11];
    outcomes.push(ReadOutcome::Failed {
        error: I2cError::Abort { reason: AbortReason::TxNotEmpty { left: 5 } },
    });
    serve(&mut d, EventKind::Read, &outcomes);
    let event = last_event(&d.ring);
    assert_eq!((event.kind, event.len, event.data_len), (EventKind::ReadError, 12, 8));
    assert_eq!(event.error, 0x1305);
}

#[test]
fn error_codes() {
    assert_eq!(encode_abort_reason(&AbortReason::NoAcknowledge), 0x01);
    assert_eq!(encode_abort_reason(&AbortReason::ArbitrationLoss), 0x02);
    assert_eq!(encode_abort_reason(&AbortReason::TxNotEmpty { left: 0x12 }), 0x0312);
    assert_eq!(encode_abort_reason(&AbortReason::Other { bits: 0xABCD }), 0x04CD);
    let codes = [
        (I2cError::Abort { reason: AbortReason::NoAcknowledge }, 0x1001),
        (I2cError::Abort { reason: AbortReason::Other { bits: 0x1FF } }, 0x14FF),
        (I2cError::InvalidResponseBufferLength, 0x2000),
        (I2cError::PartialWrite { len: 16 }, 0x3010),
        (I2cError::PartialGeneralCall { len: 3 }, 0x4003),
        (I2cError::Unknown, 0xFFFF),
    ];
    for (error, code) in codes {
        assert_eq!(encode_i2c_error(&error), code);
    }
}

#[test]
fn the_identity_device_answers_one_register() {
    assert_eq!(read_register(WHOAMI_REG), WHOAMI_VALUE);
    assert_eq!(read_register(0), 0);
    let mut device = WhoAmI::new();
    assert_eq!(device.on_event(BusEvent::Read, &[]), Some(0x42));
    assert_eq!(device.on_event(BusEvent::Write { len: 1 }, &[0x10]), None);
    assert_eq!(device.current_reg(), 0x10);
    assert_eq!(device.on_event(BusEvent::Read, &[]), Some(0));
    assert_eq!(device.on_event(BusEvent::Write { len: 0 }, &[0x0F]), None);
    assert_eq!(device.on_event(BusEvent::WriteRead { len: 0 }, &[0x0F]), Some(0));
    assert_eq!(device.on_event(BusEvent::WriteRead { len: 1 }, &[0x0F]), Some(0x42));
    assert_eq!(device.on_event(BusEvent::GeneralCall { len: 1 }, &[0]), None);
    assert_eq!(device.current_reg(), 0x0F);
}
