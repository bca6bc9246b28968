use morphiic::csv_specs::{resolve_csv_specs, CsvFile};
use morphiic::device_model::{Access, CsvModeDef, CsvSourceDef, DeviceModel, RegisterDef};
use morphiic::log::{record, EventKind, Ring};
use morphiic::model::{model_tables, ModelTables};
use morphiic::protocol::usb_packets;
use morphiic::streams::StreamManager;
use morphiic::usb_cli::{
    handle_cli_command, parse_command, CliCommand, CommandBuffer, BANNER, LINE_END,
};
use morphiic::usb_stream::{
    next_reply, on_packet, process_stream_frame, DeviceOp, FrameAccumulator, HostOp, Reply,
    StreamError,
};

fn tables(host_fed: &[u16]) -> ModelTables {
    let mut registers = Vec::new();
    for addr in host_fed {
        registers.push(RegisterDef {
            addr: *addr,
            default: 0,
            access: Access::Ro,
            name: "H".to_string(),
            csv: Some(CsvSourceDef { path: "h.csv".to_string(), mode: CsvModeDef::HostStream }),
        });
    }
    let files: Vec<CsvFile> = host_fed
        .iter()
        .map(|_| CsvFile { path: "h.csv".to_string(), text: Ok("1".to_string()) })
        .collect();
    let model = DeviceModel {
        device_name: "usb".to_string(),
        i2c_address_7bit: 0x42,
        i2c_internal_pullups: false,
        i2c_respond_to_general_call: false,
        default_fill: 0,
        auto_increment: true,
        registers,
    };
    let specs = resolve_csv_specs(&model, &files).unwrap();
    model_tables(&model, &specs)
}

fn manager(host_fed: &[u16]) -> StreamManager {
    let mut manager = StreamManager::new();
    manager.init_from_model(&tables(host_fed));
    manager
}

fn error(reply: Reply) -> u8 {
    assert_eq!(reply.op, DeviceOp::Error);
    assert_eq!(reply.payload.len(), 1);
    reply.payload[0]
}

#[test]
fn opcodes_and_error_codes() {
    assert_eq!(HostOp::try_from(1), Ok(HostOp::HelloReq));
    assert_eq!(HostOp::try_from(2), Ok(HostOp::Feed));
    assert_eq!(HostOp::try_from(3), Ok(HostOp::ResetStreams));
    assert_eq!(HostOp::try_from(4), Err(4));
    assert_eq!(DeviceOp::HelloResp.code(), 0x81);
    assert_eq!(DeviceOp::FeedAck.code(), 0x82);
    assert_eq!(DeviceOp::ResetAck.code(), 0x83);
    assert_eq!(DeviceOp::Error.code(), 0xFF);
    assert_eq!(StreamError::BadFrame.code(), 1);
    assert_eq!(StreamError::BadPayload.code(), 2);
    assert_eq!(StreamError::InvalidStreamId.code(), 3);
    assert_eq!(StreamError::UnknownOpcode.code(), 4);
}

#[test]
fn hello_lists_the_streams() {
    let mut manager = manager(&[0x30, 0x20]);
    let reply = process_stream_frame(&mut manager, 1, &[9, 9]);
    assert_eq!(reply.op, DeviceOp::HelloResp);
    assert_eq!(reply.payload, vec![1, 2, 0, 0x20, 0x00, 0x08, 1, 0x30, 0x00, 0x08]);
    assert_eq!(reply.header(), [0x81, 10, 0]);
}

#[test]
fn feeding_is_acknowledged() {
    let mut manager = manager(&[0x20]);
    let mut payload = vec![0u8];
    payload.extend_from_slice(&[5; 300]);
    let reply = process_stream_frame(&mut manager, 2, &payload);
    assert_eq!(reply.op, DeviceOp::FeedAck);
    // 300 taken, 1748 free.
    assert_eq!(reply.payload, vec![0, 0x2C, 0x01, 0xD4, 0x06]);
    assert_eq!(error(process_stream_frame(&mut manager, 2, &[])), 2);
    assert_eq!(error(process_stream_frame(&mut manager, 2, &[1, 2])), 3);
    assert_eq!(error(process_stream_frame(&mut manager, 0x77, &[])), 4);
    assert_eq!(error(process_stream_frame(&mut manager, 3, &[0])), 2);
    let reply = process_stream_frame(&mut manager, 3, &[]);
    assert_eq!((reply.op, reply.payload.len()), (DeviceOp::ResetAck, 0));
    let reply = process_stream_frame(&mut manager, 2, &[0]);
    assert_eq!(reply.payload, vec![0, 0, 0, 0x00, 0x08]);
}

#[test]
fn frames_are_found_across_packets() {
    let mut manager = manager(&[0x20]);
    let mut accum = FrameAccumulator::new();
    let bytes = [0x02u8, 3, 0, 0, 7, 8, 0x01, 0, 0, 0x02, 1];
    for byte in bytes {
        assert!(on_packet(&mut accum, &[byte]).is_none());
    }
    assert!(on_packet(&mut accum, &[]).is_none());
    let reply = next_reply(&mut accum, &mut manager).unwrap();
    assert_eq!(reply.payload, vec![0, 2, 0, 0xFE, 0x07]);
    let reply = next_reply(&mut accum, &mut manager).unwrap();
    assert_eq!(reply.op, DeviceOp::HelloResp);
    assert!(next_reply(&mut accum, &mut manager).is_none());
    // The rest of the third frame.
    assert!(on_packet(&mut accum, &[0, 0]).is_none());
    let reply = next_reply(&mut accum, &mut manager).unwrap();
    assert_eq!(reply.payload, vec![0, 0, 0, 0xFE, 0x07]);
}

#[test]
fn frames_are_answered_whatever_packets_they_come_in() {
    let mut wire = Vec::new();
    let mut expected = Vec::new();
    let mut whole = manager(&[0x20, 0x21]);
    for i in 0..12u8 {
        let mut payload = vec![i % 2];
        payload.resize(1 + 40 * i as usize % 446, i);
        wire.extend([0x02, (payload.len() % 256) as u8, (payload.len() / 256) as u8]);
        wire.extend(&payload);
        expected.push(process_stream_frame(&mut whole, 0x02, &payload).payload);
    }
    for size in [1, 2, 3, 63, 64] {
        let mut manager = manager(&[0x20, 0x21]);
        let mut accum = FrameAccumulator::new();
        let mut answers = Vec::new();
        for packet in wire.chunks(size) {
            assert!(on_packet(&mut accum, packet).is_none());
            while let Some(reply) = next_reply(&mut accum, &mut manager) {
                assert_eq!(reply.op, DeviceOp::FeedAck);
                answers.push(reply.payload);
            }
        }
        assert_eq!(answers, expected);
    }
}

#[test]
fn oversized_frames_are_refused() {
    let mut manager = manager(&[0x20]);
    let mut accum = FrameAccumulator::new();
    // A payload of 510 bytes makes a frame of 513.
    assert!(on_packet(&mut accum, &[0x02, 0xFE, 0x01, 1]).is_none());
    assert_eq!(error(next_reply(&mut accum, &mut manager).unwrap()), 1);
    assert!(next_reply(&mut accum, &mut manager).is_none());
    // 509 bytes make one of 512, which fits.
    assert!(on_packet(&mut accum, &[0x02, 0xFD, 0x01]).is_none());
    assert!(next_reply(&mut accum, &mut manager).is_none());
    assert!(on_packet(&mut accum, &[0; 509]).is_none());
    assert_eq!(next_reply(&mut accum, &mut manager).unwrap().op, DeviceOp::FeedAck);
    // What does not fit is forgotten with all that was there.
    assert!(on_packet(&mut accum, &[0x02; 500]).is_none());
    assert_eq!(error(on_packet(&mut accum, &[0; 13]).unwrap()), 1);
    assert!(on_packet(&mut accum, &[0x01, 0, 0]).is_none());
    assert_eq!(next_reply(&mut accum, &mut manager).unwrap().op, DeviceOp::HelloResp);
}

#[test]
fn bytes_are_cut_into_full_packets() {
    let bytes: Vec<u8> = (0u8..150).collect();
    let packets = usb_packets(&bytes, 64);
    assert_eq!(packets.len(), 3);
    assert_eq!(packets[0], bytes[..64].to_vec());
    assert_eq!(packets[1], bytes[64..128].to_vec());
    assert_eq!(packets[2], bytes[128..].to_vec());
    assert!(usb_packets(&[], 64).is_empty());
    assert_eq!(usb_packets(&bytes[..64], 64).len(), 1);
}

fn type_line(buffer: &mut CommandBuffer, text: &str) -> Vec<Vec<u8>> {
    let mut commands = Vec::new();
    for byte in text.bytes() {
        if let Some(command) = buffer.accept(byte) {
            commands.push(command);
        }
    }
    commands
}

#[test]
fn lines_become_commands() {
    let mut buffer = CommandBuffer::new();
    assert_eq!(
        type_line(&mut buffer, "\r\n\ndump\r\nhelp\rcle"),
        vec![b"dump".to_vec(), b"help".to_vec()]
    );
    assert_eq!(type_line(&mut buffer, "ar\n"), vec![b"clear".to_vec()]);
    let long = "x".repeat(70) + "\n";
    assert_eq!(type_line(&mut buffer, &long), vec![vec![b'x'; 64]]);
}

#[test]
fn commands_are_recognised() {
    let cases: [(&[u8], CliCommand); 9] = [
        (b"help", CliCommand::Help),
        (b"  DUMP\t", CliCommand::Dump),
        (b"Clear", CliCommand::Clear),
        (b"reset_i2c", CliCommand::ResetI2c),
        (b"STREAM_status", CliCommand::StreamStatus),
        (b"halt", CliCommand::Unknown),
        (b" ", CliCommand::Unknown),
        (b"help\xFF", CliCommand::InvalidUtf8),
        ("\u{3000}help\u{85}".as_bytes(), CliCommand::Help),
    ];
    for (bytes, expected) in cases {
        assert_eq!(parse_command(bytes), expected, "{bytes:?}");
    }
}

#[test]
fn commands_are_answered() {
    let mut ring = Ring::new();
    let none = manager(&[]);
    let answer = handle_cli_command(b"dump", &mut ring, &none);
    assert_eq!(answer.lines, vec!["log is empty"]);
    record(&mut ring, EventKind::Read, 1, 2, 3, 4, &[5]);
    record(&mut ring, EventKind::Write, 1, 2, 3, 4, &[]);
    let answer = handle_cli_command(b"dump", &mut ring, &none);
    assert_eq!(
        answer.lines,
        vec![
            "--- log dump begin ---",
            "#00001 READ ptr=0x01 len=2 st=3 err=0x00000004 data=05",
            "#00002 WRITE ptr=0x01 len=2 st=3 err=0x00000004 data=-",
            "--- log dump end ---",
        ]
    );
    assert!(!answer.reset_i2c);
    let answer = handle_cli_command(b"reset_i2c", &mut ring, &none);
    assert_eq!(answer.lines, vec!["i2c reset requested"]);
    assert!(answer.reset_i2c);
    assert_eq!(handle_cli_command(b"dump", &mut ring, &none).lines.len(), 4);
    let answer = handle_cli_command(b"clear", &mut ring, &none);
    assert_eq!(answer.lines, vec!["log cleared"]);
    assert_eq!(handle_cli_command(b"dump", &mut ring, &none).lines, vec!["log is empty"]);
    let answer = handle_cli_command(b"help", &mut ring, &none);
    assert_eq!(
        answer.lines,
        vec![
            "Commands:",
            "  dump          -> dump I2C transaction log ring",
            "  reset_i2c     -> reset RP2040 I2C peripheral",
            "  clear         -> clear transaction ring",
            "  stream_status -> show host stream buffer status",
        ]
    );
    let answer = handle_cli_command(b"what", &mut ring, &none);
    assert_eq!(answer.lines, vec!["ERR unknown command. Try: help"]);
    let answer = handle_cli_command(&[0xC0], &mut ring, &none);
    assert_eq!(answer.lines, vec!["ERR invalid UTF-8 command"]);
    let answer = handle_cli_command(b"stream_status", &mut ring, &none);
    assert_eq!(answer.lines, vec!["no host_stream registers configured"]);
}

#[test]
fn the_status_report_shows_every_stream() {
    let model = tables(&[0x20, 0x0A]);
    let mut manager = StreamManager::new();
    manager.init_from_model(&model);
    manager.feed(1, &[0xAB; 3]).unwrap();
    manager.read_for_register(&model, 0x20, 0);
    manager.read_for_register(&model, 0x0A, 0);
    let mut ring = Ring::new();
    let answer = handle_cli_command(b"stream_status", &mut ring, &manager);
    assert_eq!(
        answer.lines,
        vec![
            "--- stream status ---",
            "id=0 addr=0x0A fill=0/2048 free=2048 underruns=1 drops=0 last=--",
            "id=1 addr=0x20 fill=2/2048 free=2046 underruns=0 drops=0 last=0xAB",
        ]
    );
}

#[test]
fn greeting() {
    assert_eq!(BANNER, "mimIIC ready. Commands: dump, reset_i2c, clear, stream_status, help");
    assert_eq!(LINE_END, "\r\n");
}
