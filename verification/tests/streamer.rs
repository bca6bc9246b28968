use morphiic::csv_specs::{resolve_csv_specs, CsvFile};
use morphiic::csv_streamer::{
    attach_streams, negotiate_stream_descriptors, AttachError, DeviceOp, DeviceStreamDescriptor,
    HelloError, HostOp, StreamState,
};
use morphiic::device_model::{Access, CsvModeDef, CsvSourceDef, DeviceModel, RegisterDef};
use morphiic::feeding::{
    debug_line, feed_acknowledged, feed_request, fill_level, prefill_chunk, refill_chunk,
    rewind_cursor, starved_line, stream_line, FeedFault,
};
use morphiic::host_link::{
    judge_frame, refusal_message, request_header, rest_ms, AnswerReader, FrameVerdict, NoBytes,
    PayloadTooLarge, ReadProgress, Schedule,
};
use morphiic::host_sources::{host_csv_paths, load_host_sources, HostSource};
use morphiic::model::{model_tables, ModelTables};
use morphiic::player::{Fed, Player, PlayerAction};
use morphiic::streams::StreamManager;
use morphiic::usb_stream::process_stream_frame;

fn model() -> DeviceModel {
    let csv = |addr: u16, path: &str, mode: CsvModeDef| RegisterDef {
        addr,
        default: 0,
        access: Access::Ro,
        name: "R".to_string(),
        csv: Some(CsvSourceDef { path: path.to_string(), mode }),
    };
    DeviceModel {
        device_name: "streamer".to_string(),
        i2c_address_7bit: 0x42,
        i2c_internal_pullups: false,
        i2c_respond_to_general_call: false,
        default_fill: 0,
        auto_increment: true,
        registers: vec![
            csv(0x30, "b.csv", CsvModeDef::HostStream),
            csv(0x20, "e.csv", CsvModeDef::Embedded),
            csv(0x10, "a.csv", CsvModeDef::HostStream),
        ],
    }
}

fn file(path: &str, text: &str) -> CsvFile {
    CsvFile { path: path.to_string(), text: Ok(text.to_string()) }
}

fn sources() -> Vec<HostSource> {
    let files = vec![file("b.csv", "1\n2\n3\n"), file("a.csv", "9\n")];
    load_host_sources(&model(), &files).unwrap()
}

fn device() -> (ModelTables, StreamManager) {
    let files = vec![file("b.csv", "1"), file("e.csv", "1"), file("a.csv", "1")];
    let specs = resolve_csv_specs(&model(), &files).unwrap();
    let tables = model_tables(&model(), &specs);
    let mut manager = StreamManager::new();
    manager.init_from_model(&tables);
    (tables, manager)
}

fn descriptor(stream_id: u8, addr: u8, capacity: usize) -> DeviceStreamDescriptor {
    DeviceStreamDescriptor { stream_id, addr, capacity }
}

fn stream(capacity: usize, free: usize, samples: Vec<u8>, cursor: usize) -> StreamState {
    StreamState {
        stream_id: 4,
        addr: 0x0B,
        capacity,
        free,
        samples,
        cursor,
        feed_calls: 0,
        probe_calls: 0,
        accepted_total: 0,
    }
}

#[test]
fn host_sources_are_loaded_in_address_order() {
    let paths = host_csv_paths(&model(), "m/model.json");
    assert_eq!(paths, vec!["m/b.csv", "m/a.csv"]);
    let sources = sources();
    assert_eq!(sources.len(), 2);
    assert_eq!((sources[0].addr, sources[0].samples.clone()), (0x10, vec![9]));
    assert_eq!((sources[1].addr, sources[1].samples.clone()), (0x30, vec![1, 2, 3]));
    let files = vec![file("b.csv", "x"), file("a.csv", "9")];
    let err = load_host_sources(&model(), &files).unwrap_err();
    assert_eq!(
        err.message(),
        "loading host_stream CSV for register 0x30: invalid decimal byte 'x' at b.csv:1: \
         invalid digit found in string"
    );
}

#[test]
fn hello_payloads_are_read() {
    let payload = [1, 2, 0, 0x10, 0x00, 0x08, 7, 0x30, 0x01, 0x00];
    assert_eq!(
        negotiate_stream_descriptors(&payload).unwrap(),
        vec![descriptor(0, 0x10, 2048), descriptor(7, 0x30, 1)]
    );
    assert_eq!(negotiate_stream_descriptors(&[1, 0]).unwrap(), vec![]);
    let cases: [(&[u8], HelloError, &str); 4] = [
        (&[1], HelloError::TooShort, "HELLO_RESP payload too short"),
        (
            &[2, 0],
            HelloError::VersionMismatch { device: 2 },
            "protocol version mismatch: device=2 host=1",
        ),
        (
            &[1, 1, 0],
            HelloError::LengthMismatch { got: 3, expected: 6 },
            "HELLO_RESP length mismatch: got 3, expected 6",
        ),
        (
            &[1, 1, 5, 0, 0, 0],
            HelloError::ZeroCapacity { stream_id: 5 },
            "stream 5 has zero capacity",
        ),
    ];
    for (payload, error, message) in cases {
        let err = negotiate_stream_descriptors(payload).unwrap_err();
        assert_eq!(err, error);
        assert_eq!(err.message(), message);
    }
}

#[test]
fn streams_are_attached_by_register_and_sorted_by_number() {
    let sources = sources();
    let attached =
        attach_streams(&sources, &vec![descriptor(0, 0x30, 100), descriptor(1, 0x10, 50)]).unwrap();
    assert_eq!(attached.len(), 2);
    assert_eq!((attached[0].stream_id, attached[0].addr, attached[0].free), (0, 0x30, 100));
    assert_eq!(attached[0].samples, vec![1, 2, 3]);
    assert_eq!((attached[1].stream_id, attached[1].addr, attached[1].capacity), (1, 0x10, 50));

    let cases = [
        (
            vec![descriptor(0, 0x30, 1), descriptor(1, 0x10, 1), descriptor(2, 0x30, 1)],
            AttachError::DuplicateDescriptor { addr: 0x30 },
            "duplicate stream descriptor for addr 0x30",
        ),
        (
            vec![descriptor(0, 0x30, 1)],
            AttachError::CountMismatch { sources: 2, reported: 1 },
            "model has 2 host_stream registers but firmware reports 1",
        ),
        (
            vec![descriptor(0, 0x30, 1), descriptor(1, 0x0C, 1)],
            AttachError::MissingDescriptor { addr: 0x10 },
            "firmware missing stream descriptor for register 0x10",
        ),
    ];
    for (descriptors, error, message) in cases {
        let err = attach_streams(&sources, &descriptors).unwrap_err();
        assert_eq!(err, error);
        assert_eq!(err.message(), message);
    }
}

#[test]
fn chunks_follow_the_marks() {
    assert_eq!(fill_level(&stream(100, 30, vec![1], 0)), 70);
    assert_eq!(fill_level(&stream(100, 130, vec![1], 0)), 0);
    assert_eq!(prefill_chunk(&stream(100, 30, vec![1], 0)), Some(30));
    assert_eq!(prefill_chunk(&stream(100, 26, vec![1], 0)), Some(26));
    assert_eq!(prefill_chunk(&stream(100, 25, vec![1], 0)), None);
    assert_eq!(prefill_chunk(&stream(2048, 2048, vec![1], 0)), Some(48));
    assert_eq!(refill_chunk(&stream(100, 49, vec![1], 0)), None);
    assert_eq!(refill_chunk(&stream(100, 50, vec![1], 0)), Some(48));
    assert_eq!(refill_chunk(&stream(10, 5, vec![1], 0)), Some(5));
    // One byte of room, none of it used: the mark is zero, and so is the level.
    assert_eq!(refill_chunk(&stream(1, 1, vec![1], 0)), Some(1));
}

#[test]
fn feeding_wraps_and_takes_back_what_was_refused() {
    let mut s = stream(100, 10, vec![1, 2, 3], 2);
    assert_eq!(feed_request(&mut s, 11).unwrap_err(), FeedFault::ChunkExceedsFree);
    assert_eq!(s.cursor, 2);
    assert_eq!(feed_request(&mut s, 5).unwrap(), vec![4, 3, 1, 2, 3, 1]);
    assert_eq!(s.cursor, 1);
    // Two of the five were taken; eight more would fit.
    assert_eq!(feed_acknowledged(&mut s, 5, &[4, 2, 0, 8, 0]).unwrap(), 2);
    assert_eq!((s.cursor, s.free, s.feed_calls, s.accepted_total), (1, 8, 1, 2));
    assert_eq!(feed_request(&mut s, 0).unwrap(), vec![4]);
    assert_eq!(feed_acknowledged(&mut s, 0, &[4, 0, 0, 0, 1]).unwrap(), 0);
    assert_eq!((s.free, s.feed_calls, s.probe_calls), (256, 1, 1));
    let faults = [
        (vec![4, 0, 0, 0], FeedFault::AckLength, "FEED_ACK payload must be 5 bytes"),
        (
            vec![3, 0, 0, 0, 0],
            FeedFault::AckStream { got: 3, expected: 4 },
            "FEED_ACK stream id mismatch: got 3, expected 4",
        ),
        (
            vec![4, 6, 0, 0, 0],
            FeedFault::AckAccepted { accepted: 6, sent: 5 },
            "device accepted 6 bytes, but 5 were sent",
        ),
    ];
    for (ack, fault, message) in faults {
        let err = feed_acknowledged(&mut s, 5, &ack).unwrap_err();
        assert_eq!(err, fault);
        assert_eq!(err.message(), message);
    }
    assert_eq!(FeedFault::ChunkExceedsFree.message(), "feed chunk exceeds free space");
    let mut s = stream(100, 10, vec![1, 2, 3], 1);
    rewind_cursor(&mut s, 5);
    assert_eq!(s.cursor, 2);
    rewind_cursor(&mut s, 3);
    assert_eq!(s.cursor, 2);
}

#[test]
fn host_and_device_play_samples_together() {
    let (tables, mut manager) = device();
    let header = request_header(HostOp::HelloReq, &[]).unwrap();
    let hello = process_stream_frame(&mut manager, header[0], &[]);
    let descriptors = negotiate_stream_descriptors(&hello.payload).unwrap();
    let mut streams = attach_streams(&sources(), &descriptors).unwrap();
    assert_eq!((streams[1].addr, streams[1].capacity), (0x30, 2048));
    let mut fed = 0usize;
    while let Some(chunk) = prefill_chunk(&streams[1]) {
        let payload = feed_request(&mut streams[1], chunk).unwrap();
        let header = request_header(HostOp::Feed, &payload).unwrap();
        let reply = process_stream_frame(&mut manager, header[0], &payload);
        let verdict = judge_frame(DeviceOp::FeedAck, reply.op.code(), reply.payload);
        let ack = match verdict {
            FrameVerdict::Answer { payload } => payload,
            _ => panic!("expected an acknowledgement"),
        };
        fed += feed_acknowledged(&mut streams[1], chunk, &ack).unwrap();
    }
    assert_eq!(fed, 1536);
    assert_eq!(streams[1].free, 512);
    for i in 0..1536usize {
        assert_eq!(manager.read_for_register(&tables, 0x30, 0).0, (i % 3) as u8 + 1);
    }
}

#[test]
fn playback_is_gapless_under_any_interleaving() {
    let (tables, mut manager) = device();
    let hello = process_stream_frame(&mut manager, 0x01, &[]);
    let descriptors = negotiate_stream_descriptors(&hello.payload).unwrap();
    let mut streams = attach_streams(&sources(), &descriptors).unwrap();
    // Before the first sample, the register's own value.
    assert_eq!(manager.read_for_register(&tables, 0x30, 0x5A).0, 0x5A);
    let mut fed = 0usize;
    let mut read = 0usize;
    for round in 0..400usize {
        let chunk = (round * 37) % 49;
        if chunk <= streams[1].free {
            let payload = feed_request(&mut streams[1], chunk).unwrap();
            let reply = process_stream_frame(&mut manager, 0x02, &payload);
            fed += feed_acknowledged(&mut streams[1], chunk, &reply.payload).unwrap();
        }
        for _ in 0..(round * 13) % 41 {
            let (value, effect) = manager.read_for_register(&tables, 0x30, 0x5A);
            if read < fed {
                assert_eq!(value as usize, read % 3 + 1);
                if round % 5 == 0 {
                    manager.rollback_effect(&tables, effect);
                } else {
                    read += 1;
                }
            } else {
                assert_eq!(value as usize, (read - 1) % 3 + 1);
            }
        }
    }
    assert!(fed > 3000 && read > 3000);
}

#[test]
fn frames_out_and_in() {
    assert_eq!(request_header(HostOp::Feed, &[0; 300]).unwrap(), [0x02, 0x2C, 0x01]);
    assert_eq!(request_header(HostOp::Feed, &vec![0; 65535]).unwrap(), [0x02, 0xFF, 0xFF]);
    assert_eq!(request_header(HostOp::Feed, &vec![0; 65536]).unwrap_err(), PayloadTooLarge);
    assert_eq!(PayloadTooLarge.message(), "payload too large");
    assert!(matches!(judge_frame(DeviceOp::HelloResp, 0x83, vec![]), FrameVerdict::Ignored));
    assert!(matches!(judge_frame(DeviceOp::HelloResp, 0x82, vec![]), FrameVerdict::Ignored));
    assert!(matches!(
        judge_frame(DeviceOp::HelloResp, 0xFF, vec![3]),
        FrameVerdict::Refused { code: 3 }
    ));
    assert!(matches!(
        judge_frame(DeviceOp::HelloResp, 0xFF, vec![]),
        FrameVerdict::Refused { code: 0xFF }
    ));
    assert!(matches!(
        judge_frame(DeviceOp::HelloResp, 0x81, vec![1, 0]),
        FrameVerdict::Answer { .. }
    ));
    assert_eq!(refusal_message(3), "device returned error code 3");
}

#[test]
fn answers_are_read_piece_by_piece() {
    let mut reader = AnswerReader::new(DeviceOp::FeedAck);
    assert_eq!(reader.wanted(), 3);
    assert!(matches!(reader.on_no_bytes(NoBytes::NotReady, false), ReadProgress::Pending));
    assert!(matches!(reader.on_no_bytes(NoBytes::NotReady, true), ReadProgress::TimedOut));
    assert!(matches!(reader.on_no_bytes(NoBytes::Interrupted, true), ReadProgress::Pending));
    assert!(matches!(reader.on_no_bytes(NoBytes::Failed, false), ReadProgress::Failed));
    assert!(matches!(reader.on_bytes(&[], false), ReadProgress::Pending));
    assert!(matches!(reader.on_bytes(&[], true), ReadProgress::TimedOut));
    // A frame with an opcode that is not known, and an answer to something else.
    assert!(matches!(reader.on_bytes(&[0x83, 0, 0], true), ReadProgress::Pending));
    assert!(matches!(reader.on_bytes(&[0x81], true), ReadProgress::Pending));
    assert_eq!(reader.wanted(), 2);
    assert!(matches!(reader.on_bytes(&[1, 0], true), ReadProgress::Pending));
    assert_eq!(reader.wanted(), 1);
    assert!(matches!(reader.on_bytes(&[9], true), ReadProgress::Pending));
    assert_eq!(reader.wanted(), 3);
    // The answer.
    assert!(matches!(reader.on_bytes(&[0x82, 0x02, 0x00], true), ReadProgress::Pending));
    assert!(matches!(reader.on_bytes(&[7], true), ReadProgress::Pending));
    match reader.on_bytes(&[8], true) {
        ReadProgress::Answer { payload } => assert_eq!(payload, vec![7, 8]),
        _ => panic!("expected the answer"),
    }
    // A refusal.
    assert!(matches!(reader.on_bytes(&[0xFF, 1, 0], false), ReadProgress::Pending));
    assert!(matches!(reader.on_bytes(&[4], false), ReadProgress::Refused { code: 4 }));
    assert!(matches!(reader.on_bytes(&[0xFF, 0, 0], false), ReadProgress::Refused { code: 0xFF }));
    let mut long = AnswerReader::new(DeviceOp::HelloResp);
    long.on_bytes(&[0x81, 0x34, 0x12], false);
    assert_eq!(long.wanted(), 0x1234);
}

fn ack_of(manager: &mut StreamManager, payload: &[u8]) -> Vec<u8> {
    process_stream_frame(manager, 0x02, payload).payload
}

#[test]
fn the_player_prefills_then_plays_in_rounds() {
    let (tables, mut manager) = device();
    let hello = process_stream_frame(&mut manager, 0x01, &[]);
    let descriptors = negotiate_stream_descriptors(&hello.payload).unwrap();
    let mut player = Player::new(attach_streams(&sources(), &descriptors).unwrap());
    let second = 1_000_000_000u64;
    let mut fed = [0usize; 2];
    loop {
        match player.step(5 * second) {
            PlayerAction::Proceed => {}
            PlayerAction::Feed { payload } => {
                let ack = ack_of(&mut manager, &payload);
                let Fed { index, sent, accepted } = player.on_ack(&ack).unwrap();
                assert_eq!(sent, accepted);
                fed[index] += accepted;
            }
            PlayerAction::Announce => break,
            PlayerAction::Rest { .. } | PlayerAction::Report => panic!("not yet playing"),
        }
    }
    assert_eq!(fed, [1536, 1536]);

    // The first round probes both streams, and feeds neither.
    let mut rounds = Vec::new();
    let mut feeds = Vec::new();
    let mut now = 5 * second;
    while rounds.len() < 3 {
        match player.step(now) {
            PlayerAction::Proceed => {}
            PlayerAction::Feed { payload } => {
                let ack = ack_of(&mut manager, &payload);
                let done = player.on_ack(&ack).unwrap();
                feeds.push((done.index, done.sent));
            }
            PlayerAction::Rest { ms } => {
                rounds.push((ms, feeds.clone()));
                feeds.clear();
                if rounds.len() == 1 {
                    // The bus takes most of the second stream's samples.
                    for _ in 0..600 {
                        manager.read_for_register(&tables, 0x30, 0);
                    }
                    now += second / 20;
                }
            }
            PlayerAction::Report => panic!("no report is due"),
            PlayerAction::Announce => panic!("already announced"),
        }
    }
    assert_eq!(rounds[0], (2, vec![(0, 0), (1, 0)]));
    assert_eq!(rounds[1], (1, vec![(0, 0), (1, 0), (1, 48)]));
    assert_eq!(rounds[2], (1, vec![(1, 48)]));
    assert!(matches!(player.step(6 * second), PlayerAction::Report));
    assert_eq!(player.streams()[1].feed_calls, 34);
    assert_eq!(player.streams()[1].probe_calls, 2);
}

#[test]
fn the_player_gives_up_on_a_stream_that_takes_nothing() {
    let mut player = Player::new(vec![stream(100, 100, vec![1], 0)]);
    assert!(matches!(player.step(0), PlayerAction::Feed { .. }));
    assert_eq!(player.on_ack(&[4, 0, 0, 100]).unwrap_err(), FeedFault::AckLength);
    let fed = player.on_ack(&[4, 0, 0, 100, 0]).unwrap();
    assert_eq!(fed, Fed { index: 0, sent: 48, accepted: 0 });
    assert!(matches!(player.step(0), PlayerAction::Announce));
}

#[test]
fn a_schedule_skips_missed_turns() {
    let mut schedule = Schedule::new(100, 50);
    assert!(!schedule.poll(99));
    assert!(schedule.poll(100));
    assert!(!schedule.poll(149));
    assert!(schedule.poll(420));
    assert!(!schedule.poll(449));
    assert!(schedule.poll(450));
    assert_eq!((rest_ms(true), rest_ms(false)), (1, 2));
}

#[test]
fn lines_for_a_reader() {
    let mut s = stream(2048, 48, vec![1, 2, 3], 1);
    s.feed_calls = 7;
    s.probe_calls = 8;
    s.accepted_total = 9;
    assert_eq!(stream_line(&s), "  id=4 addr=0x0B capacity=2048 samples=3");
    assert_eq!(
        debug_line(&s),
        "  id=4 addr=0x0B fill=2000/2048 free=48 feed_calls=7 probe_calls=8 accepted_total=9 \
         cursor=1"
    );
    assert_eq!(starved_line(&s, 48), "stream 4 FEED_ACK accepted=0 (requested=48, free=48)");
}
