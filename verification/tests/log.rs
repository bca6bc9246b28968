use morphiic::log::{clear, format_event_line, record, snapshot, Event, EventKind, Ring};

fn line_of(event: &Event) -> String {
    let mut line: heapless::String<192> = heapless::String::new();
    line.push_str("left over").unwrap();
    format_event_line(event, &mut line);
    line.as_str().to_string()
}

#[test]
fn events_are_numbered_and_formatted() {
    let mut ring = Ring::new();
    record(&mut ring, EventKind::Write, 0x0A, 3, 2, 0, &[1, 0xAB, 0xFF]);
    record(&mut ring, EventKind::Reset, 0, 0, 0, 0, &[]);
    record(&mut ring, EventKind::ListenError, 0xFF, 70000, 255, 0x1301, &[]);
    let mut events = [Event::empty(); 8];
    assert_eq!(snapshot(&ring, &mut events), 3);
    assert_eq!(
        line_of(&events[0]),
        "#00001 WRITE ptr=0x0A len=3 st=2 err=0x00000000 data=01 AB FF"
    );
    assert_eq!(line_of(&events[1]), "#00002 RESET ptr=0x00 len=0 st=0 err=0x00000000 data=-");
    assert_eq!(
        line_of(&events[2]),
        "#00003 LERR ptr=0xFF len=4464 st=255 err=0x00001301 data=-"
    );
    assert_eq!(events[3], Event::empty());
}

#[test]
fn every_kind_has_its_name() {
    let kinds = [
        (EventKind::Write, "WRITE"),
        (EventKind::WriteRead, "WRRD"),
        (EventKind::Read, "READ"),
        (EventKind::GeneralCall, "GCALL"),
        (EventKind::ListenError, "LERR"),
        (EventKind::ReadError, "RERR"),
        (EventKind::Reset, "RESET"),
    ];
    for (kind, name) in kinds {
        let mut event = Event::empty();
        event.kind = kind;
        assert_eq!(
            line_of(&event),
            format!("#00000 {name} ptr=0x00 len=0 st=0 err=0x00000000 data=-")
        );
    }
}

#[test]
fn the_longest_line_fits() {
    let event = Event {
        seq: u32::MAX,
        kind: EventKind::Write,
        pointer: 255,
        len: u16::MAX,
        status: 255,
        error: u32::MAX,
        data_len: 15,
        data: [0xEE; 15],
    };
    let expected = format!(
        "#4294967295 WRITE ptr=0xFF len=65535 st=255 err=0xFFFFFFFF data={}",
        vec!["EE"; 15].join(" ")
    );
    assert_eq!(line_of(&event), expected);
}

#[test]
fn long_payloads_are_cut() {
    let mut ring = Ring::new();
    let payload: Vec<u8> = (0u8..20).collect();
    record(&mut ring, EventKind::Write, 0, 20, 0, 0, &payload);
    let mut events = [Event::empty(); 1];
    snapshot(&ring, &mut events);
    assert_eq!(events[0].data_len, 15);
    assert_eq!(&events[0].data[..], &payload[..15]);
    assert_eq!(events[0].len, 20);
}

#[test]
fn the_ring_keeps_the_latest_events() {
    let mut ring = Ring::new();
    for pointer in 0..200u8 {
        record(&mut ring, EventKind::Read, pointer, 1, 0, 0, &[pointer]);
    }
    let mut events = [Event::empty(); 128];
    assert_eq!(snapshot(&ring, &mut events), 128);
    for (i, event) in events.iter().enumerate() {
        assert_eq!(event.seq as usize, 73 + i);
        assert_eq!(event.pointer as usize, 72 + i);
    }
    // A smaller buffer gets the newest ones.
    let mut few = [Event::empty(); 2];
    assert_eq!(snapshot(&ring, &mut few), 2);
    assert_eq!((few[0].pointer, few[1].pointer), (198, 199));
    clear(&mut ring);
    assert_eq!(snapshot(&ring, &mut events), 0);
    record(&mut ring, EventKind::Read, 5, 1, 0, 0, &[]);
    assert_eq!(snapshot(&ring, &mut events), 1);
    assert_eq!(events[0].seq, 1);
}
