use junctiontrace::checksum::crc16;

fn u16le(x: u16) -> Vec<u8> {
    x.to_le_bytes().to_vec()
}

fn frame(msg_type: u8, seq: u16, fi: u8, ft: u8, rid: u16, payload: &[u8]) -> Vec<u8> {
    let mut v = vec![msg_type];
    v.extend(u16le(seq));
    v.push(fi);
    v.push(ft);
    v.extend(u16le(rid));
    v.push(1);
    v.push(0);
    v.extend(u16le(payload.len() as u16));
    v.extend(u16le(0));
    v.extend_from_slice(payload);
    v
}

fn seed_frames() -> Vec<u8> {
    let mut v = vec![2u8];
    v.extend(frame(1, 40, 0, 2, 12, b"route 12 "));
    v.extend(frame(1, 41, 1, 2, 12, b"clear"));
    v
}

fn seed_script() -> Vec<u8> {
    let mut v = u16le(0x0042);
    v.push(5);
    v.extend_from_slice(&[1, 0x10, 0x00, 1, 0x20, 0x00, 3, 7, 0x5a, 0xff]);
    v
}

fn seed_journal() -> Vec<u8> {
    let mut v = u16le(0x0007);
    v.push(3);
    v.extend_from_slice(&[1, 0x01, 0x00, 0, 4, 0]);
    v.extend_from_slice(b"page");
    v.extend_from_slice(&[6, 0x02, 0x00, 0, 4, 0]);
    v.extend_from_slice(b"hold");
    v.extend_from_slice(&[0x7f, 0, 0, 0, 0, 0]);
    v
}

fn seed_valid_bundle() -> Vec<u8> {
    let mut route = vec![1u8];
    route.extend(u16le(12));
    route.extend(u16le(1));
    route.extend_from_slice(&[1, 1, 0]);
    route.extend(u16le(5));
    route.extend(u16le(6));
    route.extend(u16le(7));
    route.extend_from_slice(&[1, 0]);
    route.extend(u16le(100));
    let sections = [(2u8, route), (3u8, seed_frames()), (5u8, seed_journal()), (6u8, seed_script())];
    let mut v = b"JTRC".to_vec();
    v.extend_from_slice(&[1, 0]);
    v.extend(u16le(0x0101));
    v.extend_from_slice(&7u32.to_le_bytes());
    v.extend_from_slice(&[sections.len() as u8, 0, 0, 0]);
    for (i, (kind, payload)) in sections.iter().enumerate() {
        v.push(*kind);
        v.push(i as u8);
        v.extend(u16le(1));
        v.extend(u16le(payload.len() as u16));
        v.extend(u16le(crc16(payload)));
        v.extend_from_slice(payload);
    }
    v
}

#[test]
fn bundle_seed_decodes_and_analyzes() {
    let data = seed_valid_bundle();
    let report = junctiontrace::decode_and_analyze_bundle(&data).expect("bundle seed should parse");
    assert!(report.route_count >= 1);
    assert!(report.frame_count >= 1);
}

#[test]
fn stream_seed_decodes_frames() {
    let data = seed_frames();
    let bundle = junctiontrace::decode_stream(&data).expect("stream seed should parse");
    assert!(!bundle.frames.is_empty());
}

#[test]
fn journal_seed_decodes_records() {
    let data = seed_journal();
    let journal = junctiontrace::decode_journal_bytes(&data).expect("journal seed should parse");
    assert!(journal.records.len() >= 2);
}

#[test]
fn script_seed_executes() {
    let data = seed_script();
    let report = junctiontrace::run_script_bytes(&data).expect("script seed should run");
    assert!(report.steps > 0);
}

#[test]
fn bundle_seed_has_no_diagnostics() {
    let b = junctiontrace::parse_bundle(&seed_valid_bundle()).unwrap();
    assert!(b.diagnostics.is_empty());
    assert_eq!(b.messages.len(), 1);
    assert_eq!(b.messages[0].payload, b"route 12 clear".to_vec());
    assert_eq!(b.journals[0].records[1].note, "hold request 0002");
}
