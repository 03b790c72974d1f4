use junctiontrace::catalog::Catalog;
use junctiontrace::checksum::crc16;
use junctiontrace::decode_stream;
use junctiontrace::dictionary::Dictionary;
use junctiontrace::frame::parse_frames;
use junctiontrace::model::SectionKind;
use junctiontrace::reassembler::Reassembler;
use junctiontrace::stream::StreamDecoder;

fn frame(msg_type: u8, seq: u16, fi: u8, ft: u8, rid: u16, ch: u8, fl: u8, payload: &[u8], trailer: u16) -> Vec<u8> {
    let mut v = vec![msg_type];
    v.extend_from_slice(&seq.to_le_bytes());
    v.push(fi);
    v.push(ft);
    v.extend_from_slice(&rid.to_le_bytes());
    v.push(ch);
    v.push(fl);
    v.extend_from_slice(&(payload.len() as u16).to_le_bytes());
    v.extend_from_slice(&trailer.to_le_bytes());
    v.extend_from_slice(payload);
    v
}

fn stream_bytes() -> Vec<u8> {
    let mut v = vec![3u8];
    v.extend(frame(5, 100, 1, 2, 9, 1, 0, b"world", 7));
    v.extend(frame(5, 99, 0, 2, 9, 2, 0, b"hello ", 8));
    v.extend(frame(5, 200, 0, 1, 9, 0, 0, b"x", 0));
    v
}

#[test]
fn stream_decodes_frames_and_messages() {
    let data = stream_bytes();
    let b = decode_stream(&data).unwrap();
    assert_eq!(b.frames.len(), 3);
    assert_eq!(b.messages.len(), 2);
    assert_eq!(b.messages[0].seq_base, 99);
    assert_eq!(b.messages[0].payload, b"hello world".to_vec());
    assert_eq!(b.messages[0].channel_mask, 6);
    assert_eq!(b.messages[1].payload, b"x".to_vec());
    assert_eq!(b.envelope.version, 1);
    assert_eq!(b.envelope.section_count, 1);
    assert_eq!(b.envelope.station_id, u16::from_le_bytes([data[0], data[1]]));
    let s = &b.envelope.sections[0];
    assert_eq!(s.kind, SectionKind::RadioFrames);
    assert_eq!(s.checksum, 0x67d5);
    assert_eq!(s.payload, data);
    assert!(b.routes.is_empty());
    assert!(b.diagnostics.is_empty());
}

#[test]
fn stream_fed_in_pieces_equals_fed_at_once() {
    let data = stream_bytes();
    let mut d = StreamDecoder::new();
    d.feed(&data[..1]).unwrap();
    d.feed(&data[1..10]).unwrap();
    d.feed(&[]).unwrap();
    d.feed(&data[10..]).unwrap();
    let b = d.finish().unwrap();
    let whole = decode_stream(&data).unwrap();
    assert_eq!(b.envelope.sections[0].payload, whole.envelope.sections[0].payload);
    assert_eq!(b.envelope.station_id, whole.envelope.station_id);
    assert_eq!(b.frames.len(), whole.frames.len());
    assert_eq!(b.messages.len(), whole.messages.len());
}

#[test]
fn stream_of_one_byte_keeps_station_zero() {
    let b = decode_stream(&[7]).unwrap();
    assert_eq!(b.envelope.station_id, 0);
    assert_eq!(b.frames.len(), 0);
    assert_eq!(b.envelope.sections[0].checksum, crc16(&[7]));
}

#[test]
fn stream_bad_frames_give_no_frames() {
    let mut data = vec![1u8, 1, 0, 0, 0, 1, 7, 0, 0, 0];
    data.extend_from_slice(&2049u16.to_le_bytes());
    data.extend_from_slice(&[0, 0]);
    let b = decode_stream(&data).unwrap();
    assert!(b.frames.is_empty());
    assert!(b.messages.is_empty());
}

#[test]
fn stream_keeps_last_sixty_four_kib() {
    let mut d = StreamDecoder::new();
    let first = vec![0xaau8; 40 * 1024];
    let mut second = vec![0x55u8; 30 * 1024];
    second[0] = 1;
    d.feed(&first).unwrap();
    d.feed(&second).unwrap();
    let b = d.finish().unwrap();
    let p = &b.envelope.sections[0].payload;
    assert_eq!(p.len(), 64 * 1024);
    assert_eq!(p[p.len() - 1], 0x55);
    assert_eq!(p[64 * 1024 - 30 * 1024], 1);
    assert_eq!(p[0], 0xaa);
    assert_eq!(b.envelope.station_id, 0xaaaa);
}

#[test]
fn reassembler_joins_fragments_in_index_order() {
    let frames = parse_frames(&stream_bytes()).unwrap();
    let mut r = Reassembler::new();
    let out = r.reassemble(&frames, &[], &Dictionary::new(), &Catalog::new());
    assert_eq!(out.len(), 2);
    assert_eq!(out[0].payload, b"hello world".to_vec());
    assert_eq!(out[0].msg_type, 5);
    assert_eq!(out[0].route_id, 9);
    assert_eq!(out[0].audit_byte, None);
}

#[test]
fn reassembler_waits_for_missing_fragment() {
    let mut v = vec![2u8];
    v.extend(frame(5, 100, 0, 3, 9, 1, 0, b"a", 0));
    v.extend(frame(5, 101, 1, 3, 9, 1, 0, b"b", 0));
    let frames = parse_frames(&v).unwrap();
    let mut r = Reassembler::new();
    assert!(r.reassemble(&frames, &[], &Dictionary::new(), &Catalog::new()).is_empty());
    let mut w = vec![1u8];
    w.extend(frame(5, 102, 2, 3, 9, 4, 0, b"c", 0));
    let more = parse_frames(&w).unwrap();
    let out = r.reassemble(&more, &[], &Dictionary::new(), &Catalog::new());
    assert_eq!(out.len(), 1);
    assert_eq!(out[0].payload, b"abc".to_vec());
    assert_eq!(out[0].channel_mask, 0x12);
}
