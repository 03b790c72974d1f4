use junctiontrace::error::{JunctionError, Subject};
use junctiontrace::frame::{frame_entropy, parse_frames};

fn frame(msg_type: u8, seq: u16, fi: u8, ft: u8, rid: u16, ch: u8, fl: u8, payload: &[u8], trailer: u16) -> Vec<u8> {
    let mut v = vec![msg_type];
    v.extend_from_slice(&seq.to_le_bytes());
    v.push(fi);
    v.push(ft);
    v.extend_from_slice(&rid.to_le_bytes());
    v.push(ch);
    v.push(fl);
    v.extend_from_slice(&(payload.len() as u16).to_le_bytes());
    v.extend_from_slice(&trailer.to_le_bytes());
    v.extend_from_slice(payload);
    v
}

#[test]
fn frames_parse_with_minimum_fragment_total() {
    let mut data = vec![2u8];
    data.extend(frame(1, 10, 0, 2, 7, 3, 0, b"abcd", 0x1111));
    data.extend(frame(1, 11, 1, 0, 7, 4, 0, b"ef", 0x2222));
    let frames = parse_frames(&data).unwrap();
    assert_eq!(frames.len(), 2);
    assert_eq!(frames[0].seq, 10);
    assert_eq!(frames[0].frag_total, 2);
    assert_eq!(frames[0].payload, b"abcd".to_vec());
    assert_eq!(frames[0].trailer, 0x1111);
    assert_eq!(frames[1].frag_total, 1);
    assert_eq!(frames[1].channel, 4);
    assert_eq!(frame_entropy(&frames[0]), 0x7021_3d1d);
    assert_eq!(frame_entropy(&frames[1]), 0x001c_2ae4);
}

#[test]
fn frames_of_empty_input() {
    assert_eq!(parse_frames(&[]).unwrap().len(), 0);
    assert_eq!(parse_frames(&[5]).unwrap().len(), 0);
}

#[test]
fn frames_stop_at_short_payload() {
    let mut data = vec![2u8];
    data.extend(frame(1, 1, 0, 1, 7, 0, 0, b"abcd", 0));
    data.extend(frame(1, 2, 0, 1, 7, 0, 0, b"abcdefgh", 0));
    data.truncate(data.len() - 3);
    let frames = parse_frames(&data).unwrap();
    assert_eq!(frames.len(), 1);
}

#[test]
fn frames_count_limits_what_is_read() {
    let mut data = vec![1u8];
    data.extend(frame(1, 1, 0, 1, 7, 0, 0, b"a", 0));
    data.extend(frame(1, 2, 0, 1, 7, 0, 0, b"b", 0));
    assert_eq!(parse_frames(&data).unwrap().len(), 1);
}

#[test]
fn frames_reject_oversized_payload() {
    let mut data = vec![1u8];
    data.extend_from_slice(&[1, 0, 0, 0, 1, 7, 0, 0, 0]);
    data.extend_from_slice(&2049u16.to_le_bytes());
    data.extend_from_slice(&[0, 0]);
    assert_eq!(
        parse_frames(&data).err(),
        Some(JunctionError::LimitExceeded(Subject::FramePayload))
    );
}

#[test]
fn frames_never_more_than_one_hundred_twenty_eight() {
    let mut data = vec![200u8];
    for i in 0..130u16 {
        data.extend(frame(1, i, 0, 1, 7, 0, 0, b"", 0));
    }
    assert_eq!(parse_frames(&data).unwrap().len(), 128);
}
