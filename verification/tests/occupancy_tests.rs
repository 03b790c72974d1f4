use junctiontrace::catalog::Catalog;
use junctiontrace::dictionary::Dictionary;
use junctiontrace::error::{JunctionError, Subject};
use junctiontrace::model::OccupancyState;
use junctiontrace::occupancy::parse_occupancy_batch;
use junctiontrace::unsafe_lanes::{mix_lane, unchecked_window_sample};

fn ev(tok: u8, cid: u16, dm: i16, conf: u8) -> Vec<u8> {
    let mut v = vec![tok];
    v.extend_from_slice(&cid.to_le_bytes());
    v.extend_from_slice(&dm.to_le_bytes());
    v.push(conf);
    v
}

fn entry(id: u16, class: u8, flags: u8, name: &[u8], value: &[u8]) -> Vec<u8> {
    let mut v = id.to_le_bytes().to_vec();
    v.push(class);
    v.push(flags);
    v.push(name.len() as u8);
    v.extend_from_slice(&(value.len() as u16).to_le_bytes());
    v.extend_from_slice(name);
    v.extend_from_slice(value);
    v
}

fn batch_bytes() -> Vec<u8> {
    let mut v = 7u16.to_le_bytes().to_vec();
    v.extend_from_slice(&1000u32.to_le_bytes());
    v.push(5);
    v.extend(ev(0x01, 10, -5, 0x10));
    v.extend(ev(0x82, 300, 20, 0x20));
    v.extend(ev(0x41, 11, 3, 0x30));
    v.extend(ev(0x43, 12, 4, 0xf0));
    v.extend(ev(0x42, 13, -1, 0x0f));
    v
}

#[test]
fn occupancy_batch_with_dictionary() {
    let mut page = vec![2u8];
    page.extend(entry(300, 1, 0, b"c", &[0x34, 0x12]));
    page.extend(entry(9, 5, 0, b"ph", b"reverse"));
    let mut d = Dictionary::new();
    d.parse_page(&page).unwrap();
    let b = parse_occupancy_batch(&batch_bytes(), &d, &Catalog::new()).unwrap();
    assert_eq!(b.route_id, 7);
    assert_eq!(b.base_time, 1000);
    assert_eq!(b.events.len(), 5);
    assert_eq!(b.events[0].state, OccupancyState::Occupied);
    assert_eq!(b.events[0].delta_ms, -5);
    assert_eq!(b.events[1].circuit_id, 0x1234);
    assert_eq!(b.events[1].state, OccupancyState::Shunted);
    assert_eq!(b.events[3].state, OccupancyState::Unknown(3));
    assert_eq!(b.events[4].confidence, 0x0f);
    assert_eq!(b.measurements, vec![0x0070_3400u32, 0x4102, 0x17c]);
}

#[test]
fn occupancy_batch_without_dictionary() {
    let b = parse_occupancy_batch(&batch_bytes(), &Dictionary::new(), &Catalog::new()).unwrap();
    assert_eq!(b.events[1].circuit_id, 300);
    assert_eq!(b.measurements, vec![0x0007_3082u32, 0x17, 0x114]);
}

#[test]
fn occupancy_batch_needs_header() {
    assert_eq!(
        parse_occupancy_batch(&[1, 2], &Dictionary::new(), &Catalog::new()).err(),
        Some(JunctionError::Truncated { needed: 7, remaining: 2 })
    );
}

#[test]
fn occupancy_batch_rejects_too_many_events() {
    let v = [7u8, 0, 0, 0, 0, 0, 193];
    assert_eq!(
        parse_occupancy_batch(&v, &Dictionary::new(), &Catalog::new()).err(),
        Some(JunctionError::LimitExceeded(Subject::OccupancyEvents))
    );
}

#[test]
fn occupancy_batch_stops_at_short_event() {
    let mut v = batch_bytes();
    v.truncate(7 + 6 + 3);
    let b = parse_occupancy_batch(&v, &Dictionary::new(), &Catalog::new()).unwrap();
    assert_eq!(b.events.len(), 1);
    assert!(b.measurements.is_empty());
}

#[test]
fn window_sample_counts_round_the_window() {
    let w = [10u8, 20, 30];
    assert_eq!(unchecked_window_sample(&w, 1), 20);
    assert_eq!(unchecked_window_sample(&w, 4), 20);
    assert_eq!(unchecked_window_sample(&[], 4), 0);
}

#[test]
fn mix_lane_values() {
    let w: Vec<u8> = (0u8..20).collect();
    assert_eq!(mix_lane(&w, 3, 0x1234), 0x92a7);
    assert_eq!(mix_lane(&w, 25, 0xffff_ffff), 0xffff_faf3);
    assert_eq!(mix_lane(&[], 5, 9), 9);
}
