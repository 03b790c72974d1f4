use junctiontrace::attachment::AttachmentArena;
use junctiontrace::decode_journal_bytes;
use junctiontrace::dictionary::Dictionary;
use junctiontrace::error::{JunctionError, Subject};
use junctiontrace::journal::parse_journal;

fn rec(op: u8, tag: u16, fl: u8, p: &[u8]) -> Vec<u8> {
    let mut v = vec![op];
    v.extend_from_slice(&tag.to_le_bytes());
    v.push(fl);
    v.extend_from_slice(&(p.len() as u16).to_le_bytes());
    v.extend_from_slice(p);
    v
}

fn journal_bytes() -> Vec<u8> {
    let mut v = 0x10u16.to_le_bytes().to_vec();
    v.push(6);
    v.extend(rec(1, 5, 0, b"page one"));
    v.extend(rec(5, 9, 0x20, b"x"));
    v.extend(rec(6, 7, 0, b"please hold on"));
    v.extend(rec(3, 5, 0, b""));
    v.extend(rec(2, 5, 0x04, b""));
    v.extend(rec(0x7f, 0, 0, b""));
    v
}

#[test]
fn journal_records_and_notes() {
    let j = decode_journal_bytes(&journal_bytes()).unwrap();
    assert_eq!(j.source_id, 0x10);
    assert_eq!(j.records.len(), 6);
    let notes: Vec<&str> = j.records.iter().map(|r| r.note.as_str()).collect();
    assert_eq!(
        notes,
        vec![
            "record 01/0005",
            "record 05/0009",
            "hold request 0007",
            "record 03/0005",
            "record 02/0005",
            "commit"
        ]
    );
    assert_eq!(j.records[2].payload_len, 14);
    assert_eq!(j.records[1].flags, 0x20);
    assert_eq!(j.attachments_seen, 2);
    assert!(j.committed);
}

#[test]
fn journal_note_names_maintainer() {
    let mut page = vec![1u8, 9, 0, 4, 0, 3, 0, 0];
    page.extend_from_slice(b"ana");
    let mut d = Dictionary::new();
    d.parse_page(&page).unwrap();
    let j = parse_journal(&journal_bytes(), &d).unwrap();
    assert_eq!(j.records[1].note, "ana:05:1");
}

#[test]
fn journal_without_commit_record_is_open() {
    let mut v = 1u16.to_le_bytes().to_vec();
    v.push(1);
    v.extend(rec(1, 2, 0, b"a"));
    let j = decode_journal_bytes(&v).unwrap();
    assert!(!j.committed);
    assert_eq!(j.attachments_seen, 1);
}

#[test]
fn journal_errors() {
    assert_eq!(
        decode_journal_bytes(&[1, 2]).err(),
        Some(JunctionError::Truncated { needed: 3, remaining: 2 })
    );
    assert_eq!(
        decode_journal_bytes(&[1, 0, 129]).err(),
        Some(JunctionError::LimitExceeded(Subject::JournalRecords))
    );
    let mut v = vec![1u8, 0, 1, 1, 0, 0, 0];
    v.extend_from_slice(&4097u16.to_le_bytes());
    assert_eq!(
        decode_journal_bytes(&v).err(),
        Some(JunctionError::LimitExceeded(Subject::JournalPayload))
    );
}

#[test]
fn journal_stops_at_short_record() {
    let mut v = journal_bytes();
    v.truncate(3 + 6 + 8 + 6);
    let j = decode_journal_bytes(&v).unwrap();
    assert_eq!(j.records.len(), 1);
    assert!(!j.committed);
}

#[test]
fn arena_page_checksums_and_snapshots() {
    let mut a = AttachmentArena::new();
    assert_eq!(a.len(), 0);
    assert_eq!(a.add_page(5, b"hello"), 0x0004_d20f);
    assert_eq!(a.add_page(6, b""), 0x30);
    let long: Vec<u8> = (0u8..40).collect();
    assert_eq!(a.add_page(7, &long), 0x4a6c_b594);
    assert_eq!(a.len(), 3);
    a.snapshot_last(7, 0x40);
    assert_eq!(a.len(), 4);
    a.snapshot_last(0x17, 0x40);
    assert_eq!(a.len(), 5);
    a.snapshot_last(1, 0x04);
    assert_eq!(a.len(), 6);
    a.rollback_to(6);
    assert_eq!(a.len(), 4);
}

#[test]
fn arena_rollback_to_missing_tag_empties_pages() {
    let mut a = AttachmentArena::new();
    a.add_page(1, b"a");
    a.add_page(2, b"b");
    a.rollback_to(9);
    assert_eq!(a.len(), 0);
    a.snapshot_last(1, 0x44);
    assert_eq!(a.len(), 0);
}

#[test]
fn arena_keeps_at_most_sixty_five_pages() {
    let mut a = AttachmentArena::new();
    for i in 0..70u16 {
        a.add_page(i, b"p");
    }
    assert_eq!(a.len(), 65);
    a.rollback_to(5);
    assert_eq!(a.len(), 1);
    a.rollback_to(4);
    assert_eq!(a.len(), 0);
    a.add_page(1, b"q");
    a.rollback_to(1);
    assert_eq!(a.len(), 1);
}
