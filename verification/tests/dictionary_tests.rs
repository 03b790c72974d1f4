use junctiontrace::dictionary::{has_pair, has_run, Dictionary, DictionaryClass};
use junctiontrace::error::{JunctionError, Subject};

fn entry(id: u16, class: u8, flags: u8, name: &[u8], value: &[u8]) -> Vec<u8> {
    let mut v = id.to_le_bytes().to_vec();
    v.push(class);
    v.push(flags);
    v.push(name.len() as u8);
    v.extend_from_slice(&(value.len() as u16).to_le_bytes());
    v.extend_from_slice(name);
    v.extend_from_slice(value);
    v
}

fn sample_page() -> Vec<u8> {
    let mut page = vec![4u8];
    page.extend(entry(7, 3, 2, b"R7", &[0x07, 0x00, 0x09]));
    page.extend(entry(9, 5, 0, b"ph", b"reverse run"));
    page.extend(entry(7, 4, 1, b"maint", b""));
    page.extend(entry(300, 1, 5, b"c", &[0x2c, 0x01]));
    page
}

#[test]
fn dictionary_page_parses_entries() {
    let mut d = Dictionary::new();
    assert!(d.is_empty());
    d.parse_page(&sample_page()).unwrap();
    assert_eq!(d.len(), 4);
    let e = d.entries();
    assert_eq!(e[0].id, 7);
    assert_eq!(e[0].class, DictionaryClass::Route);
    assert_eq!(e[0].flags, 2);
    assert_eq!(e[0].name, "R7");
    assert_eq!(e[0].value, vec![7u8, 0, 9]);
    assert_eq!(e[1].class, DictionaryClass::Phrase);
    assert_eq!(e[2].class, DictionaryClass::Maintainer);
    assert_eq!(e[3].class, DictionaryClass::Circuit);
}

#[test]
fn dictionary_lookup_takes_first_match() {
    let mut d = Dictionary::new();
    d.parse_page(&sample_page()).unwrap();
    assert_eq!(d.lookup(7).unwrap().class, DictionaryClass::Route);
    assert_eq!(
        d.lookup_class(7, DictionaryClass::Maintainer).unwrap().name,
        "maint"
    );
    assert!(d.lookup(8).is_none());
    assert!(d.lookup_class(9, DictionaryClass::Route).is_none());
}

#[test]
fn dictionary_upsert_replaces_same_id_and_class() {
    let mut d = Dictionary::new();
    d.parse_page(&sample_page()).unwrap();
    let mut page = vec![2u8];
    page.extend(entry(7, 3, 9, b"new", &[1]));
    page.extend(entry(11, 200, 0, b"v", &[]));
    d.parse_page(&page).unwrap();
    assert_eq!(d.len(), 5);
    let e = d.entries();
    assert_eq!(e[0].name, "new");
    assert_eq!(e[0].flags, 9);
    assert_eq!(e[4].class, DictionaryClass::Vendor(200));
}

#[test]
fn dictionary_lookup_after_upsert_sees_the_write() {
    let mut d = Dictionary::new();
    let mut page = vec![1u8];
    page.extend(entry(42, 2, 0, b"first", &[1, 2]));
    d.parse_page(&page).unwrap();
    let mut page = vec![1u8];
    page.extend(entry(42, 2, 3, b"second", &[3]));
    d.parse_page(&page).unwrap();
    assert_eq!(d.len(), 1);
    let e = d.lookup_class(42, DictionaryClass::Signal).unwrap();
    assert_eq!(e.name, "second");
    assert_eq!(e.value, vec![3u8]);
}

#[test]
fn dictionary_phrase_search() {
    let mut d = Dictionary::new();
    d.parse_page(&sample_page()).unwrap();
    assert!(d.phrase_contains(b"reverse"));
    assert!(d.phrase_contains(b"e r"));
    assert!(!d.phrase_contains(b"forward"));
    assert!(!d.phrase_contains(b"R7"));
}

#[test]
fn dictionary_route_bias_values() {
    let mut d = Dictionary::new();
    assert_eq!(d.route_bias(7), 7);
    d.parse_page(&sample_page()).unwrap();
    assert_eq!(d.route_bias(7), 0x3e);
    assert_eq!(d.route_bias(300), 0x2582);
    assert_eq!(d.route_bias(5), 5);
}

#[test]
fn dictionary_rejects_long_name() {
    let mut d = Dictionary::new();
    let mut page = vec![1u8];
    page.extend(entry(1, 1, 0, &[b'a'; 97], &[]));
    assert_eq!(
        d.parse_page(&page),
        Err(JunctionError::LimitExceeded(Subject::DictionaryEntry))
    );
}

#[test]
fn dictionary_rejects_long_value() {
    let mut d = Dictionary::new();
    let mut page = vec![1u8];
    page.extend_from_slice(&[1, 0, 1, 0, 0]);
    page.extend_from_slice(&513u16.to_le_bytes());
    assert_eq!(
        d.parse_page(&page),
        Err(JunctionError::LimitExceeded(Subject::DictionaryEntry))
    );
}

#[test]
fn dictionary_rejects_bad_utf8_name() {
    let mut d = Dictionary::new();
    let mut page = vec![1u8];
    page.extend(entry(1, 1, 0, &[0xff, 0xfe], &[]));
    assert_eq!(d.parse_page(&page), Err(JunctionError::InvalidUtf8));
}

#[test]
fn dictionary_stops_at_short_entry_and_keeps_earlier() {
    let mut d = Dictionary::new();
    let mut page = vec![3u8];
    page.extend(entry(1, 1, 0, b"a", &[]));
    page.extend(entry(2, 1, 0, b"bbbb", &[]));
    page.truncate(page.len() - 2);
    assert_eq!(d.parse_page(&page), Ok(()));
    assert_eq!(d.len(), 1);
    assert_eq!(d.parse_page(&[]), Ok(()));
    assert_eq!(d.len(), 1);
}

#[test]
fn run_and_pair_search() {
    assert!(has_run(b"abcdef", b"cde"));
    assert!(!has_run(b"ab", b"abc"));
    assert!(has_pair(&[0x00, 0x34, 0x12], 0x1234));
    assert!(!has_pair(&[0x34], 0x34));
}
