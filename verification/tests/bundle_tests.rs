use junctiontrace::analysis::Analyzer;
use junctiontrace::catalog::{Catalog, InterlockProfile};
use junctiontrace::checksum::crc16;
use junctiontrace::error::{JunctionError, Subject};
use junctiontrace::model::SectionKind;
use junctiontrace::{decode_and_analyze_bundle, parse_bundle, BundleDecoder};

fn u16le(x: u16) -> Vec<u8> {
    x.to_le_bytes().to_vec()
}

fn section_with(kind: u8, id: u8, flags: u16, payload: &[u8], checksum: u16) -> Vec<u8> {
    let mut v = vec![kind, id];
    v.extend(u16le(flags));
    v.extend(u16le(payload.len() as u16));
    v.extend(u16le(checksum));
    v.extend_from_slice(payload);
    v
}

fn section(kind: u8, id: u8, flags: u16, payload: &[u8]) -> Vec<u8> {
    section_with(kind, id, flags, payload, crc16(payload))
}

fn envelope_with(version: u8, count: u8, sections: &[Vec<u8>]) -> Vec<u8> {
    let mut v = b"JTRC".to_vec();
    v.push(version);
    v.push(0);
    v.extend(u16le(0x1234));
    v.extend_from_slice(&0xdead_beefu32.to_le_bytes());
    v.push(count);
    v.push(0);
    v.extend(u16le(0));
    for s in sections {
        v.extend_from_slice(s);
    }
    v
}

fn envelope(sections: &[Vec<u8>]) -> Vec<u8> {
    envelope_with(1, sections.len() as u8, sections)
}

fn entry(id: u16, class: u8, flags: u8, name: &[u8], value: &[u8]) -> Vec<u8> {
    let mut v = u16le(id);
    v.push(class);
    v.push(flags);
    v.push(name.len() as u8);
    v.extend(u16le(value.len() as u16));
    v.extend_from_slice(name);
    v.extend_from_slice(value);
    v
}

fn node(c: u16, s: u16, sw: u16, a: u8, l: u8, dw: u16) -> Vec<u8> {
    let mut v = u16le(c);
    v.extend(u16le(s));
    v.extend(u16le(sw));
    v.push(a);
    v.push(l);
    v.extend(u16le(dw));
    v
}

fn rel(f: u16, t: u16, m: u16, fl: u8) -> Vec<u8> {
    let mut v = u16le(f);
    v.extend(u16le(t));
    v.extend(u16le(m));
    v.push(fl);
    v
}

fn frame(msg_type: u8, seq: u16, fi: u8, ft: u8, rid: u16, ch: u8, fl: u8, payload: &[u8], trailer: u16) -> Vec<u8> {
    let mut v = vec![msg_type];
    v.extend(u16le(seq));
    v.push(fi);
    v.push(ft);
    v.extend(u16le(rid));
    v.push(ch);
    v.push(fl);
    v.extend(u16le(payload.len() as u16));
    v.extend(u16le(trailer));
    v.extend_from_slice(payload);
    v
}

fn ev(tok: u8, cid: u16, dm: i16, conf: u8) -> Vec<u8> {
    let mut v = vec![tok];
    v.extend(u16le(cid));
    v.extend_from_slice(&dm.to_le_bytes());
    v.push(conf);
    v
}

fn rec(op: u8, tag: u16, fl: u8, p: &[u8]) -> Vec<u8> {
    let mut v = vec![op];
    v.extend(u16le(tag));
    v.push(fl);
    v.extend(u16le(p.len() as u16));
    v.extend_from_slice(p);
    v
}

fn full_bundle() -> Vec<u8> {
    let mut dict = vec![1u8];
    dict.extend(entry(7, 3, 2, b"R7", &[7, 0, 9]));
    let mut route = vec![1u8];
    route.extend(u16le(7));
    route.extend(u16le(3));
    route.extend_from_slice(&[5, 2, 1]);
    route.extend(node(100, 200, 300, 1, 0, 50));
    route.extend(node(101, 201, 301, 2, 1, 60));
    route.extend(rel(100, 101, 500, 3));
    let mut frames = vec![2u8];
    frames.extend(frame(1, 10, 0, 2, 7, 3, 0, b"abcd", 0x1111));
    frames.extend(frame(1, 11, 1, 2, 7, 4, 0, b"ef", 0x2222));
    let mut occ = u16le(7);
    occ.extend_from_slice(&1000u32.to_le_bytes());
    occ.push(2);
    occ.extend(ev(0x01, 10, -5, 0x10));
    occ.extend(ev(0x02, 11, 5, 0x10));
    let mut journal = u16le(1);
    journal.push(2);
    journal.extend(rec(1, 5, 0, b"abc"));
    journal.extend(rec(0x7f, 0, 0, b""));
    let mut script = u16le(2);
    script.extend_from_slice(&[3, 1, 5, 0, 7, 1, 0xff]);
    envelope(&[
        section(1, 0, 1, &dict),
        section(2, 1, 1, &route),
        section(3, 2, 0, &frames),
        section(4, 3, 0, &occ),
        section(5, 4, 0, &journal),
        section(6, 5, 0, &script),
        section_with(4, 6, 1, &[1, 2], 0x1234),
        section(9, 7, 0, b"zz"),
    ])
}

#[test]
fn bundle_envelope_fields_and_sections() {
    let b = parse_bundle(&full_bundle()).unwrap();
    let e = &b.envelope;
    assert_eq!(e.version, 1);
    assert_eq!(e.station_id, 0x1234);
    assert_eq!(e.epoch, 0xdead_beef);
    assert_eq!(e.section_count, 8);
    assert_eq!(e.sections.len(), 8);
    let kinds: Vec<SectionKind> = e.sections.iter().map(|s| s.kind).collect();
    assert_eq!(
        kinds,
        vec![
            SectionKind::Dictionary,
            SectionKind::RoutePlan,
            SectionKind::RadioFrames,
            SectionKind::Occupancy,
            SectionKind::Journal,
            SectionKind::Script,
            SectionKind::Occupancy,
            SectionKind::Unknown(9)
        ]
    );
    let scores: Vec<u32> = e.sections.iter().map(|s| s.score).collect();
    assert_eq!(
        scores,
        vec![
            0x3c7e_df7e,
            0xefb9_e40f,
            0x79d5_35c8,
            0x529e_30f8,
            0xf851_f4e8,
            0x5810_d01e,
            0x5af6_2f52,
            0x5adb_63a4
        ]
    );
    assert_eq!(e.sections[0].checksum, 0x016a);
    assert_eq!(e.warnings, vec!["section 6 checksum mismatch 1234/ca3a".to_string()]);
}

#[test]
fn bundle_sections_are_decoded() {
    let b = parse_bundle(&full_bundle()).unwrap();
    assert_eq!(b.dictionary.len(), 1);
    assert_eq!(b.routes.len(), 1);
    assert_eq!(b.routes[0].score, 0xff5b_470a);
    assert_eq!(b.frames.len(), 2);
    assert_eq!(b.messages.len(), 1);
    assert_eq!(b.messages[0].seq_base, 10);
    assert_eq!(b.messages[0].payload, b"abcdef".to_vec());
    assert_eq!(b.messages[0].channel_mask, 24);
    assert_eq!(b.messages[0].audit_byte, None);
    assert_eq!(b.occupancy.len(), 1);
    assert_eq!(b.journals.len(), 1);
    assert!(b.journals[0].committed);
    assert_eq!(b.scripts.len(), 1);
    assert_eq!(
        b.diagnostics,
        vec![
            "section 6 checksum mismatch 1234/ca3a".to_string(),
            "occupancy section 6: truncated input: need 7 bytes with 2 remaining".to_string()
        ]
    );
}

#[test]
fn bundle_analysis_counts() {
    let r = decode_and_analyze_bundle(&full_bundle()).unwrap();
    assert!(r.findings.is_empty());
    assert_eq!(r.route_count, 1);
    assert_eq!(r.frame_count, 2);
    assert_eq!(r.occupancy_events, 2);
    assert_eq!(r.journal_records, 2);
    assert_eq!(r.script_steps, 3);
}

#[test]
fn bundle_envelope_errors() {
    assert_eq!(
        parse_bundle(b"JTRC\x01").err(),
        Some(JunctionError::Truncated { needed: 12, remaining: 5 })
    );
    let mut bad = envelope(&[]);
    bad[0] = b'X';
    assert_eq!(parse_bundle(&bad).err(), Some(JunctionError::BadMagic));
    assert_eq!(
        parse_bundle(&envelope_with(0, 0, &[])).err(),
        Some(JunctionError::UnsupportedVersion(0))
    );
    assert_eq!(
        parse_bundle(&envelope_with(4, 0, &[])).err(),
        Some(JunctionError::UnsupportedVersion(4))
    );
    let big = vec![0u8; 16 * 1024 + 1];
    assert_eq!(
        parse_bundle(&envelope(&[section(9, 0, 0, &big)])).err(),
        Some(JunctionError::LimitExceeded(Subject::SectionPayload))
    );
    assert_eq!(
        decode_and_analyze_bundle(&bad).err(),
        Some(JunctionError::BadMagic)
    );
}

#[test]
fn bundle_largest_section_and_versions_accepted() {
    let big = vec![0u8; 16 * 1024];
    let b = parse_bundle(&envelope_with(3, 1, &[section(9, 0, 0, &big)])).unwrap();
    assert_eq!(b.envelope.version, 3);
    assert_eq!(b.envelope.sections[0].payload.len(), 16 * 1024);
}

#[test]
fn bundle_missing_sections_stop_the_table() {
    let s = section(9, 0, 0, b"abc");
    let b = parse_bundle(&envelope_with(2, 5, &[s.clone()])).unwrap();
    assert_eq!(b.envelope.section_count, 5);
    assert_eq!(b.envelope.sections.len(), 1);
    let mut cut = envelope_with(2, 2, &[s.clone(), s.clone()]);
    cut.truncate(cut.len() - 1);
    let b = parse_bundle(&cut).unwrap();
    assert_eq!(b.envelope.sections.len(), 1);
    let b = parse_bundle(&envelope_with(1, 0, &[s])).unwrap();
    assert_eq!(b.envelope.sections.len(), 0);
}

#[test]
fn bundle_decoder_parse_envelope_alone() {
    let e = BundleDecoder::new().parse_envelope(&full_bundle()).unwrap();
    assert_eq!(e.sections.len(), 8);
    assert_eq!(e.warnings.len(), 1);
}

#[test]
fn bundle_failing_sections_become_diagnostics() {
    let mut frames = vec![1u8];
    frames.extend_from_slice(&[1, 0, 0, 0, 1, 7, 0, 0, 0]);
    frames.extend(u16le(2049));
    frames.extend(u16le(0));
    let data = envelope(&[
        section(2, 1, 0, &[1, 7, 0, 3, 0, 5, 65, 0]),
        section(7, 2, 0, &frames),
        section(5, 3, 0, &[1, 0, 200]),
        section(6, 4, 0, &[1, 0, 193]),
        section(1, 5, 0, &[]),
    ]);
    let b = parse_bundle(&data).unwrap();
    assert_eq!(
        b.diagnostics,
        vec![
            "route section 1: limit exceeded for route plan".to_string(),
            "frame section 2: limit exceeded for frame payload".to_string(),
            "journal section 3: limit exceeded for journal records".to_string(),
            "script section 4: limit exceeded for script opcodes".to_string(),
        ]
    );
}

#[test]
fn bundle_bad_dictionary_fails_the_bundle() {
    let mut dict = vec![1u8];
    dict.extend(entry(1, 1, 0, &[0xff], &[]));
    assert_eq!(
        parse_bundle(&envelope(&[section(1, 0, 0, &dict)])).err(),
        Some(JunctionError::InvalidUtf8)
    );
}

fn findings_bundle() -> Vec<u8> {
    let mut long_route = vec![1u8];
    long_route.extend(u16le(9));
    long_route.extend(u16le(1));
    long_route.extend_from_slice(&[0, 25, 0]);
    for i in 0..25u16 {
        long_route.extend(node(i, i, i, 0, 0, 0));
    }
    let mut payload = vec![0x40u8];
    payload.extend(1u8..30);
    let mut fr = vec![1u8];
    fr.extend(frame(0x41, 20, 0, 1, 7, 2, 0x20, &payload, 0x0102));
    let mut occ = u16le(3);
    occ.extend_from_slice(&0u32.to_le_bytes());
    occ.push(12);
    for i in 0..9u16 {
        occ.extend(ev(1, i, 0, 0));
    }
    for i in 0..3u16 {
        occ.extend(ev(2, i, 0, 0));
    }
    let mut noisy = u16le(0xffff);
    noisy.extend_from_slice(&0u32.to_le_bytes());
    noisy.push(3);
    noisy.extend(ev(2, 1732, 2967, 151));
    noisy.extend(ev(2, 17903, -27841, 191));
    noisy.extend(ev(66, 40796, -4118, 0xf0));
    let mut jr = u16le(1);
    jr.push(9);
    for i in 0..9u16 {
        jr.extend(rec(1, i, 0, b"x"));
    }
    let mut sc = u16le(0x100);
    sc.push(17);
    for _ in 0..17 {
        sc.extend_from_slice(&[7, 0]);
    }
    envelope(&[
        section(2, 1, 0, &long_route),
        section(3, 2, 0, &fr),
        section(4, 3, 0, &occ),
        section(4, 4, 0, &noisy),
        section(5, 5, 0, &jr),
        section(6, 6, 0, &sc),
    ])
}

#[test]
fn analysis_reports_every_finding() {
    let r = decode_and_analyze_bundle(&findings_bundle()).unwrap();
    let got: Vec<(u32, u8, String, Option<u16>)> = r
        .findings
        .iter()
        .map(|f| (f.code, f.severity, f.message.clone(), f.route_id))
        .collect();
    assert_eq!(
        got,
        vec![
            (1001, 4, "long route without release rule".to_string(), Some(9)),
            (2001, 5, "handoff audit byte indicates blocked authority".to_string(), Some(7)),
            (3001, 4, "occupancy trace mixes sustained occupancy and shunts".to_string(), Some(3)),
            (3002, 3, "occupancy replay measurement is noisy".to_string(), Some(0xffff)),
            (4001, 3, "journal has many uncommitted attachments".to_string(), None),
            (5001, 2, "controller script emitted a zero-biased accumulator".to_string(), None),
        ]
    );
    assert_eq!(r.route_count, 1);
    assert_eq!(r.frame_count, 1);
    assert_eq!(r.occupancy_events, 15);
    assert_eq!(r.journal_records, 9);
    assert_eq!(r.script_steps, 17);
}

#[test]
fn analysis_audit_byte_and_measurement_values() {
    let b = parse_bundle(&findings_bundle()).unwrap();
    assert_eq!(b.messages.len(), 1);
    assert_eq!(b.messages[0].audit_byte, Some(252));
    assert_eq!(b.occupancy[1].measurements, vec![0x7fff_6f9fu32]);
}

#[test]
fn analysis_with_catalog_reports_interlock_pressure() {
    let b = parse_bundle(&findings_bundle()).unwrap();
    let mut catalog = Catalog::new();
    catalog.interlocks.push(InterlockProfile { route_id: 9, base_pressure: 900_001 });
    let r = Analyzer::with_catalog(catalog).analyze(&b);
    assert!(r.findings.iter().any(|f| f.code == 1003 && f.severity == 3 && f.route_id == Some(9)
        && f.message == "route has high interlock pressure"));
    let r = Analyzer::new().analyze(&b);
    assert!(!r.findings.iter().any(|f| f.code == 1003));
}
