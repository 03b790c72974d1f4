use junctiontrace::catalog::{Catalog, RouteProfile};
use junctiontrace::dictionary::Dictionary;
use junctiontrace::error::{JunctionError, Subject};
use junctiontrace::route::{parse_route_plans, release_pressure, route_contains_signal};

fn node(c: u16, s: u16, sw: u16, a: u8, l: u8, dw: u16) -> Vec<u8> {
    let mut v = Vec::new();
    v.extend_from_slice(&c.to_le_bytes());
    v.extend_from_slice(&s.to_le_bytes());
    v.extend_from_slice(&sw.to_le_bytes());
    v.push(a);
    v.push(l);
    v.extend_from_slice(&dw.to_le_bytes());
    v
}

fn rel(f: u16, t: u16, m: u16, fl: u8) -> Vec<u8> {
    let mut v = Vec::new();
    v.extend_from_slice(&f.to_le_bytes());
    v.extend_from_slice(&t.to_le_bytes());
    v.extend_from_slice(&m.to_le_bytes());
    v.push(fl);
    v
}

fn entry(id: u16, class: u8, flags: u8, name: &[u8], value: &[u8]) -> Vec<u8> {
    let mut v = id.to_le_bytes().to_vec();
    v.push(class);
    v.push(flags);
    v.push(name.len() as u8);
    v.extend_from_slice(&(value.len() as u16).to_le_bytes());
    v.extend_from_slice(name);
    v.extend_from_slice(value);
    v
}

fn plan_bytes() -> Vec<u8> {
    let mut v = vec![1u8];
    v.extend_from_slice(&7u16.to_le_bytes());
    v.extend_from_slice(&3u16.to_le_bytes());
    v.extend_from_slice(&[5, 2, 1]);
    v.extend(node(100, 200, 300, 1, 0, 50));
    v.extend(node(101, 201, 301, 2, 1, 60));
    v.extend(rel(100, 101, 500, 3));
    v
}

fn sample_dictionary() -> Dictionary {
    let mut page = vec![4u8];
    page.extend(entry(7, 3, 2, b"R7", &[0x07, 0x00, 0x09]));
    page.extend(entry(9, 5, 0, b"ph", b"reverse run"));
    page.extend(entry(7, 4, 1, b"maint", b""));
    page.extend(entry(300, 1, 5, b"c", &[0x2c, 0x01]));
    let mut d = Dictionary::new();
    d.parse_page(&page).unwrap();
    d
}

#[test]
fn route_plan_parses_and_scores() {
    let plans = parse_route_plans(&plan_bytes(), &Dictionary::new(), &Catalog::new()).unwrap();
    assert_eq!(plans.len(), 1);
    let p = &plans[0];
    assert_eq!(p.route_id, 7);
    assert_eq!(p.revision, 3);
    assert_eq!(p.authority, 5);
    assert_eq!(p.nodes.len(), 2);
    assert_eq!(p.nodes[1].switch_id, 301);
    assert_eq!(p.nodes[1].dwell_ms, 60);
    assert_eq!(p.releases.len(), 1);
    assert_eq!(p.releases[0].min_clear_ms, 500);
    assert_eq!(p.score, 0xd5a6_6049);
    assert_eq!(release_pressure(p), 0xad33_0426);
}

#[test]
fn route_score_uses_dictionary() {
    let plans = parse_route_plans(&plan_bytes(), &sample_dictionary(), &Catalog::new()).unwrap();
    assert_eq!(plans[0].score, 0xfe9d_c70a);
    assert_eq!(release_pressure(&plans[0]), 0xf4ee_3a1f);
}

#[test]
fn route_score_uses_catalog() {
    let mut catalog = Catalog::new();
    catalog.routes.push(RouteProfile { route_id: 7, risk_seed: 0x0102_0304, control_zone: 1 });
    let plans = parse_route_plans(&plan_bytes(), &Dictionary::new(), &catalog).unwrap();
    assert_eq!(plans[0].score, 0xf5e6_00c9);
}

#[test]
fn route_contains_signal_checks_nodes() {
    let plans = parse_route_plans(&plan_bytes(), &Dictionary::new(), &Catalog::new()).unwrap();
    assert!(route_contains_signal(&plans[0], 201));
    assert!(!route_contains_signal(&plans[0], 202));
}

#[test]
fn route_plan_rejects_too_many_nodes() {
    let mut v = vec![1u8, 7, 0, 3, 0, 5, 65, 0];
    v.extend_from_slice(&[0; 20]);
    assert_eq!(
        parse_route_plans(&v, &Dictionary::new(), &Catalog::new()).err(),
        Some(JunctionError::LimitExceeded(Subject::RoutePlan))
    );
    let v = vec![1u8, 7, 0, 3, 0, 5, 0, 33];
    assert_eq!(
        parse_route_plans(&v, &Dictionary::new(), &Catalog::new()).err(),
        Some(JunctionError::LimitExceeded(Subject::RoutePlan))
    );
}

#[test]
fn route_plan_short_input_gives_what_was_read() {
    assert_eq!(parse_route_plans(&[], &Dictionary::new(), &Catalog::new()).unwrap().len(), 0);
    let mut v = plan_bytes();
    v[0] = 2;
    v.extend_from_slice(&[9, 0, 1]);
    let plans = parse_route_plans(&v, &Dictionary::new(), &Catalog::new()).unwrap();
    assert_eq!(plans.len(), 1);
    let mut v = plan_bytes();
    v.truncate(v.len() - 3);
    let plans = parse_route_plans(&v, &Dictionary::new(), &Catalog::new()).unwrap();
    assert_eq!(plans[0].releases.len(), 0);
    assert_eq!(plans[0].nodes.len(), 2);
}

#[test]
fn route_plans_never_more_than_thirty_two() {
    let mut v = vec![40u8];
    for i in 0..40u16 {
        v.extend_from_slice(&i.to_le_bytes());
        v.extend_from_slice(&[0, 0, 0, 0, 0]);
    }
    let plans = parse_route_plans(&v, &Dictionary::new(), &Catalog::new()).unwrap();
    assert_eq!(plans.len(), 32);
    assert_eq!(plans[31].route_id, 31);
}
