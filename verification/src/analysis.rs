use vstd::prelude::*;

use crate::catalog::{empty_catalog, interlock_pressure_in, Catalog, CatalogModel};
use crate::checksum::{ones32, ones_in};
use crate::model::{
    views, Bundle, BundleModel, JournalModel, MessageModel, OccupancyBatch, OccupancyBatchModel,
    OccupancyEvent, OccupancyState, RoutePlan, RoutePlanModel, ScriptProgram, ScriptProgramModel,
};
use crate::route::{has_signal, route_contains_signal};
use crate::script::{report_of, run_program};

verus! {

/// What the analysis of a bundle found, with counts of what it looked at.
#[derive(Clone, Debug)]
pub struct AnalysisReport {
    pub findings: Vec<AnalysisFinding>,
    pub route_count: usize,
    pub frame_count: usize,
    pub occupancy_events: usize,
    pub journal_records: usize,
    pub script_steps: usize,
}

pub ghost struct ReportModel {
    pub findings: Seq<FindingModel>,
    pub route_count: usize,
    pub frame_count: usize,
    pub occupancy_events: usize,
    pub journal_records: usize,
    pub script_steps: usize,
}

impl View for AnalysisReport {
    type V = ReportModel;

    open spec fn view(&self) -> ReportModel {
        ReportModel {
            findings: views(self.findings@),
            route_count: self.route_count,
            frame_count: self.frame_count,
            occupancy_events: self.occupancy_events,
            journal_records: self.journal_records,
            script_steps: self.script_steps,
        }
    }
}

/// One thing the analysis found.
#[derive(Clone, Debug)]
pub struct AnalysisFinding {
    pub code: u32,
    pub severity: u8,
    pub message: String,
    pub route_id: Option<u16>,
}

pub ghost struct FindingModel {
    pub code: u32,
    pub severity: u8,
    pub message: Seq<char>,
    pub route_id: Option<u16>,
}

impl View for AnalysisFinding {
    type V = FindingModel;

    open spec fn view(&self) -> FindingModel {
        FindingModel {
            code: self.code,
            severity: self.severity,
            message: self.message@,
            route_id: self.route_id,
        }
    }
}

pub open spec fn finding(code: u32, severity: u8, message: Seq<char>, route_id: Option<u16>) -> FindingModel {
    FindingModel { code, severity, message, route_id }
}

/// What a route plan is found to have.
pub open spec fn route_findings_of(r: RoutePlanModel, catalog: CatalogModel) -> Seq<FindingModel> {
    (if r.nodes.len() > 24 && r.releases.len() == 0 {
        seq![finding(1001, 4, "long route without release rule"@, Some(r.route_id))]
    } else {
        seq![]
    }) + (if r.nodes.len() > 0 && !has_signal(r, r.nodes[0].signal_id) {
        seq![finding(1002, 2, "route signal catalog mismatch"@, Some(r.route_id))]
    } else {
        seq![]
    }) + (if interlock_pressure_in(catalog.interlocks, r.route_id, r.score) > 900_000 {
        seq![finding(1003, 3, "route has high interlock pressure"@, Some(r.route_id))]
    } else {
        seq![]
    })
}

pub open spec fn routes_findings(rs: Seq<RoutePlanModel>, catalog: CatalogModel) -> Seq<FindingModel>
    decreases rs.len(),
{
    if rs.len() == 0 {
        seq![]
    } else {
        routes_findings(rs.drop_last(), catalog) + route_findings_of(rs.last(), catalog)
    }
}

/// What a message is found to have: an audit byte with all four top bits set.
pub open spec fn message_findings_of(m: MessageModel) -> Seq<FindingModel> {
    match m.audit_byte {
        Some(b) => if b & 0xf0 == 0xf0 {
            seq![
                finding(
                    2001,
                    5,
                    "handoff audit byte indicates blocked authority"@,
                    Some(m.route_id),
                ),
            ]
        } else {
            seq![]
        },
        None => seq![],
    }
}

pub open spec fn messages_findings(ms: Seq<MessageModel>) -> Seq<FindingModel>
    decreases ms.len(),
{
    if ms.len() == 0 {
        seq![]
    } else {
        messages_findings(ms.drop_last()) + message_findings_of(ms.last())
    }
}

/// The number of events in the state.
pub open spec fn count_state(es: Seq<OccupancyEvent>, st: OccupancyState) -> nat
    decreases es.len(),
{
    if es.len() == 0 {
        0
    } else {
        count_state(es.drop_last(), st) + if es.last().state == st { 1nat } else { 0nat }
    }
}

/// Some measurement has more than 24 one bits.
pub open spec fn noisy(ms: Seq<u32>) -> bool {
    exists|i: int| 0 <= i < ms.len() && ones_in(#[trigger] ms[i] as nat, 32) > 24
}

/// What an occupancy batch is found to have.
pub open spec fn batch_findings_of(b: OccupancyBatchModel) -> Seq<FindingModel> {
    (if count_state(b.events, OccupancyState::Occupied) > 8 && count_state(
        b.events,
        OccupancyState::Shunted,
    ) > 2 {
        seq![
            finding(
                3001,
                4,
                "occupancy trace mixes sustained occupancy and shunts"@,
                Some(b.route_id),
            ),
        ]
    } else {
        seq![]
    }) + (if noisy(b.measurements) {
        seq![finding(3002, 3, "occupancy replay measurement is noisy"@, Some(b.route_id))]
    } else {
        seq![]
    })
}

pub open spec fn batches_findings(bs: Seq<OccupancyBatchModel>) -> Seq<FindingModel>
    decreases bs.len(),
{
    if bs.len() == 0 {
        seq![]
    } else {
        batches_findings(bs.drop_last()) + batch_findings_of(bs.last())
    }
}

pub open spec fn total_events(bs: Seq<OccupancyBatchModel>) -> nat
    decreases bs.len(),
{
    if bs.len() == 0 {
        0
    } else {
        total_events(bs.drop_last()) + bs.last().events.len()
    }
}

/// What a journal is found to have.
pub open spec fn journal_findings_of(j: JournalModel) -> Seq<FindingModel> {
    if j.attachments_seen > 8 && !j.committed {
        seq![finding(4001, 3, "journal has many uncommitted attachments"@, None)]
    } else {
        seq![]
    }
}

pub open spec fn journals_findings(js: Seq<JournalModel>) -> Seq<FindingModel>
    decreases js.len(),
{
    if js.len() == 0 {
        seq![]
    } else {
        journals_findings(js.drop_last()) + journal_findings_of(js.last())
    }
}

pub open spec fn total_records(js: Seq<JournalModel>) -> nat
    decreases js.len(),
{
    if js.len() == 0 {
        0
    } else {
        total_records(js.drop_last()) + js.last().records.len()
    }
}

/// What running a script is found to give.
pub open spec fn script_findings_of(p: ScriptProgramModel) -> Seq<FindingModel> {
    let rep = report_of(p);
    if rep.emitted.len() > 16 && rep.accumulator & 0xff == 0 {
        seq![finding(5001, 2, "controller script emitted a zero-biased accumulator"@, None)]
    } else {
        seq![]
    }
}

pub open spec fn scripts_findings(ps: Seq<ScriptProgramModel>) -> Seq<FindingModel>
    decreases ps.len(),
{
    if ps.len() == 0 {
        seq![]
    } else {
        scripts_findings(ps.drop_last()) + script_findings_of(ps.last())
    }
}

pub open spec fn total_steps(ps: Seq<ScriptProgramModel>) -> nat
    decreases ps.len(),
{
    if ps.len() == 0 {
        0
    } else {
        total_steps(ps.drop_last()) + report_of(ps.last()).steps as nat
    }
}

/// The report of the analysis of a bundle.
pub open spec fn analysis_of(b: BundleModel, catalog: CatalogModel) -> ReportModel {
    ReportModel {
        findings: routes_findings(b.routes, catalog) + messages_findings(b.messages)
            + batches_findings(b.occupancy) + journals_findings(b.journals) + scripts_findings(
            b.scripts,
        ),
        route_count: b.routes.len() as usize,
        frame_count: b.frames.len() as usize,
        occupancy_events: total_events(b.occupancy) as usize,
        journal_records: total_records(b.journals) as usize,
        script_steps: total_steps(b.scripts) as usize,
    }
}

/// Analyses decoded bundles for signs of trouble.
pub struct Analyzer {
    catalog: Catalog,
}

impl Default for Analyzer {
    fn default() -> (a: Self)
        ensures
            a.catalog() == empty_catalog(),
    {
        Self::new()
    }
}

fn new_finding(code: u32, severity: u8, message: &str, route_id: Option<u16>) -> (f: AnalysisFinding)
    ensures
        f@ == finding(code, severity, message@, route_id),
{
    AnalysisFinding { code, severity, message: message.to_owned(), route_id }
}

fn push_finding(findings: &mut Vec<AnalysisFinding>, f: AnalysisFinding)
    ensures
        views(final(findings)@) == views(old(findings)@) + seq![f@],
{
    proof {
        crate::model::lemma_views_push(findings@, f);
    }
    findings.push(f);
    assert(views(old(findings)@).push(f@) =~= views(old(findings)@) + seq![f@]);
}

fn count_events(events: &Vec<OccupancyEvent>, st: OccupancyState) -> (n: usize)
    ensures
        n == count_state(events@, st),
{
    let mut n: usize = 0;
    let mut i: usize = 0;
    assert(events@.take(0) =~= Seq::<OccupancyEvent>::empty());
    while i < events.len()
        invariant
            i <= events@.len(),
            n <= i,
            n == count_state(events@.take(i as int), st),
        decreases events.len() - i,
    {
        assert(events@.take(i + 1).drop_last() =~= events@.take(i as int));
        if events[i].state == st {
            n = n + 1;
        }
        i = i + 1;
    }
    assert(events@.take(events@.len() as int) =~= events@);
    n
}

fn any_noisy(ms: &Vec<u32>) -> (r: bool)
    ensures
        r == noisy(ms@),
{
    let mut i: usize = 0;
    while i < ms.len()
        invariant
            i <= ms@.len(),
            forall|j: int| 0 <= j < i ==> ones_in(#[trigger] ms@[j] as nat, 32) <= 24,
        decreases ms.len() - i,
    {
        if ones32(ms[i]) > 24 {
            assert(ones_in(ms@[i as int] as nat, 32) > 24);
            return true;
        }
        i = i + 1;
    }
    false
}

pub proof fn lemma_total_events_prefix(bs: Seq<OccupancyBatchModel>, i: int)
    requires
        0 <= i <= bs.len(),
    ensures
        total_events(bs.take(i)) <= total_events(bs),
    decreases bs.len() - i,
{
    if i < bs.len() {
        lemma_total_events_prefix(bs, i + 1);
        assert(bs.take(i + 1).drop_last() =~= bs.take(i));
    } else {
        assert(bs.take(i) =~= bs);
    }
}

pub proof fn lemma_total_records_prefix(js: Seq<JournalModel>, i: int)
    requires
        0 <= i <= js.len(),
    ensures
        total_records(js.take(i)) <= total_records(js),
    decreases js.len() - i,
{
    if i < js.len() {
        lemma_total_records_prefix(js, i + 1);
        assert(js.take(i + 1).drop_last() =~= js.take(i));
    } else {
        assert(js.take(i) =~= js);
    }
}

/// The route findings carry route codes only; a `1001` finding is raised for a plan
/// exactly when it has more than 24 nodes and no release rule, and names that plan's
/// route.
pub proof fn lemma_routes_findings_long(rs: Seq<RoutePlanModel>, catalog: CatalogModel)
    ensures
        forall|k: int|
            0 <= k < routes_findings(rs, catalog).len() ==> {
                let f = #[trigger] routes_findings(rs, catalog)[k];
                &&& f.code == 1001 || f.code == 1002 || f.code == 1003
                &&& f.code == 1001 ==> exists|i: int|
                    0 <= i < rs.len() && (#[trigger] rs[i]).nodes.len() > 24 && rs[i].releases.len()
                        == 0 && f == finding(
                        1001,
                        4,
                        "long route without release rule"@,
                        Some(rs[i].route_id),
                    )
            },
        forall|i: int|
            0 <= i < rs.len() && (#[trigger] rs[i]).nodes.len() > 24 && rs[i].releases.len() == 0
                ==> exists|k: int|
                0 <= k < routes_findings(rs, catalog).len() && #[trigger] routes_findings(
                    rs,
                    catalog,
                )[k] == finding(1001, 4, "long route without release rule"@, Some(rs[i].route_id)),
    decreases rs.len(),
{
    if rs.len() > 0 {
        let pre = rs.drop_last();
        lemma_routes_findings_long(pre, catalog);
        let a = routes_findings(pre, catalog);
        let r = rs.last();
        let t = route_findings_of(r, catalog);
        let all = routes_findings(rs, catalog);
        assert(all == a + t);
        let long = finding(1001, 4, "long route without release rule"@, Some(r.route_id));
        assert forall|k: int| 0 <= k < all.len() implies {
            let f = #[trigger] all[k];
            &&& f.code == 1001 || f.code == 1002 || f.code == 1003
            &&& f.code == 1001 ==> exists|i: int|
                0 <= i < rs.len() && (#[trigger] rs[i]).nodes.len() > 24 && rs[i].releases.len()
                    == 0 && f == finding(
                    1001,
                    4,
                    "long route without release rule"@,
                    Some(rs[i].route_id),
                )
        } by {
            if k < a.len() {
                assert(all[k] == a[k]);
                if a[k].code == 1001 {
                    let i = choose|i: int|
                        0 <= i < pre.len() && (#[trigger] pre[i]).nodes.len() > 24
                            && pre[i].releases.len() == 0 && a[k] == finding(
                            1001,
                            4,
                            "long route without release rule"@,
                            Some(pre[i].route_id),
                        );
                    assert(rs[i] == pre[i]);
                }
            } else {
                assert(all[k] == t[k - a.len()]);
                if all[k].code == 1001 {
                    assert(rs[rs.len() - 1] == r);
                    assert(r.nodes.len() > 24 && r.releases.len() == 0 && t[0] == long);
                    assert(k - a.len() == 0);
                }
            }
        }
        assert forall|i: int|
            0 <= i < rs.len() && (#[trigger] rs[i]).nodes.len() > 24 && rs[i].releases.len() == 0
                implies exists|k: int|
                0 <= k < all.len() && #[trigger] all[k] == finding(
                    1001,
                    4,
                    "long route without release rule"@,
                    Some(rs[i].route_id),
                ) by {
            if i < pre.len() {
                assert(pre[i] == rs[i]);
                let k = choose|k: int|
                    0 <= k < a.len() && #[trigger] a[k] == finding(
                        1001,
                        4,
                        "long route without release rule"@,
                        Some(pre[i].route_id),
                    );
                assert(all[k] == a[k]);
            } else {
                assert(rs[i] == r);
                assert(t[0] == long);
                assert(all[a.len() as int] == t[0]);
            }
        }
    }
}

/// No plan is ever found to miss the signal of its first node: that node carries it.
pub proof fn lemma_no_signal_mismatch(r: RoutePlanModel, catalog: CatalogModel)
    ensures
        forall|k: int|
            0 <= k < route_findings_of(r, catalog).len() ==> (#[trigger] route_findings_of(
                r,
                catalog,
            )[k]).code != 1002,
{
    if r.nodes.len() > 0 {
        assert(has_signal(r, r.nodes[0].signal_id));
    }
}

/// Message findings carry code 2001, batch findings 3001 or 3002, journal findings
/// 4001 and script findings 5001.
pub proof fn lemma_finding_codes(
    ms: Seq<MessageModel>,
    bs: Seq<OccupancyBatchModel>,
    js: Seq<JournalModel>,
    ps: Seq<ScriptProgramModel>,
)
    ensures
        forall|k: int|
            0 <= k < messages_findings(ms).len() ==> (#[trigger] messages_findings(ms)[k]).code
                == 2001,
        forall|k: int|
            0 <= k < batches_findings(bs).len() ==> (#[trigger] batches_findings(bs)[k]).code
                == 3001 || batches_findings(bs)[k].code == 3002,
        forall|k: int|
            0 <= k < journals_findings(js).len() ==> (#[trigger] journals_findings(js)[k]).code
                == 4001,
        forall|k: int|
            0 <= k < scripts_findings(ps).len() ==> (#[trigger] scripts_findings(ps)[k]).code
                == 5001,
    decreases ms.len() + bs.len() + js.len() + ps.len(),
{
    if ms.len() > 0 {
        lemma_finding_codes(ms.drop_last(), bs, js, ps);
        let a = messages_findings(ms.drop_last());
        let t = message_findings_of(ms.last());
        assert forall|k: int| 0 <= k < messages_findings(ms).len() implies (
        #[trigger] messages_findings(ms)[k]).code == 2001 by {
            if k < a.len() {
                assert(messages_findings(ms)[k] == a[k]);
            } else {
                assert(messages_findings(ms)[k] == t[k - a.len()]);
            }
        }
    }
    if bs.len() > 0 {
        lemma_finding_codes(seq![], bs.drop_last(), js, ps);
        let a = batches_findings(bs.drop_last());
        let t = batch_findings_of(bs.last());
        assert forall|k: int| 0 <= k < batches_findings(bs).len() implies (
        #[trigger] batches_findings(bs)[k]).code == 3001 || batches_findings(bs)[k].code
            == 3002 by {
            if k < a.len() {
                assert(batches_findings(bs)[k] == a[k]);
            } else {
                assert(batches_findings(bs)[k] == t[k - a.len()]);
            }
        }
    }
    if js.len() > 0 {
        lemma_finding_codes(seq![], seq![], js.drop_last(), ps);
        let a = journals_findings(js.drop_last());
        let t = journal_findings_of(js.last());
        assert forall|k: int| 0 <= k < journals_findings(js).len() implies (
        #[trigger] journals_findings(js)[k]).code == 4001 by {
            if k < a.len() {
                assert(journals_findings(js)[k] == a[k]);
            } else {
                assert(journals_findings(js)[k] == t[k - a.len()]);
            }
        }
    }
    if ps.len() > 0 {
        lemma_finding_codes(seq![], seq![], seq![], ps.drop_last());
        let a = scripts_findings(ps.drop_last());
        let t = script_findings_of(ps.last());
        assert forall|k: int| 0 <= k < scripts_findings(ps).len() implies (
        #[trigger] scripts_findings(ps)[k]).code == 5001 by {
            if k < a.len() {
                assert(scripts_findings(ps)[k] == a[k]);
            } else {
                assert(scripts_findings(ps)[k] == t[k - a.len()]);
            }
        }
    }
}

/// The analysis reports "long route without release rule" (code 1001, severity 4)
/// for a route exactly when one of the bundle's plans for it has more than 24 nodes
/// and no release rule: every 1001 finding names such a plan's route, and every such
/// plan gets one.
pub proof fn lemma_long_route_finding(b: BundleModel, catalog: CatalogModel)
    ensures
        forall|k: int|
            0 <= k < analysis_of(b, catalog).findings.len() && (#[trigger] analysis_of(
                b,
                catalog,
            ).findings[k]).code == 1001 ==> exists|i: int|
                0 <= i < b.routes.len() && (#[trigger] b.routes[i]).nodes.len() > 24
                    && b.routes[i].releases.len() == 0 && analysis_of(b, catalog).findings[k]
                    == finding(1001, 4, "long route without release rule"@, Some(b.routes[i].route_id)),
        forall|i: int|
            0 <= i < b.routes.len() && (#[trigger] b.routes[i]).nodes.len() > 24
                && b.routes[i].releases.len() == 0 ==> exists|k: int|
                0 <= k < analysis_of(b, catalog).findings.len() && #[trigger] analysis_of(
                    b,
                    catalog,
                ).findings[k] == finding(
                    1001,
                    4,
                    "long route without release rule"@,
                    Some(b.routes[i].route_id),
                ),
{
    lemma_routes_findings_long(b.routes, catalog);
    lemma_finding_codes(b.messages, b.occupancy, b.journals, b.scripts);
    let r = routes_findings(b.routes, catalog);
    let m = messages_findings(b.messages);
    let o = batches_findings(b.occupancy);
    let j = journals_findings(b.journals);
    let s = scripts_findings(b.scripts);
    let all = analysis_of(b, catalog).findings;
    assert(all == r + m + o + j + s);
    assert forall|k: int| 0 <= k < all.len() && (#[trigger] all[k]).code == 1001 implies exists|
        i: int,
    |
        0 <= i < b.routes.len() && (#[trigger] b.routes[i]).nodes.len() > 24
            && b.routes[i].releases.len() == 0 && all[k] == finding(
            1001,
            4,
            "long route without release rule"@,
            Some(b.routes[i].route_id),
        ) by {
        let n1 = r.len() as int;
        let n2 = n1 + m.len();
        let n3 = n2 + o.len();
        let n4 = n3 + j.len();
        if k < n1 {
            assert(all[k] == r[k]);
        } else if k < n2 {
            assert(all[k] == m[k - n1]);
        } else if k < n3 {
            assert(all[k] == o[k - n2]);
        } else if k < n4 {
            assert(all[k] == j[k - n3]);
        } else {
            assert(all[k] == s[k - n4]);
        }
    }
    assert forall|i: int|
        0 <= i < b.routes.len() && (#[trigger] b.routes[i]).nodes.len() > 24
            && b.routes[i].releases.len() == 0 implies exists|k: int|
        0 <= k < all.len() && #[trigger] all[k] == finding(
            1001,
            4,
            "long route without release rule"@,
            Some(b.routes[i].route_id),
        ) by {
        let k = choose|k: int|
            0 <= k < r.len() && #[trigger] r[k] == finding(
                1001,
                4,
                "long route without release rule"@,
                Some(b.routes[i].route_id),
            );
        assert(all[k] == r[k]);
    }
}

/// Batches of at most 192 events each hold at most 192 events per batch in all.
pub proof fn lemma_total_events_bound(bs: Seq<OccupancyBatchModel>)
    requires
        forall|k: int| 0 <= k < bs.len() ==> (#[trigger] bs[k]).events.len() <= 192,
    ensures
        total_events(bs) <= 192 * bs.len(),
    decreases bs.len(),
{
    if bs.len() > 0 {
        lemma_total_events_bound(bs.drop_last());
    }
}

/// Journals of at most 128 records each hold at most 128 records per journal in all.
pub proof fn lemma_total_records_bound(js: Seq<JournalModel>)
    requires
        forall|k: int| 0 <= k < js.len() ==> (#[trigger] js[k]).records.len() <= 128,
    ensures
        total_records(js) <= 128 * js.len(),
    decreases js.len(),
{
    if js.len() > 0 {
        lemma_total_records_bound(js.drop_last());
    }
}

impl Analyzer {
    pub closed spec fn catalog(&self) -> CatalogModel {
        self.catalog@
    }

    pub fn new() -> (a: Self)
        ensures
            a.catalog() == empty_catalog(),
    {
        Analyzer { catalog: Catalog::new() }
    }

    /// An analyzer that consults the given catalog.
    pub fn with_catalog(catalog: Catalog) -> (a: Self)
        ensures
            a.catalog() == catalog@,
    {
        Analyzer { catalog }
    }

    fn route_findings(&self, routes: &Vec<RoutePlan>, findings: &mut Vec<AnalysisFinding>)
        ensures
            views(final(findings)@) == views(old(findings)@) + routes_findings(
                views(routes@),
                self.catalog(),
            ),
    {
        let ghost rs = views(routes@);
        let ghost start = views(findings@);
        let mut i: usize = 0;
        assert(rs.take(0) =~= Seq::<RoutePlanModel>::empty());
        assert(start + routes_findings(rs.take(0), self.catalog()) =~= start);
        while i < routes.len()
            invariant
                i <= routes@.len(),
                rs == views(routes@),
                start == views(old(findings)@),
                views(findings@) == start + routes_findings(rs.take(i as int), self.catalog()),
            decreases routes.len() - i,
        {
            let route = &routes[i];
            assert(rs.take(i + 1).drop_last() =~= rs.take(i as int));
            assert(rs.take(i + 1).last() == route@);
            let ghost before = views(findings@);
            if route.nodes.len() > 24 && route.releases.len() == 0 {
                push_finding(
                    findings,
                    new_finding(1001, 4, "long route without release rule", Some(route.route_id)),
                );
            }
            let ghost mid1 = views(findings@);
            if route.nodes.len() > 0 {
                if !route_contains_signal(route, route.nodes[0].signal_id) {
                    push_finding(
                        findings,
                        new_finding(1002, 2, "route signal catalog mismatch", Some(route.route_id)),
                    );
                }
            }
            let ghost mid2 = views(findings@);
            if self.catalog.interlock_pressure(route.route_id, route.score) > 900_000 {
                push_finding(
                    findings,
                    new_finding(
                        1003,
                        3,
                        "route has high interlock pressure",
                        Some(route.route_id),
                    ),
                );
            }
            proof {
                let f = route_findings_of(route@, self.catalog());
                assert(views(findings@) =~= before + f);
                assert(start + routes_findings(rs.take(i + 1), self.catalog()) =~= start
                    + routes_findings(rs.take(i as int), self.catalog()) + f);
            }
            i = i + 1;
        }
        assert(rs.take(routes@.len() as int) =~= rs);
    }

    fn message_findings(&self, messages: &Vec<crate::model::ReassembledMessage>, findings: &mut Vec<AnalysisFinding>)
        ensures
            views(final(findings)@) == views(old(findings)@) + messages_findings(views(messages@)),
    {
        let ghost ms = views(messages@);
        let ghost start = views(findings@);
        let mut i: usize = 0;
        assert(ms.take(0) =~= Seq::<MessageModel>::empty());
        assert(start + messages_findings(ms.take(0)) =~= start);
        while i < messages.len()
            invariant
                i <= messages@.len(),
                ms == views(messages@),
                start == views(old(findings)@),
                views(findings@) == start + messages_findings(ms.take(i as int)),
            decreases messages.len() - i,
        {
            let message = &messages[i];
            assert(ms.take(i + 1).drop_last() =~= ms.take(i as int));
            assert(ms.take(i + 1).last() == message@);
            let ghost before = views(findings@);
            match message.audit_byte {
                Some(byte) => {
                    if byte & 0xf0 == 0xf0 {
                        push_finding(
                            findings,
                            new_finding(
                                2001,
                                5,
                                "handoff audit byte indicates blocked authority",
                                Some(message.route_id),
                            ),
                        );
                    }
                },
                None => {},
            }
            proof {
                let f = message_findings_of(message@);
                assert(views(findings@) =~= before + f);
                assert(start + messages_findings(ms.take(i + 1)) =~= start + messages_findings(
                    ms.take(i as int),
                ) + f);
            }
            i = i + 1;
        }
        assert(ms.take(messages@.len() as int) =~= ms);
    }

    fn occupancy_findings(
        &self,
        batches: &Vec<OccupancyBatch>,
        findings: &mut Vec<AnalysisFinding>,
    ) -> (events: usize)
        requires
            total_events(views(batches@)) <= usize::MAX,
        ensures
            views(final(findings)@) == views(old(findings)@) + batches_findings(views(batches@)),
            events == total_events(views(batches@)),
    {
        let ghost bs = views(batches@);
        let ghost start = views(findings@);
        let mut events: usize = 0;
        let mut i: usize = 0;
        assert(bs.take(0) =~= Seq::<OccupancyBatchModel>::empty());
        assert(start + batches_findings(bs.take(0)) =~= start);
        while i < batches.len()
            invariant
                i <= batches@.len(),
                bs == views(batches@),
                total_events(bs) <= usize::MAX,
                start == views(old(findings)@),
                views(findings@) == start + batches_findings(bs.take(i as int)),
                events == total_events(bs.take(i as int)),
            decreases batches.len() - i,
        {
            let batch = &batches[i];
            assert(bs.take(i + 1).drop_last() =~= bs.take(i as int));
            assert(bs.take(i + 1).last() == batch@);
            proof {
                lemma_total_events_prefix(bs, i + 1);
            }
            events = events + batch.events.len();
            let ghost before = views(findings@);
            let occupied = count_events(&batch.events, OccupancyState::Occupied);
            let shunted = count_events(&batch.events, OccupancyState::Shunted);
            if occupied > 8 && shunted > 2 {
                push_finding(
                    findings,
                    new_finding(
                        3001,
                        4,
                        "occupancy trace mixes sustained occupancy and shunts",
                        Some(batch.route_id),
                    ),
                );
            }
            if any_noisy(&batch.measurements) {
                push_finding(
                    findings,
                    new_finding(
                        3002,
                        3,
                        "occupancy replay measurement is noisy",
                        Some(batch.route_id),
                    ),
                );
            }
            proof {
                let f = batch_findings_of(batch@);
                assert(views(findings@) =~= before + f);
                assert(start + batches_findings(bs.take(i + 1)) =~= start + batches_findings(
                    bs.take(i as int),
                ) + f);
            }
            i = i + 1;
        }
        assert(bs.take(batches@.len() as int) =~= bs);
        events
    }

    fn journal_findings(
        &self,
        journals: &Vec<crate::model::Journal>,
        findings: &mut Vec<AnalysisFinding>,
    ) -> (records: usize)
        requires
            total_records(views(journals@)) <= usize::MAX,
        ensures
            views(final(findings)@) == views(old(findings)@) + journals_findings(views(journals@)),
            records == total_records(views(journals@)),
    {
        let ghost js = views(journals@);
        let ghost start = views(findings@);
        let mut records: usize = 0;
        let mut i: usize = 0;
        assert(js.take(0) =~= Seq::<JournalModel>::empty());
        assert(start + journals_findings(js.take(0)) =~= start);
        while i < journals.len()
            invariant
                i <= journals@.len(),
                js == views(journals@),
                total_records(js) <= usize::MAX,
                start == views(old(findings)@),
                views(findings@) == start + journals_findings(js.take(i as int)),
                records == total_records(js.take(i as int)),
            decreases journals.len() - i,
        {
            let journal = &journals[i];
            assert(js.take(i + 1).drop_last() =~= js.take(i as int));
            assert(js.take(i + 1).last() == journal@);
            proof {
                lemma_total_records_prefix(js, i + 1);
                assert(journal@.records.len() == journal.records@.len());
            }
            records = records + journal.records.len();
            let ghost before = views(findings@);
            if journal.attachments_seen > 8 && !journal.committed {
                push_finding(
                    findings,
                    new_finding(4001, 3, "journal has many uncommitted attachments", None),
                );
            }
            proof {
                let f = journal_findings_of(journal@);
                assert(views(findings@) =~= before + f);
                assert(start + journals_findings(js.take(i + 1)) =~= start + journals_findings(
                    js.take(i as int),
                ) + f);
            }
            i = i + 1;
        }
        assert(js.take(journals@.len() as int) =~= js);
        records
    }

    fn script_findings(
        &self,
        scripts: &Vec<ScriptProgram>,
        findings: &mut Vec<AnalysisFinding>,
    ) -> (steps: usize)
        requires
            scripts@.len() * 512 <= usize::MAX,
            forall|k: int|
                0 <= k < scripts@.len() ==> (#[trigger] scripts@[k]).opcodes@.len() + 128
                    <= isize::MAX,
        ensures
            views(final(findings)@) == views(old(findings)@) + scripts_findings(views(scripts@)),
            steps == total_steps(views(scripts@)),
    {
        let ghost ps = views(scripts@);
        let ghost start = views(findings@);
        let mut steps: usize = 0;
        let mut i: usize = 0;
        assert(ps.take(0) =~= Seq::<ScriptProgramModel>::empty());
        assert(start + scripts_findings(ps.take(0)) =~= start);
        while i < scripts.len()
            invariant
                i <= scripts@.len(),
                ps == views(scripts@),
                scripts@.len() * 512 <= usize::MAX,
                forall|k: int|
                    0 <= k < scripts@.len() ==> (#[trigger] scripts@[k]).opcodes@.len() + 128
                        <= isize::MAX,
                start == views(old(findings)@),
                views(findings@) == start + scripts_findings(ps.take(i as int)),
                steps == total_steps(ps.take(i as int)),
                steps <= 512 * i,
            decreases scripts.len() - i,
        {
            let program = &scripts[i];
            assert(ps.take(i + 1).drop_last() =~= ps.take(i as int));
            assert(ps.take(i + 1).last() == program@);
            let report = run_program(program);
            assert(512 * (i + 1) <= scripts@.len() * 512) by (nonlinear_arith)
                requires
                    i < scripts@.len(),
            ;
            steps = steps + report.steps;
            let ghost before = views(findings@);
            if report.emitted.len() > 16 && report.accumulator & 0xff == 0 {
                push_finding(
                    findings,
                    new_finding(5001, 2, "controller script emitted a zero-biased accumulator", None),
                );
            }
            proof {
                let f = script_findings_of(program@);
                assert(views(findings@) =~= before + f);
                assert(start + scripts_findings(ps.take(i + 1)) =~= start + scripts_findings(
                    ps.take(i as int),
                ) + f);
            }
            i = i + 1;
        }
        assert(ps.take(scripts@.len() as int) =~= ps);
        steps
    }

    /// Analyses a decoded bundle.
    pub fn analyze(&self, bundle: &Bundle) -> (r: AnalysisReport)
        requires
            total_events(bundle@.occupancy) <= usize::MAX,
            total_records(bundle@.journals) <= usize::MAX,
            bundle.scripts@.len() * 512 <= usize::MAX,
            forall|k: int|
                0 <= k < bundle.scripts@.len() ==> (#[trigger] bundle.scripts@[k]).opcodes@.len()
                    + 128 <= isize::MAX,
        ensures
            r@ == analysis_of(bundle@, self.catalog()),
    {
        let mut findings: Vec<AnalysisFinding> = Vec::new();
        assert(views(findings@) =~= Seq::<FindingModel>::empty());
        self.route_findings(&bundle.routes, &mut findings);
        self.message_findings(&bundle.messages, &mut findings);
        let occupancy_events = self.occupancy_findings(&bundle.occupancy, &mut findings);
        let journal_records = self.journal_findings(&bundle.journals, &mut findings);
        let script_steps = self.script_findings(&bundle.scripts, &mut findings);
        let r = AnalysisReport {
            findings,
            route_count: bundle.routes.len(),
            frame_count: bundle.frames.len(),
            occupancy_events,
            journal_records,
            script_steps,
        };
        assert(r@.findings =~= analysis_of(bundle@, self.catalog()).findings);
        r
    }
}

} // verus!
