use vstd::prelude::*;

use crate::catalog::{route_in, Catalog, CatalogModel};
use crate::checksum::{lemma_low_bits, low4, low5, rolling32, rolling_of, rotate32, rotl32};
use crate::cursor::{le16, Cursor};
use crate::dictionary::{bias_over, find_key, Dictionary, DictionaryClass, DictionaryEntryModel};
use crate::error::{JunctionError, Result, Subject};
use crate::model::{
    after, cons, lemma_after_cons, lemma_after_empty, views, ReleaseRule, RoutePlan,
    RoutePlanModel, TrackNode,
};

verus! {

/// The track node whose 10 bytes start at `q`.
pub open spec fn node_at(s: Seq<u8>, q: int) -> TrackNode {
    TrackNode {
        circuit_id: le16(s, q),
        signal_id: le16(s, q + 2),
        switch_id: le16(s, q + 4),
        aspect: s[q + 6],
        lock: s[q + 7],
        dwell_ms: le16(s, q + 8),
    }
}

/// The release rule whose 7 bytes start at `q`.
pub open spec fn release_at(s: Seq<u8>, q: int) -> ReleaseRule {
    ReleaseRule {
        from: le16(s, q),
        to: le16(s, q + 2),
        min_clear_ms: le16(s, q + 4),
        flags: s[q + 6],
    }
}

/// Up to `n` track nodes from `q`; the list ends where fewer than 10 bytes are left.
pub open spec fn nodes_from(s: Seq<u8>, q: int, n: nat) -> Seq<TrackNode>
    decreases n,
{
    if n == 0 || q < 0 || s.len() - q < 10 {
        seq![]
    } else {
        seq![node_at(s, q)] + nodes_from(s, q + 10, (n - 1) as nat)
    }
}

/// Up to `n` release rules from `q`; the list ends where fewer than 7 bytes are left.
pub open spec fn releases_from(s: Seq<u8>, q: int, n: nat) -> Seq<ReleaseRule>
    decreases n,
{
    if n == 0 || q < 0 || s.len() - q < 7 {
        seq![]
    } else {
        seq![release_at(s, q)] + releases_from(s, q + 7, (n - 1) as nat)
    }
}

/// The little-endian bytes of a 16-bit value.
pub open spec fn bytes16(x: u16) -> Seq<u8> {
    seq![(x % 256) as u8, (x / 256) as u8]
}

/// The bytes of a node that go into a plan score (the dwell time does not).
pub open spec fn node_score_bytes(n: TrackNode) -> Seq<u8> {
    bytes16(n.circuit_id) + bytes16(n.signal_id) + bytes16(n.switch_id) + seq![n.aspect, n.lock]
}

/// The bytes of a release rule that go into a plan score.
pub open spec fn release_score_bytes(r: ReleaseRule) -> Seq<u8> {
    bytes16(r.from) + bytes16(r.to) + bytes16(r.min_clear_ms) + seq![r.flags]
}

pub open spec fn nodes_score_bytes(ns: Seq<TrackNode>) -> Seq<u8>
    decreases ns.len(),
{
    if ns.len() == 0 {
        seq![]
    } else {
        nodes_score_bytes(ns.drop_last()) + node_score_bytes(ns.last())
    }
}

pub open spec fn releases_score_bytes(rs: Seq<ReleaseRule>) -> Seq<u8>
    decreases rs.len(),
{
    if rs.len() == 0 {
        seq![]
    } else {
        releases_score_bytes(rs.drop_last()) + release_score_bytes(rs.last())
    }
}

/// Every byte of a plan that its score is computed over.
pub open spec fn plan_score_bytes(
    route_id: u16,
    revision: u16,
    authority: u8,
    nodes: Seq<TrackNode>,
    releases: Seq<ReleaseRule>,
) -> Seq<u8> {
    bytes16(route_id) + bytes16(revision) + seq![authority] + nodes_score_bytes(nodes)
        + releases_score_bytes(releases)
}

/// The score of a route plan.
pub open spec fn plan_score(
    route_id: u16,
    revision: u16,
    authority: u8,
    nodes: Seq<TrackNode>,
    releases: Seq<ReleaseRule>,
    dict: Seq<DictionaryEntryModel>,
    catalog: CatalogModel,
) -> u32 {
    let base = rolling_of(
        bias_over(dict, route_id),
        plan_score_bytes(route_id, revision, authority, nodes, releases),
    );
    let seeded = match route_in(catalog.routes, route_id) {
        Some(profile) => base ^ rotl32(profile.risk_seed, low5(authority) as u32),
        None => base,
    };
    if find_key(dict, route_id, DictionaryClass::Route) is Some {
        rotl32(seeded, 3) ^ 0x5254_4544u32
    } else {
        seeded
    }
}

/// The route plans found from `p`, with at most `left` plans still to read.
pub open spec fn plans_from(
    s: Seq<u8>,
    p: int,
    left: nat,
    dict: Seq<DictionaryEntryModel>,
    catalog: CatalogModel,
) -> Result<Seq<RoutePlanModel>>
    decreases left,
{
    if left == 0 || p < 0 || s.len() - p < 7 {
        Ok(seq![])
    } else {
        let node_count = s[p + 5] as nat;
        let release_count = s[p + 6] as nat;
        if node_count > 64 || release_count > 32 {
            Err(JunctionError::LimitExceeded(Subject::RoutePlan))
        } else {
            let route_id = le16(s, p);
            let revision = le16(s, p + 2);
            let authority = s[p + 4];
            let nodes = nodes_from(s, p + 7, node_count);
            let q = p + 7 + 10 * nodes.len();
            let releases = releases_from(s, q, release_count);
            let next = q + 7 * releases.len();
            let plan = RoutePlanModel {
                route_id,
                revision,
                authority,
                nodes,
                releases,
                score: plan_score(route_id, revision, authority, nodes, releases, dict, catalog),
            };
            cons(plan, plans_from(s, next, (left - 1) as nat, dict, catalog))
        }
    }
}

pub proof fn lemma_nodes_from_len(s: Seq<u8>, q: int, n: nat)
    ensures
        nodes_from(s, q, n).len() <= n,
    decreases n,
{
    if !(n == 0 || q < 0 || s.len() - q < 10) {
        lemma_nodes_from_len(s, q + 10, (n - 1) as nat);
    }
}

pub proof fn lemma_releases_from_len(s: Seq<u8>, q: int, n: nat)
    ensures
        releases_from(s, q, n).len() <= n,
    decreases n,
{
    if !(n == 0 || q < 0 || s.len() - q < 7) {
        lemma_releases_from_len(s, q + 7, (n - 1) as nat);
    }
}

/// At most `left` plans are read, each with at most 64 nodes and 32 release rules.
pub proof fn lemma_plans_from_bounds(
    s: Seq<u8>,
    p: int,
    left: nat,
    dict: Seq<DictionaryEntryModel>,
    catalog: CatalogModel,
)
    ensures
        plans_from(s, p, left, dict, catalog) matches Ok(ps) ==> {
            &&& ps.len() <= left
            &&& forall|i: int|
                0 <= i < ps.len() ==> (#[trigger] ps[i]).nodes.len() <= 64 && ps[i].releases.len()
                    <= 32
        },
    decreases left,
{
    if !(left == 0 || p < 0 || s.len() - p < 7) {
        let node_count = s[p + 5] as nat;
        let release_count = s[p + 6] as nat;
        if node_count <= 64 && release_count <= 32 {
            let nodes = nodes_from(s, p + 7, node_count);
            lemma_nodes_from_len(s, p + 7, node_count);
            let q = p + 7 + 10 * nodes.len();
            let releases = releases_from(s, q, release_count);
            lemma_releases_from_len(s, q, release_count);
            let next = q + 7 * releases.len();
            lemma_plans_from_bounds(s, next, (left - 1) as nat, dict, catalog);
            if let Ok(rest) = plans_from(s, next, (left - 1) as nat, dict, catalog) {
                let plan = RoutePlanModel {
                    route_id: le16(s, p),
                    revision: le16(s, p + 2),
                    authority: s[p + 4],
                    nodes,
                    releases,
                    score: plan_score(
                        le16(s, p),
                        le16(s, p + 2),
                        s[p + 4],
                        nodes,
                        releases,
                        dict,
                        catalog,
                    ),
                };
                let ps = seq![plan] + rest;
                assert forall|i: int| 0 <= i < ps.len() implies (#[trigger] ps[i]).nodes.len() <= 64
                    && ps[i].releases.len() <= 32 by {
                    if i > 0 {
                        assert(ps[i] == rest[i - 1]);
                    }
                }
            }
        }
    }
}

/// A route section yields at most 32 plans, each with at most 64 nodes and 32 release
/// rules.
pub proof fn lemma_plans_bounds(s: Seq<u8>, dict: Seq<DictionaryEntryModel>, catalog: CatalogModel)
    ensures
        plans_of(s, dict, catalog) matches Ok(ps) ==> {
            &&& ps.len() <= 32
            &&& forall|i: int|
                0 <= i < ps.len() ==> (#[trigger] ps[i]).nodes.len() <= 64 && ps[i].releases.len()
                    <= 32
        },
{
    if s.len() > 0 {
        lemma_plans_from_bounds(s, 1, if s[0] < 32 { s[0] as nat } else { 32 }, dict, catalog);
    }
}

/// The route plans of a route section: a count byte (at most 32 are read) and the plans.
pub open spec fn plans_of(
    s: Seq<u8>,
    dict: Seq<DictionaryEntryModel>,
    catalog: CatalogModel,
) -> Result<Seq<RoutePlanModel>> {
    if s.len() == 0 {
        Ok(seq![])
    } else {
        plans_from(s, 1, if s[0] < 32 { s[0] as nat } else { 32 }, dict, catalog)
    }
}

pub fn parse_route_plans(data: &[u8], dict: &Dictionary, catalog: &Catalog) -> (r: Result<
    Vec<RoutePlan>,
>)
    ensures
        match r {
            Ok(ps) => plans_of(data@, dict@, catalog@) == Ok::<Seq<RoutePlanModel>, JunctionError>(
                views(ps@),
            ),
            Err(e) => plans_of(data@, dict@, catalog@) == Err::<Seq<RoutePlanModel>, JunctionError>(
                e,
            ),
        },
{
    let mut c = Cursor::new(data);
    if c.is_empty() {
        let v: Vec<RoutePlan> = Vec::new();
        assert(views(v@) =~= Seq::<RoutePlanModel>::empty());
        return Ok(v);
    }
    let count = c.read_u8()? as usize;
    let mut left: usize = if count < 32 { count } else { 32 };
    let mut plans: Vec<RoutePlan> = Vec::new();
    let ghost s = data@;
    proof {
        assert(views(plans@) =~= Seq::<RoutePlanModel>::empty());
        crate::model::lemma_after_nil(plans_from(s, 1, left as nat, dict@, catalog@));
    }
    while left > 0
        invariant
            c.bytes() == s,
            s == data@,
            1 <= c.pos() <= s.len(),
            plans_of(s, dict@, catalog@) == after(
                views(plans@),
                plans_from(s, c.pos(), left as nat, dict@, catalog@),
            ),
        decreases left,
    {
        let ghost p = c.pos();
        if c.remaining() < 7 {
            proof {
                lemma_after_empty(views(plans@));
            }
            return Ok(plans);
        }
        let route_id = c.read_u16()?;
        let revision = c.read_u16()?;
        let authority = c.read_u8()?;
        let node_count = c.read_u8()? as usize;
        let release_count = c.read_u8()? as usize;
        if node_count > 64 || release_count > 32 {
            return Err(JunctionError::LimitExceeded(Subject::RoutePlan));
        }
        let nodes = read_nodes(&mut c, node_count)?;
        let releases = read_releases(&mut c, release_count)?;
        let score = score_plan(
            route_id,
            revision,
            authority,
            nodes.as_slice(),
            releases.as_slice(),
            dict,
            catalog,
        );
        let plan = RoutePlan { route_id, revision, authority, nodes, releases, score };
        proof {
            lemma_after_cons(
                views(plans@),
                plan@,
                plans_from(s, c.pos(), (left - 1) as nat, dict@, catalog@),
            );
            crate::model::lemma_views_push(plans@, plan);
        }
        plans.push(plan);
        left = left - 1;
    }
    proof {
        lemma_after_empty(views(plans@));
    }
    Ok(plans)
}

fn read_nodes(c: &mut Cursor, count: usize) -> (r: Result<Vec<TrackNode>>)
    ensures
        match r {
            Ok(nodes) => {
                let s = old(c).bytes();
                &&& nodes@ == nodes_from(s, old(c).pos(), count as nat)
                &&& Cursor::moved(*old(c), *final(c), (10 * nodes@.len()) as int)
            },
            Err(_) => false,
        },
{
    let ghost s = c.bytes();
    let ghost q0 = c.pos();
    let mut nodes: Vec<TrackNode> = Vec::new();
    let mut k: usize = count;
    let _ = c.remaining();
    assert(nodes@ + nodes_from(s, c.pos(), k as nat) =~= nodes_from(s, q0, count as nat));
    while k > 0 && c.remaining() >= 10
        invariant
            c.bytes() == s,
            s == old(c).bytes(),
            q0 == old(c).pos(),
            q0 <= c.pos() <= s.len(),
            c.pos() == q0 + 10 * nodes@.len(),
            nodes@ + nodes_from(s, c.pos(), k as nat) == nodes_from(s, q0, count as nat),
        decreases k,
    {
        let ghost q = c.pos();
        let node = TrackNode {
            circuit_id: c.read_u16()?,
            signal_id: c.read_u16()?,
            switch_id: c.read_u16()?,
            aspect: c.read_u8()?,
            lock: c.read_u8()?,
            dwell_ms: c.read_u16()?,
        };
        assert(node == node_at(s, q));
        assert(nodes_from(s, q, k as nat) == seq![node] + nodes_from(s, c.pos(), (k - 1) as nat));
        assert(nodes@.push(node) + nodes_from(s, c.pos(), (k - 1) as nat) =~= nodes@ + (seq![node]
            + nodes_from(s, c.pos(), (k - 1) as nat)));
        nodes.push(node);
        k = k - 1;
    }
    assert(nodes_from(s, c.pos(), k as nat) =~= Seq::<TrackNode>::empty());
    assert(nodes@ =~= nodes@ + nodes_from(s, c.pos(), k as nat));
    Ok(nodes)
}

fn read_releases(c: &mut Cursor, count: usize) -> (r: Result<Vec<ReleaseRule>>)
    ensures
        match r {
            Ok(rules) => {
                let s = old(c).bytes();
                &&& rules@ == releases_from(s, old(c).pos(), count as nat)
                &&& Cursor::moved(*old(c), *final(c), (7 * rules@.len()) as int)
            },
            Err(_) => false,
        },
{
    let ghost s = c.bytes();
    let ghost q0 = c.pos();
    let mut rules: Vec<ReleaseRule> = Vec::new();
    let mut k: usize = count;
    let _ = c.remaining();
    assert(rules@ + releases_from(s, c.pos(), k as nat) =~= releases_from(s, q0, count as nat));
    while k > 0 && c.remaining() >= 7
        invariant
            c.bytes() == s,
            s == old(c).bytes(),
            q0 == old(c).pos(),
            q0 <= c.pos() <= s.len(),
            c.pos() == q0 + 7 * rules@.len(),
            rules@ + releases_from(s, c.pos(), k as nat) == releases_from(s, q0, count as nat),
        decreases k,
    {
        let ghost q = c.pos();
        let rule = ReleaseRule {
            from: c.read_u16()?,
            to: c.read_u16()?,
            min_clear_ms: c.read_u16()?,
            flags: c.read_u8()?,
        };
        assert(rule == release_at(s, q));
        assert(releases_from(s, q, k as nat) == seq![rule] + releases_from(
            s,
            c.pos(),
            (k - 1) as nat,
        ));
        assert(rules@.push(rule) + releases_from(s, c.pos(), (k - 1) as nat) =~= rules@ + (seq![
            rule,
        ] + releases_from(s, c.pos(), (k - 1) as nat)));
        rules.push(rule);
        k = k - 1;
    }
    assert(releases_from(s, c.pos(), k as nat) =~= Seq::<ReleaseRule>::empty());
    assert(rules@ =~= rules@ + releases_from(s, c.pos(), k as nat));
    Ok(rules)
}

fn push16(bytes: &mut Vec<u8>, x: u16)
    ensures
        final(bytes)@ == old(bytes)@ + bytes16(x),
{
    bytes.push((x % 256) as u8);
    bytes.push((x / 256) as u8);
    assert(final(bytes)@ =~= old(bytes)@ + bytes16(x));
}

fn score_plan(
    route_id: u16,
    revision: u16,
    authority: u8,
    nodes: &[TrackNode],
    releases: &[ReleaseRule],
    dict: &Dictionary,
    catalog: &Catalog,
) -> (score: u32)
    ensures
        score == plan_score(route_id, revision, authority, nodes@, releases@, dict@, catalog@),
{
    let mut bytes: Vec<u8> = Vec::new();
    push16(&mut bytes, route_id);
    push16(&mut bytes, revision);
    bytes.push(authority);
    let ghost head = bytes@;
    assert(head =~= bytes16(route_id) + bytes16(revision) + seq![authority]);
    let mut i: usize = 0;
    assert(nodes@.take(0) =~= Seq::<TrackNode>::empty());
    assert(head + nodes_score_bytes(nodes@.take(0)) =~= head);
    while i < nodes.len()
        invariant
            i <= nodes@.len(),
            bytes@ == head + nodes_score_bytes(nodes@.take(i as int)),
        decreases nodes.len() - i,
    {
        let node = nodes[i];
        push16(&mut bytes, node.circuit_id);
        push16(&mut bytes, node.signal_id);
        push16(&mut bytes, node.switch_id);
        bytes.push(node.aspect);
        bytes.push(node.lock);
        assert(nodes@.take(i + 1).drop_last() =~= nodes@.take(i as int));
        assert(bytes@ =~= head + nodes_score_bytes(nodes@.take(i + 1)));
        i = i + 1;
    }
    assert(nodes@.take(nodes@.len() as int) =~= nodes@);
    let ghost mid = bytes@;
    let mut i: usize = 0;
    assert(releases@.take(0) =~= Seq::<ReleaseRule>::empty());
    assert(mid + releases_score_bytes(releases@.take(0)) =~= mid);
    while i < releases.len()
        invariant
            i <= releases@.len(),
            bytes@ == mid + releases_score_bytes(releases@.take(i as int)),
        decreases releases.len() - i,
    {
        let rule = releases[i];
        push16(&mut bytes, rule.from);
        push16(&mut bytes, rule.to);
        push16(&mut bytes, rule.min_clear_ms);
        bytes.push(rule.flags);
        assert(releases@.take(i + 1).drop_last() =~= releases@.take(i as int));
        assert(bytes@ =~= mid + releases_score_bytes(releases@.take(i + 1)));
        i = i + 1;
    }
    assert(releases@.take(releases@.len() as int) =~= releases@);
    assert(bytes@ =~= plan_score_bytes(route_id, revision, authority, nodes@, releases@));
    let mut score = rolling32(dict.route_bias(route_id), bytes.as_slice());
    proof {
        lemma_low_bits(authority);
    }
    match catalog.find_route(route_id) {
        Some(profile) => {
            score = score ^ rotate32(profile.risk_seed, (authority & 31) as u32);
        },
        None => {},
    }
    if dict.lookup_class(route_id, DictionaryClass::Route).is_some() {
        score = rotate32(score, 3) ^ 0x5254_4544;
    }
    score
}

/// Some node of the plan carries the signal.
pub open spec fn has_signal(plan: RoutePlanModel, signal_id: u16) -> bool {
    exists|i: int| 0 <= i < plan.nodes.len() && (#[trigger] plan.nodes[i]).signal_id == signal_id
}

pub fn route_contains_signal(plan: &RoutePlan, signal_id: u16) -> (r: bool)
    ensures
        r == has_signal(plan@, signal_id),
{
    let mut i: usize = 0;
    while i < plan.nodes.len()
        invariant
            i <= plan.nodes@.len(),
            forall|j: int| 0 <= j < i ==> (#[trigger] plan.nodes@[j]).signal_id != signal_id,
        decreases plan.nodes.len() - i,
    {
        if plan.nodes[i].signal_id == signal_id {
            assert(plan@.nodes[i as int].signal_id == signal_id);
            return true;
        }
        i = i + 1;
    }
    false
}

/// The release pressure after the first `n` release rules.
pub open spec fn pressure_prefix(plan: RoutePlanModel, n: nat) -> u32
    decreases n,
{
    if n == 0 {
        plan.score ^ (plan.revision as u32)
    } else {
        let i = (n - 1) as int;
        let rule = plan.releases[i];
        (rotl32(pressure_prefix(plan, (n - 1) as nat), low4(rule.flags) as u32) ^ ((rule.from as u32)
            << ((i % 13) as u32))).wrapping_add(rule.min_clear_ms as u32)
    }
}

/// How hard a plan's release rules press on the route.
pub open spec fn pressure_of(plan: RoutePlanModel) -> u32 {
    pressure_prefix(plan, plan.releases.len())
}

pub fn release_pressure(plan: &RoutePlan) -> (v: u32)
    ensures
        v == pressure_of(plan@),
{
    let mut value = plan.score ^ plan.revision as u32;
    let mut i: usize = 0;
    while i < plan.releases.len()
        invariant
            i <= plan.releases@.len(),
            value == pressure_prefix(plan@, i as nat),
        decreases plan.releases.len() - i,
    {
        let rule = plan.releases[i];
        proof {
            lemma_low_bits(rule.flags);
        }
        value = rotate32(value, (rule.flags & 15) as u32);
        value = value ^ ((rule.from as u32) << ((i % 13) as u32));
        value = value.wrapping_add(rule.min_clear_ms as u32);
        i = i + 1;
    }
    value
}

} // verus!
