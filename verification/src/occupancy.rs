use vstd::prelude::*;

use crate::catalog::{route_in, signal_bias_in, Catalog, CatalogModel};
use crate::cursor::{le16, le32, truncated, Cursor};
use crate::dictionary::{
    find_key, phrase_has, Dictionary, DictionaryClass, DictionaryEntryModel,
};
use crate::error::{JunctionError, Result, Subject};
use crate::route::bytes16;
use crate::unsafe_lanes::{lane_of, mix_lane};
use crate::model::{OccupancyBatch, OccupancyBatchModel, OccupancyEvent, OccupancyState};

verus! {

/// The bytes of the word "reverse".
pub open spec fn reverse_word() -> Seq<u8> {
    seq![0x72u8, 0x65, 0x76, 0x65, 0x72, 0x73, 0x65]
}

pub open spec fn state_of(token: u8) -> OccupancyState {
    if token & 3 == 0 {
        OccupancyState::Clear
    } else if token & 3 == 1 {
        OccupancyState::Occupied
    } else if token & 3 == 2 {
        OccupancyState::Shunted
    } else {
        OccupancyState::Unknown(token & 3)
    }
}

/// The circuit an event names: a dictionary reference (top bit of the token) is
/// resolved through the first two value bytes of the circuit entry, if it has them.
pub open spec fn circuit_of(token: u8, raw: u16, dict: Seq<DictionaryEntryModel>) -> u16 {
    if token & 0x80 != 0 {
        resolved_circuit(raw, dict)
    } else {
        raw
    }
}

/// The circuit a dictionary reference resolves to.
pub open spec fn resolved_circuit(raw: u16, dict: Seq<DictionaryEntryModel>) -> u16 {
    match find_key(dict, raw, DictionaryClass::Circuit) {
        Some(e) => if e.value.len() >= 2 {
            le16(e.value, 0)
        } else {
            raw
        },
        None => raw,
    }
}

/// The event whose 6 bytes start at `p`.
pub open spec fn event_at(s: Seq<u8>, p: int, dict: Seq<DictionaryEntryModel>) -> OccupancyEvent {
    OccupancyEvent {
        circuit_id: circuit_of(s[p], le16(s, p + 1), dict),
        delta_ms: le16(s, p + 3) as i16,
        state: state_of(s[p]),
        confidence: s[p + 5],
    }
}

/// What an event adds to the replay window.
pub open spec fn event_window_bytes(token: u8, e: OccupancyEvent) -> Seq<u8> {
    seq![token] + bytes16(e.circuit_id) + bytes16(e.delta_ms as u16) + seq![e.confidence]
}

/// The last 96 bytes of `r`.
pub open spec fn last96(r: Seq<u8>) -> Seq<u8> {
    if r.len() > 96 {
        r.subrange(r.len() - 96, r.len() as int)
    } else {
        r
    }
}

/// The seed a route contributes to replay measurements.
pub open spec fn route_seed_of(catalog: CatalogModel, route_id: u16) -> u32 {
    match route_in(catalog.routes, route_id) {
        Some(profile) => profile.risk_seed,
        None => route_id as u32,
    }
}

/// The selector of a replay measurement.
pub open spec fn selector_of(
    token: u8,
    ordinal: usize,
    phrase_bias: usize,
    route_seed: u32,
    signal_bias: u32,
) -> usize {
    (((token as usize) << 2usize) ^ ((ordinal * phrase_bias) as usize) ^ ((route_seed as usize)
        & 0x3fusize) ^ ((signal_bias as usize) & 0x1fusize)) as usize
}

/// A replay measurement of the event with ordinal `ordinal`, over the replay window.
pub open spec fn measurement_of(
    route_id: u16,
    ordinal: usize,
    token: u8,
    confidence: u8,
    window: Seq<u8>,
    dict: Seq<DictionaryEntryModel>,
    catalog: CatalogModel,
) -> u32 {
    let route_seed = route_seed_of(catalog, route_id);
    let signal_bias = signal_bias_in(catalog.signals, route_id ^ (confidence as u16));
    let phrase_bias: usize = if phrase_has(dict, reverse_word()) { 29 } else { 7 };
    let selector = selector_of(token, ordinal, phrase_bias, route_seed, signal_bias);
    if window.len() >= 16 && confidence & 0xf0 != 0 {
        lane_of(window, selector, route_seed ^ signal_bias)
    } else {
        route_seed ^ signal_bias ^ (selector as u32)
    }
}

/// The events (and the replay measurements they ask for) from `p`, where `ordinal`
/// events were read before, at most `left` are still to read, and `window` is the
/// replay window so far. A cut-short event ends the batch.
pub open spec fn events_from(
    s: Seq<u8>,
    p: int,
    ordinal: nat,
    left: nat,
    window: Seq<u8>,
    dict: Seq<DictionaryEntryModel>,
    catalog: CatalogModel,
) -> (Seq<OccupancyEvent>, Seq<u32>)
    decreases left,
{
    if left == 0 || p < 0 || s.len() - p < 6 {
        (seq![], seq![])
    } else {
        let token = s[p];
        let e = event_at(s, p, dict);
        let next_window = last96(window + event_window_bytes(token, e));
        let rest = events_from(s, p + 6, ordinal + 1, (left - 1) as nat, next_window, dict, catalog);
        let ms = if token & 0x40 != 0 {
            seq![
                measurement_of(
                    le16(s, 0),
                    ordinal as usize,
                    token,
                    e.confidence,
                    next_window,
                    dict,
                    catalog,
                ),
            ] + rest.1
        } else {
            rest.1
        };
        (seq![e] + rest.0, ms)
    }
}

pub proof fn lemma_events_from_bounds(
    s: Seq<u8>,
    p: int,
    ordinal: nat,
    left: nat,
    window: Seq<u8>,
    dict: Seq<DictionaryEntryModel>,
    catalog: CatalogModel,
)
    ensures
        events_from(s, p, ordinal, left, window, dict, catalog).0.len() <= left,
        events_from(s, p, ordinal, left, window, dict, catalog).1.len() <= events_from(
            s,
            p,
            ordinal,
            left,
            window,
            dict,
            catalog,
        ).0.len(),
    decreases left,
{
    if !(left == 0 || p < 0 || s.len() - p < 6) {
        let token = s[p];
        let e = event_at(s, p, dict);
        let next_window = last96(window + event_window_bytes(token, e));
        lemma_events_from_bounds(s, p + 6, ordinal + 1, (left - 1) as nat, next_window, dict, catalog);
    }
}

/// A batch holds at most 192 events, and at most one replay measurement per event.
pub proof fn lemma_batch_bounds(s: Seq<u8>, dict: Seq<DictionaryEntryModel>, catalog: CatalogModel)
    ensures
        batch_of(s, dict, catalog) matches Ok(b) ==> b.events.len() <= 192
            && b.measurements.len() <= b.events.len(),
{
    if s.len() >= 7 && s[6] <= 192 {
        lemma_events_from_bounds(s, 7, 0, s[6] as nat, seq![], dict, catalog);
    }
}

/// The events from `p` are read six bytes each, one after another, until `left` are
/// read or fewer than six bytes are left. An event's state is the low two bits of its
/// token byte (0 clear, 1 occupied, 2 shunted, 3 unknown), its confidence is its last
/// byte and its delta the little-endian signed pair before it; a circuit without the
/// dictionary flag in the token is the little-endian pair after the token.
pub proof fn lemma_events_from_layout(
    s: Seq<u8>,
    p: int,
    ordinal: nat,
    left: nat,
    window: Seq<u8>,
    dict: Seq<DictionaryEntryModel>,
    catalog: CatalogModel,
)
    requires
        p >= 0,
    ensures
        ({
            let evs = events_from(s, p, ordinal, left, window, dict, catalog).0;
            &&& evs.len() <= left
            &&& evs.len() < left ==> s.len() < p + 6 * evs.len() + 6
            &&& forall|i: int|
                #![trigger evs[i]]
                0 <= i < evs.len() ==> {
                    let q = p + 6 * i;
                    let t = s[q];
                    &&& q + 6 <= s.len()
                    &&& t % 4 == 0 ==> evs[i].state == OccupancyState::Clear
                    &&& t % 4 == 1 ==> evs[i].state == OccupancyState::Occupied
                    &&& t % 4 == 2 ==> evs[i].state == OccupancyState::Shunted
                    &&& t % 4 == 3 ==> evs[i].state == OccupancyState::Unknown(3)
                    &&& evs[i].confidence == s[q + 5]
                    &&& evs[i].delta_ms as u16 == s[q + 3] as int + 256 * s[q + 4] as int
                    &&& t < 128 ==> evs[i].circuit_id == s[q + 1] as int + 256 * s[q + 2] as int
                }
        }),
    decreases left,
{
    if !(left == 0 || p < 0 || s.len() - p < 6) {
        let token = s[p];
        let e = event_at(s, p, dict);
        let next_window = last96(window + event_window_bytes(token, e));
        lemma_events_from_layout(s, p + 6, ordinal + 1, (left - 1) as nat, next_window, dict, catalog);
        let rest = events_from(s, p + 6, ordinal + 1, (left - 1) as nat, next_window, dict, catalog).0;
        let evs = events_from(s, p, ordinal, left, window, dict, catalog).0;
        assert(evs == seq![e] + rest);
        assert(token & 3 == token % 4) by (bit_vector);
        assert(token < 128 ==> token & 0x80 == 0) by (bit_vector);
        let d = le16(s, p + 3);
        assert((d as i16) as u16 == d) by (bit_vector);
        assert forall|i: int|
            #![trigger evs[i]]
            0 <= i < evs.len() implies {
                let q = p + 6 * i;
                let t = s[q];
                &&& q + 6 <= s.len()
                &&& t % 4 == 0 ==> evs[i].state == OccupancyState::Clear
                &&& t % 4 == 1 ==> evs[i].state == OccupancyState::Occupied
                &&& t % 4 == 2 ==> evs[i].state == OccupancyState::Shunted
                &&& t % 4 == 3 ==> evs[i].state == OccupancyState::Unknown(3)
                &&& evs[i].confidence == s[q + 5]
                &&& evs[i].delta_ms as u16 == s[q + 3] as int + 256 * s[q + 4] as int
                &&& t < 128 ==> evs[i].circuit_id == s[q + 1] as int + 256 * s[q + 2] as int
            } by {
            if i > 0 {
                assert(evs[i] == rest[i - 1]);
                assert(p + 6 + 6 * (i - 1) == p + 6 * i);
            } else {
                assert(evs[0] == e);
            }
        }
    }
}

/// An occupancy batch is a 7-byte header (route, base time, event count) and events
/// of six bytes each, read as `lemma_events_from_layout` says: there are as many as
/// the header counts, or fewer where the bytes run out.
pub proof fn lemma_batch_layout(s: Seq<u8>, dict: Seq<DictionaryEntryModel>, catalog: CatalogModel)
    ensures
        batch_of(s, dict, catalog) matches Ok(b) ==> {
            &&& b.route_id == s[0] as int + 256 * s[1] as int
            &&& b.events.len() <= s[6]
            &&& b.events.len() < s[6] ==> s.len() < 7 + 6 * b.events.len() + 6
            &&& forall|i: int|
                #![trigger b.events[i]]
                0 <= i < b.events.len() ==> {
                    let t = s[7 + 6 * i];
                    &&& t % 4 == 0 ==> b.events[i].state == OccupancyState::Clear
                    &&& t % 4 == 1 ==> b.events[i].state == OccupancyState::Occupied
                    &&& t % 4 == 2 ==> b.events[i].state == OccupancyState::Shunted
                    &&& t % 4 == 3 ==> b.events[i].state == OccupancyState::Unknown(3)
                    &&& b.events[i].confidence == s[7 + 6 * i + 5]
                }
        },
{
    if s.len() >= 7 && s[6] <= 192 {
        lemma_events_from_layout(s, 7, 0, s[6] as nat, seq![], dict, catalog);
    }
}

/// The occupancy batch of a section.
pub open spec fn batch_of(
    s: Seq<u8>,
    dict: Seq<DictionaryEntryModel>,
    catalog: CatalogModel,
) -> Result<OccupancyBatchModel> {
    if s.len() < 7 {
        Err(truncated(7, s.len() as int))
    } else if s[6] > 192 {
        Err(JunctionError::LimitExceeded(Subject::OccupancyEvents))
    } else {
        let evs = events_from(s, 7, 0, s[6] as nat, seq![], dict, catalog);
        Ok(
            OccupancyBatchModel {
                route_id: le16(s, 0),
                base_time: le32(s, 2),
                events: evs.0,
                measurements: evs.1,
            },
        )
    }
}

pub fn parse_occupancy_batch(data: &[u8], dict: &Dictionary, catalog: &Catalog) -> (r: Result<
    OccupancyBatch,
>)
    ensures
        match r {
            Ok(b) => batch_of(data@, dict@, catalog@) == Ok::<OccupancyBatchModel, JunctionError>(
                b@,
            ) && b.events@.len() <= 192,
            Err(e) => batch_of(data@, dict@, catalog@) == Err::<OccupancyBatchModel, JunctionError>(
                e,
            ),
        },
{
    let mut c = Cursor::new(data);
    if c.remaining() < 7 {
        return Err(JunctionError::Truncated { needed: 7, remaining: c.remaining() });
    }
    let ghost s = data@;
    let route_id = c.read_u16()?;
    let base_time = c.read_u32()?;
    let event_count = c.read_u8()? as usize;
    if event_count > 192 {
        return Err(JunctionError::LimitExceeded(Subject::OccupancyEvents));
    }
    let mut events: Vec<OccupancyEvent> = Vec::new();
    let mut rolling: Vec<u8> = Vec::new();
    let mut measurements: Vec<u32> = Vec::new();
    let mut ordinal: usize = 0;
    let ghost all = events_from(s, 7, 0, event_count as nat, seq![], dict@, catalog@);
    assert(events@ + events_from(s, 7, 0, event_count as nat, rolling@, dict@, catalog@).0
        =~= all.0);
    assert(measurements@ + events_from(s, 7, 0, event_count as nat, rolling@, dict@, catalog@).1
        =~= all.1);
    while ordinal < event_count && c.remaining() >= 6
        invariant
            c.bytes() == s,
            s == data@,
            s.len() >= 7,
            route_id == le16(s, 0),
            event_count <= 192,
            ordinal <= event_count,
            c.pos() == 7 + 6 * ordinal,
            events@.len() == ordinal,
            0 <= c.pos() <= s.len(),
            rolling@.len() <= 96,
            all == events_from(s, 7, 0, event_count as nat, seq![], dict@, catalog@),
            events@ + events_from(
                s,
                c.pos(),
                ordinal as nat,
                (event_count - ordinal) as nat,
                rolling@,
                dict@,
                catalog@,
            ).0 == all.0,
            measurements@ + events_from(
                s,
                c.pos(),
                ordinal as nat,
                (event_count - ordinal) as nat,
                rolling@,
                dict@,
                catalog@,
            ).1 == all.1,
        decreases event_count - ordinal,
    {
        let ghost p = c.pos();
        let ghost left = (event_count - ordinal) as nat;
        let ghost old_window = rolling@;
        let token = c.read_u8()?;
        let raw = c.read_u16()?;
        let circuit_id = if token & 0x80 != 0 {
            resolve_circuit(raw, dict)
        } else {
            raw
        };
        let delta_ms = c.read_i16()?;
        let confidence = c.read_u8()?;
        let state = if token & 3 == 0 {
            OccupancyState::Clear
        } else if token & 3 == 1 {
            OccupancyState::Occupied
        } else if token & 3 == 2 {
            OccupancyState::Shunted
        } else {
            OccupancyState::Unknown(token & 3)
        };
        let event = OccupancyEvent { circuit_id, delta_ms, state, confidence };
        assert(event == event_at(s, p, dict@));
        rolling.push(token);
        rolling.push((circuit_id % 256) as u8);
        rolling.push((circuit_id / 256) as u8);
        let delta_bits: u16 = #[verifier::truncate] (delta_ms as u16);
        rolling.push((delta_bits % 256) as u8);
        rolling.push((delta_bits / 256) as u8);
        rolling.push(confidence);
        assert(rolling@ =~= old_window + event_window_bytes(token, event));
        if rolling.len() > 96 {
            let drain = rolling.len() - 96;
            rolling = vstd::slice::slice_to_vec(
                vstd::slice::slice_subrange(rolling.as_slice(), drain, rolling.len()),
            );
        }
        assert(rolling@ =~= last96(old_window + event_window_bytes(token, event)));
        let ghost rest = events_from(
            s,
            c.pos(),
            (ordinal + 1) as nat,
            (left - 1) as nat,
            rolling@,
            dict@,
            catalog@,
        );
        assert(events_from(s, p, ordinal as nat, left, old_window, dict@, catalog@).0 == seq![event]
            + rest.0);
        if token & 0x40 != 0 {
            let measurement = replay_measurement(
                route_id,
                ordinal,
                token,
                confidence,
                rolling.as_slice(),
                dict,
                catalog,
            );
            assert(events_from(s, p, ordinal as nat, left, old_window, dict@, catalog@).1 == seq![
                measurement,
            ] + rest.1);
            assert(measurements@.push(measurement) + rest.1 =~= measurements@ + (seq![measurement]
                + rest.1));
            measurements.push(measurement);
        } else {
            assert(events_from(s, p, ordinal as nat, left, old_window, dict@, catalog@).1
                == rest.1);
        }
        assert(events@.push(event) + rest.0 =~= events@ + (seq![event] + rest.0));
        events.push(event);
        ordinal = ordinal + 1;
    }
    assert(events_from(
        s,
        c.pos(),
        ordinal as nat,
        (event_count - ordinal) as nat,
        rolling@,
        dict@,
        catalog@,
    ).0 =~= Seq::<OccupancyEvent>::empty());
    assert(events@ =~= all.0);
    assert(measurements@ =~= all.1);
    Ok(OccupancyBatch { route_id, base_time, events, measurements })
}

fn resolve_circuit(raw: u16, dict: &Dictionary) -> (id: u16)
    ensures
        id == resolved_circuit(raw, dict@),
{
    match dict.lookup_class(raw, DictionaryClass::Circuit) {
        Some(entry) => {
            if entry.value.len() >= 2 {
                entry.value[0] as u16 + (entry.value[1] as u16) * 256
            } else {
                raw
            }
        },
        None => raw,
    }
}

fn replay_measurement(
    route_id: u16,
    ordinal: usize,
    token: u8,
    confidence: u8,
    rolling: &[u8],
    dict: &Dictionary,
    catalog: &Catalog,
) -> (m: u32)
    requires
        ordinal < 192,
    ensures
        m == measurement_of(route_id, ordinal, token, confidence, rolling@, dict@, catalog@),
{
    let route_seed = match catalog.find_route(route_id) {
        Some(profile) => profile.risk_seed,
        None => route_id as u32,
    };
    let signal_bias = catalog.signal_bias(route_id ^ confidence as u16);
    let needle: [u8; 7] = [0x72, 0x65, 0x76, 0x65, 0x72, 0x73, 0x65];
    assert(needle@ =~= reverse_word());
    let phrase_bias: usize = if dict.phrase_contains(&needle) {
        29
    } else {
        7
    };
    let selector = ((token as usize) << 2) ^ (ordinal * phrase_bias) ^ ((route_seed as usize)
        & 0x3f) ^ ((signal_bias as usize) & 0x1f);
    if rolling.len() >= 16 && confidence & 0xf0 != 0 {
        mix_lane(rolling, selector, route_seed ^ signal_bias)
    } else {
        route_seed ^ signal_bias ^ selector as u32
    }
}

} // verus!
