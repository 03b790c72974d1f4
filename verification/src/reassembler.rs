use vstd::prelude::*;

use crate::catalog::{route_in, Catalog, CatalogModel};
use crate::checksum::{lemma_low_bits, ones32, ones_in, rolling32, rolling_of, rotate32, rotl32};
use crate::dictionary::{bias_over, Dictionary, DictionaryEntryModel};
use crate::frame::{entropy_of, frame_entropy, FLAG_CONTROLLED_RELEASE, FLAG_DEFER_AUDIT};
use crate::model::{views, Frame, FrameModel, MessageModel, ReassembledMessage, RoutePlan, RoutePlanModel};
use crate::route::{pressure_of, release_pressure};

verus! {

/// A message being collected from its fragments.
pub ghost struct SlotModel {
    pub msg_type: u8,
    pub route_id: u16,
    pub seq_base: u16,
    pub total: u8,
    pub parts: Seq<Option<Seq<u8>>>,
    pub channel_mask: u16,
    pub entropy: u32,
}

/// The payload kept back for auditing handoffs, with its salt and route.
pub ghost struct DeferredModel {
    pub payload: Seq<u8>,
    pub salt: u8,
    pub route_id: u16,
}

pub ghost struct ReassemblerModel {
    pub slots: Seq<SlotModel>,
    pub deferred: DeferredModel,
}

/// A reassembler that holds nothing.
pub open spec fn empty_reassembler() -> ReassemblerModel {
    ReassemblerModel {
        slots: seq![],
        deferred: DeferredModel { payload: seq![], salt: 0, route_id: 0 },
    }
}

/// The number of fragments a frame says its message has, between 1 and 32.
pub open spec fn clamp_total(t: u8) -> u8 {
    if t < 1 {
        1
    } else if t > 32 {
        32
    } else {
        t
    }
}

/// The sequence number of a frame's first fragment.
pub open spec fn key_seq(seq: u16, frag_index: u8) -> u16 {
    if seq >= frag_index as u16 {
        (seq - frag_index) as u16
    } else {
        0
    }
}

pub open spec fn slot_keyed(s: SlotModel, msg_type: u8, route_id: u16, seq_base: u16) -> bool {
    s.msg_type == msg_type && s.route_id == route_id && s.seq_base == seq_base
}

/// `i` is the first slot collecting the message with the key.
pub open spec fn is_first_slot(
    slots: Seq<SlotModel>,
    msg_type: u8,
    route_id: u16,
    seq_base: u16,
    i: int,
) -> bool {
    &&& 0 <= i < slots.len()
    &&& slot_keyed(slots[i], msg_type, route_id, seq_base)
    &&& forall|j: int| 0 <= j < i ==> !slot_keyed(#[trigger] slots[j], msg_type, route_id, seq_base)
}

pub open spec fn new_slot(msg_type: u8, route_id: u16, seq_base: u16, total: u8) -> SlotModel {
    SlotModel {
        msg_type,
        route_id,
        seq_base,
        total,
        parts: Seq::new(total as nat, |i: int| None),
        channel_mask: 0,
        entropy: 0,
    }
}

/// The slots with one for the key, and its position: the first with the key, or a new
/// slot at the end (the oldest slot is dropped when 65 are held).
pub open spec fn slots_with_key(
    slots: Seq<SlotModel>,
    msg_type: u8,
    route_id: u16,
    seq_base: u16,
    total: u8,
) -> (Seq<SlotModel>, int) {
    if exists|i: int| is_first_slot(slots, msg_type, route_id, seq_base, i) {
        (slots, choose|i: int| is_first_slot(slots, msg_type, route_id, seq_base, i))
    } else {
        let base = if slots.len() > 64 { slots.remove(0) } else { slots };
        (base.push(new_slot(msg_type, route_id, seq_base, total)), base.len() as int)
    }
}

/// The parts with the fragment `payload` at position `idx`.
pub open spec fn place_part(parts: Seq<Option<Seq<u8>>>, idx: int, payload: Seq<u8>) -> Seq<
    Option<Seq<u8>>,
> {
    let grown = if idx >= parts.len() {
        parts + Seq::new((idx + 1 - parts.len()) as nat, |i: int| None)
    } else {
        parts
    };
    grown.update(idx, Some(payload))
}

/// The reassembler after it takes in a frame.
pub open spec fn absorb_model(r: ReassemblerModel, f: FrameModel) -> ReassemblerModel {
    let total = clamp_total(f.frag_total);
    let idx = (f.frag_index % total) as int;
    let found = slots_with_key(r.slots, f.msg_type, f.route_id, key_seq(f.seq, f.frag_index), total);
    let slots = found.0;
    let pos = found.1;
    let slot = slots[pos];
    let updated = SlotModel {
        msg_type: slot.msg_type,
        route_id: slot.route_id,
        seq_base: slot.seq_base,
        total: slot.total,
        parts: place_part(slot.parts, idx, f.payload),
        channel_mask: slot.channel_mask | (1u16 << ((f.channel & 15) as u16)),
        entropy: slot.entropy ^ rotl32(entropy_of(f), (f.frag_index & 31) as u32),
    };
    ReassemblerModel { slots: slots.update(pos, updated), deferred: r.deferred }
}

/// The number of fragments held.
pub open spec fn filled(parts: Seq<Option<Seq<u8>>>) -> nat
    decreases parts.len(),
{
    if parts.len() == 0 {
        0
    } else {
        filled(parts.drop_last()) + if parts.last() is Some { 1nat } else { 0nat }
    }
}

/// The fragments held, joined in order.
pub open spec fn joined(parts: Seq<Option<Seq<u8>>>) -> Seq<u8>
    decreases parts.len(),
{
    if parts.len() == 0 {
        seq![]
    } else {
        joined(parts.drop_last()) + match parts.last() {
            Some(p) => p,
            None => seq![],
        }
    }
}

/// The slot holds a complete message of the type and route, recent enough for `seq`.
pub open spec fn slot_complete(s: SlotModel, msg_type: u8, route_id: u16, seq: u16) -> bool {
    &&& s.msg_type == msg_type
    &&& s.route_id == route_id
    &&& s.seq_base >= (if seq >= 31 { (seq - 31) as u16 } else { 0u16 })
    &&& filled(s.parts) >= s.total
}

pub open spec fn is_first_complete(
    slots: Seq<SlotModel>,
    msg_type: u8,
    route_id: u16,
    seq: u16,
    i: int,
) -> bool {
    &&& 0 <= i < slots.len()
    &&& slot_complete(slots[i], msg_type, route_id, seq)
    &&& forall|j: int| 0 <= j < i ==> !slot_complete(#[trigger] slots[j], msg_type, route_id, seq)
}

pub open spec fn message_of(s: SlotModel) -> MessageModel {
    MessageModel {
        msg_type: s.msg_type,
        route_id: s.route_id,
        seq_base: s.seq_base,
        channel_mask: s.channel_mask,
        payload: joined(s.parts),
        audit_byte: None,
    }
}

/// The reassembler after the first complete slot of the type and route is taken out,
/// and the message it held.
pub open spec fn take_model(r: ReassemblerModel, msg_type: u8, route_id: u16, seq: u16) -> (
    ReassemblerModel,
    Option<MessageModel>,
) {
    if exists|i: int| is_first_complete(r.slots, msg_type, route_id, seq, i) {
        let i = choose|i: int| is_first_complete(r.slots, msg_type, route_id, seq, i);
        (
            ReassemblerModel { slots: r.slots.remove(i), deferred: r.deferred },
            Some(message_of(r.slots[i])),
        )
    } else {
        (r, None)
    }
}

/// The first plan of the route.
pub open spec fn plan_in(routes: Seq<RoutePlanModel>, route_id: u16) -> Option<RoutePlanModel>
    decreases routes.len(),
{
    if routes.len() == 0 {
        None
    } else if routes[0].route_id == route_id {
        Some(routes[0])
    } else {
        plan_in(routes.drop_first(), route_id)
    }
}

/// The audit byte of a message: where a payload is kept back for its route and the
/// message looks like a controlled handoff, a byte of the kept payload.
pub open spec fn audit_of(
    d: DeferredModel,
    m: MessageModel,
    routes: Seq<RoutePlanModel>,
    dict: Seq<DictionaryEntryModel>,
    catalog: CatalogModel,
) -> Option<u8> {
    if !(d.payload.len() > 0 && d.route_id == m.route_id) || m.payload.len() < 8 {
        None
    } else {
        let route_pressure = match plan_in(routes, m.route_id) {
            Some(p) => pressure_of(p),
            None => bias_over(dict, m.route_id),
        };
        let catalog_bias = match route_in(catalog.routes, m.route_id) {
            Some(p) => p.risk_seed ^ (p.control_zone as u32),
            None => route_pressure,
        };
        let controlled = m.payload[0] & FLAG_CONTROLLED_RELEASE != 0 || m.msg_type & 0x70 == 0x40;
        if controlled && ones_in(m.channel_mask as nat, 32) >= 1 && ones_in(
            rolling_of(catalog_bias, m.payload) as nat,
            32,
        ) > 11 {
            let pivot = (route_pressure ^ catalog_bias ^ (m.seq_base as u32)) as usize;
            Some(d.payload[(pivot as int) % (d.payload.len() as int)] ^ d.salt)
        } else {
            None
        }
    }
}

/// What a frame does: it may leave its payload for audits, it joins its slot, and it
/// may complete a message, which is audited.
pub open spec fn frame_step(
    r: ReassemblerModel,
    f: FrameModel,
    routes: Seq<RoutePlanModel>,
    dict: Seq<DictionaryEntryModel>,
    catalog: CatalogModel,
) -> (ReassemblerModel, Option<MessageModel>) {
    let r1 = if f.flags & FLAG_DEFER_AUDIT != 0 && f.payload.len() >= 24 {
        ReassemblerModel {
            slots: r.slots,
            deferred: DeferredModel {
                payload: f.payload,
                salt: ((entropy_of(f) as u8) as u8).wrapping_add(f.frag_index),
                route_id: f.route_id,
            },
        }
    } else {
        r
    };
    let taken = take_model(absorb_model(r1, f), f.msg_type, f.route_id, f.seq);
    match taken.1 {
        Some(m) => (
            taken.0,
            Some(
                MessageModel {
                    msg_type: m.msg_type,
                    route_id: m.route_id,
                    seq_base: m.seq_base,
                    channel_mask: m.channel_mask,
                    payload: m.payload,
                    audit_byte: audit_of(taken.0.deferred, m, routes, dict, catalog),
                },
            ),
        ),
        None => (taken.0, None),
    }
}

/// The reassembler after the frames, in order, and the messages they completed.
pub open spec fn run_frames(
    r: ReassemblerModel,
    frames: Seq<FrameModel>,
    routes: Seq<RoutePlanModel>,
    dict: Seq<DictionaryEntryModel>,
    catalog: CatalogModel,
) -> (ReassemblerModel, Seq<MessageModel>)
    decreases frames.len(),
{
    if frames.len() == 0 {
        (r, seq![])
    } else {
        let prev = run_frames(r, frames.drop_last(), routes, dict, catalog);
        let step = frame_step(prev.0, frames.last(), routes, dict, catalog);
        (
            step.0,
            match step.1 {
                Some(m) => prev.1.push(m),
                None => prev.1,
            },
        )
    }
}

/// A frame never lets the reassembler hold more than 65 slots.
pub proof fn lemma_frame_step_bounded(
    r: ReassemblerModel,
    f: FrameModel,
    routes: Seq<RoutePlanModel>,
    dict: Seq<DictionaryEntryModel>,
    catalog: CatalogModel,
)
    requires
        r.slots.len() <= 65,
    ensures
        frame_step(r, f, routes, dict, catalog).0.slots.len() <= 65,
{
}

/// Frames fed from an empty reassembler complete at most one message each, and the
/// reassembler never holds more than 65 slots.
pub proof fn lemma_run_frames_bounded(
    frames: Seq<FrameModel>,
    routes: Seq<RoutePlanModel>,
    dict: Seq<DictionaryEntryModel>,
    catalog: CatalogModel,
)
    ensures
        run_frames(empty_reassembler(), frames, routes, dict, catalog).1.len() <= frames.len(),
        run_frames(empty_reassembler(), frames, routes, dict, catalog).0.slots.len() <= 65,
    decreases frames.len(),
{
    if frames.len() > 0 {
        lemma_run_frames_bounded(frames.drop_last(), routes, dict, catalog);
        let prev = run_frames(empty_reassembler(), frames.drop_last(), routes, dict, catalog);
        lemma_frame_step_bounded(prev.0, frames.last(), routes, dict, catalog);
    }
}

/// A message gets an audit byte only where a payload of at least 24 bytes was kept
/// back for its route and the message has at least 8 payload bytes.
pub proof fn lemma_audit_needs_kept_payload(
    d: DeferredModel,
    m: MessageModel,
    routes: Seq<RoutePlanModel>,
    dict: Seq<DictionaryEntryModel>,
    catalog: CatalogModel,
)
    ensures
        audit_of(d, m, routes, dict, catalog) is Some ==> d.payload.len() > 0 && d.route_id
            == m.route_id && m.payload.len() >= 8,
{
}

/// Some frame of the type and route carries `p` as its payload.
pub open spec fn carried_by(p: Seq<u8>, msg_type: u8, route_id: u16, frames: Seq<FrameModel>) -> bool {
    exists|i: int|
        0 <= i < frames.len() && (#[trigger] frames[i]).msg_type == msg_type && frames[i].route_id
            == route_id && frames[i].payload == p
}

/// Every fragment held is carried by a frame of the type and route.
pub open spec fn parts_carried(
    parts: Seq<Option<Seq<u8>>>,
    msg_type: u8,
    route_id: u16,
    frames: Seq<FrameModel>,
) -> bool {
    forall|k: int|
        0 <= k < parts.len() && (#[trigger] parts[k]) is Some ==> carried_by(
            parts[k]->0,
            msg_type,
            route_id,
            frames,
        )
}

/// Every slot holds only fragments carried by frames of its own type and route.
pub open spec fn slots_carried(slots: Seq<SlotModel>, frames: Seq<FrameModel>) -> bool {
    forall|j: int|
        0 <= j < slots.len() ==> parts_carried(
            (#[trigger] slots[j]).parts,
            slots[j].msg_type,
            slots[j].route_id,
            frames,
        )
}

/// The slot a frame goes to has the frame's type and route, and the sequence number
/// of the frame's first fragment; every other slot was there before or is new and
/// empty.
pub proof fn lemma_slots_with_key(
    slots: Seq<SlotModel>,
    msg_type: u8,
    route_id: u16,
    seq_base: u16,
    total: u8,
)
    ensures
        ({
            let (ns, pos) = slots_with_key(slots, msg_type, route_id, seq_base, total);
            &&& 0 <= pos < ns.len()
            &&& ns[pos].msg_type == msg_type
            &&& ns[pos].route_id == route_id
            &&& ns[pos].seq_base == seq_base
            &&& forall|j: int|
                0 <= j < ns.len() ==> (exists|i: int| 0 <= i < slots.len() && slots[i] == #[trigger] ns[j])
                    || ns[j] == new_slot(msg_type, route_id, seq_base, total)
        }),
{
    let (ns, pos) = slots_with_key(slots, msg_type, route_id, seq_base, total);
    if exists|i: int| is_first_slot(slots, msg_type, route_id, seq_base, i) {
        assert forall|j: int| 0 <= j < ns.len() implies (exists|i: int|
            0 <= i < slots.len() && slots[i] == #[trigger] ns[j]) || ns[j] == new_slot(
            msg_type,
            route_id,
            seq_base,
            total,
        ) by {
            assert(slots[j] == ns[j]);
        }
    } else {
        let base = if slots.len() > 64 { slots.remove(0) } else { slots };
        assert forall|j: int| 0 <= j < ns.len() implies (exists|i: int|
            0 <= i < slots.len() && slots[i] == #[trigger] ns[j]) || ns[j] == new_slot(
            msg_type,
            route_id,
            seq_base,
            total,
        ) by {
            if j < base.len() {
                if slots.len() > 64 {
                    assert(slots[j + 1] == ns[j]);
                } else {
                    assert(slots[j] == ns[j]);
                }
            }
        }
    }
}

/// Taking in a frame touches only the slot with the frame's type, route and first
/// sequence number (`seq - frag_index`, or 0): every other slot is one that was held
/// before, or new and empty, and that slot then holds the frame's payload at the
/// frame's fragment index (taken modulo the clamped fragment total).
pub proof fn lemma_absorb_own_slot(r: ReassemblerModel, f: FrameModel)
    ensures
        ({
            let n = absorb_model(r, f);
            let base = if f.seq >= f.frag_index as u16 { f.seq - f.frag_index } else { 0 };
            let total: int = if f.frag_total < 1 { 1 } else if f.frag_total > 32 { 32 } else { f.frag_total as int };
            &&& exists|j: int|
                0 <= j < n.slots.len() && (#[trigger] n.slots[j]).msg_type == f.msg_type
                    && n.slots[j].route_id == f.route_id && n.slots[j].seq_base == base
                    && n.slots[j].parts.len() > (f.frag_index as int) % total
                    && n.slots[j].parts[(f.frag_index as int) % total] == Some(f.payload)
            &&& forall|j: int|
                0 <= j < n.slots.len() ==> (exists|i: int|
                    0 <= i < r.slots.len() && r.slots[i] == #[trigger] n.slots[j]) || (
                n.slots[j].msg_type == f.msg_type && n.slots[j].route_id == f.route_id
                    && n.slots[j].seq_base == base) || n.slots[j].parts.len() == 0 || forall|k: int|
                    0 <= k < n.slots[j].parts.len() ==> n.slots[j].parts[k] is None
        }),
{
    let total = clamp_total(f.frag_total);
    let idx = (f.frag_index % total) as int;
    let sb = key_seq(f.seq, f.frag_index);
    lemma_slots_with_key(r.slots, f.msg_type, f.route_id, sb, total);
    let (ns, pos) = slots_with_key(r.slots, f.msg_type, f.route_id, sb, total);
    let n = absorb_model(r, f);
    assert(n.slots[pos].parts == place_part(ns[pos].parts, idx, f.payload));
    assert(n.slots[pos].parts[idx] == Some(f.payload));
    assert forall|j: int| 0 <= j < n.slots.len() implies (exists|i: int|
        0 <= i < r.slots.len() && r.slots[i] == #[trigger] n.slots[j]) || (n.slots[j].msg_type
        == f.msg_type && n.slots[j].route_id == f.route_id && n.slots[j].seq_base == sb)
        || n.slots[j].parts.len() == 0 || forall|k: int|
        0 <= k < n.slots[j].parts.len() ==> n.slots[j].parts[k] is None by {
        if j != pos {
            assert(n.slots[j] == ns[j]);
            if !(exists|i: int| 0 <= i < r.slots.len() && r.slots[i] == #[trigger] ns[j]) {
                assert(ns[j] == new_slot(f.msg_type, f.route_id, sb, total));
            }
        }
    }
}

/// Taking in a frame of the list keeps every slot holding only fragments carried by
/// frames of the list with the slot's own type and route.
proof fn lemma_absorb_carried(r: ReassemblerModel, f: FrameModel, frames: Seq<FrameModel>)
    requires
        slots_carried(r.slots, frames),
        carried_by(f.payload, f.msg_type, f.route_id, frames),
    ensures
        slots_carried(absorb_model(r, f).slots, frames),
{
    let total = clamp_total(f.frag_total);
    let idx = (f.frag_index % total) as int;
    let sb = key_seq(f.seq, f.frag_index);
    lemma_slots_with_key(r.slots, f.msg_type, f.route_id, sb, total);
    let (ns, pos) = slots_with_key(r.slots, f.msg_type, f.route_id, sb, total);
    let n = absorb_model(r, f);
    assert forall|j: int| 0 <= j < ns.len() implies parts_carried(
        (#[trigger] ns[j]).parts,
        ns[j].msg_type,
        ns[j].route_id,
        frames,
    ) by {
        if exists|i: int| 0 <= i < r.slots.len() && r.slots[i] == #[trigger] ns[j] {
            let i = choose|i: int| 0 <= i < r.slots.len() && r.slots[i] == #[trigger] ns[j];
            assert(parts_carried(r.slots[i].parts, r.slots[i].msg_type, r.slots[i].route_id, frames));
        } else {
            assert(ns[j] == new_slot(f.msg_type, f.route_id, sb, total));
        }
    }
    assert forall|j: int| 0 <= j < n.slots.len() implies parts_carried(
        (#[trigger] n.slots[j]).parts,
        n.slots[j].msg_type,
        n.slots[j].route_id,
        frames,
    ) by {
        if j != pos {
            assert(n.slots[j] == ns[j]);
        } else {
            let old_parts = ns[pos].parts;
            let grown = if idx >= old_parts.len() {
                old_parts + Seq::new((idx + 1 - old_parts.len()) as nat, |i: int| None::<Seq<u8>>)
            } else {
                old_parts
            };
            assert(parts_carried(old_parts, f.msg_type, f.route_id, frames));
            assert forall|k: int|
                0 <= k < n.slots[j].parts.len() && (#[trigger] n.slots[j].parts[k]) is Some
                    implies carried_by(n.slots[j].parts[k]->0, f.msg_type, f.route_id, frames) by {
                if k != idx {
                    assert(n.slots[j].parts[k] == grown[k]);
                    if k < old_parts.len() {
                        assert(grown[k] == old_parts[k]);
                    }
                }
            }
        }
    }
}

/// Frames of a longer list still carry what they carried.
proof fn lemma_carried_push(slots: Seq<SlotModel>, frames: Seq<FrameModel>, f: FrameModel)
    requires
        slots_carried(slots, frames),
    ensures
        slots_carried(slots, frames.push(f)),
{
    let more = frames.push(f);
    assert forall|j: int| 0 <= j < slots.len() implies parts_carried(
        (#[trigger] slots[j]).parts,
        slots[j].msg_type,
        slots[j].route_id,
        more,
    ) by {
        assert(parts_carried(slots[j].parts, slots[j].msg_type, slots[j].route_id, frames));
        assert forall|k: int|
            0 <= k < slots[j].parts.len() && (#[trigger] slots[j].parts[k]) is Some implies carried_by(
            slots[j].parts[k]->0,
            slots[j].msg_type,
            slots[j].route_id,
            more,
        ) by {
            let i = choose|i: int|
                0 <= i < frames.len() && (#[trigger] frames[i]).msg_type == slots[j].msg_type
                    && frames[i].route_id == slots[j].route_id && frames[i].payload
                    == slots[j].parts[k]->0;
            assert(more[i] == frames[i]);
        }
    }
}

/// Every message completed from an empty reassembler has a type and route of some
/// frame, and its payload is fragments, joined in index order, each carried by a
/// frame of the message's own type and route: frames of another route or type never
/// go into it.
pub proof fn lemma_messages_from_own_frames(
    frames: Seq<FrameModel>,
    routes: Seq<RoutePlanModel>,
    dict: Seq<DictionaryEntryModel>,
    catalog: CatalogModel,
)
    ensures
        slots_carried(run_frames(empty_reassembler(), frames, routes, dict, catalog).0.slots, frames),
        forall|j: int|
            0 <= j < run_frames(empty_reassembler(), frames, routes, dict, catalog).1.len() ==> {
                let m = #[trigger] run_frames(empty_reassembler(), frames, routes, dict, catalog).1[j];
                exists|parts: Seq<Option<Seq<u8>>>|
                    m.payload == joined(parts) && parts_carried(parts, m.msg_type, m.route_id, frames)
            },
    decreases frames.len(),
{
    let run = run_frames(empty_reassembler(), frames, routes, dict, catalog);
    if frames.len() > 0 {
        let pre = frames.drop_last();
        let f = frames.last();
        lemma_messages_from_own_frames(pre, routes, dict, catalog);
        let prev = run_frames(empty_reassembler(), pre, routes, dict, catalog);
        assert(frames == pre.push(f));
        lemma_carried_push(prev.0.slots, pre, f);
        let r1 = if f.flags & FLAG_DEFER_AUDIT != 0 && f.payload.len() >= 24 {
            ReassemblerModel {
                slots: prev.0.slots,
                deferred: DeferredModel {
                    payload: f.payload,
                    salt: ((entropy_of(f) as u8) as u8).wrapping_add(f.frag_index),
                    route_id: f.route_id,
                },
            }
        } else {
            prev.0
        };
        assert(frames[frames.len() - 1] == f);
        assert(carried_by(f.payload, f.msg_type, f.route_id, frames));
        lemma_absorb_carried(r1, f, frames);
        let a = absorb_model(r1, f);
        let taken = take_model(a, f.msg_type, f.route_id, f.seq);
        if exists|i: int| is_first_complete(a.slots, f.msg_type, f.route_id, f.seq, i) {
            let i = choose|i: int| is_first_complete(a.slots, f.msg_type, f.route_id, f.seq, i);
            assert(parts_carried(a.slots[i].parts, a.slots[i].msg_type, a.slots[i].route_id, frames));
            assert forall|j: int| 0 <= j < taken.0.slots.len() implies parts_carried(
                (#[trigger] taken.0.slots[j]).parts,
                taken.0.slots[j].msg_type,
                taken.0.slots[j].route_id,
                frames,
            ) by {
                if j < i {
                    assert(taken.0.slots[j] == a.slots[j]);
                } else {
                    assert(taken.0.slots[j] == a.slots[j + 1]);
                }
            }
        }
        assert(run.0.slots == taken.0.slots);
        assert forall|j: int| 0 <= j < run.1.len() implies {
            let m = #[trigger] run.1[j];
            exists|parts: Seq<Option<Seq<u8>>>|
                m.payload == joined(parts) && parts_carried(parts, m.msg_type, m.route_id, frames)
        } by {
            if j < prev.1.len() {
                assert(run.1[j] == prev.1[j]);
                let m = prev.1[j];
                let parts = choose|parts: Seq<Option<Seq<u8>>>|
                    m.payload == joined(parts) && parts_carried(parts, m.msg_type, m.route_id, pre);
                assert(parts_carried(parts, m.msg_type, m.route_id, frames)) by {
                    assert forall|k: int|
                        0 <= k < parts.len() && (#[trigger] parts[k]) is Some implies carried_by(
                        parts[k]->0,
                        m.msg_type,
                        m.route_id,
                        frames,
                    ) by {
                        let q = choose|q: int|
                            0 <= q < pre.len() && (#[trigger] pre[q]).msg_type == m.msg_type
                                && pre[q].route_id == m.route_id && pre[q].payload == parts[k]->0;
                        assert(frames[q] == pre[q]);
                    }
                }
            } else {
                let i = choose|i: int| is_first_complete(a.slots, f.msg_type, f.route_id, f.seq, i);
                let sl = a.slots[i];
                assert(parts_carried(sl.parts, sl.msg_type, sl.route_id, frames));
                assert(run.1[j].payload == joined(sl.parts));
                assert(run.1[j].msg_type == sl.msg_type && run.1[j].route_id == sl.route_id);
            }
        }
    }
}

pub open spec fn part_view(p: Option<Vec<u8>>) -> Option<Seq<u8>> {
    match p {
        Some(v) => Some(v@),
        None => None,
    }
}

struct FragmentSlot {
    msg_type: u8,
    route_id: u16,
    seq_base: u16,
    total: u8,
    parts: Vec<Option<Vec<u8>>>,
    channel_mask: u16,
    entropy: u32,
}

impl View for FragmentSlot {
    type V = SlotModel;

    closed spec fn view(&self) -> SlotModel {
        SlotModel {
            msg_type: self.msg_type,
            route_id: self.route_id,
            seq_base: self.seq_base,
            total: self.total,
            parts: self.parts@.map_values(|p: Option<Vec<u8>>| part_view(p)),
            channel_mask: self.channel_mask,
            entropy: self.entropy,
        }
    }
}

struct DeferredPayload {
    payload: Vec<u8>,
    salt: u8,
    route_id: u16,
}

impl View for DeferredPayload {
    type V = DeferredModel;

    closed spec fn view(&self) -> DeferredModel {
        DeferredModel { payload: self.payload@, salt: self.salt, route_id: self.route_id }
    }
}

impl DeferredPayload {
    /// Keeps a payload of at least 24 bytes back for audits of the route; a shorter
    /// payload leaves what was kept.
    fn remember(&mut self, payload: &[u8], route_id: u16, salt: u8)
        ensures
            final(self)@ == (if payload@.len() >= 24 {
                DeferredModel { payload: payload@, salt, route_id }
            } else {
                old(self)@
            }),
    {
        if payload.len() >= 24 {
            self.payload = vstd::slice::slice_to_vec(payload);
            self.salt = salt;
            self.route_id = route_id;
        }
    }

    fn is_ready_for(&self, route_id: u16) -> (r: bool)
        ensures
            r == (self@.payload.len() > 0 && self@.route_id == route_id),
    {
        self.payload.len() > 0 && self.route_id == route_id
    }

    fn sample(&self, pivot: usize) -> (b: u8)
        requires
            self@.payload.len() > 0,
        ensures
            b == self@.payload[(pivot as int) % (self@.payload.len() as int)] ^ self@.salt,
    {
        self.payload[pivot % self.payload.len()] ^ self.salt
    }
}

/// Collects radio frame fragments into messages.
pub struct Reassembler {
    slots: Vec<FragmentSlot>,
    deferred: DeferredPayload,
}

impl View for Reassembler {
    type V = ReassemblerModel;

    closed spec fn view(&self) -> ReassemblerModel {
        ReassemblerModel {
            slots: self.slots@.map_values(|s: FragmentSlot| s@),
            deferred: self.deferred@,
        }
    }
}

fn count_filled(parts: &Vec<Option<Vec<u8>>>) -> (n: usize)
    ensures
        n == filled(parts@.map_values(|p: Option<Vec<u8>>| part_view(p))),
{
    let ghost v = parts@.map_values(|p: Option<Vec<u8>>| part_view(p));
    let mut n: usize = 0;
    let mut i: usize = 0;
    assert(v.take(0) =~= Seq::<Option<Seq<u8>>>::empty());
    while i < parts.len()
        invariant
            i <= parts@.len(),
            v == parts@.map_values(|p: Option<Vec<u8>>| part_view(p)),
            n <= i,
            n == filled(v.take(i as int)),
        decreases parts.len() - i,
    {
        assert(v.take(i + 1).drop_last() =~= v.take(i as int));
        if parts[i].is_some() {
            n = n + 1;
        }
        i = i + 1;
    }
    assert(v.take(parts@.len() as int) =~= v);
    n
}

fn join_parts(parts: &Vec<Option<Vec<u8>>>) -> (out: Vec<u8>)
    ensures
        out@ == joined(parts@.map_values(|p: Option<Vec<u8>>| part_view(p))),
{
    let ghost v = parts@.map_values(|p: Option<Vec<u8>>| part_view(p));
    let mut out: Vec<u8> = Vec::new();
    let mut i: usize = 0;
    assert(v.take(0) =~= Seq::<Option<Seq<u8>>>::empty());
    while i < parts.len()
        invariant
            i <= parts@.len(),
            v == parts@.map_values(|p: Option<Vec<u8>>| part_view(p)),
            out@ == joined(v.take(i as int)),
        decreases parts.len() - i,
    {
        assert(v.take(i + 1).drop_last() =~= v.take(i as int));
        match &parts[i] {
            Some(part) => {
                let mut k: usize = 0;
                let ghost start = out@;
                while k < part.len()
                    invariant
                        k <= part@.len(),
                        out@ == start + part@.take(k as int),
                    decreases part.len() - k,
                {
                    out.push(part[k]);
                    assert(part@.take(k + 1) =~= part@.take(k as int).push(part@[k as int]));
                    k = k + 1;
                }
                assert(part@.take(part@.len() as int) =~= part@);
            },
            None => {
                assert(out@ =~= out@ + Seq::<u8>::empty());
            },
        }
        i = i + 1;
    }
    assert(v.take(parts@.len() as int) =~= v);
    out
}

impl Reassembler {
    pub fn new() -> (r: Self)
        ensures
            r@ == empty_reassembler(),
    {
        let r = Reassembler {
            slots: Vec::new(),
            deferred: DeferredPayload { payload: Vec::new(), salt: 0, route_id: 0 },
        };
        assert(r@.slots =~= Seq::<SlotModel>::empty());
        assert(r@.deferred.payload =~= Seq::<u8>::empty());
        r
    }

    fn find_or_create(&mut self, msg_type: u8, route_id: u16, seq_base: u16, total: u8) -> (pos: usize)
        ensures
            (final(self)@.slots, pos as int) == slots_with_key(
                old(self)@.slots,
                msg_type,
                route_id,
                seq_base,
                total,
            ),
            final(self)@.deferred == old(self)@.deferred,
            pos < final(self)@.slots.len(),
            final(self)@.slots[pos as int].msg_type == msg_type,
            final(self)@.slots[pos as int].route_id == route_id,
            final(self)@.slots[pos as int].seq_base == seq_base,
    {
        proof {
            lemma_slots_with_key(old(self)@.slots, msg_type, route_id, seq_base, total);
        }
        let ghost d = self@.slots;
        let mut i: usize = 0;
        while i < self.slots.len()
            invariant
                d == self@.slots,
                d == old(self)@.slots,
                self@.deferred == old(self)@.deferred,
                i <= self.slots@.len(),
                forall|j: int| 0 <= j < i ==> !slot_keyed(#[trigger] d[j], msg_type, route_id, seq_base),
            decreases self.slots.len() - i,
        {
            let s = &self.slots[i];
            assert(d[i as int] == s@);
            if s.msg_type == msg_type && s.route_id == route_id && s.seq_base == seq_base {
                proof {
                    assert(is_first_slot(d, msg_type, route_id, seq_base, i as int));
                    let k = choose|k: int| is_first_slot(d, msg_type, route_id, seq_base, k);
                    assert(k == i) by {
                        if k < i {
                            assert(!slot_keyed(d[k], msg_type, route_id, seq_base));
                        }
                        if k > i {
                            assert(!slot_keyed(d[i as int], msg_type, route_id, seq_base));
                        }
                    }
                }
                return i;
            }
            i = i + 1;
        }
        let ghost pre = self.slots@;
        if self.slots.len() > 64 {
            self.slots.remove(0);
        }
        let mut parts: Vec<Option<Vec<u8>>> = Vec::new();
        let mut k: u8 = 0;
        while k < total
            invariant
                k <= total,
                parts@.len() == k,
                forall|j: int| 0 <= j < k ==> #[trigger] parts@[j] is None,
            decreases total - k,
        {
            parts.push(None);
            k = k + 1;
        }
        let slot = FragmentSlot {
            msg_type,
            route_id,
            seq_base,
            total,
            parts,
            channel_mask: 0,
            entropy: 0,
        };
        assert(slot@.parts =~= new_slot(msg_type, route_id, seq_base, total).parts);
        let ghost sv = slot@;
        let pos = self.slots.len();
        self.slots.push(slot);
        proof {
            let base = if pre.len() > 64 { pre.remove(0) } else { pre };
            if pre.len() > 64 {
                assert(pre.remove(0).map_values(|s: FragmentSlot| s@) =~= d.remove(0));
            }
            assert(self@.slots =~= base.map_values(|s: FragmentSlot| s@).push(sv));
        }
        pos
    }

    fn absorb(&mut self, frame: &Frame)
        ensures
            final(self)@ == absorb_model(old(self)@, frame@),
    {
        let t = if frame.frag_total < 1 {
            1
        } else {
            frame.frag_total
        };
        let total = if t > 32 {
            32
        } else {
            t
        };
        let idx = (frame.frag_index % total) as usize;
        let key = frame.seq.saturating_sub(frame.frag_index as u16);
        let pos = self.find_or_create(frame.msg_type, frame.route_id, key, total);
        let ghost found = self@.slots;
        let mut slot = self.slots.remove(pos);
        assert(slot@ == found[pos as int]);
        let ghost before = slot@;
        while slot.parts.len() < idx + 1
            invariant
                idx < 32,
                slot@.msg_type == before.msg_type,
                slot@.route_id == before.route_id,
                slot@.seq_base == before.seq_base,
                slot@.total == before.total,
                slot@.channel_mask == before.channel_mask,
                slot@.entropy == before.entropy,
                slot@.parts.len() <= idx + 1 || slot@.parts == before.parts,
                before.parts.len() <= slot@.parts.len(),
                slot@.parts.subrange(0, before.parts.len() as int) == before.parts,
                forall|j: int|
                    before.parts.len() <= j < slot@.parts.len() ==> #[trigger] slot@.parts[j] is None,
            decreases idx + 1 - slot.parts.len(),
        {
            let ghost pre = slot.parts@;
            slot.parts.push(None);
            assert(slot.parts@.map_values(|p: Option<Vec<u8>>| part_view(p)) =~= pre.map_values(
                |p: Option<Vec<u8>>| part_view(p),
            ).push(None));
        }
        let ghost grown = slot@.parts;
        assert(grown =~= (if idx >= before.parts.len() {
            before.parts + Seq::new((idx + 1 - before.parts.len()) as nat, |i: int| None)
        } else {
            before.parts
        }));
        slot.parts.set(idx, Some(vstd::slice::slice_to_vec(frame.payload.as_slice())));
        assert(slot@.parts =~= place_part(before.parts, idx as int, frame@.payload));
        proof {
            lemma_low_bits(frame.channel);
            lemma_low_bits(frame.frag_index);
        }
        slot.channel_mask = slot.channel_mask | (1u16 << ((frame.channel & 15) as u16));
        slot.entropy = slot.entropy ^ rotate32(frame_entropy(frame), (frame.frag_index & 31) as u32);
        let ghost sv = slot@;
        self.slots.insert(pos, slot);
        proof {
            assert(self.slots@.map_values(|s: FragmentSlot| s@) =~= found.update(pos as int, sv));
        }
    }

    fn try_take(&mut self, msg_type: u8, route_id: u16, seq: u16) -> (r: Option<ReassembledMessage>)
        ensures
            (final(self)@, match r {
                Some(m) => Some(m@),
                None => None::<MessageModel>,
            }) == take_model(old(self)@, msg_type, route_id, seq),
    {
        let floor = seq.saturating_sub(31);
        let ghost d = self@.slots;
        let mut i: usize = 0;
        while i < self.slots.len()
            invariant
                d == self@.slots,
                self@ == old(self)@,
                floor == (if seq >= 31 { (seq - 31) as u16 } else { 0u16 }),
                i <= self.slots@.len(),
                forall|j: int| 0 <= j < i ==> !slot_complete(#[trigger] d[j], msg_type, route_id, seq),
            decreases self.slots.len() - i,
        {
            let s = &self.slots[i];
            assert(d[i as int] == s@);
            if s.msg_type == msg_type && s.route_id == route_id && s.seq_base >= floor
                && count_filled(&s.parts) >= s.total as usize {
                proof {
                    assert(is_first_complete(d, msg_type, route_id, seq, i as int));
                    let k = choose|k: int| is_first_complete(d, msg_type, route_id, seq, k);
                    assert(k == i) by {
                        if k < i {
                            assert(!slot_complete(d[k], msg_type, route_id, seq));
                        }
                        if k > i {
                            assert(!slot_complete(d[i as int], msg_type, route_id, seq));
                        }
                    }
                }
                let slot = self.slots.remove(i);
                let payload = join_parts(&slot.parts);
                let m = ReassembledMessage {
                    msg_type: slot.msg_type,
                    route_id: slot.route_id,
                    seq_base: slot.seq_base,
                    channel_mask: slot.channel_mask,
                    payload,
                    audit_byte: None,
                };
                proof {
                    assert(self@.slots =~= d.remove(i as int));
                    assert(m@ == message_of(d[i as int]));
                }
                return Some(m);
            }
            i = i + 1;
        }
        None
    }

    fn audit_message(
        &self,
        message: &ReassembledMessage,
        routes: &[RoutePlan],
        dict: &Dictionary,
        catalog: &Catalog,
    ) -> (r: Option<u8>)
        ensures
            r == audit_of(self@.deferred, message@, views(routes@), dict@, catalog@),
    {
        if !self.deferred.is_ready_for(message.route_id) {
            return None;
        }
        if message.payload.len() < 8 {
            return None;
        }
        let route_pressure = match first_plan(routes, message.route_id) {
            Some(i) => release_pressure(&routes[i]),
            None => dict.route_bias(message.route_id),
        };
        let catalog_bias = match catalog.find_route(message.route_id) {
            Some(p) => p.risk_seed ^ p.control_zone as u32,
            None => route_pressure,
        };
        let controlled = message.payload[0] & FLAG_CONTROLLED_RELEASE != 0 || message.msg_type
            & 0x70 == 0x40;
        let looks_like_handoff = controlled && ones32(message.channel_mask as u32) >= 1 && ones32(
            rolling32(catalog_bias, message.payload.as_slice()),
        ) > 11;
        if looks_like_handoff {
            let pivot = (route_pressure ^ catalog_bias ^ message.seq_base as u32) as usize;
            Some(self.deferred.sample(pivot))
        } else {
            None
        }
    }

    /// Takes in the frames in order and gives back the messages they complete, each
    /// with its audit byte.
    pub fn reassemble(
        &mut self,
        frames: &[Frame],
        routes: &[RoutePlan],
        dict: &Dictionary,
        catalog: &Catalog,
    ) -> (out: Vec<ReassembledMessage>)
        ensures
            (final(self)@, views(out@)) == run_frames(
                old(self)@,
                views(frames@),
                views(routes@),
                dict@,
                catalog@,
            ),
    {
        let mut out: Vec<ReassembledMessage> = Vec::new();
        let mut i: usize = 0;
        let ghost fs = views(frames@);
        assert(fs.take(0) =~= Seq::<FrameModel>::empty());
        assert(views(out@) =~= Seq::<MessageModel>::empty());
        while i < frames.len()
            invariant
                i <= frames@.len(),
                fs == views(frames@),
                (self@, views(out@)) == run_frames(
                    old(self)@,
                    fs.take(i as int),
                    views(routes@),
                    dict@,
                    catalog@,
                ),
            decreases frames.len() - i,
        {
            let frame = &frames[i];
            assert(fs.take(i + 1).drop_last() =~= fs.take(i as int));
            assert(fs.take(i + 1).last() == frame@);
            if frame.flags & FLAG_DEFER_AUDIT != 0 {
                let salt = (#[verifier::truncate] (frame_entropy(frame) as u8)).wrapping_add(
                    frame.frag_index,
                );
                self.deferred.remember(frame.payload.as_slice(), frame.route_id, salt);
            }
            self.absorb(frame);
            match self.try_take(frame.msg_type, frame.route_id, frame.seq) {
                Some(message) => {
                    let audit = self.audit_message(&message, routes, dict, catalog);
                    let m = ReassembledMessage {
                        msg_type: message.msg_type,
                        route_id: message.route_id,
                        seq_base: message.seq_base,
                        channel_mask: message.channel_mask,
                        payload: message.payload,
                        audit_byte: audit,
                    };
                    proof {
                        crate::model::lemma_views_push(out@, m);
                    }
                    out.push(m);
                },
                None => {},
            }
            i = i + 1;
        }
        assert(fs.take(frames@.len() as int) =~= fs);
        out
    }
}

/// The position of the first plan of the route.
fn first_plan(routes: &[RoutePlan], route_id: u16) -> (r: Option<usize>)
    ensures
        match r {
            Some(i) => i < routes@.len() && plan_in(views(routes@), route_id) == Some(
                routes@[i as int]@,
            ),
            None => plan_in(views(routes@), route_id) is None,
        },
{
    let ghost v = views(routes@);
    let mut i: usize = 0;
    assert(v.subrange(0, v.len() as int) =~= v);
    while i < routes.len()
        invariant
            i <= routes@.len(),
            v == views(routes@),
            plan_in(v, route_id) == plan_in(v.subrange(i as int, v.len() as int), route_id),
        decreases routes.len() - i,
    {
        let ghost rest = v.subrange(i as int, v.len() as int);
        assert(rest.drop_first() =~= v.subrange(i + 1, v.len() as int));
        assert(rest[0] == routes@[i as int]@);
        if routes[i].route_id == route_id {
            return Some(i);
        }
        i = i + 1;
    }
    None
}

} // verus!
