use vstd::prelude::*;

use crate::dictionary::{Dictionary, DictionaryEntryModel};
use crate::error::JunctionError;

verus! {

/// The views of the items of a sequence.
pub open spec fn views<T: View>(s: Seq<T>) -> Seq<T::V> {
    s.map_values(|x: T| x@)
}

pub proof fn lemma_views_push<T: View>(s: Seq<T>, x: T)
    ensures
        views(s.push(x)) == views(s).push(x@),
{
    assert(views(s.push(x)) =~= views(s).push(x@));
}

pub proof fn lemma_views_add<T: View>(s: Seq<T>, t: Seq<T>)
    ensures
        views(s + t) == views(s) + views(t),
{
    assert(views(s + t) =~= views(s) + views(t));
}

/// `done` followed by what `r` gives, or the error of `r`.
pub open spec fn after<T>(done: Seq<T>, r: Result<Seq<T>, JunctionError>) -> Result<Seq<T>, JunctionError> {
    match r {
        Ok(rest) => Ok(done + rest),
        Err(e) => Err(e),
    }
}

/// `x` followed by what `r` gives, or the error of `r`.
pub open spec fn cons<T>(x: T, r: Result<Seq<T>, JunctionError>) -> Result<Seq<T>, JunctionError> {
    after(seq![x], r)
}

pub proof fn lemma_after_cons<T>(done: Seq<T>, x: T, r: Result<Seq<T>, JunctionError>)
    ensures
        after(done, cons(x, r)) == after(done.push(x), r),
{
    if let Ok(rest) = r {
        assert(done + (seq![x] + rest) =~= done.push(x) + rest);
    }
}

pub proof fn lemma_after_empty<T>(done: Seq<T>)
    ensures
        after(done, Ok(Seq::<T>::empty())) == Ok::<Seq<T>, JunctionError>(done),
{
    assert(done + Seq::<T>::empty() =~= done);
}

pub proof fn lemma_after_nil<T>(r: Result<Seq<T>, JunctionError>)
    ensures
        after(Seq::<T>::empty(), r) == r,
{
    if let Ok(rest) = r {
        assert(Seq::<T>::empty() + rest =~= rest);
    }
}

/// The header of a decoded bundle, with its sections.
#[derive(Clone, Debug)]
pub struct Envelope {
    pub version: u8,
    pub flags: u8,
    pub station_id: u16,
    pub epoch: u32,
    pub section_count: u8,
    pub sections: Vec<Section>,
    pub warnings: Vec<String>,
}

pub ghost struct EnvelopeModel {
    pub version: u8,
    pub flags: u8,
    pub station_id: u16,
    pub epoch: u32,
    pub section_count: u8,
    pub sections: Seq<SectionModel>,
    pub warnings: Seq<Seq<char>>,
}

impl View for Envelope {
    type V = EnvelopeModel;

    open spec fn view(&self) -> EnvelopeModel {
        EnvelopeModel {
            version: self.version,
            flags: self.flags,
            station_id: self.station_id,
            epoch: self.epoch,
            section_count: self.section_count,
            sections: views(self.sections@),
            warnings: views(self.warnings@),
        }
    }
}

#[derive(Clone, Debug)]
pub struct Section {
    pub kind: SectionKind,
    pub id: u8,
    pub flags: u16,
    pub checksum: u16,
    pub payload: Vec<u8>,
    pub score: u32,
}

pub ghost struct SectionModel {
    pub kind: SectionKind,
    pub id: u8,
    pub flags: u16,
    pub checksum: u16,
    pub payload: Seq<u8>,
    pub score: u32,
}

impl View for Section {
    type V = SectionModel;

    open spec fn view(&self) -> SectionModel {
        SectionModel {
            kind: self.kind,
            id: self.id,
            flags: self.flags,
            checksum: self.checksum,
            payload: self.payload@,
            score: self.score,
        }
    }
}

#[derive(Copy, Clone, Debug, PartialEq, Eq, Structural)]
pub enum SectionKind {
    Dictionary,
    RoutePlan,
    RadioFrames,
    Occupancy,
    Journal,
    Script,
    Transcript,
    Unknown(u8),
}

pub open spec fn section_kind_of(byte: u8) -> SectionKind {
    if byte == 1 {
        SectionKind::Dictionary
    } else if byte == 2 {
        SectionKind::RoutePlan
    } else if byte == 3 {
        SectionKind::RadioFrames
    } else if byte == 4 {
        SectionKind::Occupancy
    } else if byte == 5 {
        SectionKind::Journal
    } else if byte == 6 {
        SectionKind::Script
    } else if byte == 7 {
        SectionKind::Transcript
    } else {
        SectionKind::Unknown(byte)
    }
}

impl SectionKind {
    pub fn from_byte(byte: u8) -> (k: Self)
        ensures
            k == section_kind_of(byte),
    {
        match byte {
            1 => SectionKind::Dictionary,
            2 => SectionKind::RoutePlan,
            3 => SectionKind::RadioFrames,
            4 => SectionKind::Occupancy,
            5 => SectionKind::Journal,
            6 => SectionKind::Script,
            7 => SectionKind::Transcript,
            other => SectionKind::Unknown(other),
        }
    }
}

/// Everything decoded from a bundle.
#[derive(Clone, Debug)]
pub struct Bundle {
    pub envelope: Envelope,
    pub dictionary: Dictionary,
    pub routes: Vec<RoutePlan>,
    pub frames: Vec<Frame>,
    pub messages: Vec<ReassembledMessage>,
    pub occupancy: Vec<OccupancyBatch>,
    pub journals: Vec<Journal>,
    pub scripts: Vec<ScriptProgram>,
    pub diagnostics: Vec<String>,
}

pub ghost struct BundleModel {
    pub envelope: EnvelopeModel,
    pub dictionary: Seq<DictionaryEntryModel>,
    pub routes: Seq<RoutePlanModel>,
    pub frames: Seq<FrameModel>,
    pub messages: Seq<MessageModel>,
    pub occupancy: Seq<OccupancyBatchModel>,
    pub journals: Seq<JournalModel>,
    pub scripts: Seq<ScriptProgramModel>,
    pub diagnostics: Seq<Seq<char>>,
}

impl View for Bundle {
    type V = BundleModel;

    open spec fn view(&self) -> BundleModel {
        BundleModel {
            envelope: self.envelope@,
            dictionary: self.dictionary@,
            routes: views(self.routes@),
            frames: views(self.frames@),
            messages: views(self.messages@),
            occupancy: views(self.occupancy@),
            journals: views(self.journals@),
            scripts: views(self.scripts@),
            diagnostics: views(self.diagnostics@),
        }
    }
}

#[derive(Clone, Debug)]
pub struct RoutePlan {
    pub route_id: u16,
    pub revision: u16,
    pub authority: u8,
    pub nodes: Vec<TrackNode>,
    pub releases: Vec<ReleaseRule>,
    pub score: u32,
}

pub ghost struct RoutePlanModel {
    pub route_id: u16,
    pub revision: u16,
    pub authority: u8,
    pub nodes: Seq<TrackNode>,
    pub releases: Seq<ReleaseRule>,
    pub score: u32,
}

impl View for RoutePlan {
    type V = RoutePlanModel;

    open spec fn view(&self) -> RoutePlanModel {
        RoutePlanModel {
            route_id: self.route_id,
            revision: self.revision,
            authority: self.authority,
            nodes: self.nodes@,
            releases: self.releases@,
            score: self.score,
        }
    }
}

#[derive(Clone, Copy, Debug, PartialEq, Eq, Structural)]
pub struct TrackNode {
    pub circuit_id: u16,
    pub signal_id: u16,
    pub switch_id: u16,
    pub aspect: u8,
    pub lock: u8,
    pub dwell_ms: u16,
}

#[derive(Clone, Copy, Debug, PartialEq, Eq, Structural)]
pub struct ReleaseRule {
    pub from: u16,
    pub to: u16,
    pub min_clear_ms: u16,
    pub flags: u8,
}

#[derive(Clone, Debug)]
pub struct Frame {
    pub msg_type: u8,
    pub seq: u16,
    pub frag_index: u8,
    pub frag_total: u8,
    pub route_id: u16,
    pub channel: u8,
    pub flags: u8,
    pub payload: Vec<u8>,
    pub trailer: u16,
}

pub ghost struct FrameModel {
    pub msg_type: u8,
    pub seq: u16,
    pub frag_index: u8,
    pub frag_total: u8,
    pub route_id: u16,
    pub channel: u8,
    pub flags: u8,
    pub payload: Seq<u8>,
    pub trailer: u16,
}

impl View for Frame {
    type V = FrameModel;

    open spec fn view(&self) -> FrameModel {
        FrameModel {
            msg_type: self.msg_type,
            seq: self.seq,
            frag_index: self.frag_index,
            frag_total: self.frag_total,
            route_id: self.route_id,
            channel: self.channel,
            flags: self.flags,
            payload: self.payload@,
            trailer: self.trailer,
        }
    }
}

#[derive(Clone, Debug)]
pub struct ReassembledMessage {
    pub msg_type: u8,
    pub route_id: u16,
    pub seq_base: u16,
    pub channel_mask: u16,
    pub payload: Vec<u8>,
    pub audit_byte: Option<u8>,
}

pub ghost struct MessageModel {
    pub msg_type: u8,
    pub route_id: u16,
    pub seq_base: u16,
    pub channel_mask: u16,
    pub payload: Seq<u8>,
    pub audit_byte: Option<u8>,
}

impl View for ReassembledMessage {
    type V = MessageModel;

    open spec fn view(&self) -> MessageModel {
        MessageModel {
            msg_type: self.msg_type,
            route_id: self.route_id,
            seq_base: self.seq_base,
            channel_mask: self.channel_mask,
            payload: self.payload@,
            audit_byte: self.audit_byte,
        }
    }
}

#[derive(Clone, Debug)]
pub struct OccupancyBatch {
    pub route_id: u16,
    pub base_time: u32,
    pub events: Vec<OccupancyEvent>,
    pub measurements: Vec<u32>,
}

pub ghost struct OccupancyBatchModel {
    pub route_id: u16,
    pub base_time: u32,
    pub events: Seq<OccupancyEvent>,
    pub measurements: Seq<u32>,
}

impl View for OccupancyBatch {
    type V = OccupancyBatchModel;

    open spec fn view(&self) -> OccupancyBatchModel {
        OccupancyBatchModel {
            route_id: self.route_id,
            base_time: self.base_time,
            events: self.events@,
            measurements: self.measurements@,
        }
    }
}

#[derive(Clone, Copy, Debug, PartialEq, Eq, Structural)]
pub struct OccupancyEvent {
    pub circuit_id: u16,
    pub delta_ms: i16,
    pub state: OccupancyState,
    pub confidence: u8,
}

#[derive(Copy, Clone, Debug, PartialEq, Eq, Structural)]
pub enum OccupancyState {
    Clear,
    Occupied,
    Shunted,
    Unknown(u8),
}

#[derive(Clone, Debug)]
pub struct Journal {
    pub source_id: u16,
    pub records: Vec<JournalRecord>,
    pub attachments_seen: usize,
    pub committed: bool,
}

pub ghost struct JournalModel {
    pub source_id: u16,
    pub records: Seq<JournalRecordModel>,
    pub attachments_seen: usize,
    pub committed: bool,
}

impl View for Journal {
    type V = JournalModel;

    open spec fn view(&self) -> JournalModel {
        JournalModel {
            source_id: self.source_id,
            records: views(self.records@),
            attachments_seen: self.attachments_seen,
            committed: self.committed,
        }
    }
}

#[derive(Clone, Debug)]
pub struct JournalRecord {
    pub opcode: u8,
    pub tag: u16,
    pub flags: u8,
    pub payload_len: usize,
    pub note: String,
}

pub ghost struct JournalRecordModel {
    pub opcode: u8,
    pub tag: u16,
    pub flags: u8,
    pub payload_len: usize,
    pub note: Seq<char>,
}

impl View for JournalRecord {
    type V = JournalRecordModel;

    open spec fn view(&self) -> JournalRecordModel {
        JournalRecordModel {
            opcode: self.opcode,
            tag: self.tag,
            flags: self.flags,
            payload_len: self.payload_len,
            note: self.note@,
        }
    }
}

#[derive(Clone, Debug)]
pub struct ScriptProgram {
    pub program_id: u16,
    pub opcodes: Vec<ScriptOp>,
}

pub ghost struct ScriptProgramModel {
    pub program_id: u16,
    pub opcodes: Seq<ScriptOpModel>,
}

impl View for ScriptProgram {
    type V = ScriptProgramModel;

    open spec fn view(&self) -> ScriptProgramModel {
        ScriptProgramModel { program_id: self.program_id, opcodes: views(self.opcodes@) }
    }
}

#[derive(Clone, Debug)]
pub enum ScriptOp {
    LoadConst(u16),
    LoadDict(u16),
    Add,
    Xor,
    Rotate(u8),
    BranchIfZero(i8),
    Emit(u8),
    Halt,
    Vendor(u8, Vec<u8>),
}

pub ghost enum ScriptOpModel {
    LoadConst(u16),
    LoadDict(u16),
    Add,
    Xor,
    Rotate(u8),
    BranchIfZero(i8),
    Emit(u8),
    Halt,
    Vendor(u8, Seq<u8>),
}

impl View for ScriptOp {
    type V = ScriptOpModel;

    open spec fn view(&self) -> ScriptOpModel {
        match self {
            ScriptOp::LoadConst(v) => ScriptOpModel::LoadConst(*v),
            ScriptOp::LoadDict(v) => ScriptOpModel::LoadDict(*v),
            ScriptOp::Add => ScriptOpModel::Add,
            ScriptOp::Xor => ScriptOpModel::Xor,
            ScriptOp::Rotate(b) => ScriptOpModel::Rotate(*b),
            ScriptOp::BranchIfZero(d) => ScriptOpModel::BranchIfZero(*d),
            ScriptOp::Emit(m) => ScriptOpModel::Emit(*m),
            ScriptOp::Halt => ScriptOpModel::Halt,
            ScriptOp::Vendor(code, payload) => ScriptOpModel::Vendor(*code, payload@),
        }
    }
}

} // verus!
