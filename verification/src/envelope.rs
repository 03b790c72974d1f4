use vstd::prelude::*;

use crate::catalog::{Catalog, CatalogModel};
use crate::dictionary::{page_entries, upsert_all, Dictionary, DictionaryEntryModel};
use crate::error::error_text;
use crate::frame::{frames_of, parse_frames};
use crate::journal::{journal_of, parse_journal};
use crate::occupancy::{batch_of, parse_occupancy_batch};
use crate::reassembler::{empty_reassembler, run_frames, Reassembler};
use crate::route::{parse_route_plans, plans_of};
use crate::script::{parse_script_program, program_of};
use crate::checksum::{crc16, crc16_of, section_score, section_score_of};
use crate::cursor::{le16, le32, truncated, Cursor};
use crate::error::{JunctionError, Result, Subject};
use crate::model::{
    section_kind_of, views, Bundle, BundleModel, Envelope, EnvelopeModel, FrameModel, Frame,
    Journal, JournalModel, OccupancyBatch, OccupancyBatchModel, RoutePlan, RoutePlanModel,
    ScriptProgram, ScriptProgramModel, Section, SectionKind, SectionModel,
};
use crate::text::{concat, dec_string, dec_text, hex_string, hex_text};

verus! {

/// The magic bytes "JTRC" that open a bundle.
pub open spec fn bundle_magic() -> Seq<u8> {
    seq![0x4au8, 0x54, 0x52, 0x43]
}

/// The warning written for a section whose checksum does not match.
pub open spec fn checksum_warning(id: u8, checksum: u16, calc: u16) -> Seq<char> {
    "section "@ + dec_text(id as nat) + " checksum mismatch "@ + hex_text(checksum as nat, 4)
        + "/"@ + hex_text(calc as nat, 4)
}

/// The sections (and warnings) read from `p`, after `secs` and `warns`, with at most
/// `left` still to read. A header or payload cut short ends the table; a payload over
/// `max_len` is an error.
pub open spec fn sections_from(
    s: Seq<u8>,
    p: int,
    left: nat,
    secs: Seq<SectionModel>,
    warns: Seq<Seq<char>>,
    max_len: nat,
) -> Result<(Seq<SectionModel>, Seq<Seq<char>>)>
    decreases left,
{
    if left == 0 || p < 0 || s.len() - p < 8 {
        Ok((secs, warns))
    } else {
        let raw_kind = s[p];
        let id = s[p + 1];
        let flags = le16(s, p + 2);
        let len = le16(s, p + 4) as nat;
        let checksum = le16(s, p + 6);
        if len > max_len {
            Err(JunctionError::LimitExceeded(Subject::SectionPayload))
        } else if s.len() - (p + 8) < len {
            Ok((secs, warns))
        } else {
            let payload = s.subrange(p + 8, p + 8 + len);
            let calc = crc16_of(payload);
            let warns2 = if calc != checksum && flags & 0x0001 != 0 {
                warns.push(checksum_warning(id, checksum, calc))
            } else {
                warns
            };
            let section = SectionModel {
                kind: section_kind_of(raw_kind),
                id,
                flags,
                checksum,
                payload,
                score: section_score_of(raw_kind, id, flags, payload),
            };
            sections_from(s, p + 8 + len, (left - 1) as nat, secs.push(section), warns2, max_len)
        }
    }
}

/// Reading on from `secs` only adds sections (at most `left`, each with a payload of
/// at most `max_len` bytes), and at most one warning per section added.
pub proof fn lemma_sections_from_bounds(
    s: Seq<u8>,
    p: int,
    left: nat,
    secs: Seq<SectionModel>,
    warns: Seq<Seq<char>>,
    max_len: nat,
)
    requires
        warns.len() <= secs.len(),
        forall|i: int| 0 <= i < secs.len() ==> (#[trigger] secs[i]).payload.len() <= max_len,
    ensures
        sections_from(s, p, left, secs, warns, max_len) matches Ok(r) ==> {
            &&& r.0.len() <= secs.len() + left
            &&& r.1.len() <= r.0.len()
            &&& forall|i: int| 0 <= i < r.0.len() ==> (#[trigger] r.0[i]).payload.len() <= max_len
        },
    decreases left,
{
    if !(left == 0 || p < 0 || s.len() - p < 8) {
        let raw_kind = s[p];
        let id = s[p + 1];
        let flags = le16(s, p + 2);
        let len = le16(s, p + 4) as nat;
        let checksum = le16(s, p + 6);
        if len <= max_len && s.len() - (p + 8) >= len {
            let payload = s.subrange(p + 8, p + 8 + len);
            let calc = crc16_of(payload);
            let warns2 = if calc != checksum && flags & 0x0001 != 0 {
                warns.push(checksum_warning(id, checksum, calc))
            } else {
                warns
            };
            let section = SectionModel {
                kind: section_kind_of(raw_kind),
                id,
                flags,
                checksum,
                payload,
                score: section_score_of(raw_kind, id, flags, payload),
            };
            let secs2 = secs.push(section);
            assert forall|i: int| 0 <= i < secs2.len() implies (#[trigger] secs2[i]).payload.len() <= max_len by {
                if i < secs.len() {
                    assert(secs2[i] == secs[i]);
                }
            }
            lemma_sections_from_bounds(s, p + 8 + len, (left - 1) as nat, secs2, warns2, max_len);
        }
    }
}

/// An envelope holds at most as many sections as its header counts and the decoder
/// allows, each payload within the decoder's limit, and at most one warning per
/// section.
pub proof fn lemma_envelope_bounds(s: Seq<u8>, max_sections: nat, max_len: nat)
    ensures
        envelope_of(s, max_sections, max_len) matches Ok(env) ==> {
            &&& env.sections.len() <= env.section_count
            &&& env.sections.len() <= max_sections
            &&& env.warnings.len() <= env.sections.len()
            &&& forall|i: int|
                0 <= i < env.sections.len() ==> (#[trigger] env.sections[i]).payload.len() <= max_len
        },
{
    if s.len() >= 16 {
        let count = s[12] as nat;
        let wanted = if count < max_sections { count } else { max_sections };
        lemma_sections_from_bounds(s, 16, wanted, seq![], seq![], max_len);
    }
}

/// The envelope of a bundle, read with at most `max_sections` sections of at most
/// `max_len` bytes each.
pub open spec fn envelope_of(s: Seq<u8>, max_sections: nat, max_len: nat) -> Result<EnvelopeModel> {
    if s.len() < 12 {
        Err(truncated(12, s.len() as int))
    } else if s.subrange(0, 4) != bundle_magic() {
        Err(JunctionError::BadMagic)
    } else if s[4] == 0 || s[4] > 3 {
        Err(JunctionError::UnsupportedVersion(s[4]))
    } else if s.len() < 14 {
        Err(truncated(1, 0))
    } else if s.len() < 16 {
        Err(truncated(2, s.len() - 14))
    } else {
        let count = s[12] as nat;
        let wanted = if count < max_sections { count } else { max_sections };
        match sections_from(s, 16, wanted, seq![], seq![], max_len) {
            Ok(r) => Ok(
                EnvelopeModel {
                    version: s[4],
                    flags: s[5],
                    station_id: le16(s, 6),
                    epoch: le32(s, 8),
                    section_count: s[12],
                    sections: r.0,
                    warnings: r.1,
                },
            ),
            Err(e) => Err(e),
        }
    }
}

/// The dictionary after the dictionary pages among the sections, in order, are
/// stored in `d`; an error in a page is an error of the bundle.
pub open spec fn dictionary_after(secs: Seq<SectionModel>, d: Seq<DictionaryEntryModel>) -> Result<
    Seq<DictionaryEntryModel>,
>
    decreases secs.len(),
{
    if secs.len() == 0 {
        Ok(d)
    } else {
        match dictionary_after(secs.drop_last(), d) {
            Err(e) => Err(e),
            Ok(d1) => {
                let sec = secs.last();
                if sec.kind == SectionKind::Dictionary {
                    let page = page_entries(sec.payload);
                    match page.1 {
                        Some(e) => Err(e),
                        None => Ok(upsert_all(d1, page.0)),
                    }
                } else {
                    Ok(d1)
                }
            },
        }
    }
}

/// What the sections of a bundle yield, with the diagnostics of the sections that
/// could not be decoded.
pub ghost struct Collected {
    pub routes: Seq<RoutePlanModel>,
    pub frames: Seq<FrameModel>,
    pub occupancy: Seq<OccupancyBatchModel>,
    pub journals: Seq<JournalModel>,
    pub scripts: Seq<ScriptProgramModel>,
    pub diagnostics: Seq<Seq<char>>,
}

/// The diagnostic for a section of the named kind that failed.
pub open spec fn section_diagnostic(kind: Seq<char>, id: u8, e: JunctionError) -> Seq<char> {
    kind + " section "@ + dec_text(id as nat) + ": "@ + error_text(e)
}

/// What one more section adds.
pub open spec fn collect_step(
    acc: Collected,
    sec: SectionModel,
    dict: Seq<DictionaryEntryModel>,
    catalog: CatalogModel,
) -> Collected {
    match sec.kind {
        SectionKind::RoutePlan => match plans_of(sec.payload, dict, catalog) {
            Ok(ps) => Collected { routes: acc.routes + ps, ..acc },
            Err(e) => Collected {
                diagnostics: acc.diagnostics.push(section_diagnostic("route"@, sec.id, e)),
                ..acc
            },
        },
        SectionKind::RadioFrames | SectionKind::Transcript => match frames_of(sec.payload) {
            Ok(fs) => Collected { frames: acc.frames + fs, ..acc },
            Err(e) => Collected {
                diagnostics: acc.diagnostics.push(section_diagnostic("frame"@, sec.id, e)),
                ..acc
            },
        },
        SectionKind::Occupancy => match batch_of(sec.payload, dict, catalog) {
            Ok(b) => Collected { occupancy: acc.occupancy.push(b), ..acc },
            Err(e) => Collected {
                diagnostics: acc.diagnostics.push(section_diagnostic("occupancy"@, sec.id, e)),
                ..acc
            },
        },
        SectionKind::Journal => match journal_of(sec.payload, dict) {
            Ok(j) => Collected { journals: acc.journals.push(j), ..acc },
            Err(e) => Collected {
                diagnostics: acc.diagnostics.push(section_diagnostic("journal"@, sec.id, e)),
                ..acc
            },
        },
        SectionKind::Script => match program_of(sec.payload, dict) {
            Ok(p) => Collected { scripts: acc.scripts.push(p), ..acc },
            Err(e) => Collected {
                diagnostics: acc.diagnostics.push(section_diagnostic("script"@, sec.id, e)),
                ..acc
            },
        },
        _ => acc,
    }
}

/// What the sections yield, in order, after `acc`.
pub open spec fn collect(
    secs: Seq<SectionModel>,
    acc: Collected,
    dict: Seq<DictionaryEntryModel>,
    catalog: CatalogModel,
) -> Collected
    decreases secs.len(),
{
    if secs.len() == 0 {
        acc
    } else {
        collect_step(collect(secs.drop_last(), acc, dict, catalog), secs.last(), dict, catalog)
    }
}

/// The bundle that bytes decode to.
pub open spec fn bundle_of(s: Seq<u8>, max_sections: nat, max_len: nat, catalog: CatalogModel) -> Result<
    BundleModel,
> {
    match envelope_of(s, max_sections, max_len) {
        Err(e) => Err(e),
        Ok(env) => match dictionary_after(env.sections, seq![]) {
            Err(e) => Err(e),
            Ok(dict) => {
                let start = Collected {
                    routes: seq![],
                    frames: seq![],
                    occupancy: seq![],
                    journals: seq![],
                    scripts: seq![],
                    diagnostics: env.warnings,
                };
                let col = collect(env.sections, start, dict, catalog);
                Ok(
                    BundleModel {
                        envelope: env,
                        dictionary: dict,
                        routes: col.routes,
                        frames: col.frames,
                        messages: run_frames(
                            empty_reassembler(),
                            col.frames,
                            col.routes,
                            dict,
                            catalog,
                        ).1,
                        occupancy: col.occupancy,
                        journals: col.journals,
                        scripts: col.scripts,
                        diagnostics: col.diagnostics,
                    },
                )
            },
        },
    }
}

/// Each section adds at most one diagnostic, after those already collected.
pub proof fn lemma_collect_diagnostics(
    secs: Seq<SectionModel>,
    acc: Collected,
    dict: Seq<DictionaryEntryModel>,
    catalog: CatalogModel,
)
    ensures
        acc.diagnostics.len() <= collect(secs, acc, dict, catalog).diagnostics.len()
            <= acc.diagnostics.len() + secs.len(),
        collect(secs, acc, dict, catalog).diagnostics.subrange(0, acc.diagnostics.len() as int)
            == acc.diagnostics,
    decreases secs.len(),
{
    if secs.len() > 0 {
        lemma_collect_diagnostics(secs.drop_last(), acc, dict, catalog);
        let prev = collect(secs.drop_last(), acc, dict, catalog);
        let next = collect(secs, acc, dict, catalog);
        let n = acc.diagnostics.len() as int;
        assert(next.diagnostics.len() <= prev.diagnostics.len() + 1);
        assert(next.diagnostics.subrange(0, prev.diagnostics.len() as int) =~= prev.diagnostics);
        assert(next.diagnostics.subrange(0, n) =~= prev.diagnostics.subrange(0, n));
    } else {
        assert(acc.diagnostics.subrange(0, acc.diagnostics.len() as int) =~= acc.diagnostics);
    }
}

/// A bundle is refused only for its envelope or for one of its dictionary pages. A
/// section of any other kind that cannot be decoded does not refuse the bundle: the
/// diagnostics start with the envelope's warnings and add at most one line per
/// section. A bundle completes at most one message per frame.
pub proof fn lemma_bundle_outcome(s: Seq<u8>, max_sections: nat, max_len: nat, catalog: CatalogModel)
    ensures
        bundle_of(s, max_sections, max_len, catalog) is Ok <==> (envelope_of(
            s,
            max_sections,
            max_len,
        ) matches Ok(env) && dictionary_after(env.sections, seq![]) is Ok),
        bundle_of(s, max_sections, max_len, catalog) matches Ok(b) ==> {
            &&& b.diagnostics.subrange(0, b.envelope.warnings.len() as int) == b.envelope.warnings
            &&& b.diagnostics.len() <= b.envelope.warnings.len() + b.envelope.sections.len()
            &&& b.messages.len() <= b.frames.len()
        },
{
    if let Ok(env) = envelope_of(s, max_sections, max_len) {
        if let Ok(dict) = dictionary_after(env.sections, seq![]) {
            let start = Collected {
                routes: seq![],
                frames: seq![],
                occupancy: seq![],
                journals: seq![],
                scripts: seq![],
                diagnostics: env.warnings,
            };
            lemma_collect_diagnostics(env.sections, start, dict, catalog);
            let col = collect(env.sections, start, dict, catalog);
            crate::reassembler::lemma_run_frames_bounded(col.frames, col.routes, dict, catalog);
        }
    }
}

/// The sections' yield while it is being collected.
struct Yield {
    routes: Vec<RoutePlan>,
    frames: Vec<Frame>,
    occupancy: Vec<OccupancyBatch>,
    journals: Vec<Journal>,
    scripts: Vec<ScriptProgram>,
    diagnostics: Vec<String>,
}

impl View for Yield {
    type V = Collected;

    closed spec fn view(&self) -> Collected {
        Collected {
            routes: views(self.routes@),
            frames: views(self.frames@),
            occupancy: views(self.occupancy@),
            journals: views(self.journals@),
            scripts: views(self.scripts@),
            diagnostics: views(self.diagnostics@),
        }
    }
}

fn section_diagnostic_text(kind: &str, id: u8, e: JunctionError) -> (s: String)
    ensures
        s@ == section_diagnostic(kind@, id, e),
{
    let s = concat(kind.to_owned(), " section ");
    let s = concat(s, dec_string(id as usize).as_str());
    let s = concat(s, ": ");
    concat(s, e.message().as_str())
}

fn copy_texts(v: &Vec<String>) -> (r: Vec<String>)
    ensures
        views(r@) == views(v@),
{
    let mut r: Vec<String> = Vec::new();
    let mut i: usize = 0;
    while i < v.len()
        invariant
            i <= v@.len(),
            views(r@) == views(v@.take(i as int)),
        decreases v.len() - i,
    {
        let t = v[i].clone();
        proof {
            crate::model::lemma_views_push(r@, t);
            assert(v@.take(i + 1) =~= v@.take(i as int).push(v@[i as int]));
            crate::model::lemma_views_push(v@.take(i as int), v@[i as int]);
        }
        r.push(t);
        i = i + 1;
    }
    assert(v@.take(v@.len() as int) =~= v@);
    r
}

fn load_dictionary(sections: &Vec<Section>, dict: &mut Dictionary) -> (r: Result<()>)
    requires
        old(dict)@ == Seq::<DictionaryEntryModel>::empty(),
    ensures
        match r {
            Ok(()) => dictionary_after(views(sections@), seq![]) == Ok::<
                Seq<DictionaryEntryModel>,
                JunctionError,
            >(final(dict)@),
            Err(e) => dictionary_after(views(sections@), seq![]) == Err::<
                Seq<DictionaryEntryModel>,
                JunctionError,
            >(e),
        },
{
    let ghost secs = views(sections@);
    let mut i: usize = 0;
    assert(secs.take(0) =~= Seq::<SectionModel>::empty());
    while i < sections.len()
        invariant
            i <= sections@.len(),
            secs == views(sections@),
            dictionary_after(secs.take(i as int), seq![]) == Ok::<
                Seq<DictionaryEntryModel>,
                JunctionError,
            >(dict@),
        decreases sections.len() - i,
    {
        let section = &sections[i];
        assert(secs.take(i + 1).drop_last() =~= secs.take(i as int));
        assert(secs.take(i + 1).last() == section@);
        if section.kind == SectionKind::Dictionary {
            let r = dict.parse_page(section.payload.as_slice());
            match r {
                Ok(()) => {},
                Err(e) => {
                    proof {
                        lemma_dictionary_error_sticks(secs, i as int + 1, e);
                    }
                    return Err(e);
                },
            }
        }
        i = i + 1;
    }
    assert(secs.take(sections@.len() as int) =~= secs);
    Ok(())
}

/// Once a page error stops the dictionary, more sections do not change that.
proof fn lemma_dictionary_error_sticks(secs: Seq<SectionModel>, n: int, e: JunctionError)
    requires
        0 <= n <= secs.len(),
        dictionary_after(secs.take(n), seq![]) == Err::<Seq<DictionaryEntryModel>, JunctionError>(e),
    ensures
        dictionary_after(secs, seq![]) == Err::<Seq<DictionaryEntryModel>, JunctionError>(e),
    decreases secs.len() - n,
{
    if n < secs.len() {
        assert(secs.take(n + 1).drop_last() =~= secs.take(n));
        lemma_dictionary_error_sticks(secs, n + 1, e);
    } else {
        assert(secs.take(n) =~= secs);
    }
}

fn collect_sections(
    sections: &Vec<Section>,
    dict: &Dictionary,
    catalog: &Catalog,
    diagnostics: Vec<String>,
) -> (y: Yield)
    ensures
        y@ == collect(
            views(sections@),
            Collected {
                routes: seq![],
                frames: seq![],
                occupancy: seq![],
                journals: seq![],
                scripts: seq![],
                diagnostics: views(diagnostics@),
            },
            dict@,
            catalog@,
        ),
        forall|k: int| 0 <= k < y.scripts@.len() ==> (#[trigger] y.scripts@[k]).opcodes@.len() <= 192,
        forall|k: int| 0 <= k < y.occupancy@.len() ==> (#[trigger] y.occupancy@[k]).events@.len() <= 192,
        forall|k: int| 0 <= k < y.journals@.len() ==> (#[trigger] y.journals@[k]).records@.len() <= 128,
        y.scripts@.len() <= sections@.len(),
        y.occupancy@.len() <= sections@.len(),
        y.journals@.len() <= sections@.len(),
{
    let ghost secs = views(sections@);
    let ghost start = Collected {
        routes: seq![],
        frames: seq![],
        occupancy: seq![],
        journals: seq![],
        scripts: seq![],
        diagnostics: views(diagnostics@),
    };
    let mut y = Yield {
        routes: Vec::new(),
        frames: Vec::new(),
        occupancy: Vec::new(),
        journals: Vec::new(),
        scripts: Vec::new(),
        diagnostics,
    };
    assert(y@.routes =~= start.routes);
    assert(y@.frames =~= start.frames);
    assert(y@.occupancy =~= start.occupancy);
    assert(y@.journals =~= start.journals);
    assert(y@.scripts =~= start.scripts);
    let mut i: usize = 0;
    assert(secs.take(0) =~= Seq::<SectionModel>::empty());
    while i < sections.len()
        invariant
            i <= sections@.len(),
            secs == views(sections@),
            y@ == collect(secs.take(i as int), start, dict@, catalog@),
            forall|k: int| 0 <= k < y.scripts@.len() ==> (#[trigger] y.scripts@[k]).opcodes@.len() <= 192,
            forall|k: int| 0 <= k < y.occupancy@.len() ==> (#[trigger] y.occupancy@[k]).events@.len() <= 192,
            forall|k: int| 0 <= k < y.journals@.len() ==> (#[trigger] y.journals@[k]).records@.len() <= 128,
            y.scripts@.len() <= i,
            y.occupancy@.len() <= i,
            y.journals@.len() <= i,
        decreases sections.len() - i,
    {
        let section = &sections[i];
        assert(secs.take(i + 1).drop_last() =~= secs.take(i as int));
        assert(secs.take(i + 1).last() == section@);
        let payload = section.payload.as_slice();
        let ghost before = y@;
        match section.kind {
            SectionKind::RoutePlan => {
                match parse_route_plans(payload, dict, catalog) {
                    Ok(mut parsed) => {
                        let ghost pv = views(parsed@);
                        proof {
                            crate::model::lemma_views_add(y.routes@, parsed@);
                        }
                        y.routes.append(&mut parsed);
                        assert(y@ == Collected { routes: before.routes + pv, ..before });
                    },
                    Err(e) => {
                        let d = section_diagnostic_text("route", section.id, e);
                        proof {
                            crate::model::lemma_views_push(y.diagnostics@, d);
                        }
                        y.diagnostics.push(d);
                    },
                }
            },
            SectionKind::RadioFrames | SectionKind::Transcript => {
                match parse_frames(payload) {
                    Ok(mut parsed) => {
                        let ghost pv = views(parsed@);
                        proof {
                            crate::model::lemma_views_add(y.frames@, parsed@);
                        }
                        y.frames.append(&mut parsed);
                        assert(y@ == Collected { frames: before.frames + pv, ..before });
                    },
                    Err(e) => {
                        let d = section_diagnostic_text("frame", section.id, e);
                        proof {
                            crate::model::lemma_views_push(y.diagnostics@, d);
                        }
                        y.diagnostics.push(d);
                    },
                }
            },
            SectionKind::Occupancy => {
                match parse_occupancy_batch(payload, dict, catalog) {
                    Ok(batch) => {
                        proof {
                            crate::model::lemma_views_push(y.occupancy@, batch);
                        }
                        y.occupancy.push(batch);
                    },
                    Err(e) => {
                        let d = section_diagnostic_text("occupancy", section.id, e);
                        proof {
                            crate::model::lemma_views_push(y.diagnostics@, d);
                        }
                        y.diagnostics.push(d);
                    },
                }
            },
            SectionKind::Journal => {
                match parse_journal(payload, dict) {
                    Ok(j) => {
                        proof {
                            crate::model::lemma_views_push(y.journals@, j);
                        }
                        y.journals.push(j);
                    },
                    Err(e) => {
                        let d = section_diagnostic_text("journal", section.id, e);
                        proof {
                            crate::model::lemma_views_push(y.diagnostics@, d);
                        }
                        y.diagnostics.push(d);
                    },
                }
            },
            SectionKind::Script => {
                match parse_script_program(payload, dict) {
                    Ok(p) => {
                        proof {
                            crate::model::lemma_views_push(y.scripts@, p);
                        }
                        y.scripts.push(p);
                    },
                    Err(e) => {
                        let d = section_diagnostic_text("script", section.id, e);
                        proof {
                            crate::model::lemma_views_push(y.diagnostics@, d);
                        }
                        y.diagnostics.push(d);
                    },
                }
            },
            _ => {},
        }
        i = i + 1;
    }
    assert(secs.take(sections@.len() as int) =~= secs);
    y
}

/// Decodes bundles: the envelope, then each section by its kind.
pub struct BundleDecoder {
    max_sections: usize,
    max_section_len: usize,
    catalog: Catalog,
}

impl Default for BundleDecoder {
    fn default() -> (d: Self)
        ensures
            d.max_sections() == 64,
            d.max_section_len() == 16 * 1024,
            d.catalog() == crate::catalog::empty_catalog(),
    {
        Self::new()
    }
}

fn checksum_warning_text(id: u8, checksum: u16, calc: u16) -> (s: String)
    ensures
        s@ == checksum_warning(id, checksum, calc),
{
    let s = concat("section ".to_owned(), dec_string(id as usize).as_str());
    let s = concat(s, " checksum mismatch ");
    let s = concat(s, hex_string(checksum as u32, 4).as_str());
    let s = concat(s, "/");
    concat(s, hex_string(calc as u32, 4).as_str())
}

impl BundleDecoder {
    pub closed spec fn max_sections(&self) -> nat {
        self.max_sections as nat
    }

    pub closed spec fn max_section_len(&self) -> nat {
        self.max_section_len as nat
    }

    pub closed spec fn catalog(&self) -> CatalogModel {
        self.catalog@
    }

    pub fn new() -> (d: Self)
        ensures
            d.max_sections() == 64,
            d.max_section_len() == 16 * 1024,
            d.catalog() == crate::catalog::empty_catalog(),
    {
        Self { max_sections: 64, max_section_len: 16 * 1024, catalog: Catalog::new() }
    }

    /// A decoder that consults the given catalog.
    pub fn with_catalog(catalog: Catalog) -> (d: Self)
        ensures
            d.max_sections() == 64,
            d.max_section_len() == 16 * 1024,
            d.catalog() == catalog@,
    {
        Self { max_sections: 64, max_section_len: 16 * 1024, catalog }
    }

    /// Decodes a bundle.
    pub fn parse(&self, data: &[u8]) -> (r: Result<Bundle>)
        ensures
            match r {
                Ok(b) => bundle_of(data@, self.max_sections(), self.max_section_len(), self.catalog())
                    == Ok::<BundleModel, JunctionError>(b@),
                Err(e) => bundle_of(
                    data@,
                    self.max_sections(),
                    self.max_section_len(),
                    self.catalog(),
                ) == Err::<BundleModel, JunctionError>(e),
            },
            r matches Ok(b) ==> {
                &&& forall|k: int|
                    0 <= k < b.scripts@.len() ==> (#[trigger] b.scripts@[k]).opcodes@.len() <= 192
                &&& forall|k: int|
                    0 <= k < b.occupancy@.len() ==> (#[trigger] b.occupancy@[k]).events@.len()
                        <= 192
                &&& forall|k: int|
                    0 <= k < b.journals@.len() ==> (#[trigger] b.journals@[k]).records@.len()
                        <= 128
                &&& b.scripts@.len() <= self.max_sections()
                &&& b.occupancy@.len() <= self.max_sections()
                &&& b.journals@.len() <= self.max_sections()
            },
    {
        let envelope = self.parse_envelope(data)?;
        let mut dictionary = Dictionary::new();
        load_dictionary(&envelope.sections, &mut dictionary)?;
        let diagnostics = copy_texts(&envelope.warnings);
        let y = collect_sections(&envelope.sections, &dictionary, &self.catalog, diagnostics);
        let mut reassembler = Reassembler::new();
        let messages = reassembler.reassemble(
            y.frames.as_slice(),
            y.routes.as_slice(),
            &dictionary,
            &self.catalog,
        );
        Ok(
            Bundle {
                envelope,
                dictionary,
                routes: y.routes,
                frames: y.frames,
                messages,
                occupancy: y.occupancy,
                journals: y.journals,
                scripts: y.scripts,
                diagnostics: y.diagnostics,
            },
        )
    }

    pub fn parse_envelope(&self, data: &[u8]) -> (r: Result<Envelope>)
        ensures
            match r {
                Ok(env) => envelope_of(data@, self.max_sections(), self.max_section_len())
                    == Ok::<EnvelopeModel, JunctionError>(env@) && env.sections@.len()
                    <= self.max_sections(),
                Err(e) => envelope_of(data@, self.max_sections(), self.max_section_len())
                    == Err::<EnvelopeModel, JunctionError>(e),
            },
    {
        let mut c = Cursor::new(data);
        if c.remaining() < 12 {
            return Err(JunctionError::Truncated { needed: 12, remaining: c.remaining() });
        }
        let ghost s = data@;
        let magic = c.read_bytes(4)?;
        if !(magic[0] == 0x4a && magic[1] == 0x54 && magic[2] == 0x52 && magic[3] == 0x43) {
            proof {
                if s.subrange(0, 4) == bundle_magic() {
                    assert(magic@[0] == 0x4a && magic@[1] == 0x54 && magic@[2] == 0x52);
                }
            }
            return Err(JunctionError::BadMagic);
        }
        assert(s.subrange(0, 4) =~= bundle_magic());
        let version = c.read_u8()?;
        if version == 0 || version > 3 {
            return Err(JunctionError::UnsupportedVersion(version));
        }
        let flags = c.read_u8()?;
        let station_id = c.read_u16()?;
        let epoch = c.read_u32()?;
        let section_count = c.read_u8()?;
        let _header_flags = c.read_u8()?;
        let _reserved = c.read_u16()?;
        let mut sections: Vec<Section> = Vec::new();
        let mut warnings: Vec<String> = Vec::new();
        let mut left: usize = if (section_count as usize) < self.max_sections {
            section_count as usize
        } else {
            self.max_sections
        };
        let ghost wanted = left as nat;
        let ghost max_len = self.max_section_len as nat;
        assert(views(sections@) =~= Seq::<SectionModel>::empty());
        assert(views(warnings@) =~= Seq::<Seq<char>>::empty());
        while left > 0 && c.remaining() >= 8
            invariant_except_break
                sections_from(s, 16, wanted, seq![], seq![], max_len) == sections_from(
                    s,
                    c.pos(),
                    left as nat,
                    views(sections@),
                    views(warnings@),
                    max_len,
                ),
            invariant
                c.bytes() == s,
                s == data@,
                max_len == self.max_section_len,
                sections@.len() + left <= wanted,
                wanted <= self.max_sections(),
                s.len() >= 16,
                s.subrange(0, 4) == bundle_magic(),
                !(s[4] == 0 || s[4] > 3),
                wanted == (if (s[12] as nat) < self.max_sections() {
                    s[12] as nat
                } else {
                    self.max_sections()
                }),
                0 <= c.pos() <= s.len(),
            ensures
                sections_from(s, 16, wanted, seq![], seq![], max_len) == Ok::<
                    (Seq<SectionModel>, Seq<Seq<char>>),
                    JunctionError,
                >((views(sections@), views(warnings@))),
            decreases left,
        {
            let raw_kind = c.read_u8()?;
            let id = c.read_u8()?;
            let flags = c.read_u16()?;
            let len = c.read_u16()? as usize;
            let checksum = c.read_u16()?;
            if len > self.max_section_len {
                return Err(JunctionError::LimitExceeded(Subject::SectionPayload));
            }
            if c.remaining() < len {
                break;
            }
            let payload = c.read_vec(len)?;
            let calc = crc16(payload.as_slice());
            if calc != checksum && flags & 0x0001 != 0 {
                let w = checksum_warning_text(id, checksum, calc);
                proof {
                    crate::model::lemma_views_push(warnings@, w);
                }
                warnings.push(w);
            }
            let score = section_score(raw_kind, id, flags, payload.as_slice());
            let section = Section {
                kind: SectionKind::from_byte(raw_kind),
                id,
                flags,
                checksum,
                payload,
                score,
            };
            proof {
                crate::model::lemma_views_push(sections@, section);
            }
            sections.push(section);
            left = left - 1;
        }
        Ok(Envelope { version, flags, station_id, epoch, section_count, sections, warnings })
    }
}

} // verus!
