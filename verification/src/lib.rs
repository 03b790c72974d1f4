//! Decoding of rail interlocking evidence bundles recovered from wayside
//! controllers, dispatch laptops and signal maintenance recorders.

use vstd::prelude::*;

pub mod analysis;
pub mod attachment;
pub mod catalog;
pub mod checksum;
pub mod cursor;
pub mod dictionary;
pub mod envelope;
pub mod error;
pub mod frame;
pub mod journal;
pub mod model;
pub mod occupancy;
pub mod reassembler;
pub mod route;
pub mod script;
pub mod stream;
pub mod text;
pub mod unsafe_lanes;

pub use analysis::{AnalysisFinding, AnalysisReport};
pub use envelope::BundleDecoder;
pub use error::{JunctionError, Result};
pub use model::{Bundle, Envelope, Frame, Journal, OccupancyBatch, RoutePlan, ScriptProgram};

use analysis::{analysis_of, lemma_total_events_bound, lemma_total_records_bound, Analyzer, ReportModel};
use catalog::empty_catalog;
use dictionary::Dictionary;
use envelope::bundle_of;
use journal::journal_of;
use model::{BundleModel, JournalModel, views};
use script::{program_of, report_of, ExecutionReport};
use stream::{fed, stream_bundle, StreamDecoder, StreamModel};

verus! {

/// The bundle that bytes decode to, with the standard limits and no catalog.
pub open spec fn standard_bundle_of(s: Seq<u8>) -> Result<BundleModel> {
    bundle_of(s, 64, 16 * 1024, empty_catalog())
}

pub fn parse_bundle(data: &[u8]) -> (r: Result<Bundle>)
    ensures
        match r {
            Ok(b) => standard_bundle_of(data@) == Ok::<BundleModel, JunctionError>(b@),
            Err(e) => standard_bundle_of(data@) == Err::<BundleModel, JunctionError>(e),
        },
        r matches Ok(b) ==> {
            &&& forall|k: int|
                0 <= k < b.scripts@.len() ==> (#[trigger] b.scripts@[k]).opcodes@.len() <= 192
            &&& forall|k: int|
                0 <= k < b.occupancy@.len() ==> (#[trigger] b.occupancy@[k]).events@.len() <= 192
            &&& forall|k: int|
                0 <= k < b.journals@.len() ==> (#[trigger] b.journals@[k]).records@.len() <= 128
            &&& b.scripts@.len() <= 64
            &&& b.occupancy@.len() <= 64
            &&& b.journals@.len() <= 64
        },
{
    BundleDecoder::new().parse(data)
}

pub fn decode_and_analyze_bundle(data: &[u8]) -> (r: Result<AnalysisReport>)
    ensures
        match r {
            Ok(rep) => standard_bundle_of(data@) matches Ok(b) && rep@ == analysis_of(
                b,
                empty_catalog(),
            ),
            Err(e) => standard_bundle_of(data@) == Err::<BundleModel, JunctionError>(e),
        },
{
    let bundle = parse_bundle(data)?;
    proof {
        lemma_total_events_bound(bundle@.occupancy);
        lemma_total_records_bound(bundle@.journals);
        assert forall|k: int| 0 <= k < bundle@.occupancy.len() implies (#[trigger] bundle@.occupancy[k]).events.len() <= 192 by {
            assert(bundle@.occupancy[k] == bundle.occupancy@[k]@);
        }
        assert forall|k: int| 0 <= k < bundle@.journals.len() implies (#[trigger] bundle@.journals[k]).records.len() <= 128 by {
            assert(bundle@.journals[k] == bundle.journals@[k]@);
        }
    }
    Ok(Analyzer::new().analyze(&bundle))
}

pub fn decode_stream(data: &[u8]) -> (r: Result<Bundle>)
    ensures
        r matches Ok(b) && b@ == stream_bundle(
            fed(StreamModel { buffer: seq![], station_id: 0 }, data@),
        ),
{
    let mut decoder = StreamDecoder::new();
    proof {
        assert(decoder@.buffer =~= Seq::<u8>::empty());
    }
    decoder.feed(data)?;
    decoder.finish()
}

pub fn decode_journal_bytes(data: &[u8]) -> (r: Result<Journal>)
    ensures
        match r {
            Ok(j) => journal_of(data@, seq![]) == Ok::<JournalModel, JunctionError>(j@),
            Err(e) => journal_of(data@, seq![]) == Err::<JournalModel, JunctionError>(e),
        },
{
    journal::parse_journal(data, &Dictionary::new())
}

pub fn run_script_bytes(data: &[u8]) -> (r: Result<ExecutionReport>)
    ensures
        match r {
            Ok(rep) => program_of(data@, seq![]) matches Ok(p) && rep@ == report_of(p),
            Err(e) => program_of(data@, seq![]) == Err::<crate::model::ScriptProgramModel, JunctionError>(e),
        },
{
    script::compile_and_run(data)
}

} // verus!
