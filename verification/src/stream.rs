use vstd::prelude::*;

use crate::catalog::{empty_catalog, Catalog};
use crate::checksum::{crc16, crc16_of};
use crate::cursor::le16;
use crate::dictionary::Dictionary;
use crate::error::{JunctionError, Result};
use crate::frame::{frames_of, parse_frames};
use crate::model::{
    views, Bundle, BundleModel, EnvelopeModel, Frame, FrameModel, Envelope, Section, SectionKind,
    SectionModel,
};
use crate::reassembler::{empty_reassembler, run_frames, Reassembler};

verus! {

/// The bytes a stream decoder holds and the station it names.
pub ghost struct StreamModel {
    pub buffer: Seq<u8>,
    pub station_id: u16,
}

/// How many bytes a stream decoder keeps.
pub open spec fn stream_window() -> nat {
    64 * 1024
}

/// The stream decoder after more bytes arrive: the station is read from the first two
/// bytes held, and then only the last 64 KiB are kept.
pub open spec fn fed(st: StreamModel, data: Seq<u8>) -> StreamModel {
    let b = st.buffer + data;
    let station_id = if b.len() >= 2 { le16(b, 0) } else { st.station_id };
    let kept = if b.len() > stream_window() {
        b.subrange(b.len() - stream_window(), b.len() as int)
    } else {
        b
    };
    StreamModel { buffer: kept, station_id }
}

/// A stream decoder holds at most 64 KiB: the last bytes of what it held and what
/// arrived.
pub proof fn lemma_fed_keeps_tail(st: StreamModel, data: Seq<u8>)
    ensures
        fed(st, data).buffer.len() <= stream_window(),
        fed(st, data).buffer == (st.buffer + data).subrange(
            (st.buffer + data).len() - fed(st, data).buffer.len(),
            (st.buffer + data).len() as int,
        ),
{
    let b = st.buffer + data;
    if b.len() <= stream_window() {
        assert(b.subrange(0, b.len() as int) =~= b);
    }
}

/// Feeding bytes in two pieces leaves the decoder holding the same bytes as feeding
/// them at once.
pub proof fn lemma_fed_in_pieces(st: StreamModel, a: Seq<u8>, b: Seq<u8>)
    ensures
        fed(fed(st, a), b).buffer == fed(st, a + b).buffer,
{
    let x = st.buffer + a;
    let w = stream_window() as int;
    let k1 = fed(st, a).buffer;
    let all = st.buffer + (a + b);
    assert(all =~= x + b);
    let y = k1 + b;
    if x.len() > w {
        assert(k1 == x.subrange(x.len() - w, x.len() as int));
        assert(y =~= (x + b).subrange(x.len() - w, (x + b).len() as int));
        if y.len() > w {
            assert(y.subrange(y.len() - w, y.len() as int) =~= all.subrange(
                all.len() - w,
                all.len() as int,
            ));
        }
    } else {
        assert(y =~= all);
    }
}

/// The frames a stream holds; a stream whose frames do not decode holds none.
pub open spec fn stream_frames(buffer: Seq<u8>) -> Seq<FrameModel> {
    match frames_of(buffer) {
        Ok(fs) => fs,
        Err(_) => seq![],
    }
}

/// The bundle a stream decoder finishes with: one radio frame section holding the
/// buffer, its frames, and the messages they complete.
pub open spec fn stream_bundle(st: StreamModel) -> BundleModel {
    let frames = stream_frames(st.buffer);
    BundleModel {
        envelope: EnvelopeModel {
            version: 1,
            flags: 0,
            station_id: st.station_id,
            epoch: 0,
            section_count: 1,
            sections: seq![
                SectionModel {
                    kind: SectionKind::RadioFrames,
                    id: 0,
                    flags: 0,
                    checksum: crc16_of(st.buffer),
                    payload: st.buffer,
                    score: 0,
                },
            ],
            warnings: seq![],
        },
        dictionary: seq![],
        routes: seq![],
        frames,
        messages: run_frames(empty_reassembler(), frames, seq![], seq![], empty_catalog()).1,
        occupancy: seq![],
        journals: seq![],
        scripts: seq![],
        diagnostics: seq![],
    }
}

/// Decodes a stream of radio frames fed in pieces.
pub struct StreamDecoder {
    buffer: Vec<u8>,
    station_id: u16,
}

impl View for StreamDecoder {
    type V = StreamModel;

    closed spec fn view(&self) -> StreamModel {
        StreamModel { buffer: self.buffer@, station_id: self.station_id }
    }
}

impl Default for StreamDecoder {
    fn default() -> (d: Self)
        ensures
            d@.buffer.len() == 0,
            d@.station_id == 0,
    {
        Self::new()
    }
}

impl StreamDecoder {
    pub fn new() -> (d: Self)
        ensures
            d@.buffer.len() == 0,
            d@.station_id == 0,
    {
        Self { buffer: Vec::new(), station_id: 0 }
    }

    pub fn feed(&mut self, data: &[u8]) -> (r: Result<()>)
        ensures
            final(self)@ == fed(old(self)@, data@),
            r == Ok::<(), JunctionError>(()),
    {
        let ghost start = self.buffer@;
        let mut i: usize = 0;
        while i < data.len()
            invariant
                i <= data@.len(),
                self.buffer@ == start + data@.take(i as int),
                self.station_id == old(self)@.station_id,
                start == old(self)@.buffer,
            decreases data.len() - i,
        {
            self.buffer.push(data[i]);
            assert(data@.take(i + 1) =~= data@.take(i as int).push(data@[i as int]));
            i = i + 1;
        }
        assert(data@.take(data@.len() as int) =~= data@);
        if self.buffer.len() >= 2 {
            self.station_id = self.buffer[0] as u16 + (self.buffer[1] as u16) * 256;
        }
        if self.buffer.len() > 64 * 1024 {
            let keep = self.buffer.len() - 64 * 1024;
            self.buffer = vstd::slice::slice_to_vec(
                vstd::slice::slice_subrange(self.buffer.as_slice(), keep, self.buffer.len()),
            );
        }
        Ok(())
    }

    pub fn finish(self) -> (r: Result<Bundle>)
        ensures
            r matches Ok(b) && b@ == stream_bundle(self@),
    {
        let frames = match parse_frames(self.buffer.as_slice()) {
            Ok(f) => f,
            Err(_) => Vec::new(),
        };
        assert(views(frames@) == stream_frames(self@.buffer)) by {
            if frames_of(self@.buffer) is Err {
                assert(views(frames@) =~= Seq::<FrameModel>::empty());
            }
        }
        let mut reassembler = Reassembler::new();
        let dictionary = Dictionary::new();
        let no_routes: Vec<crate::model::RoutePlan> = Vec::new();
        assert(views(no_routes@) =~= Seq::<crate::model::RoutePlanModel>::empty());
        let messages = reassembler.reassemble(
            frames.as_slice(),
            no_routes.as_slice(),
            &dictionary,
            &Catalog::new(),
        );
        let ghost buffer = self.buffer@;
        let section = Section {
            kind: SectionKind::RadioFrames,
            id: 0,
            flags: 0,
            checksum: crc16(self.buffer.as_slice()),
            payload: self.buffer,
            score: 0,
        };
        let ghost sv = section@;
        let mut sections: Vec<Section> = Vec::new();
        sections.push(section);
        let envelope = Envelope {
            version: 1,
            flags: 0,
            station_id: self.station_id,
            epoch: 0,
            section_count: 1,
            sections,
            warnings: Vec::new(),
        };
        let b = Bundle {
            envelope,
            dictionary,
            routes: Vec::new(),
            frames,
            messages,
            occupancy: Vec::new(),
            journals: Vec::new(),
            scripts: Vec::new(),
            diagnostics: Vec::new(),
        };
        proof {
            assert(b@.envelope.sections =~= seq![sv]);
            assert(b@.envelope.warnings =~= Seq::<Seq<char>>::empty());
            assert(b@.dictionary =~= Seq::<crate::dictionary::DictionaryEntryModel>::empty());
            assert(b@.routes =~= Seq::<crate::model::RoutePlanModel>::empty());
            assert(b@.occupancy =~= Seq::<crate::model::OccupancyBatchModel>::empty());
            assert(b@.journals =~= Seq::<crate::model::JournalModel>::empty());
            assert(b@.scripts =~= Seq::<crate::model::ScriptProgramModel>::empty());
            assert(b@.diagnostics =~= Seq::<Seq<char>>::empty());
        }
        Ok(b)
    }
}

} // verus!
