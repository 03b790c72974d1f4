use vstd::prelude::*;

use crate::checksum::{rotate32, rotl32};
use crate::cursor::{le16, Cursor};
use crate::error::{JunctionError, Result, Subject};
use crate::model::{after, cons, lemma_after_cons, lemma_after_empty, views, Frame, FrameModel};

verus! {

pub const FLAG_DEFER_AUDIT: u8 = 0x20;

pub const FLAG_CONTROLLED_RELEASE: u8 = 0x40;

/// The frame whose 13-byte header starts at `p` and whose payload follows it.
pub open spec fn frame_at(s: Seq<u8>, p: int) -> FrameModel {
    let payload_len = le16(s, p + 9) as int;
    FrameModel {
        msg_type: s[p],
        seq: le16(s, p + 1),
        frag_index: s[p + 3],
        frag_total: if s[p + 4] < 1 { 1 } else { s[p + 4] },
        route_id: le16(s, p + 5),
        channel: s[p + 7],
        flags: s[p + 8],
        payload: s.subrange(p + 13, p + 13 + payload_len),
        trailer: le16(s, p + 11),
    }
}

/// The frames found from position `p`, with at most `left` frames still to read.
/// A header or payload cut short ends the list; an oversized payload is an error.
pub open spec fn frames_from(s: Seq<u8>, p: int, left: nat) -> Result<Seq<FrameModel>>
    decreases left,
{
    if left == 0 || p < 0 || s.len() - p < 13 {
        Ok(seq![])
    } else {
        let payload_len = le16(s, p + 9) as int;
        if payload_len > 2048 {
            Err(JunctionError::LimitExceeded(Subject::FramePayload))
        } else if s.len() - (p + 13) < payload_len {
            Ok(seq![])
        } else {
            cons(frame_at(s, p), frames_from(s, p + 13 + payload_len, (left - 1) as nat))
        }
    }
}

/// Every frame read has at least one fragment and a payload of at most 2048 bytes,
/// and at most `left` frames are read.
pub proof fn lemma_frames_from_bounds(s: Seq<u8>, p: int, left: nat)
    ensures
        frames_from(s, p, left) matches Ok(fs) ==> {
            &&& fs.len() <= left
            &&& forall|i: int|
                0 <= i < fs.len() ==> (#[trigger] fs[i]).frag_total >= 1 && fs[i].payload.len()
                    <= 2048
        },
    decreases left,
{
    if !(left == 0 || p < 0 || s.len() - p < 13) {
        let payload_len = le16(s, p + 9) as int;
        if payload_len <= 2048 && s.len() - (p + 13) >= payload_len {
            lemma_frames_from_bounds(s, p + 13 + payload_len, (left - 1) as nat);
            if let Ok(rest) = frames_from(s, p + 13 + payload_len, (left - 1) as nat) {
                let fs = seq![frame_at(s, p)] + rest;
                assert forall|i: int| 0 <= i < fs.len() implies (#[trigger] fs[i]).frag_total >= 1
                    && fs[i].payload.len() <= 2048 by {
                    if i > 0 {
                        assert(fs[i] == rest[i - 1]);
                    }
                }
            }
        }
    }
}

/// A radio frame section yields at most 128 frames, each with at least one fragment
/// and a payload of at most 2048 bytes.
pub proof fn lemma_frames_bounds(s: Seq<u8>)
    ensures
        frames_of(s) matches Ok(fs) ==> {
            &&& fs.len() <= 128
            &&& forall|i: int|
                0 <= i < fs.len() ==> (#[trigger] fs[i]).frag_total >= 1 && fs[i].payload.len()
                    <= 2048
        },
{
    if s.len() > 0 {
        lemma_frames_from_bounds(s, 1, if s[0] < 128 { s[0] as nat } else { 128 });
    }
}

/// The frames of a radio frame section: a count byte (at most 128 are read) and the frames.
pub open spec fn frames_of(s: Seq<u8>) -> Result<Seq<FrameModel>> {
    if s.len() == 0 {
        Ok(seq![])
    } else {
        frames_from(s, 1, if s[0] < 128 { s[0] as nat } else { 128 })
    }
}

pub fn parse_frames(data: &[u8]) -> (r: Result<Vec<Frame>>)
    ensures
        match r {
            Ok(fs) => frames_of(data@) == Ok::<Seq<FrameModel>, JunctionError>(views(fs@)),
            Err(e) => frames_of(data@) == Err::<Seq<FrameModel>, JunctionError>(e),
        },
{
    let mut c = Cursor::new(data);
    if c.is_empty() {
        let v: Vec<Frame> = Vec::new();
        assert(views(v@) =~= Seq::<FrameModel>::empty());
        return Ok(v);
    }
    let count = c.read_u8()? as usize;
    let mut left: usize = if count < 128 { count } else { 128 };
    let mut frames: Vec<Frame> = Vec::new();
    let ghost s = data@;
    proof {
        assert(views(frames@) =~= Seq::<FrameModel>::empty());
        crate::model::lemma_after_nil(frames_from(s, 1, left as nat));
    }
    while left > 0
        invariant
            c.bytes() == s,
            s == data@,
            1 <= c.pos() <= s.len(),
            frames_of(s) == after(views(frames@), frames_from(s, c.pos(), left as nat)),
        decreases left,
    {
        let ghost p = c.pos();
        if c.remaining() < 13 {
            proof {
                lemma_after_empty(views(frames@));
            }
            return Ok(frames);
        }
        let msg_type = c.read_u8()?;
        let seq = c.read_u16()?;
        let frag_index = c.read_u8()?;
        let frag_total = c.read_u8()?;
        let route_id = c.read_u16()?;
        let channel = c.read_u8()?;
        let flags = c.read_u8()?;
        let payload_len = c.read_u16()? as usize;
        let trailer = c.read_u16()?;
        if payload_len > 2048 {
            return Err(JunctionError::LimitExceeded(Subject::FramePayload));
        }
        if c.remaining() < payload_len {
            proof {
                lemma_after_empty(views(frames@));
            }
            return Ok(frames);
        }
        let payload = c.read_vec(payload_len)?;
        let frame = Frame {
            msg_type,
            seq,
            frag_index,
            frag_total: if frag_total < 1 { 1 } else { frag_total },
            route_id,
            channel,
            flags,
            payload,
            trailer,
        };
        assert(frame@ == frame_at(s, p));
        proof {
            lemma_after_cons(
                views(frames@),
                frame@,
                frames_from(s, c.pos(), (left - 1) as nat),
            );
            crate::model::lemma_views_push(frames@, frame);
        }
        frames.push(frame);
        left = left - 1;
    }
    proof {
        lemma_after_empty(views(frames@));
    }
    Ok(frames)
}

/// The entropy of a frame after the first `n` payload bytes.
pub open spec fn entropy_prefix(f: FrameModel, n: nat) -> u32
    decreases n,
{
    if n == 0 {
        f.msg_type as u32 ^ ((f.route_id as u32) << 8u32)
    } else {
        let idx = (n - 1) as int;
        rotl32(entropy_prefix(f, (n - 1) as nat), 5) ^ (f.payload[idx] as u32).wrapping_mul(
            ((idx as u32) | 1u32) as u32,
        )
    }
}

/// A hash of a frame's type, route, payload and trailer.
pub open spec fn entropy_of(f: FrameModel) -> u32 {
    entropy_prefix(f, f.payload.len()) ^ (f.trailer as u32)
}

pub fn frame_entropy(frame: &Frame) -> (h: u32)
    ensures
        h == entropy_of(frame@),
{
    let mut h: u32 = frame.msg_type as u32 ^ ((frame.route_id as u32) << 8);
    let mut idx: usize = 0;
    while idx < frame.payload.len()
        invariant
            idx <= frame.payload@.len(),
            h == entropy_prefix(frame@, idx as nat),
        decreases frame.payload.len() - idx,
    {
        let b = frame.payload[idx];
        h = rotate32(h, 5) ^ (b as u32).wrapping_mul((idx as u32) | 1);
        idx = idx + 1;
    }
    h ^ frame.trailer as u32
}

} // verus!
