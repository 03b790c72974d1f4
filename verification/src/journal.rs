use vstd::prelude::*;

use crate::attachment::{
    arena_add, arena_snapshot, lemma_rolled_back_prefix, rolled_back, ArenaModel,
    AttachmentArena, PageModel,
};
use crate::cursor::{le16, truncated, Cursor};
use crate::dictionary::{
    contains_run, find_key, has_run, Dictionary, DictionaryClass, DictionaryEntryModel,
};
use crate::error::{JunctionError, Result, Subject};
use crate::model::{views, Journal, JournalModel, JournalRecord, JournalRecordModel};
use crate::text::{concat, dec_string, dec_text, hex_string, hex_text};

verus! {

/// The bytes of the word "hold".
pub open spec fn hold_word() -> Seq<u8> {
    seq![0x68u8, 0x6f, 0x6c, 0x64]
}

/// The note written for a journal record.
pub open spec fn note_of(
    opcode: u8,
    tag: u16,
    payload: Seq<u8>,
    dict: Seq<DictionaryEntryModel>,
) -> Seq<char> {
    match find_key(dict, tag, DictionaryClass::Maintainer) {
        Some(e) => e.name + ":"@ + hex_text(opcode as nat, 2) + ":"@ + dec_text(payload.len()),
        None => if contains_run(payload, hold_word()) {
            "hold request "@ + hex_text(tag as nat, 4)
        } else if opcode == 0x7f {
            "commit"@
        } else {
            "record "@ + hex_text(opcode as nat, 2) + "/"@ + hex_text(tag as nat, 4)
        },
    }
}

/// What a journal record does to the attachment arena.
pub open spec fn arena_step(
    a: ArenaModel,
    opcode: u8,
    tag: u16,
    flags: u8,
    payload: Seq<u8>,
    source_id: u16,
) -> ArenaModel {
    if opcode == 0x01 {
        arena_add(a, tag, payload)
    } else if opcode == 0x02 {
        arena_snapshot(a, tag, flags)
    } else if opcode == 0x03 {
        ArenaModel { pages: rolled_back(a.pages, tag), snapshots: a.snapshots }
    } else if opcode == 0x7f {
        a
    } else if flags & 0x20 != 0 {
        arena_add(a, tag ^ source_id, payload)
    } else {
        a
    }
}

/// The state of a journal being read.
pub ghost struct JournalScan {
    pub records: Seq<JournalRecordModel>,
    pub arena: ArenaModel,
    pub committed: bool,
}

/// The journal state after the records from `p`, with at most `left` records still
/// to read, starting from the state `st`. A cut-short record ends the journal.
pub open spec fn journal_from(
    s: Seq<u8>,
    p: int,
    left: nat,
    st: JournalScan,
    dict: Seq<DictionaryEntryModel>,
) -> Result<JournalScan>
    decreases left,
{
    if left == 0 || p < 0 || s.len() - p < 6 {
        Ok(st)
    } else {
        let opcode = s[p];
        let tag = le16(s, p + 1);
        let flags = s[p + 3];
        let payload_len = le16(s, p + 4) as int;
        if payload_len > 4096 {
            Err(JunctionError::LimitExceeded(Subject::JournalPayload))
        } else if s.len() - (p + 6) < payload_len {
            Ok(st)
        } else {
            let payload = s.subrange(p + 6, p + 6 + payload_len);
            let record = JournalRecordModel {
                opcode,
                tag,
                flags,
                payload_len: payload_len as usize,
                note: note_of(opcode, tag, payload, dict),
            };
            let next = JournalScan {
                records: st.records.push(record),
                arena: arena_step(st.arena, opcode, tag, flags, payload, le16(s, 0)),
                committed: st.committed || opcode == 0x7f,
            };
            journal_from(s, p + 6 + payload_len, (left - 1) as nat, next, dict)
        }
    }
}

/// Reading on from state `st` only adds records (at most `left`), and the journal ends
/// committed exactly where it was committed already or a commit record was added.
pub proof fn lemma_journal_from_commits(
    s: Seq<u8>,
    p: int,
    left: nat,
    st: JournalScan,
    dict: Seq<DictionaryEntryModel>,
)
    ensures
        journal_from(s, p, left, st, dict) matches Ok(end) ==> {
            &&& end.records.len() <= st.records.len() + left
            &&& end.records.len() >= st.records.len()
            &&& end.records.subrange(0, st.records.len() as int) == st.records
            &&& end.committed <==> (st.committed || exists|i: int|
                st.records.len() <= i < end.records.len() && (#[trigger] end.records[i]).opcode
                    == 0x7f)
        },
    decreases left,
{
    if !(left == 0 || p < 0 || s.len() - p < 6) {
        let opcode = s[p];
        let tag = le16(s, p + 1);
        let flags = s[p + 3];
        let payload_len = le16(s, p + 4) as int;
        if payload_len <= 4096 && s.len() - (p + 6) >= payload_len {
            let payload = s.subrange(p + 6, p + 6 + payload_len);
            let record = JournalRecordModel {
                opcode,
                tag,
                flags,
                payload_len: payload_len as usize,
                note: note_of(opcode, tag, payload, dict),
            };
            let next = JournalScan {
                records: st.records.push(record),
                arena: arena_step(st.arena, opcode, tag, flags, payload, le16(s, 0)),
                committed: st.committed || opcode == 0x7f,
            };
            lemma_journal_from_commits(s, p + 6 + payload_len, (left - 1) as nat, next, dict);
            if let Ok(end) = journal_from(s, p + 6 + payload_len, (left - 1) as nat, next, dict) {
                let n = st.records.len() as int;
                assert(end.records.subrange(0, n + 1) == st.records.push(record));
                assert(end.records[n] == record) by {
                    assert(end.records.subrange(0, n + 1)[n] == end.records[n]);
                }
                assert(end.records.subrange(0, n) =~= st.records) by {
                    assert(end.records.subrange(0, n) =~= end.records.subrange(0, n + 1).subrange(0, n));
                }
                if end.committed && !st.committed && opcode != 0x7f {
                    let i = choose|i: int| n + 1 <= i < end.records.len() && (#[trigger] end.records[i]).opcode == 0x7f;
                    assert(n <= i);
                }
                if opcode == 0x7f {
                    assert(end.records[n].opcode == 0x7f);
                }
                if !end.committed {
                    assert forall|i: int| n <= i < end.records.len() implies (#[trigger] end.records[i]).opcode != 0x7f by {
                        if i == n {
                        }
                    }
                }
            }
        }
    } else {
        assert(st.records.subrange(0, st.records.len() as int) =~= st.records);
    }
}

/// A journal is committed exactly where one of its records is a commit record, and
/// it holds at most 128 records.
pub proof fn lemma_journal_committed(s: Seq<u8>, dict: Seq<DictionaryEntryModel>)
    ensures
        journal_of(s, dict) matches Ok(j) ==> {
            &&& j.records.len() <= 128
            &&& j.committed <==> exists|i: int| 0 <= i < j.records.len() && (#[trigger] j.records[i]).opcode == 0x7f
        },
{
    if s.len() >= 3 && s[2] <= 128 {
        let start = JournalScan {
            records: seq![],
            arena: ArenaModel { pages: seq![], snapshots: seq![] },
            committed: false,
        };
        lemma_journal_from_commits(s, 3, s[2] as nat, start, dict);
    }
}

/// A record that can store an attachment: a page (0x01), a snapshot request (0x02),
/// or a record of another kind than rollback (0x03) and commit (0x7f) that carries
/// the attachment flag 0x20.
pub open spec fn may_attach(r: JournalRecordModel) -> bool {
    r.opcode == 0x01 || r.opcode == 0x02 || (r.opcode != 0x03 && r.opcode != 0x7f && r.flags
        & 0x20 != 0)
}

/// The number of records that can store an attachment.
pub open spec fn attaching_records(rs: Seq<JournalRecordModel>) -> nat
    decreases rs.len(),
{
    if rs.len() == 0 {
        0
    } else {
        attaching_records(rs.drop_last()) + if may_attach(rs.last()) { 1nat } else { 0nat }
    }
}

/// A commit record, a rollback and a record of another kind without the attachment
/// flag store nothing: the pages held and the snapshots taken do not grow. Any other
/// record stores at most one page or snapshot, and a page record puts its own page on
/// top.
pub proof fn lemma_arena_step_stores(
    a: ArenaModel,
    opcode: u8,
    tag: u16,
    flags: u8,
    payload: Seq<u8>,
    source_id: u16,
)
    ensures
        ({
            let n = arena_step(a, opcode, tag, flags, payload, source_id);
            &&& (opcode == 0x7f || (opcode != 0x01 && opcode != 0x02 && opcode != 0x03 && flags
                & 0x20 == 0)) ==> n == a
            &&& opcode == 0x03 ==> n.snapshots == a.snapshots && n.pages.len() <= a.pages.len()
            &&& n.pages.len() + n.snapshots.len() <= a.pages.len() + a.snapshots.len() + 1
            &&& opcode == 0x01 ==> n.pages.last() == PageModel {
                tag,
                bytes: if payload.len() == 0 { seq![0u8] } else { payload },
            } && n.snapshots == a.snapshots
        }),
{
    lemma_rolled_back_prefix(a.pages, tag);
}

/// Reading on from a state whose arena holds no more pages and snapshots than its
/// records can store keeps it so.
pub proof fn lemma_journal_from_attachments(
    s: Seq<u8>,
    p: int,
    left: nat,
    st: JournalScan,
    dict: Seq<DictionaryEntryModel>,
)
    requires
        st.arena.pages.len() + st.arena.snapshots.len() <= attaching_records(st.records),
    ensures
        journal_from(s, p, left, st, dict) matches Ok(end) ==> end.arena.pages.len()
            + end.arena.snapshots.len() <= attaching_records(end.records),
    decreases left,
{
    if !(left == 0 || p < 0 || s.len() - p < 6) {
        let opcode = s[p];
        let tag = le16(s, p + 1);
        let flags = s[p + 3];
        let payload_len = le16(s, p + 4) as int;
        if payload_len <= 4096 && s.len() - (p + 6) >= payload_len {
            let payload = s.subrange(p + 6, p + 6 + payload_len);
            let record = JournalRecordModel {
                opcode,
                tag,
                flags,
                payload_len: payload_len as usize,
                note: note_of(opcode, tag, payload, dict),
            };
            let next = JournalScan {
                records: st.records.push(record),
                arena: arena_step(st.arena, opcode, tag, flags, payload, le16(s, 0)),
                committed: st.committed || opcode == 0x7f,
            };
            lemma_arena_step_stores(st.arena, opcode, tag, flags, payload, le16(s, 0));
            assert(next.records.drop_last() =~= st.records);
            lemma_journal_from_attachments(s, p + 6 + payload_len, (left - 1) as nat, next, dict);
        }
    }
}

/// A journal counts no more attachments than it has records that can store one:
/// records of another kind without the attachment flag, rollbacks and commits store
/// nothing.
pub proof fn lemma_journal_attachments(s: Seq<u8>, dict: Seq<DictionaryEntryModel>)
    ensures
        journal_of(s, dict) matches Ok(j) ==> j.attachments_seen <= attaching_records(j.records),
{
    if s.len() >= 3 && s[2] <= 128 {
        let start = JournalScan {
            records: seq![],
            arena: ArenaModel { pages: seq![], snapshots: seq![] },
            committed: false,
        };
        lemma_journal_from_attachments(s, 3, s[2] as nat, start, dict);
        lemma_journal_from_commits(s, 3, s[2] as nat, start, dict);
        if let Ok(end) = journal_from(s, 3, s[2] as nat, start, dict) {
            lemma_attaching_records_bound(end.records);
        }
    }
}

proof fn lemma_attaching_records_bound(rs: Seq<JournalRecordModel>)
    ensures
        attaching_records(rs) <= rs.len(),
    decreases rs.len(),
{
    if rs.len() > 0 {
        lemma_attaching_records_bound(rs.drop_last());
    }
}

/// The journal of a journal section.
pub open spec fn journal_of(s: Seq<u8>, dict: Seq<DictionaryEntryModel>) -> Result<JournalModel> {
    if s.len() < 3 {
        Err(truncated(3, s.len() as int))
    } else if s[2] > 128 {
        Err(JunctionError::LimitExceeded(Subject::JournalRecords))
    } else {
        let start = JournalScan {
            records: seq![],
            arena: ArenaModel { pages: seq![], snapshots: seq![] },
            committed: false,
        };
        match journal_from(s, 3, s[2] as nat, start, dict) {
            Ok(st) => Ok(
                JournalModel {
                    source_id: le16(s, 0),
                    records: st.records,
                    attachments_seen: (st.arena.pages.len() + st.arena.snapshots.len()) as usize,
                    committed: st.committed,
                },
            ),
            Err(e) => Err(e),
        }
    }
}

pub fn parse_journal(data: &[u8], dict: &Dictionary) -> (r: Result<Journal>)
    ensures
        match r {
            Ok(j) => journal_of(data@, dict@) == Ok::<JournalModel, JunctionError>(j@)
                && j.records@.len() <= 128,
            Err(e) => journal_of(data@, dict@) == Err::<JournalModel, JunctionError>(e),
        },
{
    let mut c = Cursor::new(data);
    if c.remaining() < 3 {
        return Err(JunctionError::Truncated { needed: 3, remaining: c.remaining() });
    }
    let ghost s = data@;
    let source_id = c.read_u16()?;
    let count = c.read_u8()? as usize;
    if count > 128 {
        return Err(JunctionError::LimitExceeded(Subject::JournalRecords));
    }
    let mut arena = AttachmentArena::new();
    let mut records: Vec<JournalRecord> = Vec::new();
    let mut committed = false;
    let mut left: usize = count;
    let ghost start = JournalScan {
        records: seq![],
        arena: ArenaModel { pages: seq![], snapshots: seq![] },
        committed: false,
    };
    assert(views(records@) =~= Seq::<JournalRecordModel>::empty());
    assert(arena@.pages =~= Seq::empty() && arena@.snapshots =~= Seq::empty());
    while left > 0
        invariant_except_break
            journal_from(s, 3, count as nat, start, dict@) == journal_from(
                s,
                c.pos(),
                left as nat,
                JournalScan { records: views(records@), arena: arena@, committed },
                dict@,
            ),
        invariant
            c.bytes() == s,
            s == data@,
            s.len() >= 3,
            source_id == le16(s, 0),
            count <= 128,
            count == s[2],
            start == (JournalScan {
                records: seq![],
                arena: ArenaModel { pages: seq![], snapshots: seq![] },
                committed: false,
            }),
            left <= count,
            views(records@).len() + left == count,
            0 <= c.pos() <= s.len(),
            arena@.pages.len() <= 65,
            arena@.snapshots.len() <= records@.len(),
        ensures
            journal_from(s, 3, count as nat, start, dict@) == Ok::<JournalScan, JunctionError>(
                JournalScan { records: views(records@), arena: arena@, committed },
            ),
        decreases left,
    {
        let ghost p = c.pos();
        if c.remaining() < 6 {
            break;
        }
        let opcode = c.read_u8()?;
        let tag = c.read_u16()?;
        let flags = c.read_u8()?;
        let payload_len = c.read_u16()? as usize;
        if payload_len > 4096 {
            assert(journal_from(
                s,
                p,
                left as nat,
                JournalScan { records: views(records@), arena: arena@, committed },
                dict@,
            ) == Err::<JournalScan, JunctionError>(
                JunctionError::LimitExceeded(Subject::JournalPayload),
            ));
            return Err(JunctionError::LimitExceeded(Subject::JournalPayload));
        }
        if c.remaining() < payload_len {
            break;
        }
        let payload = c.read_bytes(payload_len)?;
        let ghost cur = JournalScan { records: views(records@), arena: arena@, committed };
        let note = note_for(opcode, tag, payload, dict);
        if opcode == 0x01 {
            arena.add_page(tag, payload);
        } else if opcode == 0x02 {
            arena.snapshot_last(tag, flags);
        } else if opcode == 0x03 {
            proof {
                crate::attachment::lemma_rolled_back_prefix(arena@.pages, tag);
            }
            arena.rollback_to(tag);
        } else if opcode == 0x7f {
            committed = true;
        } else {
            if flags & 0x20 != 0 {
                arena.add_page(tag ^ source_id, payload);
            }
        }
        let record = JournalRecord { opcode, tag, flags, payload_len, note };
        proof {
            crate::model::lemma_views_push(records@, record);
            assert(journal_from(s, p, left as nat, cur, dict@) == journal_from(
                s,
                c.pos(),
                (left - 1) as nat,
                JournalScan {
                    records: views(records@).push(record@),
                    arena: arena@,
                    committed,
                },
                dict@,
            ));
        }
        records.push(record);
        left = left - 1;
    }
    let attachments_seen = arena.len();
    Ok(Journal { source_id, records, attachments_seen, committed })
}

fn note_for(opcode: u8, tag: u16, payload: &[u8], dict: &Dictionary) -> (note: String)
    ensures
        note@ == note_of(opcode, tag, payload@, dict@),
{
    if let Some(entry) = dict.lookup_class(tag, DictionaryClass::Maintainer) {
        let s = concat(entry.name.clone(), ":");
        let s = concat(s, hex_string(opcode as u32, 2).as_str());
        let s = concat(s, ":");
        return concat(s, dec_string(payload.len()).as_str());
    }
    let hold: [u8; 4] = [0x68, 0x6f, 0x6c, 0x64];
    assert(hold@ =~= hold_word());
    if has_run(payload, &hold) {
        concat("hold request ".to_owned(), hex_string(tag as u32, 4).as_str())
    } else if opcode == 0x7f {
        "commit".to_owned()
    } else {
        let s = concat("record ".to_owned(), hex_string(opcode as u32, 2).as_str());
        let s = concat(s, "/");
        concat(s, hex_string(tag as u32, 4).as_str())
    }
}

} // verus!
