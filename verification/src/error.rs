use vstd::prelude::*;

use crate::text::{concat, dec_string, dec_text};

verus! {

/// What a size limit or a structural check was applied to.
#[derive(Clone, Copy, Debug, PartialEq, Eq, Structural)]
pub enum Subject {
    SectionPayload,
    DictionaryEntry,
    FramePayload,
    RoutePlan,
    OccupancyEvents,
    JournalRecords,
    JournalPayload,
    ScriptOpcodes,
}

/// Every way in which decoding a bundle, a stream, a journal or a script can fail.
#[derive(Clone, Copy, Debug, PartialEq, Eq, Structural)]
pub enum JunctionError {
    Truncated { needed: usize, remaining: usize },
    BadMagic,
    UnsupportedVersion(u8),
    InvalidSection(u8),
    InvalidVarint,
    InvalidUtf8,
    LimitExceeded(Subject),
    Malformed(Subject),
}

pub type Result<T> = core::result::Result<T, JunctionError>;

pub open spec fn subject_name(s: Subject) -> Seq<char> {
    match s {
        Subject::SectionPayload => "section payload"@,
        Subject::DictionaryEntry => "dictionary entry"@,
        Subject::FramePayload => "frame payload"@,
        Subject::RoutePlan => "route plan"@,
        Subject::OccupancyEvents => "occupancy events"@,
        Subject::JournalRecords => "journal records"@,
        Subject::JournalPayload => "journal payload"@,
        Subject::ScriptOpcodes => "script opcodes"@,
    }
}

/// The text that describes an error.
pub open spec fn error_text(e: JunctionError) -> Seq<char> {
    match e {
        JunctionError::Truncated { needed, remaining } => "truncated input: need "@ + dec_text(
            needed as nat,
        ) + " bytes with "@ + dec_text(remaining as nat) + " remaining"@,
        JunctionError::BadMagic => "bad JunctionTrace magic"@,
        JunctionError::UnsupportedVersion(v) => "unsupported version "@ + dec_text(v as nat),
        JunctionError::InvalidSection(k) => "invalid section kind "@ + dec_text(k as nat),
        JunctionError::InvalidVarint => "invalid variable-length integer"@,
        JunctionError::InvalidUtf8 => "invalid utf-8 text field"@,
        JunctionError::LimitExceeded(s) => "limit exceeded for "@ + subject_name(s),
        JunctionError::Malformed(s) => "malformed "@ + subject_name(s),
    }
}

impl Subject {
    /// What the subject is called in error texts.
    pub fn name(&self) -> (s: &'static str)
        ensures
            s@ == subject_name(*self),
    {
        match self {
            Subject::SectionPayload => "section payload",
            Subject::DictionaryEntry => "dictionary entry",
            Subject::FramePayload => "frame payload",
            Subject::RoutePlan => "route plan",
            Subject::OccupancyEvents => "occupancy events",
            Subject::JournalRecords => "journal records",
            Subject::JournalPayload => "journal payload",
            Subject::ScriptOpcodes => "script opcodes",
        }
    }
}

impl JunctionError {
    /// The text that describes the error.
    pub fn message(&self) -> (s: String)
        ensures
            s@ == error_text(*self),
    {
        match self {
            JunctionError::Truncated { needed, remaining } => {
                let s = concat("truncated input: need ".to_owned(), dec_string(*needed).as_str());
                let s = concat(s, " bytes with ");
                let s = concat(s, dec_string(*remaining).as_str());
                concat(s, " remaining")
            },
            JunctionError::BadMagic => "bad JunctionTrace magic".to_owned(),
            JunctionError::UnsupportedVersion(v) => concat(
                "unsupported version ".to_owned(),
                dec_string(*v as usize).as_str(),
            ),
            JunctionError::InvalidSection(k) => concat(
                "invalid section kind ".to_owned(),
                dec_string(*k as usize).as_str(),
            ),
            JunctionError::InvalidVarint => "invalid variable-length integer".to_owned(),
            JunctionError::InvalidUtf8 => "invalid utf-8 text field".to_owned(),
            JunctionError::LimitExceeded(s) => concat("limit exceeded for ".to_owned(), s.name()),
            JunctionError::Malformed(s) => concat("malformed ".to_owned(), s.name()),
        }
    }
}

} // verus!
