use junctiontrace::error::{JunctionError, Subject};

#[test]
fn error_messages_match_display_texts() {
    assert_eq!(
        JunctionError::Truncated { needed: 12, remaining: 3 }.message(),
        "truncated input: need 12 bytes with 3 remaining"
    );
    assert_eq!(JunctionError::BadMagic.message(), "bad JunctionTrace magic");
    assert_eq!(JunctionError::UnsupportedVersion(9).message(), "unsupported version 9");
    assert_eq!(JunctionError::InvalidSection(200).message(), "invalid section kind 200");
    assert_eq!(JunctionError::InvalidVarint.message(), "invalid variable-length integer");
    assert_eq!(JunctionError::InvalidUtf8.message(), "invalid utf-8 text field");
    assert_eq!(
        JunctionError::LimitExceeded(Subject::FramePayload).message(),
        "limit exceeded for frame payload"
    );
    assert_eq!(
        JunctionError::Malformed(Subject::RoutePlan).message(),
        "malformed route plan"
    );
}

#[test]
fn subject_names() {
    let all = [
        (Subject::SectionPayload, "section payload"),
        (Subject::DictionaryEntry, "dictionary entry"),
        (Subject::FramePayload, "frame payload"),
        (Subject::RoutePlan, "route plan"),
        (Subject::OccupancyEvents, "occupancy events"),
        (Subject::JournalRecords, "journal records"),
        (Subject::JournalPayload, "journal payload"),
        (Subject::ScriptOpcodes, "script opcodes"),
    ];
    for (s, name) in all {
        assert_eq!(s.name(), name);
    }
}

#[test]
fn zero_counts_print_as_zero() {
    assert_eq!(
        JunctionError::Truncated { needed: 0, remaining: 0 }.message(),
        "truncated input: need 0 bytes with 0 remaining"
    );
}
