use subparse::errors::{ErrorKind, ExpectedToken};
use subparse::timetypes::{TimePoint, TimeSpan};
use subparse::SsaFile;
use subparse::SubtitleFile;

const SSA_SAMPLE: &str = "[Script Info]\nTitle: sample\n\n[Events]\nFormat: Layer, Start, End, Style, Text\nDialogue: 0,0:00:01.00,0:00:02.50,Default,Hello there!\nDialogue: 0,0:00:03.00,0:00:04.00,Default,{\\i1}Bye{\\i0}\n";

#[test]
fn ssa_round_trip_preserves_bytes() {
    let file = SsaFile::parse(SSA_SAMPLE).unwrap();
    assert_eq!(String::from_utf8(file.to_data().unwrap()).unwrap(), SSA_SAMPLE);
}

#[test]
fn ssa_entries() {
    let file = SsaFile::parse(SSA_SAMPLE).unwrap();
    let entries = file.get_subtitle_entries().unwrap();
    assert_eq!(entries.len(), 2);
    assert_eq!(entries[0].timespan.start.msecs(), 1000);
    assert_eq!(entries[0].timespan.end.msecs(), 2500);
    assert_eq!(entries[0].line.as_deref(), Some("Hello there!"));
    assert_eq!(entries[1].line.as_deref(), Some("{\\i1}Bye{\\i0}"));
}

#[test]
fn ssa_update_round_trip() {
    let mut file = SsaFile::parse(SSA_SAMPLE).unwrap();
    let entries = file.get_subtitle_entries().unwrap();
    file.update_subtitle_entries(&entries).unwrap();
    let again = file.get_subtitle_entries().unwrap();
    for (a, b) in entries.iter().zip(again.iter()) {
        assert_eq!(a.timespan, b.timespan);
        assert_eq!(a.line, b.line);
    }
    assert_eq!(String::from_utf8(file.to_data().unwrap()).unwrap(), SSA_SAMPLE);
}

#[test]
fn ssa_update_changes_times_and_text() {
    let mut file = SsaFile::parse(SSA_SAMPLE).unwrap();
    let mut entries = file.get_subtitle_entries().unwrap();
    entries[0].timespan = TimeSpan::new(TimePoint::from_msecs(1500), TimePoint::from_msecs(2000));
    entries[0].line = Some("Servus".to_string());
    file.update_subtitle_entries(&entries).unwrap();
    let out = String::from_utf8(file.to_data().unwrap()).unwrap();
    assert!(out.contains("Dialogue: 0,0:00:01.50,0:00:02.00,Default,Servus\n"));
    // the other dialogue line is untouched
    assert!(out.contains("Dialogue: 0,0:00:03.00,0:00:04.00,Default,{\\i1}Bye{\\i0}\n"));
}

#[test]
fn ssa_field_order_is_respected() {
    // `End` before `Start` in the header
    let input = "[Events]\nFormat: End, Start, Text\nDialogue: 0:00:02.00,0:00:01.00,Hi\n";
    let file = SsaFile::parse(input).unwrap();
    let entries = file.get_subtitle_entries().unwrap();
    assert_eq!(entries[0].timespan.start.msecs(), 1000);
    assert_eq!(entries[0].timespan.end.msecs(), 2000);
    assert_eq!(String::from_utf8(file.to_data().unwrap()).unwrap(), input);
}

#[test]
fn ssa_parse_errors() {
    // no `Format:` line inside an `[Events]` section: reported at the end
    // of the input
    let r = SsaFile::parse("[Script Info]\nTitle: x\n");
    assert_eq!(
        r.err().unwrap().kind(),
        ErrorKind::ParsingError { line: 2, expected: ExpectedToken::FieldsInfo }
    );

    // the `Text` field has to be the last field: reported at the header
    let r = SsaFile::parse("[Events]\nFormat: Start, Text, End\nDialogue: 0:00:01.00,a,0:00:02.00\n");
    assert_eq!(
        r.err().unwrap().kind(),
        ErrorKind::ParsingError { line: 1, expected: ExpectedToken::FieldsInfo }
    );

    // a duplicate `Start` field
    let r = SsaFile::parse("[Events]\nFormat: Start, Start, End, Text\n");
    assert_eq!(
        r.err().unwrap().kind(),
        ErrorKind::ParsingError { line: 1, expected: ExpectedToken::FieldsInfo }
    );

    // a dialogue line with too few cells
    let r = SsaFile::parse("[Events]\nFormat: Layer, Start, End, Style, Text\nDialogue: 0,0:00:01.00\n");
    assert_eq!(
        r.err().unwrap().kind(),
        ErrorKind::ParsingError { line: 2, expected: ExpectedToken::DialogueLine }
    );

    // a dialogue line with a malformed timestamp
    let r = SsaFile::parse("[Events]\nFormat: Start, End, Text\nDialogue: nonsense,0:00:02.00,Hi\n");
    assert_eq!(
        r.err().unwrap().kind(),
        ErrorKind::ParsingError { line: 2, expected: ExpectedToken::DialogueLine }
    );
}

#[test]
fn ssa_dialogue_outside_events_is_filler() {
    let input = "[Other]\nDialogue: not parsed\n\n[Events]\nFormat: Start, End, Text\nDialogue: 0:00:01.00,0:00:02.00,Hi\n";
    let file = SsaFile::parse(input).unwrap();
    let entries = file.get_subtitle_entries().unwrap();
    assert_eq!(entries.len(), 1);
    assert_eq!(String::from_utf8(file.to_data().unwrap()).unwrap(), input);
}
