use subparse::errors::{ErrorKind, ExpectedToken};
use subparse::timetypes::{TimePoint, TimeSpan};
use subparse::SrtFile;
use subparse::SubtitleFile;

#[test]
fn create_srt_test() {
    let lines = vec![
        (
            TimeSpan::new(TimePoint::from_msecs(1500), TimePoint::from_msecs(3700)),
            "line1".to_string(),
        ),
        (
            TimeSpan::new(TimePoint::from_msecs(4500), TimePoint::from_msecs(8700)),
            "line2".to_string(),
        ),
    ];
    let file = SrtFile::create(lines).unwrap();

    // generate file
    let data_string = String::from_utf8(file.to_data().unwrap()).unwrap();
    let expected = "1\n00:00:01,500 --> 00:00:03,700\nline1\n\n2\n00:00:04,500 --> 00:00:08,700\nline2\n\n".to_string();
    assert_eq!(data_string, expected);
}

#[test]
fn srt_round_trip_preserves_bytes() {
    // mixed line terminators and no trailing blank line survive unchanged
    let input = "1\n00:00:31,915 --> 00:00:35,903\r\n♬～\r\n\n2\n00:00:35,903 --> 00:00:44,912\n♬～";
    let file = SrtFile::parse(input).unwrap();
    let data = file.to_data().unwrap();
    assert_eq!(String::from_utf8(data).unwrap(), input);
}

#[test]
fn srt_entries_and_update_round_trip() {
    let input = "1\n00:00:01,000 --> 00:00:02,000\nHello\nWorld\n\n2\n00:00:03,000 --> 00:00:04,000\nBye\n";
    let mut file = SrtFile::parse(input).unwrap();
    let entries = file.get_subtitle_entries().unwrap();
    assert_eq!(entries.len(), 2);
    assert_eq!(entries[0].timespan.start.msecs(), 1000);
    assert_eq!(entries[0].timespan.end.msecs(), 2000);
    assert_eq!(entries[0].line.as_deref(), Some("Hello\nWorld"));
    assert_eq!(entries[1].line.as_deref(), Some("Bye"));

    // writing the same entries back changes nothing
    file.update_subtitle_entries(&entries).unwrap();
    let again = file.get_subtitle_entries().unwrap();
    assert_eq!(again.len(), 2);
    assert_eq!(again[0].timespan, entries[0].timespan);
    assert_eq!(again[0].line, entries[0].line);
    assert_eq!(again[1].timespan, entries[1].timespan);
    assert_eq!(again[1].line, entries[1].line);
    assert_eq!(String::from_utf8(file.to_data().unwrap()).unwrap(), input);
}

#[test]
fn srt_update_changes_timing_and_text() {
    let input = "1\n00:00:01,000 --> 00:00:02,000\nHello\n";
    let mut file = SrtFile::parse(input).unwrap();
    let mut entries = file.get_subtitle_entries().unwrap();
    entries[0].timespan = TimeSpan::new(TimePoint::from_msecs(1500), TimePoint::from_msecs(2500));
    entries[0].line = Some("Servus".to_string());
    file.update_subtitle_entries(&entries).unwrap();
    let out = String::from_utf8(file.to_data().unwrap()).unwrap();
    assert_eq!(out, "1\n00:00:01,500 --> 00:00:02,500\nServus\n");
}

#[test]
fn srt_parse_errors() {
    // a line where an index was expected: the error carries the 0-based
    // line number and the expected token
    let r = SrtFile::parse("not a number\n00:00:01,000 --> 00:00:02,000\nHi\n");
    let kind = r.err().unwrap().kind();
    assert_eq!(kind, ErrorKind::ParsingError { line: 0, expected: ExpectedToken::IndexLine });
    assert_eq!(kind.message(), "expected a subtitle index line at line 0");

    // an index at the end of the input without a timespan line (the
    // synthetic closing line gets the next line number)
    let r = SrtFile::parse("1");
    assert_eq!(
        r.err().unwrap().kind(),
        ErrorKind::ParsingError { line: 1, expected: ExpectedToken::TimespanLine }
    );

    // a malformed timespan line
    let r = SrtFile::parse("1\n00:00:01,000 -> 00:00:02,000\nHi\n");
    assert_eq!(
        r.err().unwrap().kind(),
        ErrorKind::ParsingError { line: 1, expected: ExpectedToken::TimespanLine }
    );
}

#[test]
fn srt_whitespace_is_preserved() {
    let input = "  1  \n  00:00:01,000   -->  00:00:02,000  \n  Hi  \n";
    let file = SrtFile::parse(input).unwrap();
    assert_eq!(String::from_utf8(file.to_data().unwrap()).unwrap(), input);
    let entries = file.get_subtitle_entries().unwrap();
    assert_eq!(entries[0].line.as_deref(), Some("Hi"));
}

#[test]
fn srt_serialization_is_idempotent() {
    // a non-canonical timestamp is normalized once; after that the
    // parse/serialize cycle is a fixed point
    let input = "1\n0:00:01,000 --> 00:00:02,000\nHi\n";
    let once = String::from_utf8(SrtFile::parse(input).unwrap().to_data().unwrap()).unwrap();
    assert_eq!(once, "1\n00:00:01,000 --> 00:00:02,000\nHi\n");
    let twice = String::from_utf8(SrtFile::parse(&once).unwrap().to_data().unwrap()).unwrap();
    assert_eq!(once, twice);
}
