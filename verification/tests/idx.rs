use subparse::errors::{ErrorKind, ExpectedToken};
use subparse::timetypes::{TimePoint, TimeSpan};
use subparse::IdxFile;
use subparse::SubtitleFile;
use subparse::SubtitleEntry;

const IDX_SAMPLE: &str = "# VobSub index file\nsize: 720x576\ntimestamp: 00:00:01:000, filepos: 000000000\ntimestamp: 00:00:05:500, filepos: 000001000\n";

#[test]
fn idx_round_trip_preserves_bytes() {
    let file = IdxFile::parse(IDX_SAMPLE).unwrap();
    assert_eq!(String::from_utf8(file.to_data().unwrap()).unwrap(), IDX_SAMPLE);
}

#[test]
fn idx_entries_span_consecutive_timestamps() {
    let file = IdxFile::parse(IDX_SAMPLE).unwrap();
    let entries = file.get_subtitle_entries().unwrap();
    assert_eq!(entries.len(), 2);
    // an entry is shown until the next one starts
    assert_eq!(entries[0].timespan.start.msecs(), 1000);
    assert_eq!(entries[0].timespan.end.msecs(), 5500);
    // the last entry is shown for one minute
    assert_eq!(entries[1].timespan.start.msecs(), 5500);
    assert_eq!(entries[1].timespan.end.msecs(), 5500 + 60000);
    assert!(entries[0].line.is_none());
}

#[test]
fn idx_no_timestamps_yields_no_entries() {
    // filler-only input parses fine and has no entries
    let file = IdxFile::parse("# just a comment\nsize: 720x576\n").unwrap();
    let entries = file.get_subtitle_entries().unwrap();
    assert_eq!(entries.len(), 0);
}

#[test]
fn idx_update_writes_start_times() {
    let mut file = IdxFile::parse(IDX_SAMPLE).unwrap();
    let entries = file.get_subtitle_entries().unwrap();

    // unchanged entries leave the file identical
    file.update_subtitle_entries(&entries).unwrap();
    assert_eq!(String::from_utf8(file.to_data().unwrap()).unwrap(), IDX_SAMPLE);

    // only the start of each time span is stored
    let moved: Vec<SubtitleEntry> = vec![
        SubtitleEntry::from_span(TimeSpan::new(
            TimePoint::from_msecs(2000),
            TimePoint::from_msecs(2500),
        )),
        SubtitleEntry::from_span(TimeSpan::new(
            TimePoint::from_msecs(6000),
            TimePoint::from_msecs(9999),
        )),
    ];
    file.update_subtitle_entries(&moved).unwrap();
    let out = String::from_utf8(file.to_data().unwrap()).unwrap();
    assert_eq!(
        out,
        "# VobSub index file\nsize: 720x576\ntimestamp: 00:00:02:000, filepos: 000000000\ntimestamp: 00:00:06:000, filepos: 000001000\n"
    );
}

#[test]
fn idx_parse_errors() {
    // a `timestamp:` field that is not a timestamp fails the parse, naming
    // the offending line
    let r = IdxFile::parse("# ok line\ntimestamp: nonsense\n");
    assert_eq!(
        r.err().unwrap().kind(),
        ErrorKind::ParsingError { line: 1, expected: ExpectedToken::Timestamp }
    );

    let r = IdxFile::parse("timestamp: 00:00:01\n");
    assert_eq!(
        r.err().unwrap().kind(),
        ErrorKind::ParsingError { line: 0, expected: ExpectedToken::Timestamp }
    );
}

#[test]
fn idx_serialization_is_idempotent() {
    let input = "timestamp: 0:00:01:5, filepos: 000000000\n";
    let once = String::from_utf8(IdxFile::parse(input).unwrap().to_data().unwrap()).unwrap();
    assert_eq!(once, "timestamp: 00:00:01:005, filepos: 000000000\n");
    let twice = String::from_utf8(IdxFile::parse(&once).unwrap().to_data().unwrap()).unwrap();
    assert_eq!(once, twice);
}
