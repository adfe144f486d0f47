use subparse::errors::{ErrorKind, ExpectedToken};
use subparse::timetypes::{TimePoint, TimeSpan};
use subparse::{FramesPerSecond, MdvdFile};
use subparse::SubtitleFile;

/// Parse string with `MdvdFile`, and reencode it with `MdvdFile`.
fn mdvd_reconstruct(s: &str) -> String {
    let file = MdvdFile::parse(s, FramesPerSecond::new(25)).unwrap();
    let data = file.to_data().unwrap();
    String::from_utf8(data).unwrap()
}

/// Parse and re-construct `MicroDVD` files and test them against expected output.
fn test_mdvd(input: &str, expected: &str) {
    // if we put the `input` into the parser, we expect a specific (cleaned-up) output
    assert_eq!(mdvd_reconstruct(input), expected);

    // if we reconstruct the cleaned-up output, we expect that nothing changes
    assert_eq!(mdvd_reconstruct(expected), expected);
}

#[test]
fn mdvd_test_reconstruction() {
    // simple examples
    test_mdvd("{0}{25}Hello!", "{0}{25}Hello!");
    test_mdvd("{0}{25}{y:i}Hello!", "{0}{25}{y:i}Hello!");
    test_mdvd("{0}{25}{Y:i}Hello!", "{0}{25}{y:i}Hello!");
    test_mdvd("{0}{25}{Y:i}\n", "{0}{25}{y:i}");

    // cleanup formattings in a file
    test_mdvd("{0}{25}{y:i}Text1|{y:i}Text2", "{0}{25}{Y:i}Text1|Text2");
    test_mdvd("{0}{25}{y:i}Text1\n{0}{25}{y:i}Text2", "{0}{25}{Y:i}Text1|Text2");
    test_mdvd("{0}{25}{y:i}{y:b}Text1\n{0}{25}{y:i}Text2", "{0}{25}{Y:i}{y:b}Text1|Text2");
    test_mdvd("{0}{25}{y:i}{y:b}Text1\n{0}{25}{y:i}Text2", "{0}{25}{Y:i}{y:b}Text1|Text2");

    // these can't be condensed, because the lines have different times
    test_mdvd("{0}{25}{y:i}Text1\n{0}{26}{y:i}Text2", "{0}{25}{y:i}Text1\n{0}{26}{y:i}Text2");
}

#[test]
fn mdvd_frame_times() {
    // at 25 fps, frame 25 is exactly one second
    let file = MdvdFile::parse("{0}{25}Hello!", FramesPerSecond::new(25)).unwrap();
    let entries = file.get_subtitle_entries().unwrap();
    assert_eq!(entries.len(), 1);
    assert_eq!(entries[0].timespan.start.msecs(), 0);
    assert_eq!(entries[0].timespan.end.msecs(), 1000);
    assert_eq!(entries[0].line.as_deref(), Some("Hello!"));

    // a fractional rate rounds to the nearest millisecond
    let file = MdvdFile::parse("{0}{1}X", FramesPerSecond::from_milli_fps(23976)).unwrap();
    let entries = file.get_subtitle_entries().unwrap();
    assert_eq!(entries[0].timespan.end.msecs(), 42);
}

#[test]
fn mdvd_update_round_trip() {
    let mut file = MdvdFile::parse("{0}{25}A\n{50}{75}B", FramesPerSecond::new(25)).unwrap();
    let entries = file.get_subtitle_entries().unwrap();
    file.update_subtitle_entries(&entries).unwrap();
    let again = file.get_subtitle_entries().unwrap();
    assert_eq!(entries.len(), again.len());
    for (a, b) in entries.iter().zip(again.iter()) {
        assert_eq!(a.timespan, b.timespan);
        assert_eq!(a.line, b.line);
    }
}

#[test]
fn mdvd_update_changes_frames() {
    let mut file = MdvdFile::parse("{0}{25}A", FramesPerSecond::new(25)).unwrap();
    let mut entries = file.get_subtitle_entries().unwrap();
    entries[0].timespan = TimeSpan::new(TimePoint::from_msecs(2000), TimePoint::from_msecs(3000));
    file.update_subtitle_entries(&entries).unwrap();
    let out = String::from_utf8(file.to_data().unwrap()).unwrap();
    assert_eq!(out, "{50}{75}A");
}

#[test]
fn mdvd_parse_errors() {
    let r = MdvdFile::parse("{0}{25}Fine\nno braces here", FramesPerSecond::new(25));
    assert_eq!(
        r.err().unwrap().kind(),
        ErrorKind::ParsingError { line: 1, expected: ExpectedToken::SubtitleLine }
    );

    // an unclosed tag group fails the whole parse
    let r = MdvdFile::parse("{0}{25}{y:i", FramesPerSecond::new(25));
    assert_eq!(
        r.err().unwrap().kind(),
        ErrorKind::ParsingError { line: 0, expected: ExpectedToken::SubtitleLine }
    );
}
