use subparse::errors::{ErrorKind, ExpectedToken};
use subparse::formats::common::{
    get_lines_non_destructive, number_i64, split_bom, trim_non_destructive,
};
use subparse::{
    get_subtitle_format, get_subtitle_format_by_extension, get_subtitle_format_by_extension_err,
    get_subtitle_format_err, is_valid_extension_for_subtitle_format, parse_bytes, parse_str,
    FramesPerSecond, SubtitleFormat, VobFile,
};
use subparse::SubtitleFile;

#[test]
fn extension_table() {
    assert_eq!(get_subtitle_format_by_extension(Some("srt")), Some(SubtitleFormat::SubRip));
    assert_eq!(
        get_subtitle_format_by_extension(Some("ssa")),
        Some(SubtitleFormat::SubStationAlpha)
    );
    assert_eq!(
        get_subtitle_format_by_extension(Some("ass")),
        Some(SubtitleFormat::SubStationAlpha)
    );
    assert_eq!(get_subtitle_format_by_extension(Some("idx")), Some(SubtitleFormat::VobSubIdx));
    // `.sub` is ambiguous without the content
    assert_eq!(get_subtitle_format_by_extension(Some("sub")), None);
    assert_eq!(get_subtitle_format_by_extension(Some("txt")), None);
    assert_eq!(get_subtitle_format_by_extension(None), None);

    let e = get_subtitle_format_by_extension_err(Some("txt"));
    assert_eq!(e.err().unwrap().kind(), ErrorKind::UnknownFileFormat);
}

#[test]
fn content_sniffing() {
    // the magic number selects the binary format for `.sub`
    let magic = [0x00u8, 0x00, 0x01, 0xba, 0xff];
    assert_eq!(get_subtitle_format(Some("sub"), &magic), Some(SubtitleFormat::VobSubSub));
    assert_eq!(
        get_subtitle_format(Some("sub"), b"{0}{25}Hello!"),
        Some(SubtitleFormat::MicroDVD)
    );
    assert_eq!(get_subtitle_format(Some("srt"), b"whatever"), Some(SubtitleFormat::SubRip));
    assert_eq!(get_subtitle_format(Some("xyz"), b""), None);
    assert_eq!(
        get_subtitle_format_err(Some("xyz"), b"").err().unwrap().kind(),
        ErrorKind::UnknownFileFormat
    );
}

#[test]
fn extension_validity() {
    assert!(is_valid_extension_for_subtitle_format(Some("srt"), SubtitleFormat::SubRip));
    assert!(is_valid_extension_for_subtitle_format(Some("ssa"), SubtitleFormat::SubStationAlpha));
    assert!(is_valid_extension_for_subtitle_format(Some("ass"), SubtitleFormat::SubStationAlpha));
    assert!(is_valid_extension_for_subtitle_format(Some("idx"), SubtitleFormat::VobSubIdx));
    assert!(is_valid_extension_for_subtitle_format(Some("sub"), SubtitleFormat::VobSubSub));
    assert!(is_valid_extension_for_subtitle_format(Some("sub"), SubtitleFormat::MicroDVD));
    assert!(!is_valid_extension_for_subtitle_format(Some("srt"), SubtitleFormat::MicroDVD));
    assert!(!is_valid_extension_for_subtitle_format(None, SubtitleFormat::SubRip));
}

#[test]
fn format_names() {
    assert_eq!(SubtitleFormat::SubRip.get_name(), ".srt (SubRip)");
    assert_eq!(SubtitleFormat::SubStationAlpha.get_name(), ".ssa (SubStation Alpha)");
    assert_eq!(SubtitleFormat::VobSubIdx.get_name(), ".idx (VobSub)");
    assert_eq!(SubtitleFormat::VobSubSub.get_name(), ".sub (VobSub)");
    assert_eq!(SubtitleFormat::MicroDVD.get_name(), ".sub (MicroDVD)");
}

#[test]
fn parse_str_dispatch() {
    let fps = FramesPerSecond::new(25);
    let srt = parse_str(SubtitleFormat::SubRip, "1\n00:00:01,000 --> 00:00:02,000\nHi\n", fps)
        .unwrap();
    assert_eq!(srt.get_subtitle_entries().unwrap().len(), 1);

    let mdvd = parse_str(SubtitleFormat::MicroDVD, "{0}{25}Hi", fps).unwrap();
    assert_eq!(mdvd.get_subtitle_entries().unwrap().len(), 1);

    // the binary format cannot be parsed from text
    let r = parse_str(SubtitleFormat::VobSubSub, "anything", fps);
    assert_eq!(r.err().unwrap().kind(), ErrorKind::TextFormatOnly);
}

#[test]
fn unified_update_on_dispatch_enum() {
    let fps = FramesPerSecond::new(25);
    let mut f = parse_str(
        SubtitleFormat::SubRip,
        "1\n00:00:01,000 --> 00:00:02,000\nHi\n",
        fps,
    )
    .unwrap();
    let entries = f.get_subtitle_entries().unwrap();
    f.update_subtitle_entries(&entries).unwrap();
    let again = f.get_subtitle_entries().unwrap();
    assert_eq!(entries[0].timespan, again[0].timespan);
    assert_eq!(entries[0].line, again[0].line);
    assert_eq!(
        String::from_utf8(f.to_data().unwrap()).unwrap(),
        "1\n00:00:01,000 --> 00:00:02,000\nHi\n"
    );
}

#[test]
fn parse_bytes_decodes_text() {
    let fps = FramesPerSecond::new(25);
    // multibyte characters must pass through the decoder unharmed
    let data = "1\n00:00:01,000 --> 00:00:02,000\n♬～ während\n".as_bytes();
    let f = parse_bytes(SubtitleFormat::SubRip, data, encoding_rs::UTF_8, fps).unwrap();
    let entries = f.get_subtitle_entries().unwrap();
    assert_eq!(entries[0].line.as_deref(), Some("♬～ während"));

    // invalid UTF-8 is a decoding error
    let bad = [0xffu8, 0xfe, 0x00];
    let r = parse_bytes(SubtitleFormat::SubRip, &bad, encoding_rs::UTF_8, fps);
    assert_eq!(r.err().unwrap().kind(), ErrorKind::DecodingError);
}

#[test]
fn vobsub_garbage_is_a_parse_error() {
    // four magic bytes alone are not a decodable stream
    let r = VobFile::parse(&[0x00u8, 0x00, 0x01, 0xba]);
    assert_eq!(
        r.err().unwrap().kind(),
        ErrorKind::ParsingError { line: 0, expected: ExpectedToken::VobSubData }
    );
}

#[test]
fn test_split_bom() {
    // a UTF-8 byte order mark is split off; other strings are unchanged
    assert_eq!(split_bom("\u{FEFF}abc"), ("\u{FEFF}", "abc"));
    assert_eq!(split_bom("bla"), ("", "bla"));
    assert_eq!(split_bom(""), ("", ""));
}

#[test]
fn get_lines_non_destructive_test0() {
    let lines = ["", "aaabb", "aaabb\r\nbcccc\n\r\n ", "aaabb\r\nbcccc"];
    for &full_line in lines.iter() {
        let joined: String = get_lines_non_destructive(full_line)
            .into_iter()
            .flat_map(|(s1, s2)| vec![s1, s2].into_iter())
            .collect();
        assert_eq!(full_line, joined);
    }
}

#[test]
fn trim_keeps_all_parts() {
    assert_eq!(
        trim_non_destructive("  hello "),
        ("  ".to_string(), "hello".to_string(), " ".to_string())
    );
    assert_eq!(
        trim_non_destructive("   "),
        ("   ".to_string(), "".to_string(), "".to_string())
    );
    assert_eq!(
        trim_non_destructive("x"),
        ("".to_string(), "x".to_string(), "".to_string())
    );
}

#[test]
fn number_parsing() {
    assert_eq!(number_i64("42"), Some(42));
    assert_eq!(number_i64("-7"), Some(-7));
    assert_eq!(number_i64("+7"), Some(7));
    assert_eq!(number_i64(""), None);
    assert_eq!(number_i64("4a"), None);
    assert_eq!(number_i64("99999999999999999999999"), None);
}

#[test]
fn vobsub_empty_stream_has_no_entries() {
    let mut file = VobFile::parse(&[]).unwrap();
    assert_eq!(file.get_subtitle_entries().unwrap().len(), 0);
    assert_eq!(file.to_data().unwrap(), Vec::<u8>::new());
    // the binary format cannot be updated through this library
    let r = file.update_subtitle_entries(&[]);
    assert_eq!(
        r.err().unwrap().kind(),
        ErrorKind::UpdatingEntriesNotSupported { format: SubtitleFormat::VobSubSub }
    );
}
