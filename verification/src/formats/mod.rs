//! The individual subtitle formats and the unified dispatch over them.

pub mod common;
pub mod idx;
pub mod microdvd;
pub mod srt;
pub mod ssa;
pub mod vobsub;

use crate::errors::{Error, ErrorKind, ExpectedToken};
use crate::formats::idx::IdxFile;
use crate::formats::microdvd::{FramesPerSecond, MdvdFile, MAX_MILLI_FPS};
use crate::formats::srt::SrtFile;
use crate::formats::ssa::SsaFile;
use crate::formats::vobsub::VobFile;
use crate::{entry_views, EntryView, SubtitleEntry, SubtitleFile as SubtitleFileInterface};
use vstd::prelude::*;

verus! {

#[derive(Clone, Copy, Debug, PartialEq, Eq, Structural)]
/// All formats which are supported by this library.
pub enum SubtitleFormat {
    /// .srt file
    SubRip,
    /// .ssa/.ass file
    SubStationAlpha,
    /// .idx file
    VobSubIdx,
    /// .sub file (`VobSub`/binary)
    VobSubSub,
    /// .sub file (`MicroDVD`/text)
    MicroDVD,
}

impl SubtitleFormat {
    /// Get a descriptive string for the format like `".srt (SubRip)"`.
    pub fn get_name(&self) -> (r: &'static str)
        ensures
            r@ == match *self {
                SubtitleFormat::SubRip => ".srt (SubRip)"@,
                SubtitleFormat::SubStationAlpha => ".ssa (SubStation Alpha)"@,
                SubtitleFormat::VobSubIdx => ".idx (VobSub)"@,
                SubtitleFormat::VobSubSub => ".sub (VobSub)"@,
                SubtitleFormat::MicroDVD => ".sub (MicroDVD)"@,
            },
    {
        match *self {
            SubtitleFormat::SubRip => ".srt (SubRip)",
            SubtitleFormat::SubStationAlpha => ".ssa (SubStation Alpha)",
            SubtitleFormat::VobSubIdx => ".idx (VobSub)",
            SubtitleFormat::VobSubSub => ".sub (VobSub)",
            SubtitleFormat::MicroDVD => ".sub (MicroDVD)",
        }
    }
}

#[derive(Debug, Clone)]
/// Unified wrapper around all the individual subtitle file types.
pub enum SubtitleFile {
    /// .srt file
    SubRipFile(SrtFile),
    /// .ssa/.ass file
    SubStationAlpha(SsaFile),
    /// .idx file
    VobSubIdxFile(IdxFile),
    /// .sub file (`VobSub`/binary)
    VobSubSubFile(VobFile),
    /// .sub file (`MicroDVD`/text)
    MicroDVDFile(MdvdFile),
}

impl SubtitleFile {
    /// Internal consistency: the wrapped file's.
    pub open spec fn wf(&self) -> bool {
        match self {
            SubtitleFile::SubRipFile(f) => f.wf(),
            SubtitleFile::SubStationAlpha(f) => f.wf(),
            SubtitleFile::VobSubIdxFile(f) => f.wf(),
            SubtitleFile::VobSubSubFile(f) => f.wf(),
            SubtitleFile::MicroDVDFile(f) => f.wf(),
        }
    }

    /// The entries the wrapped file holds.
    pub open spec fn spec_entries(&self) -> Seq<EntryView> {
        match self {
            SubtitleFile::SubRipFile(f) => f.spec_entries(),
            SubtitleFile::SubStationAlpha(f) => f.spec_entries(),
            SubtitleFile::VobSubIdxFile(f) => f.spec_entries(),
            SubtitleFile::VobSubSubFile(f) => f.spec_entries(),
            SubtitleFile::MicroDVDFile(f) => f.spec_entries(),
        }
    }

    /// Does the wrapped format support writing entries back?
    pub open spec fn supports_update(&self) -> bool {
        match self {
            SubtitleFile::SubRipFile(f) => f.supports_update(),
            SubtitleFile::SubStationAlpha(f) => f.supports_update(),
            SubtitleFile::VobSubIdxFile(f) => f.supports_update(),
            SubtitleFile::VobSubSubFile(f) => f.supports_update(),
            SubtitleFile::MicroDVDFile(f) => f.supports_update(),
        }
    }

    /// Which entry lists may be written back (format-specific machine
    /// bounds).
    pub open spec fn accepts(&self, new: Seq<EntryView>) -> bool {
        match self {
            SubtitleFile::SubRipFile(f) => f.accepts(new),
            SubtitleFile::SubStationAlpha(f) => f.accepts(new),
            SubtitleFile::VobSubIdxFile(f) => f.accepts(new),
            SubtitleFile::VobSubSubFile(f) => f.accepts(new),
            SubtitleFile::MicroDVDFile(f) => f.accepts(new),
        }
    }

    /// Does `now` hold the same wrapped format as `self`, with the entries
    /// written back?
    pub open spec fn updated_to(&self, new: Seq<EntryView>, now: SubtitleFile) -> bool {
        match self {
            SubtitleFile::SubRipFile(f) => now matches SubtitleFile::SubRipFile(g) && g@
                == f.spec_updated(new),
            SubtitleFile::SubStationAlpha(f) => now matches SubtitleFile::SubStationAlpha(g) && g@
                == f.spec_updated(new),
            SubtitleFile::VobSubIdxFile(f) => now matches SubtitleFile::VobSubIdxFile(g) && g@
                == f.spec_updated(new),
            SubtitleFile::VobSubSubFile(f) => now matches SubtitleFile::VobSubSubFile(g) && g@
                == f.spec_updated(new),
            SubtitleFile::MicroDVDFile(f) => now matches SubtitleFile::MicroDVDFile(g) && g@
                == f.spec_updated(new),
        }
    }

    /// The extra shape every parsed file has (only the line-index text
    /// format carries one beyond `wf`).
    pub open spec fn parsed_shape(&self) -> bool {
        match self {
            SubtitleFile::SubRipFile(f) => crate::formats::srt::srt_parsed_shape(f@),
            _ => true,
        }
    }

    /// The exact bytes the wrapped file serializes to.
    pub open spec fn spec_data(&self) -> Seq<u8> {
        match self {
            SubtitleFile::SubRipFile(f) => f.spec_data(),
            SubtitleFile::SubStationAlpha(f) => f.spec_data(),
            SubtitleFile::VobSubIdxFile(f) => f.spec_data(),
            SubtitleFile::VobSubSubFile(f) => f.spec_data(),
            SubtitleFile::MicroDVDFile(f) => f.spec_data(),
        }
    }

    /// The subtitle entries; they can be changed by calling
    /// `update_subtitle_entries()`.
    pub fn get_subtitle_entries(&self) -> (r: Result<Vec<SubtitleEntry>, Error>)
        requires
            self.wf(),
        ensures
            r is Ok,
            entry_views(r->Ok_0@) == self.spec_entries(),
    {
        match self {
            SubtitleFile::SubRipFile(f) => f.get_subtitle_entries(),
            SubtitleFile::SubStationAlpha(f) => f.get_subtitle_entries(),
            SubtitleFile::VobSubIdxFile(f) => f.get_subtitle_entries(),
            SubtitleFile::VobSubSubFile(f) => f.get_subtitle_entries(),
            SubtitleFile::MicroDVDFile(f) => f.get_subtitle_entries(),
        }
    }

    /// Set the entries from the subtitle entries from
    /// `get_subtitle_entries()`.
    ///
    /// The length of the given input slice always has to match the length of
    /// the vector from `get_subtitle_entries()`. This function can not
    /// delete/create new entries, but preserves everything else in the file
    /// (formatting, authors, ...).
    ///
    /// If the input entry has `entry.line == None`, the line will not be
    /// overwritten.
    ///
    /// Be aware that `.idx` files cannot store time spans (a subtitle is
    /// shown between two consecutive time points), so only the start of each
    /// input time span is written there.
    pub fn update_subtitle_entries(&mut self, i: &[SubtitleEntry]) -> (r: Result<(), Error>)
        requires
            old(self).wf(),
            i@.len() == old(self).spec_entries().len(),
            old(self).accepts(entry_views(i@)),
        ensures
            final(self).wf(),
            r is Ok <==> old(self).supports_update(),
            r is Ok ==> old(self).updated_to(entry_views(i@), *final(self)),
            r is Err ==> *final(self) == *old(self) && r->Err_0@ == (
            ErrorKind::UpdatingEntriesNotSupported { format: SubtitleFormat::VobSubSub }),
    {
        match self {
            SubtitleFile::SubRipFile(f) => f.update_subtitle_entries(i),
            SubtitleFile::SubStationAlpha(f) => f.update_subtitle_entries(i),
            SubtitleFile::VobSubIdxFile(f) => f.update_subtitle_entries(i),
            SubtitleFile::VobSubSubFile(f) => f.update_subtitle_entries(i),
            SubtitleFile::MicroDVDFile(f) => f.update_subtitle_entries(i),
        }
    }

    /// Returns a byte stream in the respective format (.ssa, .srt, etc.)
    /// with the (probably) altered information.
    pub fn to_data(&self) -> (r: Result<Vec<u8>, Error>)
        requires
            self.wf(),
        ensures
            r is Ok,
            r->Ok_0@ == self.spec_data(),
    {
        match self {
            SubtitleFile::SubRipFile(f) => f.to_data(),
            SubtitleFile::SubStationAlpha(f) => f.to_data(),
            SubtitleFile::VobSubIdxFile(f) => f.to_data(),
            SubtitleFile::VobSubSubFile(f) => f.to_data(),
            SubtitleFile::MicroDVDFile(f) => f.to_data(),
        }
    }
}

/// Writing back the entries that were read leaves the entries unchanged, at
/// the unified-protocol level: if `update_subtitle_entries(get_subtitle_entries())`
/// returned `Ok` and produced `now`, then `now` holds the same entry list.
///
/// The hypotheses are what every parsed file satisfies: `wf` and, for the
/// line-index text format, the parsed dialog shape.
pub proof fn lemma_file_update_roundtrip(old_file: SubtitleFile, now: SubtitleFile)
    requires
        old_file.wf(),
        old_file.parsed_shape(),
        old_file.updated_to(old_file.spec_entries(), now),
    ensures
        now.spec_entries() == old_file.spec_entries(),
{
    match old_file {
        SubtitleFile::SubRipFile(f) => {
            crate::formats::srt::lemma_srt_update_roundtrip(f@);
        },
        SubtitleFile::SubStationAlpha(f) => {
            crate::formats::ssa::lemma_ssa_update_roundtrip(f@);
        },
        SubtitleFile::VobSubIdxFile(f) => {
            crate::formats::idx::lemma_idx_update_roundtrip(f@);
        },
        SubtitleFile::VobSubSubFile(f) => {
        },
        SubtitleFile::MicroDVDFile(f) => {
            crate::formats::microdvd::lemma_mdvd_update_roundtrip(f@);
        },
    }
}

// ////////////////////////////////////////////////////////////////////////////////////////////////
// format detection

/// String-slice equality.
fn str_eq(a: &str, b: &str) -> (r: bool)
    ensures
        r == (a@ == b@),
{
    let n = a.unicode_len();
    if n != b.unicode_len() {
        return false;
    }
    let mut i: usize = 0;
    while i < n
        invariant
            i <= n,
            n == a@.len() == b@.len(),
            forall|j: int| 0 <= j < i ==> a@[j] == b@[j],
        decreases n - i,
    {
        if a.get_char(i) != b.get_char(i) {
            return false;
        }
        i += 1;
    }
    proof {
        assert(a@ =~= b@);
    }
    true
}

/// The format a file extension maps to (`.sub` is ambiguous and maps to
/// nothing here).
pub open spec fn spec_format_by_extension(extension: Option<Seq<char>>) -> Option<
    SubtitleFormat,
> {
    if extension == Some("srt"@) {
        Some(SubtitleFormat::SubRip)
    } else if extension == Some("ssa"@) || extension == Some("ass"@) {
        Some(SubtitleFormat::SubStationAlpha)
    } else if extension == Some("idx"@) {
        Some(SubtitleFormat::VobSubIdx)
    } else {
        None
    }
}

/// Returns the subtitle format by the file extension.
///
/// Because the `.sub` extension is ambiguous (both `MicroDVD` and `VobSub`
/// use it), the function returns `None` in that case; use the content-aware
/// `get_subtitle_format` instead. `Option` is used to simplify handling with
/// `PathBuf::extension()`.
pub fn get_subtitle_format_by_extension(extension: Option<&str>) -> (r: Option<SubtitleFormat>)
    ensures
        r == spec_format_by_extension(
            match extension {
                Some(e) => Some(e@),
                None => None,
            },
        ),
{
    match extension {
        None => None,
        Some(e) => {
            if str_eq(e, "srt") {
                Some(SubtitleFormat::SubRip)
            } else if str_eq(e, "ssa") || str_eq(e, "ass") {
                Some(SubtitleFormat::SubStationAlpha)
            } else if str_eq(e, "idx") {
                Some(SubtitleFormat::VobSubIdx)
            } else {
                None
            }
        },
    }
}

/// Returns true if the file extension is valid for the given subtitle
/// format.
pub fn is_valid_extension_for_subtitle_format(
    extension: Option<&str>,
    format: SubtitleFormat,
) -> (r: bool)
    ensures
        r == ({
            let e = match extension {
                Some(e) => Some(e@),
                None => None::<Seq<char>>,
            };
            match format {
                SubtitleFormat::SubRip => e == Some("srt"@),
                SubtitleFormat::SubStationAlpha => e == Some("ssa"@) || e == Some("ass"@),
                SubtitleFormat::VobSubIdx => e == Some("idx"@),
                SubtitleFormat::VobSubSub => e == Some("sub"@),
                SubtitleFormat::MicroDVD => e == Some("sub"@),
            }
        }),
{
    match extension {
        None => false,
        Some(e) => match format {
            SubtitleFormat::SubRip => str_eq(e, "srt"),
            SubtitleFormat::SubStationAlpha => str_eq(e, "ssa") || str_eq(e, "ass"),
            SubtitleFormat::VobSubIdx => str_eq(e, "idx"),
            SubtitleFormat::VobSubSub => str_eq(e, "sub"),
            SubtitleFormat::MicroDVD => str_eq(e, "sub"),
        },
    }
}

/// Works exactly like `get_subtitle_format_by_extension`, but returns an
/// `UnknownFileFormat` error instead of `None` (for simpler error handling).
pub fn get_subtitle_format_by_extension_err(extension: Option<&str>) -> (r: Result<
    SubtitleFormat,
    Error,
>)
    ensures
        ({
            let e = spec_format_by_extension(
                match extension {
                    Some(e) => Some(e@),
                    None => None,
                },
            );
            match r {
                Ok(f) => e == Some(f),
                Err(err) => e is None && err@ == ErrorKind::UnknownFileFormat,
            }
        }),
{
    match get_subtitle_format_by_extension(extension) {
        Some(f) => Ok(f),
        None => Err(Error::from_kind(ErrorKind::UnknownFileFormat)),
    }
}

/// Does the content start with the `VobSub` magic number `00 00 01 BA`?
pub open spec fn has_vobsub_magic(content: Seq<u8>) -> bool {
    content.len() >= 4 && content[0] == 0x00u8 && content[1] == 0x00u8 && content[2] == 0x01u8
        && content[3] == 0xbau8
}

/// The format a file extension and its content map to: for the ambiguous
/// `.sub` extension, the magic number selects the binary format, any other
/// content the frame-indexed text format.
pub open spec fn spec_format_detect(extension: Option<Seq<char>>, content: Seq<u8>) -> Option<
    SubtitleFormat,
> {
    if extension == Some("sub"@) {
        if has_vobsub_magic(content) {
            Some(SubtitleFormat::VobSubSub)
        } else {
            Some(SubtitleFormat::MicroDVD)
        }
    } else {
        spec_format_by_extension(extension)
    }
}

/// Returns the subtitle format by the file extension and the provided
/// content; handles the ambiguous `.sub` extension by looking at the
/// content.
pub fn get_subtitle_format(extension: Option<&str>, content: &[u8]) -> (r: Option<
    SubtitleFormat,
>)
    ensures
        r == spec_format_detect(
            match extension {
                Some(e) => Some(e@),
                None => None,
            },
            content@,
        ),
{
    let is_sub = match extension {
        Some(e) => str_eq(e, "sub"),
        None => false,
    };
    if is_sub {
        if content.len() >= 4 && *vstd::slice::slice_index_get(content, 0) == 0x00u8
            && *vstd::slice::slice_index_get(content, 1) == 0x00u8
            && *vstd::slice::slice_index_get(content, 2) == 0x01u8
            && *vstd::slice::slice_index_get(content, 3) == 0xbau8 {
            Some(SubtitleFormat::VobSubSub)
        } else {
            Some(SubtitleFormat::MicroDVD)
        }
    } else {
        get_subtitle_format_by_extension(extension)
    }
}

/// Works exactly like `get_subtitle_format`, but returns an
/// `UnknownFileFormat` error instead of `None`.
pub fn get_subtitle_format_err(extension: Option<&str>, content: &[u8]) -> (r: Result<
    SubtitleFormat,
    Error,
>)
    ensures
        ({
            let e = spec_format_detect(
                match extension {
                    Some(e) => Some(e@),
                    None => None,
                },
                content@,
            );
            match r {
                Ok(f) => e == Some(f),
                Err(err) => e is None && err@ == ErrorKind::UnknownFileFormat,
            }
        }),
{
    match get_subtitle_format(extension, content) {
        Some(f) => Ok(f),
        None => Err(Error::from_kind(ErrorKind::UnknownFileFormat)),
    }
}

// ////////////////////////////////////////////////////////////////////////////////////////////////
// parsing entry points

/// The exact outcome `parse_str` owes for a given format, decoded text and
/// frame rate: success if and only if the format's grammar accepts the text,
/// the parsed file on success, the error kind (with the failing line and the
/// expected token) on failure.
pub open spec fn parse_str_matches(
    format: SubtitleFormat,
    d: Seq<char>,
    milli_fps: int,
    r: Result<SubtitleFile, Error>,
) -> bool {
    match format {
        SubtitleFormat::SubRip => {
            &&& (r is Ok <==> crate::formats::srt::spec_parse_srt(d) is Ok)
            &&& (r is Ok ==> (r->Ok_0 matches SubtitleFile::SubRipFile(f) && f@
                == crate::formats::srt::spec_parse_srt(d)->Ok_0) && r->Ok_0.wf())
            &&& (r is Err ==> r->Err_0@ == (ErrorKind::ParsingError {
                line: crate::formats::srt::spec_parse_srt(d)->Err_0.0 as usize,
                expected: crate::formats::srt::spec_parse_srt(d)->Err_0.1,
            }))
        },
        SubtitleFormat::SubStationAlpha => {
            &&& (r is Ok <==> crate::formats::ssa::spec_parse_ssa(d) is Ok)
            &&& (r is Ok ==> (r->Ok_0 matches SubtitleFile::SubStationAlpha(f) && f@
                == crate::formats::ssa::spec_parse_ssa(d)->Ok_0) && r->Ok_0.wf())
            &&& (r is Err ==> r->Err_0@ == (ErrorKind::ParsingError {
                line: crate::formats::ssa::spec_parse_ssa(d)->Err_0.0 as usize,
                expected: crate::formats::ssa::spec_parse_ssa(d)->Err_0.1,
            }))
        },
        SubtitleFormat::VobSubIdx => {
            &&& (r is Ok <==> crate::formats::idx::spec_parse_idx(d) is Ok)
            &&& (r is Ok ==> (r->Ok_0 matches SubtitleFile::VobSubIdxFile(f) && f@
                == crate::formats::common::merged_parts::<crate::formats::idx::IdxFilePart>(
                crate::formats::idx::spec_parse_idx(d)->Ok_0)) && r->Ok_0.wf())
            &&& (r is Err ==> r->Err_0@ == (ErrorKind::ParsingError {
                line: crate::formats::idx::spec_parse_idx(d)->Err_0 as usize,
                expected: ExpectedToken::Timestamp,
            }))
        },
        SubtitleFormat::VobSubSub => r is Err && r->Err_0@ == ErrorKind::TextFormatOnly,
        SubtitleFormat::MicroDVD => {
            &&& (r is Ok <==> crate::formats::microdvd::spec_parse_mdvd(d, milli_fps) is Ok)
            &&& (r is Ok ==> (r->Ok_0 matches SubtitleFile::MicroDVDFile(f) && f@
                == crate::formats::microdvd::spec_parse_mdvd(d, milli_fps)->Ok_0) && r->Ok_0.wf())
            &&& (r is Err ==> r->Err_0@ == (ErrorKind::ParsingError {
                line: crate::formats::microdvd::spec_parse_mdvd(d, milli_fps)->Err_0 as usize,
                expected: ExpectedToken::SubtitleLine,
            }))
        },
    }
}

/// Parse text subtitles, invoking the right parser given by `format`.
///
/// Returns a `TextFormatOnly` error if attempted on a binary file format.
/// The frame rate is used by the frame-indexed `MicroDVD` format only.
pub fn parse_str(format: SubtitleFormat, content: &str, fps: FramesPerSecond) -> (r: Result<
    SubtitleFile,
    Error,
>)
    requires
        0 < fps@ <= MAX_MILLI_FPS,
    ensures
        parse_str_matches(format, content@, fps@, r),
{
    match format {
        SubtitleFormat::SubRip => match SrtFile::parse(content) {
            Ok(f) => Ok(SubtitleFile::SubRipFile(f)),
            Err(e) => Err(e),
        },
        SubtitleFormat::SubStationAlpha => match SsaFile::parse(content) {
            Ok(f) => Ok(SubtitleFile::SubStationAlpha(f)),
            Err(e) => Err(e),
        },
        SubtitleFormat::VobSubIdx => match IdxFile::parse(content) {
            Ok(f) => Ok(SubtitleFile::VobSubIdxFile(f)),
            Err(e) => Err(e),
        },
        SubtitleFormat::VobSubSub => Err(Error::from_kind(ErrorKind::TextFormatOnly)),
        SubtitleFormat::MicroDVD => match MdvdFile::parse(content, fps) {
            Ok(f) => Ok(SubtitleFile::MicroDVDFile(f)),
            Err(e) => Err(e),
        },
    }
}

/// The text that decoding a byte stream with a character encoding yields,
/// or nothing when the decoder had to replace a malformed sequence. The
/// decode is a pure function of the encoding and the bytes, so its result
/// only gets a name here.
pub uninterp spec fn decode_of(
    encoding: &'static encoding_rs::Encoding,
    content: Seq<u8>,
) -> Option<Seq<char>>;

/// Decodes bytes to text with the given character encoding.
///
/// Relies on `encoding_rs::Encoding::decode`: it decodes the bytes with the
/// encoding (honoring a byte order mark) and reports whether any malformed
/// sequence was replaced; an empty input decodes to an empty string. `None`
/// is returned here when a replacement happened.
#[verifier::external_body]
fn decode_bytes_to_string(content: &[u8], encoding: &'static encoding_rs::Encoding) -> (r: Option<
    String,
>)
    ensures
        r is Some <==> decode_of(encoding, content@) is Some,
        r matches Some(d) ==> d@ == decode_of(encoding, content@)->Some_0,
        r is None ==> content@.len() > 0,
        content@.len() == 0 ==> r->Some_0@ == Seq::<char>::empty(),
{
    let (decoded, _, replaced) = encoding.decode(content);
    if replaced {
        None
    } else {
        Some(decoded.into_owned())
    }
}

/// The character encoding type of the outside decoding library.
#[verifier::external_type_specification]
#[verifier::external_body]
pub struct ExEncoding(encoding_rs::Encoding);

/// Parse all subtitle formats, invoking the right parser given by `format`.
///
/// A text-based format needs the character `encoding` of the bytes; the
/// frame-indexed `MicroDVD` format additionally needs the frame rate of the
/// associated video. A `DecodingError` is returned exactly when the bytes
/// cannot be decoded with the given encoding; otherwise the decoded text is
/// handed to `parse_str`, whose outcome this function returns.
pub fn parse_bytes(
    format: SubtitleFormat,
    content: &[u8],
    encoding: &'static encoding_rs::Encoding,
    fps: FramesPerSecond,
) -> (r: Result<SubtitleFile, Error>)
    requires
        0 < fps@ <= MAX_MILLI_FPS,
    ensures
        format == SubtitleFormat::VobSubSub ==> {
            &&& (r is Ok <==> crate::formats::vobsub::vobsub_ok(content@))
            &&& (r is Ok ==> (r->Ok_0 matches SubtitleFile::VobSubSubFile(f) && f@ == (
            crate::formats::vobsub::VobView {
                data: content@,
                spans: crate::formats::vobsub::vobsub_time_spans(content@),
            })))
            &&& (r is Err ==> r->Err_0@ == (ErrorKind::ParsingError {
                line: 0,
                expected: ExpectedToken::VobSubData,
            }))
        },
        format != SubtitleFormat::VobSubSub ==> match decode_of(encoding, content@) {
            None => r is Err && r->Err_0@ == ErrorKind::DecodingError,
            Some(d) => parse_str_matches(format, d, fps@, r),
        },
{
    match format {
        SubtitleFormat::VobSubSub => match VobFile::parse(content) {
            Ok(f) => Ok(SubtitleFile::VobSubSubFile(f)),
            Err(e) => Err(e),
        },
        _ => {
            match decode_bytes_to_string(content, encoding) {
                None => Err(Error::from_kind(ErrorKind::DecodingError)),
                Some(s) => parse_str(format, s.as_str(), fps),
            }
        },
    }
}

} // verus!
