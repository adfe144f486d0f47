//! A common interface for popular subtitle formats (`.srt`, `.ssa`, `.ass`, `.idx`, `.sub`).
//!
//! Files can be parsed, modified and saved again; some formats can be created
//! from scratch. The focus is on non-destructive parsing: formatting and other
//! information are preserved if not explicitly changed.

pub mod errors;
pub mod formats;
pub mod timetypes;

pub use formats::idx::IdxFile;
pub use formats::microdvd::{FramesPerSecond, MdvdFile};
pub use formats::srt::SrtFile;
pub use formats::ssa::SsaFile;
pub use formats::vobsub::VobFile;
pub use formats::SubtitleFormat;
pub use formats::{
    get_subtitle_format, get_subtitle_format_by_extension, get_subtitle_format_by_extension_err,
    get_subtitle_format_err, is_valid_extension_for_subtitle_format, parse_bytes, parse_str,
};

use crate::errors::Result;
use crate::timetypes::TimeSpan;
use vstd::prelude::*;

verus! {

/// The mathematical content of a subtitle entry: start and end time in
/// milliseconds and the optional text.
#[verifier::ext_equal]
pub struct EntryView {
    /// Start of the time span, in milliseconds.
    pub start: int,
    /// End of the time span, in milliseconds.
    pub end: int,
    /// The text of the entry, absent for image-based formats.
    pub line: Option<Seq<char>>,
}

/// The data which can be read from/written to a subtitle file.
#[derive(Debug)]
pub struct SubtitleEntry {
    /// The duration for which the current subtitle will be shown.
    pub timespan: TimeSpan,

    /// The text which will be shown in this subtitle. Be aware that for
    /// example VobSub files (and any other image based format) will have
    /// `None` as value.
    pub line: Option<String>,
}

impl View for SubtitleEntry {
    type V = EntryView;

    open spec fn view(&self) -> EntryView {
        EntryView {
            start: self.timespan.start@,
            end: self.timespan.end@,
            line: match self.line {
                Some(ref s) => Some(s@),
                None => None,
            },
        }
    }
}

/// The views of a sequence of subtitle entries.
pub open spec fn entry_views(s: Seq<SubtitleEntry>) -> Seq<EntryView> {
    s.map(|i: int, e: SubtitleEntry| e@)
}

impl SubtitleEntry {
    /// Create subtitle entry with text.
    pub fn new(timespan: TimeSpan, line: String) -> (r: SubtitleEntry)
        ensures
            r@.start == timespan.start@,
            r@.end == timespan.end@,
            r@.line == Some(line@),
    {
        SubtitleEntry { timespan, line: Some(line) }
    }

    /// Create a text-less subtitle entry from a time span.
    pub fn from_span(timespan: TimeSpan) -> (r: SubtitleEntry)
        ensures
            r@.start == timespan.start@,
            r@.end == timespan.end@,
            r@.line is None,
    {
        SubtitleEntry { timespan, line: None }
    }
}

/// This trait represents the generic interface for reading and writing
/// subtitle information across all subtitle formats.
///
/// This trait allows you to read, change and rewrite the subtitle file.
pub trait SubtitleFile: View + Sized {
    /// Internal consistency of a file value. Parsing establishes it and every
    /// operation preserves it.
    spec fn wf(&self) -> bool;

    /// The entries the file currently holds.
    spec fn spec_entries(&self) -> Seq<EntryView>;

    /// Does this format support writing entries back?
    spec fn supports_update(&self) -> bool;

    /// Which entry lists may be written back (format-specific machine bounds).
    spec fn accepts(&self, new: Seq<EntryView>) -> bool;

    /// The view of the file after writing the given entries back.
    spec fn spec_updated(&self, new: Seq<EntryView>) -> Self::V;

    /// The exact byte content this file serializes to.
    spec fn spec_data(&self) -> Seq<u8>;

    /// The subtitle entries; they can be changed by calling
    /// `update_subtitle_entries()`.
    fn get_subtitle_entries(&self) -> (r: Result<Vec<SubtitleEntry>>)
        requires
            self.wf(),
        ensures
            r is Ok,
            entry_views(r->Ok_0@) == self.spec_entries(),
    ;

    /// Set the entries from the subtitle entries from
    /// `get_subtitle_entries()`.
    ///
    /// The length of the given input slice always has to match the length of
    /// the vector from `get_subtitle_entries()`. This function can not
    /// delete/create new entries, but preserves everything else in the file
    /// (formatting, authors, ...).
    ///
    /// If the input entry has `entry.line == None`, the line will not be
    /// overwritten.
    fn update_subtitle_entries(&mut self, i: &[SubtitleEntry]) -> (r: Result<()>)
        requires
            old(self).wf(),
            i@.len() == old(self).spec_entries().len(),
            old(self).accepts(entry_views(i@)),
        ensures
            final(self).wf(),
            r is Ok <==> old(self).supports_update(),
            r is Ok ==> final(self)@ == old(self).spec_updated(entry_views(i@)),
            r is Err ==> *final(self) == *old(self),
    ;

    /// Returns a byte stream in the respective format (.ssa, .srt, etc.) with
    /// the (probably) altered information.
    fn to_data(&self) -> (r: Result<Vec<u8>>)
        requires
            self.wf(),
        ensures
            r is Ok,
            r->Ok_0@ == self.spec_data(),
    ;
}

} // verus!
