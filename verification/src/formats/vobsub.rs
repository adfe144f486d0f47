//! The `.sub` (`VobSub`) binary image format. The external decoder turns the
//! container's compressed images into timing records; this module keeps the
//! original bytes and exposes the timings as read-only entries.

use crate::errors::{Error, ErrorKind, ExpectedToken};
use crate::formats::SubtitleFormat;
use crate::timetypes::{TimePoint, TimeSpan};
use crate::{entry_views, EntryView, SubtitleEntry, SubtitleFile};
use vstd::prelude::*;

verus! {

/// The millisecond time spans that the external `VobSub` decoder reads from
/// a byte stream. The decoder is a pure function of the bytes, so its result
/// only gets a name here; nothing else is assumed about it.
pub uninterp spec fn vobsub_time_spans(b: Seq<u8>) -> Seq<(int, int)>;

/// Whether the external `VobSub` decoder accepts a byte stream. Like the
/// spans, this is a pure function of the bytes and only gets a name.
pub uninterp spec fn vobsub_ok(b: Seq<u8>) -> bool;

/// Decodes a `VobSub` byte stream into (start, end) millisecond pairs.
///
/// Relies on `vobsub::subtitles`: it yields every subtitle of the stream in
/// order, each with its start and end time in seconds, or an error for a
/// malformed stream. The seconds are converted to whole milliseconds here;
/// a decoder error is collapsed to `Err(())`.
#[verifier::external_body]
fn decode_vobsub(b: &[u8]) -> (r: Result<Vec<(i64, i64)>, ()>)
    ensures
        r is Ok <==> vobsub_ok(b@),
        r is Ok ==> r->Ok_0@.map(|i: int, p: (i64, i64)| (p.0 as int, p.1 as int))
            == vobsub_time_spans(b@),
{
    let mut out: Vec<(i64, i64)> = Vec::new();
    for sub in ::vobsub::subtitles(b) {
        match sub {
            Ok(sub) => out.push((
                sub.start_time().mul_add(1000u16.into(), 0u8.into()) as i64,
                sub.end_time().mul_add(1000u16.into(), 0u8.into()) as i64,
            )),
            Err(_) => {
                return Err(());
            },
        }
    }
    Ok(out)
}

/// The mathematical content of a `VobSub` file: the original bytes and the
/// decoded time spans.
#[verifier::ext_equal]
pub struct VobView {
    /// The bytes of the file, kept verbatim.
    pub data: Seq<u8>,
    /// The decoded (start, end) time spans, in milliseconds.
    pub spans: Seq<(int, int)>,
}

#[derive(Debug, Clone)]
/// Represents a `.sub` (`VobSub`) file.
pub struct VobFile {
    /// The file data.
    data: Vec<u8>,
    /// The extracted subtitle time spans.
    lines: Vec<(i64, i64)>,
}

impl View for VobFile {
    type V = VobView;

    closed spec fn view(&self) -> VobView {
        VobView {
            data: self.data@,
            spans: self.lines@.map(|i: int, p: (i64, i64)| (p.0 as int, p.1 as int)),
        }
    }
}

impl VobFile {
    /// Parse the contents of a `VobSub` `.sub` file.
    pub fn parse(b: &[u8]) -> (r: Result<VobFile, Error>)
        ensures
            r is Ok <==> vobsub_ok(b@),
            r is Ok ==> r->Ok_0@ == (VobView { data: b@, spans: vobsub_time_spans(b@) })
                && r->Ok_0.wf(),
            r is Err ==> r->Err_0@ == (ErrorKind::ParsingError {
                line: 0,
                expected: ExpectedToken::VobSubData,
            }),
    {
        match decode_vobsub(b) {
            Ok(lines) => {
                let file = VobFile { data: vstd::slice::slice_to_vec(b), lines };
                proof {
                    assert(file@ =~~= (VobView { data: b@, spans: vobsub_time_spans(b@) }));
                }
                Ok(file)
            },
            Err(_) => Err(Error::from_kind(ErrorKind::ParsingError {
                line: 0,
                expected: ExpectedToken::VobSubData,
            })),
        }
    }
}

/// The entries a span list stands for: one image-only entry per span.
pub open spec fn vob_entries(spans: Seq<(int, int)>) -> Seq<EntryView> {
    Seq::new(spans.len(), |i: int| EntryView { start: spans[i].0, end: spans[i].1, line: None })
}

impl SubtitleFile for VobFile {
    open spec fn wf(&self) -> bool {
        true
    }

    open spec fn spec_entries(&self) -> Seq<EntryView> {
        vob_entries(self@.spans)
    }

    open spec fn supports_update(&self) -> bool {
        false
    }

    open spec fn accepts(&self, new: Seq<EntryView>) -> bool {
        true
    }

    open spec fn spec_updated(&self, new: Seq<EntryView>) -> VobView {
        self@
    }

    open spec fn spec_data(&self) -> Seq<u8> {
        self@.data
    }

    fn get_subtitle_entries(&self) -> (r: Result<Vec<SubtitleEntry>, Error>) {
        let ghost spans = self@.spans;
        let mut out: Vec<SubtitleEntry> = Vec::new();
        let mut i: usize = 0;
        let n = self.lines.len();
        proof {
            assert(entry_views(out@) =~= vob_entries(spans).take(0));
        }
        while i < n
            invariant
                i <= n,
                n == self.lines@.len(),
                spans == self@.spans,
                spans == self.lines@.map(|j: int, p: (i64, i64)| (p.0 as int, p.1 as int)),
                entry_views(out@) == vob_entries(spans).take(i as int),
            decreases n - i,
        {
            let ghost prev = out@;
            let p = self.lines[i];
            proof {
                assert(spans[i as int] == (p.0 as int, p.1 as int));
            }
            let e = SubtitleEntry::from_span(
                TimeSpan::new(TimePoint::from_msecs(p.0), TimePoint::from_msecs(p.1)),
            );
            out.push(e);
            proof {
                assert(entry_views(out@) =~= entry_views(prev).push(
                    vob_entries(spans)[i as int]));
                assert(entry_views(out@) =~= vob_entries(spans).take(i + 1));
            }
            i += 1;
        }
        proof {
            assert(vob_entries(spans).take(n as int) =~= vob_entries(spans));
        }
        Ok(out)
    }

    /// Updating is not supported for this binary format: the call fails with
    /// `UpdatingEntriesNotSupported` and leaves the file untouched.
    fn update_subtitle_entries(&mut self, i: &[SubtitleEntry]) -> (r: Result<(), Error>)
        ensures
            r is Err && r->Err_0@ == (ErrorKind::UpdatingEntriesNotSupported {
                format: SubtitleFormat::VobSubSub,
            }),
    {
        Err(Error::from_kind(ErrorKind::UpdatingEntriesNotSupported {
            format: SubtitleFormat::VobSubSub,
        }))
    }

    fn to_data(&self) -> (r: Result<Vec<u8>, Error>) {
        Ok(vstd::slice::slice_to_vec(self.data.as_slice()))
    }
}

} // verus!
