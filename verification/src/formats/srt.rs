//! The `.srt` format: a four-state line machine. A record is an index line,
//! a timespan line like `00:24:45,670 --> 00:24:45,680`, and dialog lines
//! until a blank line. Whitespace, line terminators and the exact text
//! around the parsed values are kept, so an unedited file is reconstructed
//! byte for byte.

use crate::errors::{Error, ErrorKind, ExpectedToken};
use crate::formats::common::{
    all_ws, chars_to_string, dec_str_pad, dup_chars, extend_chars, find_char, lemma_find_char_at,
    lemma_find_char_absent, num_end, scan_num,
    get_lines_chars, int_str, is_ws, lemma_ws_prefix, line_views, parse_i64_chars, render_i64,
    render_u64_pad, spec_bom_skip, spec_number_i64, spec_split_lines, str_to_chars,
    string_to_bytes, subvec, trim_bounds, ws_prefix_end, ws_run_end, ws_suffix_start, bom_skip,
};
use crate::timetypes::{abs_ms, from_components_total, TimePoint, TimeSpan};
use crate::{entry_views, EntryView, SubtitleEntry, SubtitleFile};
use vstd::prelude::*;

verus! {

// ////////////////////////////////////////////////////////////////////////////////////////////////
// the data model

/// One dialog line of a record: the trimmed text with its surrounding
/// whitespace and line terminator kept verbatim.
#[verifier::ext_equal]
pub struct SrtDialogView {
    /// Whitespace before the text.
    pub lead: Seq<char>,
    /// The trimmed dialog text (free of line terminators).
    pub text: Seq<char>,
    /// Whitespace after the text, and the line terminator.
    pub trail: Seq<char>,
}

/// The mathematical content of one `.srt` record.
#[verifier::ext_equal]
pub struct SrtRecordView {
    /// Everything before the index line (blank lines between records).
    pub pre: Seq<char>,
    /// Whitespace before the index number.
    pub ilead: Seq<char>,
    /// The index number of the record.
    pub index: int,
    /// Whitespace after the index number, and the line terminator.
    pub itrail: Seq<char>,
    /// Whitespace before the start timestamp.
    pub tlead: Seq<char>,
    /// Start time in milliseconds.
    pub start: int,
    /// The text between the two timestamps (the arrow and its whitespace).
    pub mid: Seq<char>,
    /// End time in milliseconds.
    pub end: int,
    /// Whitespace after the end timestamp, and the line terminator.
    pub ttrail: Seq<char>,
    /// The dialog lines.
    pub dialogs: Seq<SrtDialogView>,
    /// Text after the dialog lines that belongs to this record (used by
    /// freshly created records for the separating blank line).
    pub post: Seq<char>,
}

/// The mathematical content of an `.srt` file.
#[verifier::ext_equal]
pub struct SrtView {
    /// The records, in order.
    pub records: Seq<SrtRecordView>,
    /// Trailing text after the last record (blank lines).
    pub tail: Seq<char>,
}

#[derive(Debug)]
struct SrtDialog {
    lead: Vec<char>,
    text: Vec<char>,
    trail: Vec<char>,
}

#[derive(Debug)]
struct SrtRecord {
    pre: Vec<char>,
    ilead: Vec<char>,
    index: i64,
    itrail: Vec<char>,
    tlead: Vec<char>,
    start: TimePoint,
    mid: Vec<char>,
    end: TimePoint,
    ttrail: Vec<char>,
    dialogs: Vec<SrtDialog>,
    post: Vec<char>,
}

#[derive(Debug, Clone)]
/// Represents a reconstructable `.srt` file.
pub struct SrtFile {
    v: Vec<SrtRecord>,
    tail: Vec<char>,
}

/// The views of a vector of dialogs.
spec fn dialog_views(s: Seq<SrtDialog>) -> Seq<SrtDialogView> {
    s.map(|i: int, d: SrtDialog| d@)
}

/// The views of a vector of records.
spec fn record_views(s: Seq<SrtRecord>) -> Seq<SrtRecordView> {
    s.map(|i: int, r: SrtRecord| r@)
}

impl View for SrtDialog {
    type V = SrtDialogView;

    closed spec fn view(&self) -> SrtDialogView {
        SrtDialogView { lead: self.lead@, text: self.text@, trail: self.trail@ }
    }
}

impl View for SrtRecord {
    type V = SrtRecordView;

    closed spec fn view(&self) -> SrtRecordView {
        SrtRecordView {
            pre: self.pre@,
            ilead: self.ilead@,
            index: self.index as int,
            itrail: self.itrail@,
            tlead: self.tlead@,
            start: self.start@,
            mid: self.mid@,
            end: self.end@,
            ttrail: self.ttrail@,
            dialogs: dialog_views(self.dialogs@),
            post: self.post@,
        }
    }
}

impl View for SrtFile {
    type V = SrtView;

    closed spec fn view(&self) -> SrtView {
        SrtView { records: record_views(self.v@), tail: self.tail@ }
    }
}

impl Clone for SrtDialog {
    fn clone(&self) -> (r: Self)
        ensures
            r@ == self@,
    {
        SrtDialog {
            lead: dup_chars(&self.lead),
            text: dup_chars(&self.text),
            trail: dup_chars(&self.trail),
        }
    }
}

impl Clone for SrtRecord {
    fn clone(&self) -> (r: Self)
        ensures
            r@ == self@,
    {
        let mut dialogs: Vec<SrtDialog> = Vec::new();
        let mut i: usize = 0;
        while i < self.dialogs.len()
            invariant
                i <= self.dialogs@.len(),
                dialog_views(dialogs@) == dialog_views(self.dialogs@).take(i as int),
            decreases self.dialogs@.len() - i,
        {
            let ghost prev = dialogs@;
            let d = self.dialogs[i].clone();
            let ghost dv = d@;
            proof {
                assert(dv == dialog_views(self.dialogs@)[i as int]);
            }
            dialogs.push(d);
            i += 1;
            proof {
                assert(prev.len() == dialog_views(prev).len());
                assert(prev.len() == i - 1);
                assert(dialogs@.len() == prev.len() + 1);
                assert(dialogs@[i - 1]@ == dv);
                assert forall|k: int|
                    0 <= k < dialogs@.len() implies #[trigger] dialog_views(dialogs@)[k]
                    == dialog_views(self.dialogs@).take(i as int)[k] by {
                    if k < i - 1 {
                        assert(dialogs@[k] == prev[k]);
                        assert(dialog_views(prev)[k] == dialog_views(self.dialogs@).take(
                            i - 1)[k]);
                    } else {
                        assert(dialogs@[k]@ == dv);
                    }
                }
                assert(dialog_views(dialogs@) =~= dialog_views(self.dialogs@).take(i as int));
            }
        }
        proof {
            assert(dialog_views(self.dialogs@).take(self.dialogs@.len() as int) =~= dialog_views(
                self.dialogs@));
        }
        SrtRecord {
            pre: dup_chars(&self.pre),
            ilead: dup_chars(&self.ilead),
            index: self.index,
            itrail: dup_chars(&self.itrail),
            tlead: dup_chars(&self.tlead),
            start: self.start,
            mid: dup_chars(&self.mid),
            end: self.end,
            ttrail: dup_chars(&self.ttrail),
            dialogs,
            post: dup_chars(&self.post),
        }
    }
}

// ////////////////////////////////////////////////////////////////////////////////////////////////
// rendering

/// The canonical text of an `.srt` timestamp: `HH:MM:SS,mmm` of the absolute
/// time (the format has no place for a sign).
pub open spec fn render_srt_time(t: int) -> Seq<char> {
    let a = abs_ms(t);
    dec_str_pad(a / 3600000, 2) + seq![':'] + dec_str_pad((a / 60000) % 60, 2) + seq![':']
        + dec_str_pad((a / 1000) % 60, 2) + seq![','] + dec_str_pad(a % 1000, 3)
}

/// The texts of a record's dialog lines.
pub open spec fn dialog_texts(ds: Seq<SrtDialogView>) -> Seq<Seq<char>> {
    ds.map(|i: int, d: SrtDialogView| d.text)
}

pub open spec fn render_srt_dialogs(ds: Seq<SrtDialogView>) -> Seq<char>
    decreases ds.len(),
{
    if ds.len() == 0 {
        Seq::empty()
    } else {
        render_srt_dialogs(ds.drop_last()) + ds.last().lead + ds.last().text + ds.last().trail
    }
}

pub open spec fn render_srt_record(r: SrtRecordView) -> Seq<char> {
    r.pre + r.ilead + int_str(r.index) + r.itrail + r.tlead + render_srt_time(r.start) + r.mid
        + render_srt_time(r.end) + r.ttrail + render_srt_dialogs(r.dialogs) + r.post
}

pub open spec fn render_srt_records(rs: Seq<SrtRecordView>) -> Seq<char>
    decreases rs.len(),
{
    if rs.len() == 0 {
        Seq::empty()
    } else {
        render_srt_records(rs.drop_last()) + render_srt_record(rs.last())
    }
}

/// The full text an `.srt` file value renders to.
pub open spec fn srt_render(v: SrtView) -> Seq<char> {
    render_srt_records(v.records) + v.tail
}

// ////////////////////////////////////////////////////////////////////////////////////////////////
// entries

/// The dialog texts joined with a newline between each pair.
pub open spec fn join_texts(ts: Seq<Seq<char>>) -> Seq<char>
    decreases ts.len(),
{
    if ts.len() == 0 {
        Seq::empty()
    } else if ts.len() == 1 {
        ts[0]
    } else {
        join_texts(ts.drop_last()) + seq!['\n'] + ts.last()
    }
}

/// The entries of an `.srt` file: one per record, with the dialog lines
/// joined by newlines.
pub open spec fn srt_entries(v: SrtView) -> Seq<EntryView> {
    Seq::new(
        v.records.len(),
        |i: int|
            EntryView {
                start: v.records[i].start,
                end: v.records[i].end,
                line: Some(join_texts(dialog_texts(v.records[i].dialogs))),
            },
    )
}

// ////////////////////////////////////////////////////////////////////////////////////////////////
// text splitting (the behaviour of `str::lines`)

/// `s` without one trailing carriage return.
pub open spec fn strip_cr(s: Seq<char>) -> Seq<char> {
    if s.len() > 0 && s.last() == '\r' {
        s.drop_last()
    } else {
        s
    }
}

/// Splitting a text into lines at `\n`, stripping a `\r` directly before
/// each `\n`, and dropping a final empty piece.
pub open spec fn spec_split_text(s: Seq<char>) -> Seq<Seq<char>>
    decreases s.len(),
{
    if s.len() == 0 {
        Seq::empty()
    } else {
        let i = find_char(s, '\n') as int;
        if i >= s.len() {
            seq![s]
        } else {
            let piece = strip_cr(s.take(i));
            let rest = s.skip(i + 1);
            if rest.len() == 0 {
                seq![piece]
            } else {
                seq![piece] + spec_split_text(rest)
            }
        }
    }
}

/// Splits a text into its lines as `str::lines` does.
fn split_text(s: &Vec<char>) -> (r: Vec<Vec<char>>)
    ensures
        r@.map(|i: int, p: Vec<char>| p@) == spec_split_text(s@),
{
    let n = s.len();
    let mut r: Vec<Vec<char>> = Vec::new();
    let mut p: usize = 0;
    proof {
        assert(s@.skip(0) =~= s@);
        assert(r@.map(|i: int, p: Vec<char>| p@) =~= Seq::<Seq<char>>::empty());
    }
    while p < n
        invariant
            p <= n,
            n == s@.len(),
            spec_split_text(s@) =~= r@.map(|i: int, q: Vec<char>| q@) + spec_split_text(
                s@.skip(p as int)),
        decreases n - p,
    {
        let ghost rest = s@.skip(p as int);
        let e = crate::formats::common::find_char_from(s, p, n, '\n');
        proof {
            crate::formats::common::lemma_find_char(rest, '\n');
            assert(rest =~= s@.subrange(p as int, n as int));
        }
        let ghost prev = r@;
        if e == n {
            let piece = subvec(s, p, n);
            proof {
                assert(piece@ =~= rest);
                assert(spec_split_text(rest) =~= seq![piece@]);
            }
            r.push(piece);
            proof {
                assert(r@.map(|i: int, q: Vec<char>| q@) =~= prev.map(|i: int, q: Vec<char>| q@)
                    + seq![piece@]);
                assert(s@.skip(n as int) =~= Seq::<char>::empty());
            }
            p = n;
        } else {
            let cut = if e > p && s[e - 1] == '\r' {
                e - 1
            } else {
                e
            };
            let piece = subvec(s, p, cut);
            proof {
                assert(rest.take(e - p) =~= s@.subrange(p as int, e as int));
                assert(piece@ =~= strip_cr(rest.take(e - p))) by {
                    if e > p && s@[e - 1] == '\r' {
                        assert(rest.take(e - p).last() == s@[e - 1]);
                        assert(rest.take(e - p).drop_last() =~= s@.subrange(
                            p as int,
                            cut as int,
                        ));
                    }
                }
                assert(rest.skip(e - p + 1) =~= s@.skip(e + 1));
            }
            r.push(piece);
            proof {
                assert(r@.map(|i: int, q: Vec<char>| q@) =~= prev.map(|i: int, q: Vec<char>| q@)
                    + seq![piece@]);
                if e + 1 < n {
                    assert(spec_split_text(rest) =~= seq![piece@] + spec_split_text(s@.skip(e + 1)));
                } else {
                    assert(spec_split_text(rest) =~= seq![piece@]);
                    assert(s@.skip(e + 1) =~= Seq::<char>::empty());
                }
            }
            p = e + 1;
        }
    }
    proof {
        assert(spec_split_text(s@.skip(n as int)) =~= Seq::<Seq<char>>::empty());
        assert(spec_split_text(s@) =~= r@.map(|i: int, q: Vec<char>| q@));
    }
    r
}

// ////////////////////////////////////////////////////////////////////////////////////////////////
// updating

/// One record after an entry is written back: the times are overwritten, and
/// the dialog lines are replaced when the entry carries a text. When the new
/// text has as many lines as the record, each line is replaced in place
/// (keeping its surrounding whitespace); otherwise the dialog region is
/// rebuilt with plain newline terminators.
pub open spec fn srt_updated_record(r: SrtRecordView, e: EntryView) -> SrtRecordView {
    let dialogs = match e.line {
        None => r.dialogs,
        Some(t) => {
            let ps = spec_split_text(t);
            if ps.len() == r.dialogs.len() {
                Seq::new(
                    ps.len(),
                    |j: int|
                        SrtDialogView {
                            lead: r.dialogs[j].lead,
                            text: ps[j],
                            trail: r.dialogs[j].trail,
                        },
                )
            } else {
                Seq::new(
                    ps.len(),
                    |j: int|
                        SrtDialogView {
                            lead: Seq::empty(),
                            text: ps[j],
                            trail: if j < ps.len() - 1 {
                                seq!['\n']
                            } else if r.dialogs.len() > 0 {
                                r.dialogs.last().trail
                            } else {
                                seq!['\n']
                            },
                        },
                )
            }
        },
    };
    SrtRecordView {
        pre: r.pre,
        ilead: r.ilead,
        index: r.index,
        itrail: r.itrail,
        tlead: r.tlead,
        start: e.start,
        mid: r.mid,
        end: e.end,
        ttrail: r.ttrail,
        dialogs,
        post: r.post,
    }
}

/// The file after writing a list of entries back, record by record.
pub open spec fn srt_updated(v: SrtView, new: Seq<EntryView>) -> SrtView {
    SrtView {
        records: Seq::new(v.records.len(), |i: int| srt_updated_record(v.records[i], new[i])),
        tail: v.tail,
    }
}

/// All times of the records lie strictly above `i64::MIN` (so that absolute
/// values exist).
pub open spec fn records_wf(recs: Seq<SrtRecordView>) -> bool {
    forall|i: int|
        0 <= i < recs.len() ==> i64::MIN < (#[trigger] recs[i]).start <= i64::MAX && i64::MIN
            < recs[i].end <= i64::MAX
}

/// All times lie strictly above `i64::MIN` (so that absolute values exist).
pub open spec fn srt_wf(v: SrtView) -> bool {
    records_wf(v.records)
}

/// Each dialog text of the records is nonempty and free of line terminators.
pub open spec fn records_shape(recs: Seq<SrtRecordView>) -> bool {
    forall|i: int, j: int|
        0 <= i < recs.len() && 0 <= j < (#[trigger] recs[i]).dialogs.len() ==> {
            let t = (#[trigger] recs[i].dialogs[j]).text;
            t.len() > 0 && forall|k: int| 0 <= k < t.len() ==> t[k] != '\n' && t[k] != '\r'
        }
}

/// The shape every parsed file has: each dialog text is nonempty and free of
/// line terminators.
pub open spec fn srt_parsed_shape(v: SrtView) -> bool {
    records_shape(v.records)
}

// ////////////////////////////////////////////////////////////////////////////////////////////////
// executable rendering helpers

/// Renders a time point in the canonical `.srt` form `HH:MM:SS,mmm`.
fn render_time(t: TimePoint) -> (v: Vec<char>)
    requires
        t@ != i64::MIN,
    ensures
        v@ == render_srt_time(t@),
{
    let a = t.abs();
    let mut out: Vec<char> = Vec::new();
    let mut piece = render_u64_pad(a.hours() as u64, 2);
    out.append(&mut piece);
    out.push(':');
    let mut piece = render_u64_pad(t.mins_comp() as u64, 2);
    out.append(&mut piece);
    out.push(':');
    let mut piece = render_u64_pad(t.secs_comp() as u64, 2);
    out.append(&mut piece);
    out.push(',');
    let mut piece = render_u64_pad(t.msecs_comp() as u64, 3);
    out.append(&mut piece);
    assert(out@ =~= render_srt_time(t@));
    out
}

impl SrtRecord {
    /// The joined dialog text of this record.
    fn joined_text(&self) -> (r: Vec<char>)
        ensures
            r@ == join_texts(dialog_texts(self@.dialogs)),
    {
        let ghost ds = self@.dialogs;
        let mut out: Vec<char> = Vec::new();
        let mut j: usize = 0;
        let n = self.dialogs.len();
        proof {
            assert(dialog_texts(ds.take(0)) =~= Seq::<Seq<char>>::empty());
        }
        while j < n
            invariant
                j <= n,
                n == self.dialogs@.len(),
                ds == dialog_views(self.dialogs@),
                out@ == join_texts(dialog_texts(ds.take(j as int))),
            decreases n - j,
        {
            proof {
                assert(dialog_texts(ds.take(j + 1)).drop_last() =~= dialog_texts(
                    ds.take(j as int)));
                assert(dialog_texts(ds.take(j + 1)).last() == ds[j as int].text);
                assert(ds[j as int] == self.dialogs@[j as int]@);
            }
            if j > 0 {
                out.push('\n');
            }
            extend_chars(&mut out, &self.dialogs[j].text);
            proof {
                if j == 0 {
                    assert(dialog_texts(ds.take(1)).len() == 1);
                    assert(out@ =~= join_texts(dialog_texts(ds.take(1))));
                } else {
                    assert(out@ =~= join_texts(dialog_texts(ds.take(j + 1))));
                }
            }
            j += 1;
        }
        proof {
            assert(ds.take(n as int) =~= ds);
        }
        out
    }

    /// This record's text rendering.
    fn render(&self) -> (r: Vec<char>)
        requires
            self@.start != i64::MIN,
            self@.end != i64::MIN,
        ensures
            r@ == render_srt_record(self@),
    {
        let ghost ds = self@.dialogs;
        let mut out: Vec<char> = Vec::new();
        extend_chars(&mut out, &self.pre);
        extend_chars(&mut out, &self.ilead);
        let mut piece = render_i64(self.index);
        out.append(&mut piece);
        extend_chars(&mut out, &self.itrail);
        extend_chars(&mut out, &self.tlead);
        let mut piece = render_time(self.start);
        out.append(&mut piece);
        extend_chars(&mut out, &self.mid);
        let mut piece = render_time(self.end);
        out.append(&mut piece);
        extend_chars(&mut out, &self.ttrail);
        let ghost head = out@;
        let mut j: usize = 0;
        let n = self.dialogs.len();
        proof {
            assert(render_srt_dialogs(ds.take(0)) =~= Seq::<char>::empty());
            assert(out@ =~= head + render_srt_dialogs(ds.take(0)));
        }
        while j < n
            invariant
                j <= n,
                n == self.dialogs@.len(),
                ds == dialog_views(self.dialogs@),
                out@ == head + render_srt_dialogs(ds.take(j as int)),
            decreases n - j,
        {
            proof {
                assert(ds.take(j + 1).drop_last() =~= ds.take(j as int));
                assert(ds.take(j + 1).last() == ds[j as int]);
                assert(ds[j as int] == self.dialogs@[j as int]@);
            }
            let d = &self.dialogs[j];
            extend_chars(&mut out, &d.lead);
            extend_chars(&mut out, &d.text);
            extend_chars(&mut out, &d.trail);
            proof {
                assert(out@ =~= head + render_srt_dialogs(ds.take(j + 1)));
            }
            j += 1;
        }
        proof {
            assert(ds.take(n as int) =~= ds);
        }
        extend_chars(&mut out, &self.post);
        proof {
            assert(out@ =~= render_srt_record(self@));
        }
        out
    }
}

// ////////////////////////////////////////////////////////////////////////////////////////////////
// the unified protocol

impl SubtitleFile for SrtFile {
    open spec fn wf(&self) -> bool {
        srt_wf(self@)
    }

    open spec fn spec_entries(&self) -> Seq<EntryView> {
        srt_entries(self@)
    }

    open spec fn supports_update(&self) -> bool {
        true
    }

    open spec fn accepts(&self, new: Seq<EntryView>) -> bool {
        forall|k: int|
            0 <= k < new.len() ==> i64::MIN < (#[trigger] new[k]).start <= i64::MAX && i64::MIN
                < new[k].end <= i64::MAX
    }

    open spec fn spec_updated(&self, new: Seq<EntryView>) -> SrtView {
        srt_updated(self@, new)
    }

    open spec fn spec_data(&self) -> Seq<u8> {
        vstd::utf8::encode_utf8(srt_render(self@))
    }

    fn get_subtitle_entries(&self) -> (r: Result<Vec<SubtitleEntry>, Error>) {
        let ghost rv = self@.records;
        let mut out: Vec<SubtitleEntry> = Vec::new();
        let mut i: usize = 0;
        let n = self.v.len();
        proof {
            assert(entry_views(out@) =~= srt_entries(self@).take(0));
        }
        while i < n
            invariant
                i <= n,
                n == self.v@.len(),
                rv == record_views(self.v@),
                rv == self@.records,
                entry_views(out@) == srt_entries(self@).take(i as int),
            decreases n - i,
        {
            let ghost prev = out@;
            let rec = &self.v[i];
            proof {
                assert(rec@ == rv[i as int]);
            }
            let text = chars_to_string(&rec.joined_text());
            let e = SubtitleEntry::new(TimeSpan::new(rec.start, rec.end), text);
            out.push(e);
            proof {
                assert(entry_views(out@) =~= entry_views(prev).push(
                    srt_entries(self@)[i as int]));
                assert(entry_views(out@) =~= srt_entries(self@).take(i + 1));
            }
            i += 1;
        }
        proof {
            assert(srt_entries(self@).take(n as int) =~= srt_entries(self@));
        }
        Ok(out)
    }

    fn update_subtitle_entries(&mut self, i: &[SubtitleEntry]) -> (r: Result<(), Error>) {
        let ghost oldv = self@;
        let ghost newvs = entry_views(i@);
        let mut out: Vec<SrtRecord> = Vec::new();
        let mut k: usize = 0;
        let n = self.v.len();
        proof {
            assert(record_views(out@) =~= srt_updated(oldv, newvs).records.take(0));
        }
        while k < n
            invariant
                k <= n,
                n == self.v@.len(),
                oldv == self@,
                oldv.records == record_views(self.v@),
                newvs == entry_views(i@),
                newvs.len() == oldv.records.len(),
                forall|q: int|
                    0 <= q < newvs.len() ==> i64::MIN < (#[trigger] newvs[q]).start && i64::MIN
                        < newvs[q].end,
                record_views(out@) == srt_updated(oldv, newvs).records.take(k as int),
            decreases n - k,
        {
            let ghost prev = out@;
            let rec = &self.v[k];
            let e = &i[k];
            proof {
                assert(rec@ == oldv.records[k as int]);
                assert(e@ == newvs[k as int]);
            }
            let newrec = update_record(rec, e);
            out.push(newrec);
            proof {
                assert(record_views(out@) =~= record_views(prev).push(
                    srt_updated(oldv, newvs).records[k as int]));
                assert(record_views(out@) =~= srt_updated(oldv, newvs).records.take(k + 1));
            }
            k += 1;
        }
        proof {
            assert(srt_updated(oldv, newvs).records.take(n as int) =~= srt_updated(
                oldv,
                newvs,
            ).records);
        }
        self.v = out;
        proof {
            assert(self@ =~~= srt_updated(oldv, newvs));
        }
        Ok(())
    }

    fn to_data(&self) -> (r: Result<Vec<u8>, Error>) {
        let ghost rv = self@.records;
        let mut out: Vec<char> = Vec::new();
        let mut k: usize = 0;
        let n = self.v.len();
        proof {
            assert(out@ =~= render_srt_records(rv.take(0)));
        }
        while k < n
            invariant
                k <= n,
                n == self.v@.len(),
                rv == record_views(self.v@),
                rv == self@.records,
                srt_wf(self@),
                out@ == render_srt_records(rv.take(k as int)),
            decreases n - k,
        {
            proof {
                assert(rv.take(k + 1).drop_last() =~= rv.take(k as int));
                assert(rv.take(k + 1).last() == rv[k as int]);
                assert(self.v@[k as int]@ == rv[k as int]);
            }
            let mut piece = self.v[k].render();
            out.append(&mut piece);
            proof {
                assert(out@ =~= render_srt_records(rv.take(k + 1)));
            }
            k += 1;
        }
        proof {
            assert(rv.take(n as int) =~= rv);
        }
        extend_chars(&mut out, &self.tail);
        let s = chars_to_string(&out);
        Ok(string_to_bytes(&s))
    }
}

/// One record with one entry written back.
fn update_record(rec: &SrtRecord, e: &SubtitleEntry) -> (r: SrtRecord)
    requires
        e@.start != i64::MIN,
        e@.end != i64::MIN,
    ensures
        r@ == srt_updated_record(rec@, e@),
{
    let dialogs: Vec<SrtDialog> = match &e.line {
        None => {
            let mut ds: Vec<SrtDialog> = Vec::new();
            let mut j: usize = 0;
            let n = rec.dialogs.len();
            while j < n
                invariant
                    j <= n,
                    n == rec.dialogs@.len(),
                    dialog_views(ds@) == dialog_views(rec.dialogs@).take(j as int),
                decreases n - j,
            {
                let ghost prev = ds@;
                let d = rec.dialogs[j].clone();
                let ghost dv = d@;
                ds.push(d);
                j += 1;
                proof {
                    assert(prev.len() == dialog_views(prev).len());
                    assert(prev.len() == j - 1);
                    assert(ds@[j - 1]@ == dv);
                    assert(dialog_views(ds@) =~= dialog_views(rec.dialogs@).take(j as int));
                }
            }
            proof {
                assert(dialog_views(rec.dialogs@).take(n as int) =~= dialog_views(rec.dialogs@));
            }
            ds
        },
        Some(text) => {
            let chars = str_to_chars(text.as_str());
            let pieces = split_text(&chars);
            let ghost ps = spec_split_text(text@);
            let np = pieces.len();
            let mut ds: Vec<SrtDialog> = Vec::new();
            if np == rec.dialogs.len() {
                let mut j: usize = 0;
                while j < np
                    invariant
                        j <= np,
                        np == pieces@.len(),
                        np == rec.dialogs@.len(),
                        ps == pieces@.map(|q: int, p: Vec<char>| p@),
                        dialog_views(ds@) == Seq::new(
                            j as nat,
                            |q: int|
                                SrtDialogView {
                                    lead: dialog_views(rec.dialogs@)[q].lead,
                                    text: ps[q],
                                    trail: dialog_views(rec.dialogs@)[q].trail,
                                },
                        ),
                    decreases np - j,
                {
                    let d = SrtDialog {
                        lead: dup_chars(&rec.dialogs[j].lead),
                        text: dup_chars(&pieces[j]),
                        trail: dup_chars(&rec.dialogs[j].trail),
                    };
                    proof {
                        assert(pieces@[j as int]@ == ps[j as int]);
                        assert(rec.dialogs@[j as int]@ == dialog_views(rec.dialogs@)[j as int]);
                    }
                    let ghost prev = ds@;
                    let ghost dv = d@;
                    ds.push(d);
                    j += 1;
                    proof {
                        assert(prev.len() == dialog_views(prev).len());
                        assert(prev.len() == j - 1);
                        assert(ds@[j - 1]@ == dv);
                        let ghost target = Seq::new(
                            j as nat,
                            |q: int|
                                SrtDialogView {
                                    lead: dialog_views(rec.dialogs@)[q].lead,
                                    text: ps[q],
                                    trail: dialog_views(rec.dialogs@)[q].trail,
                                },
                        );
                        assert forall|k: int|
                            0 <= k < ds@.len() implies #[trigger] dialog_views(ds@)[k]
                            == target[k] by {
                            if k < j - 1 {
                                assert(ds@[k] == prev[k]);
                                assert(dialog_views(prev)[k] == target[k]);
                            } else {
                                assert(dialog_views(ds@)[k] == dv);
                            }
                        }
                        assert(dialog_views(ds@) =~= target);
                    }
                }
            } else {
                let mut j: usize = 0;
                while j < np
                    invariant
                        j <= np,
                        np == pieces@.len(),
                        np != rec.dialogs@.len(),
                        ps == pieces@.map(|q: int, p: Vec<char>| p@),
                        dialog_views(ds@) == Seq::new(
                            j as nat,
                            |q: int|
                                SrtDialogView {
                                    lead: Seq::empty(),
                                    text: ps[q],
                                    trail: if q < ps.len() - 1 {
                                        seq!['\n']
                                    } else if dialog_views(rec.dialogs@).len() > 0 {
                                        dialog_views(rec.dialogs@).last().trail
                                    } else {
                                        seq!['\n']
                                    },
                                },
                        ),
                    decreases np - j,
                {
                    let trail: Vec<char> = if j + 1 < np {
                        vec!['\n']
                    } else if rec.dialogs.len() > 0 {
                        proof {
                            assert(rec.dialogs@[rec.dialogs@.len() - 1]@ == dialog_views(
                                rec.dialogs@).last());
                        }
                        dup_chars(&rec.dialogs[rec.dialogs.len() - 1].trail)
                    } else {
                        vec!['\n']
                    };
                    let d = SrtDialog { lead: Vec::new(), text: dup_chars(&pieces[j]), trail };
                    proof {
                        assert(pieces@[j as int]@ == ps[j as int]);
                    }
                    let ghost prev = ds@;
                    let ghost dv = d@;
                    ds.push(d);
                    j += 1;
                    proof {
                        assert(prev.len() == dialog_views(prev).len());
                        assert(prev.len() == j - 1);
                        assert(ds@[j - 1]@ == dv);
                        let ghost target = Seq::new(
                            j as nat,
                            |q: int|
                                SrtDialogView {
                                    lead: Seq::empty(),
                                    text: ps[q],
                                    trail: if q < ps.len() - 1 {
                                        seq!['\n']
                                    } else if dialog_views(rec.dialogs@).len() > 0 {
                                        dialog_views(rec.dialogs@).last().trail
                                    } else {
                                        seq!['\n']
                                    },
                                },
                        );
                        assert(dv.trail =~= target[j - 1].trail);
                        assert forall|k: int|
                            0 <= k < ds@.len() implies #[trigger] dialog_views(ds@)[k]
                            == target[k] by {
                            if k < j - 1 {
                                assert(ds@[k] == prev[k]);
                                assert(dialog_views(prev)[k] == target[k]);
                            } else {
                                assert(dialog_views(ds@)[k] == dv);
                                assert(dv.lead =~= target[k].lead);
                            }
                        }
                        assert(dialog_views(ds@) =~= target);
                    }
                }
            }
            ds
        },
    };
    let r = SrtRecord {
        pre: dup_chars(&rec.pre),
        ilead: dup_chars(&rec.ilead),
        index: rec.index,
        itrail: dup_chars(&rec.itrail),
        tlead: dup_chars(&rec.tlead),
        start: e.timespan.start,
        mid: dup_chars(&rec.mid),
        end: e.timespan.end,
        ttrail: dup_chars(&rec.ttrail),
        dialogs,
        post: dup_chars(&rec.post),
    };
    proof {
        assert(r@ =~~= srt_updated_record(rec@, e@));
    }
    r
}

// ////////////////////////////////////////////////////////////////////////////////////////////////
// the read/update round-trip law

/// For two or more texts, the join starts with the first text and a newline.
proof fn lemma_join_front(ts: Seq<Seq<char>>)
    requires
        ts.len() >= 2,
    ensures
        join_texts(ts) == ts[0] + seq!['\n'] + join_texts(ts.drop_first()),
    decreases ts.len(),
{
    if ts.len() == 2 {
        assert(ts.drop_last() =~= seq![ts[0]]);
        assert(ts.drop_first() =~= seq![ts[1]]);
        assert(join_texts(ts.drop_last()) == ts[0]);
        assert(join_texts(ts.drop_first()) == ts[1]);
    } else {
        lemma_join_front(ts.drop_last());
        assert(ts.drop_last()[0] == ts[0]);
        assert(ts.drop_last().drop_first() =~= ts.drop_first().drop_last());
        assert(ts.drop_first().last() == ts.last());
        assert(join_texts(ts.drop_first()) == join_texts(ts.drop_first().drop_last()) + seq![
            '\n',
        ] + ts.last());
        assert(join_texts(ts) == (ts[0] + seq!['\n'] + join_texts(ts.drop_first().drop_last()))
            + seq!['\n'] + ts.last());
        assert(join_texts(ts) =~= ts[0] + seq!['\n'] + join_texts(ts.drop_first()));
    }
}

/// Joined nonempty texts are nonempty.
proof fn lemma_join_nonempty(ts: Seq<Seq<char>>)
    requires
        ts.len() >= 1,
        ts[0].len() > 0,
    ensures
        join_texts(ts).len() > 0,
    decreases ts.len(),
{
    if ts.len() >= 2 {
        lemma_join_front(ts);
    }
}

/// Splitting the newline-join of terminator-free nonempty texts gives the
/// texts back.
proof fn lemma_split_join(ts: Seq<Seq<char>>)
    requires
        forall|i: int|
            0 <= i < ts.len() ==> (#[trigger] ts[i]).len() > 0 && (forall|k: int|
                0 <= k < ts[i].len() ==> ts[i][k] != '\n' && ts[i][k] != '\r'),
    ensures
        spec_split_text(join_texts(ts)) == ts,
    decreases ts.len(),
{
    if ts.len() == 0 {
        assert(spec_split_text(join_texts(ts)) =~= ts);
    } else if ts.len() == 1 {
        let s = join_texts(ts);
        assert(s == ts[0]);
        assert(forall|k: int| 0 <= k < s.len() ==> s[k] != '\n');
        lemma_find_char_absent(s, '\n');
        assert(spec_split_text(s) =~= seq![s]);
        assert(spec_split_text(s) =~= ts);
    } else {
        lemma_join_front(ts);
        let s = join_texts(ts);
        let h = ts[0];
        let rest = join_texts(ts.drop_first());
        assert(s == h + seq!['\n'] + rest);
        assert forall|j: int| 0 <= j < h.len() implies s[j] != '\n' by {
            assert(s[j] == h[j]);
        }
        assert(s[h.len() as int] == '\n');
        lemma_find_char_at(s, '\n', h.len() as int);
        assert(s.take(h.len() as int) =~= h);
        assert(strip_cr(h) == h);
        assert(s.skip(h.len() as int + 1) =~= rest);
        assert(ts.drop_first()[0] == ts[1]);
        lemma_join_nonempty(ts.drop_first());
        assert(forall|i: int|
            0 <= i < ts.drop_first().len() ==> (#[trigger] ts.drop_first()[i]) == ts[i + 1]);
        lemma_split_join(ts.drop_first());
        assert(spec_split_text(s) =~= seq![h] + spec_split_text(rest));
        assert(seq![h] + ts.drop_first() =~= ts);
    }
}

/// Writing back the entries that were read leaves the entries unchanged.
///
/// This is the `.srt` half of the read/update round-trip law: for every
/// parsed file, writing `get_subtitle_entries()` back with
/// `update_subtitle_entries` and reading again yields an equal list (the
/// parsed shape — nonempty, terminator-free dialog texts — is what every
/// parsed file has).
pub proof fn lemma_srt_update_roundtrip(v: SrtView)
    requires
        srt_parsed_shape(v),
    ensures
        srt_entries(srt_updated(v, srt_entries(v))) == srt_entries(v),
{
    let e = srt_entries(v);
    let u = srt_updated(v, e);
    assert forall|i: int| 0 <= i < u.records.len() implies #[trigger] srt_entries(u)[i]
        == e[i] by {
        let r = v.records[i];
        let texts = dialog_texts(r.dialogs);
        assert forall|q: int|
            0 <= q < texts.len() implies (#[trigger] texts[q]).len() > 0 && (forall|k: int|
            0 <= k < texts[q].len() ==> texts[q][k] != '\n' && texts[q][k] != '\r') by {
            assert(texts[q] == r.dialogs[q].text);
            assert(r.dialogs[q].text.len() > 0 && (forall|k: int|
                0 <= k < r.dialogs[q].text.len() ==> r.dialogs[q].text[k] != '\n'
                    && r.dialogs[q].text[k] != '\r'));
        }
        lemma_split_join(texts);
        let ur = srt_updated_record(r, e[i]);
        assert(ur.dialogs =~= r.dialogs) by {
            assert(spec_split_text(join_texts(texts)).len() == texts.len());
            assert(forall|j: int|
                0 <= j < r.dialogs.len() ==> #[trigger] ur.dialogs[j] =~= r.dialogs[j]);
        }
        assert(dialog_texts(ur.dialogs) =~= texts);
        assert(srt_entries(u)[i] =~= e[i]);
    }
    assert(srt_entries(u) =~= e);
}

// ////////////////////////////////////////////////////////////////////////////////////////////////
// parsing

/// The value and end position of an `.srt` timestamp like `00:24:45,670`
/// read at position `from`, if there is one whose folded total fits.
#[verifier::opaque]
pub open spec fn spec_scan_srt_time(s: Seq<char>, from: int) -> Option<(int, int)> {
    let e1 = num_end(s, from);
    if !(e1 < s.len() && s[e1] == ':') {
        None
    } else {
        let e2 = num_end(s, e1 + 1);
        if !(e2 < s.len() && s[e2] == ':') {
            None
        } else {
            let e3 = num_end(s, e2 + 1);
            if !(e3 < s.len() && s[e3] == ',') {
                None
            } else {
                let e4 = num_end(s, e3 + 1);
                let h = spec_number_i64(s.subrange(from, e1));
                let m = spec_number_i64(s.subrange(e1 + 1, e2));
                let sec = spec_number_i64(s.subrange(e2 + 1, e3));
                let ms = spec_number_i64(s.subrange(e3 + 1, e4));
                if h is Some && m is Some && sec is Some && ms is Some {
                    let total = from_components_total(
                        h->Some_0 as int,
                        m->Some_0 as int,
                        sec->Some_0 as int,
                        ms->Some_0 as int,
                    );
                    if i64::MIN < total <= i64::MAX {
                        Some((total, e4))
                    } else {
                        None
                    }
                } else {
                    None
                }
            }
        }
    }
}

/// The decomposition of an `.srt` timespan line like
/// `00:24:45,670 --> 00:24:45,680` (with flexible surrounding whitespace):
/// leading whitespace, start time, the verbatim middle, end time, trailing
/// whitespace.
#[verifier::opaque]
pub open spec fn spec_parse_timing_line(content: Seq<char>) -> Option<
    (Seq<char>, int, Seq<char>, int, Seq<char>),
> {
    let a = ws_prefix_end(content) as int;
    match spec_scan_srt_time(content, a) {
        None => None,
        Some((t1, e1)) => {
            let m1 = e1 + ws_prefix_end(content.skip(e1));
            if !(m1 + 3 <= content.len() && content.subrange(m1, m1 + 3) =~= seq!['-', '-', '>']) {
                None
            } else {
                let m2 = m1 + 3 + ws_prefix_end(content.skip(m1 + 3));
                match spec_scan_srt_time(content, m2) {
                    None => None,
                    Some((t2, e2)) => {
                        if all_ws(content.skip(e2)) {
                            Some(
                                (
                                    content.take(a),
                                    t1,
                                    content.subrange(e1, m2),
                                    t2,
                                    content.skip(e2),
                                ),
                            )
                        } else {
                            None
                        }
                    },
                }
            }
        },
    }
}

/// A maximal digit run at `from` pins down `num_end`.
proof fn lemma_num_end_digits(s: Seq<char>, from: int, k: int)
    requires
        0 <= from,
        from + k <= s.len(),
        k >= 1,
        forall|j: int| from <= j < from + k ==> crate::formats::common::is_digit(#[trigger] s[j]),
        from + k == s.len() || !crate::formats::common::is_digit(s[from + k]),
    ensures
        num_end(s, from) == from + k,
{
    assert(crate::formats::common::is_digit(s[from]));
    assert(s[from] != '-' && s[from] != '+');
    let tail = s.skip(from);
    assert(forall|j: int| 0 <= j < tail.len() ==> #[trigger] tail[j] == s[from + j]);
    crate::formats::common::lemma_digits_prefix(tail, k);
}

/// Scanning the canonical rendering of a nonnegative time yields the time
/// back: the `.srt` half of the serialize/parse round-trip on timestamps
/// (a negative time renders without a sign, so only its absolute value can
/// come back).
#[verifier::rlimit(100)]
#[verifier::spinoff_prover]
pub proof fn lemma_srt_time_roundtrip(t: int)
    requires
        0 <= t <= i64::MAX,
    ensures
        spec_scan_srt_time(render_srt_time(t), 0) == Some(
            (t, render_srt_time(t).len() as int),
        ),
{
    reveal(spec_scan_srt_time);
    let g1 = dec_str_pad(t / 3600000, 2);
    let g2 = dec_str_pad((t / 60000) % 60, 2);
    let g3 = dec_str_pad((t / 1000) % 60, 2);
    let g4 = dec_str_pad(t % 1000, 3);
    let h = t / 3600000;
    let m = (t / 60000) % 60;
    let sec = (t / 1000) % 60;
    let ms = t % 1000;
    assert(h >= 0 && h <= t) by {
        vstd::arithmetic::div_mod::lemma_div_nonincreasing(t, 3600000);
        vstd::arithmetic::div_mod::lemma_div_pos_is_pos(t, 3600000);
    }
    assert(0 <= m < 60 && 0 <= sec < 60 && 0 <= ms < 1000) by {
        vstd::arithmetic::div_mod::lemma_mod_bound(t / 60000, 60);
        vstd::arithmetic::div_mod::lemma_mod_bound(t / 1000, 60);
        vstd::arithmetic::div_mod::lemma_mod_bound(t, 1000);
    }
    crate::formats::common::lemma_dec_str_pad_val(h, 2);
    crate::formats::common::lemma_dec_str_pad_val(m, 2);
    crate::formats::common::lemma_dec_str_pad_val(sec, 2);
    crate::formats::common::lemma_dec_str_pad_val(ms, 3);
    let s = render_srt_time(t);
    let n1 = g1.len() as int;
    let n2 = g2.len() as int;
    let n3 = g3.len() as int;
    let n4 = g4.len() as int;
    assert(s =~= g1 + seq![':'] + g2 + seq![':'] + g3 + seq![','] + g4);
    assert(s.len() == n1 + n2 + n3 + n4 + 3);
    assert forall|j: int| 0 <= j < n1 implies crate::formats::common::is_digit(
        #[trigger] s[j]) by {
        assert(s[j] == g1[j]);
    }
    assert(s[n1] == ':');
    lemma_num_end_digits(s, 0, n1);
    assert forall|j: int| n1 + 1 <= j < n1 + 1 + n2 implies crate::formats::common::is_digit(
        #[trigger] s[j]) by {
        assert(s[j] == g2[j - n1 - 1]);
    }
    assert(s[n1 + 1 + n2] == ':');
    lemma_num_end_digits(s, n1 + 1, n2);
    assert forall|j: int|
        n1 + n2 + 2 <= j < n1 + n2 + 2 + n3 implies crate::formats::common::is_digit(
        #[trigger] s[j]) by {
        assert(s[j] == g3[j - n1 - n2 - 2]);
    }
    assert(s[n1 + n2 + 2 + n3] == ',');
    lemma_num_end_digits(s, n1 + n2 + 2, n3);
    assert forall|j: int|
        n1 + n2 + n3 + 3 <= j < s.len() implies crate::formats::common::is_digit(
        #[trigger] s[j]) by {
        assert(s[j] == g4[j - n1 - n2 - n3 - 3]);
    }
    lemma_num_end_digits(s, n1 + n2 + n3 + 3, n4);
    assert(s.subrange(0, n1) =~= g1);
    assert(s.subrange(n1 + 1, n1 + 1 + n2) =~= g2);
    assert(s.subrange(n1 + n2 + 2, n1 + n2 + 2 + n3) =~= g3);
    assert(s.subrange(n1 + n2 + n3 + 3, s.len() as int) =~= g4);
    lemma_number_of_digits(g1, h);
    lemma_number_of_digits(g2, m);
    lemma_number_of_digits(g3, sec);
    lemma_number_of_digits(g4, ms);
    crate::timetypes::lemma_time_components(t);
}

/// A digit string's value is what the signed-number reader returns.
proof fn lemma_number_of_digits(g: Seq<char>, v: int)
    requires
        g.len() >= 1,
        crate::formats::common::all_digits(g),
        crate::formats::common::dec_val(g) == v,
        0 <= v <= i64::MAX,
    ensures
        spec_number_i64(g) == Some(v as i64),
{
    assert(crate::formats::common::is_digit(g[0]));
    assert(g[0] != '-' && g[0] != '+');
}

/// The state of the `.srt` line machine.
#[verifier::ext_equal]
pub enum SrtParseState {
    /// Between records; the argument accumulates blank-line filler.
    Empty(Seq<char>),
    /// An index line was read; a timespan line must follow.
    AfterIndex(SrtRecordView),
    /// A timespan line was read; dialog lines or a blank line follow.
    AfterTiming(SrtRecordView),
}

/// One step of the line machine: the record under construction after one
/// more line, or the closed record, or the line number of a failure.
#[verifier::opaque]
pub open spec fn spec_parse_srt_lines(
    lines: Seq<(Seq<char>, Seq<char>)>,
    base: int,
    st: SrtParseState,
) -> Result<(Seq<SrtRecordView>, Seq<char>), (int, ExpectedToken)>
    decreases lines.len(),
{
    if lines.len() == 0 {
        match st {
            SrtParseState::Empty(acc) => Ok((Seq::empty(), acc)),
            SrtParseState::AfterIndex(_) => Err((base, ExpectedToken::TimespanLine)),
            SrtParseState::AfterTiming(r) => Ok((seq![r], Seq::empty())),
        }
    } else {
        let content = lines[0].0;
        let term = lines[0].1;
        match st {
            SrtParseState::Empty(acc) => {
                if all_ws(content) {
                    spec_parse_srt_lines(
                        lines.drop_first(),
                        base + 1,
                        SrtParseState::Empty(acc + content + term),
                    )
                } else {
                    let a = ws_prefix_end(content) as int;
                    let b = if ws_suffix_start(content) < ws_prefix_end(content) {
                        ws_prefix_end(content) as int
                    } else {
                        ws_suffix_start(content) as int
                    };
                    match spec_number_i64(content.subrange(a, b)) {
                        None => Err((base, ExpectedToken::IndexLine)),
                        Some(ix) => spec_parse_srt_lines(
                            lines.drop_first(),
                            base + 1,
                            SrtParseState::AfterIndex(
                                SrtRecordView {
                                    pre: acc,
                                    ilead: content.take(a),
                                    index: ix as int,
                                    itrail: content.skip(b) + term,
                                    tlead: Seq::empty(),
                                    start: 0,
                                    mid: Seq::empty(),
                                    end: 0,
                                    ttrail: Seq::empty(),
                                    dialogs: Seq::empty(),
                                    post: Seq::empty(),
                                },
                            ),
                        ),
                    }
                }
            },
            SrtParseState::AfterIndex(r) => {
                match spec_parse_timing_line(content) {
                    None => Err((base, ExpectedToken::TimespanLine)),
                    Some((tl, t1, mid, t2, tr)) => spec_parse_srt_lines(
                        lines.drop_first(),
                        base + 1,
                        SrtParseState::AfterTiming(
                            SrtRecordView {
                                tlead: tl,
                                start: t1,
                                mid: mid,
                                end: t2,
                                ttrail: tr + term,
                                ..r
                            },
                        ),
                    ),
                }
            },
            SrtParseState::AfterTiming(r) => {
                if all_ws(content) {
                    match spec_parse_srt_lines(
                        lines.drop_first(),
                        base + 1,
                        SrtParseState::Empty(content + term),
                    ) {
                        Err(e) => Err(e),
                        Ok((recs, tail)) => Ok((seq![r] + recs, tail)),
                    }
                } else {
                    let a = ws_prefix_end(content) as int;
                    let b = if ws_suffix_start(content) < ws_prefix_end(content) {
                        ws_prefix_end(content) as int
                    } else {
                        ws_suffix_start(content) as int
                    };
                    let d = SrtDialogView {
                        lead: content.take(a),
                        text: content.subrange(a, b),
                        trail: content.skip(b) + term,
                    };
                    spec_parse_srt_lines(
                        lines.drop_first(),
                        base + 1,
                        SrtParseState::AfterTiming(
                            SrtRecordView { dialogs: r.dialogs.push(d), ..r },
                        ),
                    )
                }
            },
        }
    }
}

/// The result of parsing a whole `.srt` text: the records and the trailing
/// filler, or the 0-based number of the line that failed (one synthetic
/// trailing blank line closes an open record).
pub open spec fn spec_parse_srt(s: Seq<char>) -> Result<SrtView, (int, ExpectedToken)> {
    let k = spec_bom_skip(s);
    match spec_parse_srt_lines(
        spec_split_lines(s.skip(k)),
        0,
        SrtParseState::Empty(Seq::empty()),
    ) {
        Err(e) => Err(e),
        Ok((recs, tail)) => Ok(SrtView { records: recs, tail }),
    }
}

/// Prepending already-closed records to a machine result.
pub open spec fn srt_compose(
    recs: Seq<SrtRecordView>,
    r: Result<(Seq<SrtRecordView>, Seq<char>), (int, ExpectedToken)>,
) -> Result<(Seq<SrtRecordView>, Seq<char>), (int, ExpectedToken)> {
    match r {
        Ok((rs, tail)) => Ok((recs + rs, tail)),
        Err(e) => Err(e),
    }
}

/// Scans an `.srt` timestamp at position `from`.
fn scan_time(s: &Vec<char>, from: usize) -> (r: Option<(TimePoint, usize)>)
    requires
        from <= s@.len(),
    ensures
        match r {
            Some((t, e)) => spec_scan_srt_time(s@, from as int) == Some((t@, e as int)) && from
                <= e <= s@.len() && i64::MIN < t@ <= i64::MAX,
            None => spec_scan_srt_time(s@, from as int) is None,
        },
{
    proof {
        reveal(spec_scan_srt_time);
    }
    let n = s.len();
    let e1 = scan_num(s, from);
    if !(e1 < n && s[e1] == ':') {
        return None;
    }
    let e2 = scan_num(s, e1 + 1);
    if !(e2 < n && s[e2] == ':') {
        return None;
    }
    let e3 = scan_num(s, e2 + 1);
    if !(e3 < n && s[e3] == ',') {
        return None;
    }
    let e4 = scan_num(s, e3 + 1);
    let h = match parse_i64_chars(s, from, e1) {
        Some(v) => v,
        None => {
            return None;
        },
    };
    let m = match parse_i64_chars(s, e1 + 1, e2) {
        Some(v) => v,
        None => {
            return None;
        },
    };
    let sec = match parse_i64_chars(s, e2 + 1, e3) {
        Some(v) => v,
        None => {
            return None;
        },
    };
    let ms = match parse_i64_chars(s, e3 + 1, e4) {
        Some(v) => v,
        None => {
            return None;
        },
    };
    let total: i128 = ms as i128 + 1000 * (sec as i128 + 60 * (m as i128 + 60 * (h as i128)));
    if total <= i64::MIN as i128 || total > i64::MAX as i128 {
        return None;
    }
    Some((TimePoint::from_msecs(total as i64), e4))
}

/// Is the line only whitespace?
fn is_blank(s: &Vec<char>) -> (b: bool)
    ensures
        b == all_ws(s@),
{
    let n = s.len();
    let e = ws_run_end(s, 0, n);
    proof {
        if e == n {
            assert forall|j: int| 0 <= j < s@.len() implies is_ws(#[trigger] s@[j]) by {
                assert(s@.subrange(0, n as int)[j] == s@[j]);
            }
        }
    }
    e == n
}

/// Parses an `.srt` timespan line.
#[verifier::rlimit(100)]
#[verifier::spinoff_prover]
fn parse_timing_line(content: &Vec<char>) -> (r: Option<
    (Vec<char>, TimePoint, Vec<char>, TimePoint, Vec<char>),
>)
    ensures
        match r {
            Some((tl, t1, mid, t2, tr)) => spec_parse_timing_line(content@) == Some(
                (tl@, t1@, mid@, t2@, tr@),
            ) && i64::MIN < t1@ <= i64::MAX && i64::MIN < t2@ <= i64::MAX,
            None => spec_parse_timing_line(content@) is None,
        },
{
    proof {
        reveal(spec_parse_timing_line);
    }
    let n = content.len();
    let a = ws_run_end(content, 0, n);
    proof {
        assert(content@.subrange(0, n as int) =~= content@);
        assert forall|j: int| 0 <= j < a implies is_ws(#[trigger] content@[j]) by {
            assert(content@.subrange(0, a as int)[j] == content@[j]);
        }
        lemma_ws_prefix(content@, a as int);
    }
    let (t1, e1) = match scan_time(content, a) {
        Some(p) => p,
        None => {
            return None;
        },
    };
    let m1 = ws_run_end(content, e1, n);
    proof {
        lemma_skip_ws_prefix(content@, e1 as int, m1 as int);
    }
    if !(n - m1 >= 3 && content[m1] == '-' && content[m1 + 1] == '-' && content[m1 + 2] == '>') {
        proof {
            if (m1 as int) + 3 <= content@.len() {
                assert(content@.subrange(m1 as int, m1 + 3)[0] == content@[m1 as int]);
                assert(content@.subrange(m1 as int, m1 + 3)[1] == content@[m1 + 1]);
                assert(content@.subrange(m1 as int, m1 + 3)[2] == content@[m1 + 2]);
            }
        }
        return None;
    }
    proof {
        assert(content@.subrange(m1 as int, m1 + 3) =~= seq!['-', '-', '>']);
    }
    let m2 = ws_run_end(content, m1 + 3, n);
    proof {
        lemma_skip_ws_prefix(content@, m1 + 3, m2 as int);
    }
    let (t2, e2) = match scan_time(content, m2) {
        Some(p) => p,
        None => {
            return None;
        },
    };
    let tr_end = ws_run_end(content, e2, n);
    if tr_end < n {
        proof {
            assert(!all_ws(content@.skip(e2 as int))) by {
                assert(content@.skip(e2 as int)[tr_end - e2] == content@[tr_end as int]);
            }
        }
        return None;
    }
    let tl = subvec(content, 0, a);
    let mid = subvec(content, e1, m2);
    let tr = subvec(content, e2, n);
    proof {
        assert(tl@ =~= content@.take(a as int));
        assert(tr@ =~= content@.skip(e2 as int));
        assert(all_ws(content@.skip(e2 as int))) by {
            assert forall|j: int| 0 <= j < content@.len() - e2 implies is_ws(
                #[trigger] content@.skip(e2 as int)[j]) by {
                assert(content@.subrange(e2 as int, n as int)[j] == content@.skip(e2 as int)[j]);
            }
        }
    }
    Some((tl, t1, mid, t2, tr))
}

/// A maximal whitespace run `[from, m)` is the whitespace prefix of
/// `s.skip(from)`.
proof fn lemma_skip_ws_prefix(s: Seq<char>, from: int, m: int)
    requires
        0 <= from <= m <= s.len(),
        all_ws(s.subrange(from, m)),
        m < s.len() ==> !is_ws(s[m]),
    ensures
        ws_prefix_end(s.skip(from)) == m - from,
{
    let tail = s.skip(from);
    assert(forall|j: int| 0 <= j < tail.len() ==> #[trigger] tail[j] == s[from + j]);
    assert forall|j: int| 0 <= j < m - from implies is_ws(#[trigger] tail[j]) by {
        assert(s.subrange(from, m)[j] == s[from + j]);
    }
    if m - from < tail.len() {
        assert(tail[m - from] == s[m]);
    }
    lemma_ws_prefix(tail, m - from);
}

/// The trim bounds of a line that is not blank cut out a nonempty middle.
proof fn lemma_trim_middle(s: Seq<char>, a: int, b: int)
    requires
        !all_ws(s),
        0 <= a <= b <= s.len(),
        a == ws_prefix_end(s),
        b == if ws_suffix_start(s) < ws_prefix_end(s) {
            ws_prefix_end(s) as int
        } else {
            ws_suffix_start(s) as int
        },
    ensures
        a < b,
{
    crate::formats::common::lemma_ws_prefix_all(s);
    crate::formats::common::lemma_ws_suffix_all(s);
    if a >= s.len() {
        assert(all_ws(s)) by {
            assert(forall|j: int| 0 <= j < s.len() ==> is_ws(#[trigger] s.take(a)[j]));
            assert(forall|j: int| 0 <= j < s.len() ==> s.take(a)[j] == s[j]);
        }
    }
    assert(a < s.len());
    assert(!is_ws(s[a]));
    if b <= a {
        assert(ws_suffix_start(s) <= a);
        assert(s.skip(ws_suffix_start(s) as int)[a - ws_suffix_start(s)] == s[a]);
        assert(is_ws(s[a]));
    }
}

/// Adding a closed record keeps well-formedness and the parsed shape.
proof fn lemma_push_record_shape(prev: Seq<SrtRecordView>, r: SrtRecordView)
    requires
        records_wf(prev),
        records_shape(prev),
        i64::MIN < r.start <= i64::MAX,
        i64::MIN < r.end <= i64::MAX,
        dialog_shape(r.dialogs),
    ensures
        records_wf(prev.push(r)),
        records_shape(prev.push(r)),
{
    let v = prev.push(r);
    assert forall|i: int|
        0 <= i < v.len() implies i64::MIN < (#[trigger] v[i]).start <= i64::MAX && i64::MIN
        < v[i].end <= i64::MAX by {
        if i < prev.len() {
            assert(v[i] == prev[i]);
        } else {
            assert(v[i] == r);
        }
    }
    assert forall|i: int, j: int|
        0 <= i < v.len() && 0 <= j < (#[trigger] v[i]).dialogs.len() implies {
        let t = (#[trigger] v[i].dialogs[j]).text;
        t.len() > 0 && forall|k: int| 0 <= k < t.len() ==> t[k] != '\n' && t[k] != '\r'
    } by {
        if i < prev.len() {
            assert(v[i] == prev[i]);
            assert(records_shape(prev));
            assert(0 <= i < prev.len() && 0 <= j < prev[i].dialogs.len());
            assert(prev[i].dialogs[j].text.len() > 0 && forall|k: int|
                0 <= k < prev[i].dialogs[j].text.len() ==> prev[i].dialogs[j].text[k] != '\n'
                    && prev[i].dialogs[j].text[k] != '\r');
        } else {
            assert(v[i] == r);
            assert(dialog_shape(r.dialogs));
            assert(r.dialogs[j].text.len() > 0 && forall|k: int|
                0 <= k < r.dialogs[j].text.len() ==> r.dialogs[j].text[k] != '\n'
                    && r.dialogs[j].text[k] != '\r');
        }
    }
}

/// One machine step on a blank line in the `Empty` state.
proof fn lemma_step_empty_blank(
    lvs: Seq<(Seq<char>, Seq<char>)>,
    li: int,
    acc: Seq<char>,
)
    requires
        0 <= li < lvs.len(),
        all_ws(lvs[li].0),
    ensures
        spec_parse_srt_lines(lvs.skip(li), li, SrtParseState::Empty(acc))
            == spec_parse_srt_lines(
            lvs.skip(li + 1),
            li + 1,
            SrtParseState::Empty(acc + lvs[li].0 + lvs[li].1),
        ),
{
    reveal(spec_parse_srt_lines);
    assert(lvs.skip(li)[0] == lvs[li]);
    assert(lvs.skip(li).drop_first() =~= lvs.skip(li + 1));
}

/// One machine step on an index line in the `Empty` state.
#[verifier::rlimit(60)]
proof fn lemma_step_empty_index(
    lvs: Seq<(Seq<char>, Seq<char>)>,
    li: int,
    acc: Seq<char>,
    st2: SrtParseState,
)
    requires
        0 <= li < lvs.len(),
        !all_ws(lvs[li].0),
        ({
            let content = lvs[li].0;
            let a = ws_prefix_end(content) as int;
            let b = if ws_suffix_start(content) < ws_prefix_end(content) {
                ws_prefix_end(content) as int
            } else {
                ws_suffix_start(content) as int
            };
            match spec_number_i64(content.subrange(a, b)) {
                None => false,
                Some(ix) => st2 == SrtParseState::AfterIndex(
                    SrtRecordView {
                        pre: acc,
                        ilead: content.take(a),
                        index: ix as int,
                        itrail: content.skip(b) + lvs[li].1,
                        tlead: Seq::empty(),
                        start: 0,
                        mid: Seq::empty(),
                        end: 0,
                        ttrail: Seq::empty(),
                        dialogs: Seq::empty(),
                        post: Seq::empty(),
                    },
                ),
            }
        }),
    ensures
        spec_parse_srt_lines(lvs.skip(li), li, SrtParseState::Empty(acc))
            == spec_parse_srt_lines(lvs.skip(li + 1), li + 1, st2),
{
    reveal(spec_parse_srt_lines);
    assert(lvs.skip(li)[0] == lvs[li]);
    assert(lvs.skip(li).drop_first() =~= lvs.skip(li + 1));
}

/// One machine step on an invalid index line: the parse fails here.
proof fn lemma_step_empty_err(lvs: Seq<(Seq<char>, Seq<char>)>, li: int, acc: Seq<char>)
    requires
        0 <= li < lvs.len(),
        !all_ws(lvs[li].0),
        ({
            let content = lvs[li].0;
            let a = ws_prefix_end(content) as int;
            let b = if ws_suffix_start(content) < ws_prefix_end(content) {
                ws_prefix_end(content) as int
            } else {
                ws_suffix_start(content) as int
            };
            spec_number_i64(content.subrange(a, b)) is None
        }),
    ensures
        spec_parse_srt_lines(lvs.skip(li), li, SrtParseState::Empty(acc)) == Err::<
            (Seq<SrtRecordView>, Seq<char>),
            (int, ExpectedToken),
        >((li, ExpectedToken::IndexLine)),
{
    reveal(spec_parse_srt_lines);
    assert(lvs.skip(li)[0] == lvs[li]);
}

/// One machine step on a timespan line.
#[verifier::rlimit(60)]
proof fn lemma_step_timing(
    lvs: Seq<(Seq<char>, Seq<char>)>,
    li: int,
    r: SrtRecordView,
    st2: SrtParseState,
)
    requires
        0 <= li < lvs.len(),
        match spec_parse_timing_line(lvs[li].0) {
            None => false,
            Some((tl, t1, mid, t2, tr)) => st2 == SrtParseState::AfterTiming(
                SrtRecordView {
                    tlead: tl,
                    start: t1,
                    mid: mid,
                    end: t2,
                    ttrail: tr + lvs[li].1,
                    ..r
                },
            ),
        },
    ensures
        spec_parse_srt_lines(lvs.skip(li), li, SrtParseState::AfterIndex(r))
            == spec_parse_srt_lines(lvs.skip(li + 1), li + 1, st2),
{
    reveal(spec_parse_srt_lines);
    assert(lvs.skip(li)[0] == lvs[li]);
    assert(lvs.skip(li).drop_first() =~= lvs.skip(li + 1));
}

/// One machine step on an invalid timespan line: the parse fails here.
proof fn lemma_step_timing_err(lvs: Seq<(Seq<char>, Seq<char>)>, li: int, r: SrtRecordView)
    requires
        0 <= li < lvs.len(),
        spec_parse_timing_line(lvs[li].0) is None,
    ensures
        spec_parse_srt_lines(lvs.skip(li), li, SrtParseState::AfterIndex(r)) == Err::<
            (Seq<SrtRecordView>, Seq<char>),
            (int, ExpectedToken),
        >((li, ExpectedToken::TimespanLine)),
{
    reveal(spec_parse_srt_lines);
    assert(lvs.skip(li)[0] == lvs[li]);
}

/// One machine step on a blank line after the timing: the record closes.
#[verifier::rlimit(60)]
proof fn lemma_step_close(
    lvs: Seq<(Seq<char>, Seq<char>)>,
    li: int,
    r: SrtRecordView,
    prev: Seq<SrtRecordView>,
)
    requires
        0 <= li < lvs.len(),
        all_ws(lvs[li].0),
    ensures
        srt_compose(prev, spec_parse_srt_lines(lvs.skip(li), li, SrtParseState::AfterTiming(r)))
            == srt_compose(
            prev.push(r),
            spec_parse_srt_lines(
                lvs.skip(li + 1),
                li + 1,
                SrtParseState::Empty(lvs[li].0 + lvs[li].1),
            ),
        ),
{
    reveal(spec_parse_srt_lines);
    assert(lvs.skip(li)[0] == lvs[li]);
    assert(lvs.skip(li).drop_first() =~= lvs.skip(li + 1));
    let tail = spec_parse_srt_lines(
        lvs.skip(li + 1),
        li + 1,
        SrtParseState::Empty(lvs[li].0 + lvs[li].1),
    );
    match tail {
        Err(e) => {},
        Ok((recs, t)) => {
            assert(prev + (seq![r] + recs) =~= prev.push(r) + recs);
        },
    }
}

/// One machine step on a dialog line.
#[verifier::rlimit(60)]
proof fn lemma_step_dialog(
    lvs: Seq<(Seq<char>, Seq<char>)>,
    li: int,
    r: SrtRecordView,
    st2: SrtParseState,
)
    requires
        0 <= li < lvs.len(),
        !all_ws(lvs[li].0),
        ({
            let content = lvs[li].0;
            let a = ws_prefix_end(content) as int;
            let b = if ws_suffix_start(content) < ws_prefix_end(content) {
                ws_prefix_end(content) as int
            } else {
                ws_suffix_start(content) as int
            };
            st2 == SrtParseState::AfterTiming(
                SrtRecordView {
                    dialogs: r.dialogs.push(
                        SrtDialogView {
                            lead: content.take(a),
                            text: content.subrange(a, b),
                            trail: content.skip(b) + lvs[li].1,
                        },
                    ),
                    ..r
                },
            )
        }),
    ensures
        spec_parse_srt_lines(lvs.skip(li), li, SrtParseState::AfterTiming(r))
            == spec_parse_srt_lines(lvs.skip(li + 1), li + 1, st2),
{
    reveal(spec_parse_srt_lines);
    assert(lvs.skip(li)[0] == lvs[li]);
    assert(lvs.skip(li).drop_first() =~= lvs.skip(li + 1));
}

/// The machine at the end of the input: an open record is closed by the
/// synthetic trailing blank line, an expected timespan line is an error.
proof fn lemma_parse_lines_end(base: int, st: SrtParseState)
    ensures
        spec_parse_srt_lines(Seq::empty(), base, st) == match st {
            SrtParseState::Empty(acc) => Ok::<(Seq<SrtRecordView>, Seq<char>), (int, ExpectedToken)>(
                (Seq::empty(), acc),
            ),
            SrtParseState::AfterIndex(_) => Err::<
                (Seq<SrtRecordView>, Seq<char>),
                (int, ExpectedToken),
            >((base, ExpectedToken::TimespanLine)),
            SrtParseState::AfterTiming(r) => Ok::<
                (Seq<SrtRecordView>, Seq<char>),
                (int, ExpectedToken),
            >((seq![r], Seq::empty())),
        },
{
    reveal(spec_parse_srt_lines);
}

impl SrtFile {
    /// Parse a `.srt` subtitle string to `SrtFile`.
    #[verifier::rlimit(100)]
    pub fn parse(s: &str) -> (r: Result<SrtFile, Error>)
        ensures
            r is Ok <==> spec_parse_srt(s@) is Ok,
            r is Ok ==> r->Ok_0@ == spec_parse_srt(s@)->Ok_0 && r->Ok_0.wf() && srt_parsed_shape(
                r->Ok_0@),
            r is Err ==> r->Err_0@ == (ErrorKind::ParsingError {
                line: spec_parse_srt(s@)->Err_0.0 as usize,
                expected: spec_parse_srt(s@)->Err_0.1,
            }),
    {
        let chars = str_to_chars(s);
        let n = chars.len();
        let k = bom_skip(&chars);
        let rest = subvec(&chars, k, n);
        proof {
            assert(rest@ =~= s@.skip(spec_bom_skip(s@)));
        }
        let lines = get_lines_chars(&rest);
        let ghost lvs = spec_split_lines(s@.skip(spec_bom_skip(s@)));
        proof {
            crate::formats::common::lemma_split_lines_shape(s@.skip(spec_bom_skip(s@)));
            assert forall|k: int, j: int|
                0 <= k < lvs.len() && 0 <= j < (#[trigger] lvs[k]).0.len()
                    implies !crate::formats::common::is_eol_char(#[trigger] lvs[k].0[j]) by {
                let pl = spec_split_lines(s@.skip(spec_bom_skip(s@)))[k];
                assert(pl == lvs[k]);
                assert(!crate::formats::common::is_eol_char(pl.0[j]));
            }
        }
        let nl = lines.len();
        let mut li: usize = 0;
        let mut records: Vec<SrtRecord> = Vec::new();
        let mut acc: Vec<char> = Vec::new();
        let mut mode: u8 = 0;
        let mut cur = SrtRecord {
            pre: Vec::new(),
            ilead: Vec::new(),
            index: 0,
            itrail: Vec::new(),
            tlead: Vec::new(),
            start: TimePoint::from_msecs(0),
            mid: Vec::new(),
            end: TimePoint::from_msecs(0),
            ttrail: Vec::new(),
            dialogs: Vec::new(),
            post: Vec::new(),
        };
        proof {
            assert(lvs.skip(0) =~= lvs);
            assert(record_views(records@) =~= Seq::<SrtRecordView>::empty());
            assert(Seq::<SrtRecordView>::empty() + spec_parse_srt_lines(
                lvs,
                0,
                SrtParseState::Empty(Seq::empty()),
            )->Ok_0.0 =~= spec_parse_srt_lines(
                lvs,
                0,
                SrtParseState::Empty(Seq::empty()),
            )->Ok_0.0);
            assert(acc@ =~= Seq::<char>::empty());
        }
        while li < nl
            invariant
                li <= nl,
                nl == lvs.len(),
                lvs == spec_split_lines(s@.skip(spec_bom_skip(s@))),
                line_views(lines@) == lvs,
                mode == 0 || mode == 1 || mode == 2,
                spec_parse_srt_lines(lvs, 0, SrtParseState::Empty(Seq::empty())) == srt_compose(
                    record_views(records@),
                    spec_parse_srt_lines(
                        lvs.skip(li as int),
                        li as int,
                        if mode == 0 {
                            SrtParseState::Empty(acc@)
                        } else if mode == 1 {
                            SrtParseState::AfterIndex(cur@)
                        } else {
                            SrtParseState::AfterTiming(cur@)
                        },
                    ),
                ),
                records_wf(record_views(records@)),
                records_shape(record_views(records@)),
                forall|k: int, j: int|
                    0 <= k < lvs.len() && 0 <= j < (#[trigger] lvs[k]).0.len()
                        ==> !crate::formats::common::is_eol_char(#[trigger] lvs[k].0[j]),
                mode == 1 ==> cur@.dialogs == Seq::<SrtDialogView>::empty(),
                mode == 2 ==> i64::MIN < cur@.start <= i64::MAX && i64::MIN < cur@.end
                    <= i64::MAX && dialog_shape(cur@.dialogs),
            decreases nl - li,
        {
            let ghost st_old = if mode == 0 {
                SrtParseState::Empty(acc@)
            } else if mode == 1 {
                SrtParseState::AfterIndex(cur@)
            } else {
                SrtParseState::AfterTiming(cur@)
            };
            let pair = &lines[li];
            let content = &pair.0;
            let cn = content.len();
            proof {
                assert(lvs.skip(li as int)[0] == lvs[li as int]);
                assert(lvs[li as int] == (pair.0@, pair.1@));
                assert(lvs.skip(li as int).drop_first() =~= lvs.skip(li + 1));
                assert forall|j: int|
                    0 <= j < pair.0@.len() implies !crate::formats::common::is_eol_char(
                    #[trigger] pair.0@[j]) by {
                    assert(pair.0@[j] == lvs[li as int].0[j]);
                    assert(!crate::formats::common::is_eol_char(lvs[li as int].0[j]));
                }
            }
            if mode == 0 {
                if is_blank(content) {
                    proof {
                        lemma_step_empty_blank(lvs, li as int, acc@);
                    }
                    extend_chars(&mut acc, content);
                    extend_chars(&mut acc, &pair.1);
                    proof {
                        assert(acc@ =~= st_old->Empty_0 + lvs[li as int].0 + lvs[li as int].1);
                    }
                } else {
                    let (a, b) = trim_bounds(content, 0, cn);
                    proof {
                        assert(content@.subrange(0, cn as int) =~= content@);
                    }
                    match parse_i64_chars(content, a, b) {
                        None => {
                            proof {
                                lemma_step_empty_err(lvs, li as int, st_old->Empty_0);
                                assert(spec_parse_srt_lines(
                                    lvs,
                                    0,
                                    SrtParseState::Empty(Seq::empty()),
                                ) == Err::<(Seq<SrtRecordView>, Seq<char>), (int, ExpectedToken)>(
                                    (li as int, ExpectedToken::IndexLine),
                                ));
                                assert(spec_parse_srt_lines(
                                    spec_split_lines(s@.skip(spec_bom_skip(s@))),
                                    0,
                                    SrtParseState::Empty(Seq::empty()),
                                ) == Err::<(Seq<SrtRecordView>, Seq<char>), (int, ExpectedToken)>(
                                    (li as int, ExpectedToken::IndexLine),
                                ));
                                assert(spec_parse_srt(s@) is Err);
                            }
                            return Err(Error::from_kind(ErrorKind::ParsingError {
                                line: li,
                                expected: ExpectedToken::IndexLine,
                            }));
                        },
                        Some(ix) => {
                            let mut itrail = subvec(content, b, cn);
                            extend_chars(&mut itrail, &pair.1);
                            let pre = acc;
                            acc = Vec::new();
                            cur = SrtRecord {
                                pre,
                                ilead: subvec(content, 0, a),
                                index: ix,
                                itrail,
                                tlead: Vec::new(),
                                start: TimePoint::from_msecs(0),
                                mid: Vec::new(),
                                end: TimePoint::from_msecs(0),
                                ttrail: Vec::new(),
                                dialogs: Vec::new(),
                                post: Vec::new(),
                            };
                            mode = 1;
                            proof {
                                assert(cur@ =~~= SrtRecordView {
                                    pre: st_old->Empty_0,
                                    ilead: pair.0@.take(a as int),
                                    index: ix as int,
                                    itrail: pair.0@.skip(b as int) + pair.1@,
                                    tlead: Seq::empty(),
                                    start: 0,
                                    mid: Seq::empty(),
                                    end: 0,
                                    ttrail: Seq::empty(),
                                    dialogs: Seq::empty(),
                                    post: Seq::empty(),
                                });
                                lemma_step_empty_index(
                                    lvs,
                                    li as int,
                                    st_old->Empty_0,
                                    SrtParseState::AfterIndex(cur@),
                                );
                            }
                        },
                    }
                }
            } else if mode == 1 {
                match parse_timing_line(content) {
                    None => {
                        proof {
                            lemma_step_timing_err(lvs, li as int, st_old->AfterIndex_0);
                            assert(spec_parse_srt_lines(
                                lvs,
                                0,
                                SrtParseState::Empty(Seq::empty()),
                            ) == Err::<(Seq<SrtRecordView>, Seq<char>), (int, ExpectedToken)>(
                                (li as int, ExpectedToken::TimespanLine),
                            ));
                            assert(spec_parse_srt_lines(
                                spec_split_lines(s@.skip(spec_bom_skip(s@))),
                                0,
                                SrtParseState::Empty(Seq::empty()),
                            ) == Err::<(Seq<SrtRecordView>, Seq<char>), (int, ExpectedToken)>(
                                (li as int, ExpectedToken::TimespanLine),
                            ));
                            assert(spec_parse_srt(s@) is Err);
                        }
                        return Err(Error::from_kind(ErrorKind::ParsingError {
                            line: li,
                            expected: ExpectedToken::TimespanLine,
                        }));
                    },
                    Some((tl, t1, mid, t2, tr)) => {
                        let mut ttrail = tr;
                        extend_chars(&mut ttrail, &pair.1);
                        cur.tlead = tl;
                        cur.start = t1;
                        cur.mid = mid;
                        cur.end = t2;
                        cur.ttrail = ttrail;
                        mode = 2;
                        proof {
                            assert(cur@ =~~= SrtRecordView {
                                tlead: spec_parse_timing_line(pair.0@)->Some_0.0,
                                start: spec_parse_timing_line(pair.0@)->Some_0.1,
                                mid: spec_parse_timing_line(pair.0@)->Some_0.2,
                                end: spec_parse_timing_line(pair.0@)->Some_0.3,
                                ttrail: spec_parse_timing_line(pair.0@)->Some_0.4 + pair.1@,
                                ..st_old->AfterIndex_0
                            });
                            lemma_step_timing(
                                lvs,
                                li as int,
                                st_old->AfterIndex_0,
                                SrtParseState::AfterTiming(cur@),
                            );
                        }
                    },
                }
            } else {
                if is_blank(content) {
                    let ghost closed = cur@;
                    let ghost prevrecs = records@;
                    let done = cur;
                    cur = SrtRecord {
                        pre: Vec::new(),
                        ilead: Vec::new(),
                        index: 0,
                        itrail: Vec::new(),
                        tlead: Vec::new(),
                        start: TimePoint::from_msecs(0),
                        mid: Vec::new(),
                        end: TimePoint::from_msecs(0),
                        ttrail: Vec::new(),
                        dialogs: Vec::new(),
                        post: Vec::new(),
                    };
                    records.push(done);
                    let mut acc2 = dup_chars(content);
                    extend_chars(&mut acc2, &pair.1);
                    acc = acc2;
                    mode = 0;
                    proof {
                        assert(records@.len() == prevrecs.len() + 1);
                        assert(record_views(prevrecs).len() == prevrecs.len());
                        assert(records@[prevrecs.len() as int]@ == closed);
                        assert(record_views(records@) =~= record_views(prevrecs).push(closed));
                        assert(acc@ =~= pair.0@ + pair.1@);
                        lemma_step_close(lvs, li as int, closed, record_views(prevrecs));
                        lemma_push_record_shape(record_views(prevrecs), closed);
                    }
                } else {
                    let (a, b) = trim_bounds(content, 0, cn);
                    proof {
                        assert(content@.subrange(0, cn as int) =~= content@);
                        lemma_trim_middle(content@, a as int, b as int);
                    }
                    let mut trail = subvec(content, b, cn);
                    extend_chars(&mut trail, &pair.1);
                    let d = SrtDialog { lead: subvec(content, 0, a), text: subvec(content, a, b), trail };
                    let ghost dv = d@;
                    let ghost olddlgs = cur@.dialogs;
                    cur.dialogs.push(d);
                    proof {
                        assert(cur@.dialogs.len() == olddlgs.len() + 1);
                        assert(cur@.dialogs[olddlgs.len() as int] == dv) by {
                            assert(cur.dialogs@[olddlgs.len() as int]@ == dv);
                        }
                        assert(cur@.dialogs =~= olddlgs.push(dv)) by {
                            assert(forall|q: int|
                                0 <= q < olddlgs.len() ==> #[trigger] cur@.dialogs[q]
                                    == olddlgs[q]);
                        }
                        assert(cur@ =~~= SrtRecordView {
                            dialogs: (st_old->AfterTiming_0).dialogs.push(
                                SrtDialogView {
                                    lead: pair.0@.take(a as int),
                                    text: pair.0@.subrange(a as int, b as int),
                                    trail: pair.0@.skip(b as int) + pair.1@,
                                },
                            ),
                            ..st_old->AfterTiming_0
                        });
                        lemma_step_dialog(
                            lvs,
                            li as int,
                            st_old->AfterTiming_0,
                            SrtParseState::AfterTiming(cur@),
                        );
                        assert(dialog_shape(cur@.dialogs)) by {
                            assert(forall|j: int|
                                0 <= j < dv.text.len() ==> dv.text[j] == pair.0@[a + j]);
                        }
                    }
                }
            }
            li += 1;
        }
        proof {
            assert(lvs.skip(nl as int) =~= Seq::<(Seq<char>, Seq<char>)>::empty());
            lemma_parse_lines_end(
                nl as int,
                if mode == 0 {
                    SrtParseState::Empty(acc@)
                } else if mode == 1 {
                    SrtParseState::AfterIndex(cur@)
                } else {
                    SrtParseState::AfterTiming(cur@)
                },
            );
        }
        if mode == 1 {
            proof {
                assert(spec_parse_srt_lines(
                    lvs.skip(nl as int),
                    nl as int,
                    SrtParseState::AfterIndex(cur@),
                ) == Err::<(Seq<SrtRecordView>, Seq<char>), (int, ExpectedToken)>(
                    (nl as int, ExpectedToken::TimespanLine),
                ));
                assert(spec_parse_srt_lines(
                    spec_split_lines(s@.skip(spec_bom_skip(s@))),
                    0,
                    SrtParseState::Empty(Seq::empty()),
                ) == Err::<(Seq<SrtRecordView>, Seq<char>), (int, ExpectedToken)>(
                    (nl as int, ExpectedToken::TimespanLine),
                ));
                assert(spec_parse_srt(s@) is Err);
            }
            return Err(Error::from_kind(ErrorKind::ParsingError {
                line: nl,
                expected: ExpectedToken::TimespanLine,
            }));
        }
        if mode == 2 {
            let ghost closed = cur@;
            let ghost prevrecs = records@;
            records.push(cur);
            acc = Vec::new();
            proof {
                assert(record_views(prevrecs).len() == prevrecs.len());
                assert(records@[prevrecs.len() as int]@ == closed);
                assert(record_views(records@) =~= record_views(prevrecs).push(closed));
                assert(record_views(prevrecs) + seq![closed] =~= record_views(records@));
                assert(record_views(records@) + Seq::<SrtRecordView>::empty() =~= record_views(
                    records@));
                lemma_push_record_shape(record_views(prevrecs), closed);
            }
        } else {
            proof {
                assert(record_views(records@) + Seq::<SrtRecordView>::empty() =~= record_views(
                    records@));
            }
        }
        let file = SrtFile { v: records, tail: acc };
        proof {
            assert(file@ =~~= spec_parse_srt(s@)->Ok_0);
        }
        Ok(file)
    }

    /// Creates an `.srt` file from scratch.
    pub fn create(v: Vec<(TimeSpan, String)>) -> (r: Result<SrtFile, Error>)
        requires
            v@.len() + 1 <= i64::MAX,
        ensures
            r is Ok,
            r->Ok_0@ == srt_created(
                v@.map(|i: int, p: (TimeSpan, String)| (p.0.start@, p.0.end@, p.1@)),
            ),
    {
        let ghost items = v@.map(|i: int, p: (TimeSpan, String)| (p.0.start@, p.0.end@, p.1@));
        let mut records: Vec<SrtRecord> = Vec::new();
        let mut i: usize = 0;
        let n = v.len();
        proof {
            assert(record_views(records@) =~= srt_created(items).records.take(0));
        }
        while i < n
            invariant
                i <= n,
                n == v@.len(),
                n + 1 <= i64::MAX,
                items == v@.map(|q: int, p: (TimeSpan, String)| (p.0.start@, p.0.end@, p.1@)),
                record_views(records@) == srt_created(items).records.take(i as int),
            decreases n - i,
        {
            let ghost prevrecs = records@;
            let pair = &v[i];
            proof {
                assert(items[i as int] == (pair.0.start@, pair.0.end@, pair.1@));
            }
            let chars = str_to_chars(pair.1.as_str());
            let pieces = split_text(&chars);
            let ghost ps = spec_split_text(pair.1@);
            let np = pieces.len();
            let mut dialogs: Vec<SrtDialog> = Vec::new();
            let mut j: usize = 0;
            proof {
                assert(dialog_views(dialogs@) =~= created_dialogs(ps).take(0));
            }
            while j < np
                invariant
                    j <= np,
                    np == pieces@.len(),
                    ps == pieces@.map(|q: int, p: Vec<char>| p@),
                    dialog_views(dialogs@) == created_dialogs(ps).take(j as int),
                decreases np - j,
            {
                let ghost prev = dialogs@;
                let trail: Vec<char> = if j + 1 < np {
                    vec!['\n']
                } else {
                    Vec::new()
                };
                let d = SrtDialog { lead: Vec::new(), text: dup_chars(&pieces[j]), trail };
                let ghost dv = d@;
                proof {
                    assert(pieces@[j as int]@ == ps[j as int]);
                    assert(dv =~~= created_dialogs(ps)[j as int]);
                }
                dialogs.push(d);
                j += 1;
                proof {
                    assert(prev.len() == dialog_views(prev).len());
                    assert(dialogs@[j - 1]@ == dv);
                    assert forall|q: int|
                        0 <= q < dialogs@.len() implies #[trigger] dialog_views(dialogs@)[q]
                        == created_dialogs(ps).take(j as int)[q] by {
                        if q < j - 1 {
                            assert(dialogs@[q] == prev[q]);
                            assert(dialog_views(prev)[q] == created_dialogs(ps).take(j - 1)[q]);
                        } else {
                            assert(dialog_views(dialogs@)[q] == dv);
                        }
                    }
                    assert(dialog_views(dialogs@) =~= created_dialogs(ps).take(j as int));
                }
            }
            proof {
                assert(created_dialogs(ps).take(np as int) =~= created_dialogs(ps));
            }
            let mut post: Vec<char> = Vec::new();
            post.push('\n');
            post.push('\n');
            let rec = SrtRecord {
                pre: Vec::new(),
                ilead: Vec::new(),
                index: (i as i64) + 1,
                itrail: vec!['\n'],
                tlead: Vec::new(),
                start: pair.0.start,
                mid: vec![' ', '-', '-', '>', ' '],
                end: pair.0.end,
                ttrail: vec!['\n'],
                dialogs,
                post,
            };
            let ghost rv = rec@;
            proof {
                assert(rv =~~= srt_created(items).records[i as int]);
            }
            records.push(rec);
            i += 1;
            proof {
                assert(record_views(prevrecs).len() == prevrecs.len());
                assert(prevrecs.len() == i - 1);
                assert(records@[i - 1]@ == rv);
                assert forall|q: int|
                    0 <= q < records@.len() implies #[trigger] record_views(records@)[q]
                    == srt_created(items).records.take(i as int)[q] by {
                    if q < i - 1 {
                        assert(records@[q] == prevrecs[q]);
                        assert(record_views(prevrecs)[q] == srt_created(items).records.take(
                            i - 1)[q]);
                    } else {
                        assert(record_views(records@)[q] == rv);
                    }
                }
                assert(record_views(records@) =~= srt_created(items).records.take(i as int));
            }
        }
        proof {
            assert(srt_created(items).records.take(n as int) =~= srt_created(items).records);
        }
        let file = SrtFile { v: records, tail: Vec::new() };
        proof {
            assert(file@ =~~= srt_created(items));
        }
        Ok(file)
    }
}

/// The shape of a parsed dialog list: nonempty texts without terminators.
pub open spec fn dialog_shape(ds: Seq<SrtDialogView>) -> bool {
    forall|j: int|
        0 <= j < ds.len() ==> {
            let t = (#[trigger] ds[j]).text;
            t.len() > 0 && forall|k: int| 0 <= k < t.len() ==> t[k] != '\n' && t[k] != '\r'
        }
}

/// The dialog list of a freshly created record: one dialog per text line,
/// joined by plain newlines.
pub open spec fn created_dialogs(ps: Seq<Seq<char>>) -> Seq<SrtDialogView> {
    Seq::new(
        ps.len(),
        |j: int|
            SrtDialogView {
                lead: Seq::empty(),
                text: ps[j],
                trail: if j < ps.len() - 1 {
                    seq!['\n']
                } else {
                    Seq::empty()
                },
            },
    )
}

/// The file created from scratch for a list of `(start, end, text)` items:
/// sequential indices from 1, canonical separators, the text split into
/// dialog lines.
pub open spec fn srt_created(items: Seq<(int, int, Seq<char>)>) -> SrtView {
    SrtView {
        records: Seq::new(
            items.len(),
            |i: int|
                SrtRecordView {
                    pre: Seq::empty(),
                    ilead: Seq::empty(),
                    index: i + 1,
                    itrail: seq!['\n'],
                    tlead: Seq::empty(),
                    start: items[i].0,
                    mid: seq![' ', '-', '-', '>', ' '],
                    end: items[i].1,
                    ttrail: seq!['\n'],
                    dialogs: created_dialogs(spec_split_text(items[i].2)),
                    post: seq!['\n', '\n'],
                },
        ),
        tail: Seq::empty(),
    }
}

} // verus!
