//! The `.ssa`/`.ass` format: a self-describing grammar. A `Format:` header
//! inside the `[Events]` section lists the field names; every `Dialogue:`
//! line in that section is split into that many comma-separated cells, with
//! the `Start`, `End` and `Text` cells carrying the subtitle data and every
//! other cell kept verbatim.

use crate::errors::{Error, ErrorKind, ExpectedToken};
use crate::formats::common::{
    chars_to_string, dec_str_pad, dup_chars, extend_chars, find_char, find_char_from,
    get_lines_chars, is_ws, lemma_find_char, lemma_ws_prefix, line_views, parse_i64_chars,
    render_u64_pad, spec_bom_skip, spec_number_i64, spec_split_lines, str_to_chars,
    string_to_bytes, subvec, trim_bounds, ws_prefix_end, ws_run_end, ws_suffix_start, bom_skip,
};
use crate::timetypes::{abs_ms, from_components_total, TimePoint, TimeSpan};
use crate::{entry_views, EntryView, SubtitleEntry, SubtitleFile};
use vstd::prelude::*;

verus! {

// ////////////////////////////////////////////////////////////////////////////////////////////////
// the data model

/// The semantic kind of one comma-separated cell of a dialogue line.
#[verifier::ext_equal]
pub enum SsaCellKind {
    /// The start time of the line, in milliseconds.
    Start(int),
    /// The end time of the line, in milliseconds.
    End(int),
    /// Any other field, kept verbatim.
    Plain(Seq<char>),
}

/// One cell of a dialogue line: its value with the surrounding whitespace.
/// Rendering appends the separating comma.
#[verifier::ext_equal]
pub struct SsaCellView {
    /// Whitespace before the cell value.
    pub lead: Seq<char>,
    /// The cell value.
    pub kind: SsaCellKind,
    /// Whitespace after the cell value.
    pub tail: Seq<char>,
}

/// One `Dialogue:` line.
#[verifier::ext_equal]
pub struct SsaRecordView {
    /// Everything before this dialogue line (other lines of the file).
    pub pre: Seq<char>,
    /// The `Dialogue:` keyword with its surrounding whitespace.
    pub head: Seq<char>,
    /// The comma-terminated cells before the text field.
    pub cells: Seq<SsaCellView>,
    /// The text field: everything after the last comma, verbatim.
    pub text: Seq<char>,
    /// The line terminator.
    pub term: Seq<char>,
}

/// The mathematical content of an `.ssa` file.
#[verifier::ext_equal]
pub struct SsaView {
    /// The dialogue lines, in order.
    pub records: Seq<SsaRecordView>,
    /// Everything after the last dialogue line.
    pub tail: Seq<char>,
}

#[derive(Debug)]
enum SsaCellValue {
    Start(TimePoint),
    End(TimePoint),
    Plain(Vec<char>),
}

#[derive(Debug)]
struct SsaCell {
    lead: Vec<char>,
    value: SsaCellValue,
    tail: Vec<char>,
}

#[derive(Debug)]
struct SsaRecord {
    pre: Vec<char>,
    head: Vec<char>,
    cells: Vec<SsaCell>,
    text: Vec<char>,
    term: Vec<char>,
}

#[derive(Debug, Clone)]
/// Represents a reconstructable `.ssa`/`.ass` file.
///
/// All unimportant information (for this project) is kept verbatim, so a
/// timespan-altered file still has the same fields.
pub struct SsaFile {
    v: Vec<SsaRecord>,
    tail: Vec<char>,
}

impl View for SsaCell {
    type V = SsaCellView;

    closed spec fn view(&self) -> SsaCellView {
        SsaCellView {
            lead: self.lead@,
            kind: match self.value {
                SsaCellValue::Start(t) => SsaCellKind::Start(t@),
                SsaCellValue::End(t) => SsaCellKind::End(t@),
                SsaCellValue::Plain(ref x) => SsaCellKind::Plain(x@),
            },
            tail: self.tail@,
        }
    }
}

/// The views of a vector of cells.
spec fn cell_views(s: Seq<SsaCell>) -> Seq<SsaCellView> {
    s.map(|i: int, c: SsaCell| c@)
}

impl View for SsaRecord {
    type V = SsaRecordView;

    closed spec fn view(&self) -> SsaRecordView {
        SsaRecordView {
            pre: self.pre@,
            head: self.head@,
            cells: cell_views(self.cells@),
            text: self.text@,
            term: self.term@,
        }
    }
}

/// The views of a vector of records.
spec fn ssa_record_views(s: Seq<SsaRecord>) -> Seq<SsaRecordView> {
    s.map(|i: int, r: SsaRecord| r@)
}

impl View for SsaFile {
    type V = SsaView;

    closed spec fn view(&self) -> SsaView {
        SsaView { records: ssa_record_views(self.v@), tail: self.tail@ }
    }
}

impl Clone for SsaCell {
    fn clone(&self) -> (r: Self)
        ensures
            r@ == self@,
    {
        SsaCell {
            lead: dup_chars(&self.lead),
            value: match &self.value {
                SsaCellValue::Start(t) => SsaCellValue::Start(*t),
                SsaCellValue::End(t) => SsaCellValue::End(*t),
                SsaCellValue::Plain(x) => SsaCellValue::Plain(dup_chars(x)),
            },
            tail: dup_chars(&self.tail),
        }
    }
}

impl Clone for SsaRecord {
    fn clone(&self) -> (r: Self)
        ensures
            r@ == self@,
    {
        let mut cells: Vec<SsaCell> = Vec::new();
        let mut i: usize = 0;
        while i < self.cells.len()
            invariant
                i <= self.cells@.len(),
                cell_views(cells@) == cell_views(self.cells@).take(i as int),
            decreases self.cells@.len() - i,
        {
            let ghost prev = cells@;
            let c = self.cells[i].clone();
            let ghost cv = c@;
            proof {
                assert(cv == cell_views(self.cells@)[i as int]);
            }
            cells.push(c);
            i += 1;
            proof {
                assert(prev.len() == cell_views(prev).len());
                assert(prev.len() == i - 1);
                assert(cells@[i - 1]@ == cv);
                assert forall|k: int|
                    0 <= k < cells@.len() implies #[trigger] cell_views(cells@)[k] == cell_views(
                    self.cells@).take(i as int)[k] by {
                    if k < i - 1 {
                        assert(cells@[k] == prev[k]);
                        assert(cell_views(prev)[k] == cell_views(self.cells@).take(i - 1)[k]);
                    } else {
                        assert(cells@[k]@ == cv);
                    }
                }
                assert(cell_views(cells@) =~= cell_views(self.cells@).take(i as int));
            }
        }
        proof {
            assert(cell_views(self.cells@).take(self.cells@.len() as int) =~= cell_views(
                self.cells@));
        }
        SsaRecord {
            pre: dup_chars(&self.pre),
            head: dup_chars(&self.head),
            cells,
            text: dup_chars(&self.text),
            term: dup_chars(&self.term),
        }
    }
}

// ////////////////////////////////////////////////////////////////////////////////////////////////
// rendering

/// The canonical text of an `.ssa` timestamp: `[-]H:MM:SS.cc` of the
/// absolute time (centisecond precision), with the hours unpadded.
pub open spec fn render_ssa_time(t: int) -> Seq<char> {
    let a = abs_ms(t);
    (if t < 0 {
        seq!['-']
    } else {
        Seq::<char>::empty()
    }) + crate::formats::common::dec_str(a / 3600000) + seq![':'] + dec_str_pad(
        (a / 60000) % 60,
        2,
    ) + seq![':'] + dec_str_pad((a / 1000) % 60, 2) + seq!['.'] + dec_str_pad((a / 10) % 100, 2)
}

/// The text a cell renders to (without its comma).
pub open spec fn render_ssa_cell(c: SsaCellView) -> Seq<char> {
    c.lead + (match c.kind {
        SsaCellKind::Start(t) => render_ssa_time(t),
        SsaCellKind::End(t) => render_ssa_time(t),
        SsaCellKind::Plain(x) => x,
    }) + c.tail
}

/// The text of a cell list (every cell followed by its comma).
pub open spec fn render_ssa_cells(cs: Seq<SsaCellView>) -> Seq<char>
    decreases cs.len(),
{
    if cs.len() == 0 {
        Seq::empty()
    } else {
        render_ssa_cell(cs[0]) + seq![','] + render_ssa_cells(cs.drop_first())
    }
}

/// The text a record renders to.
pub open spec fn render_ssa_record(r: SsaRecordView) -> Seq<char> {
    r.pre + r.head + render_ssa_cells(r.cells) + r.text + r.term
}

pub open spec fn render_ssa_records(rs: Seq<SsaRecordView>) -> Seq<char>
    decreases rs.len(),
{
    if rs.len() == 0 {
        Seq::empty()
    } else {
        render_ssa_records(rs.drop_last()) + render_ssa_record(rs.last())
    }
}

/// The full text an `.ssa` file value renders to.
pub open spec fn ssa_render(v: SsaView) -> Seq<char> {
    render_ssa_records(v.records) + v.tail
}

// ////////////////////////////////////////////////////////////////////////////////////////////////
// entries and updating

/// The number of `Start` cells in a cell list.
pub open spec fn count_starts(cs: Seq<SsaCellView>) -> int
    decreases cs.len(),
{
    if cs.len() == 0 {
        0
    } else {
        (match cs[0].kind {
            SsaCellKind::Start(_) => 1int,
            _ => 0int,
        }) + count_starts(cs.drop_first())
    }
}

/// The number of `End` cells in a cell list.
pub open spec fn count_ends(cs: Seq<SsaCellView>) -> int
    decreases cs.len(),
{
    if cs.len() == 0 {
        0
    } else {
        (match cs[0].kind {
            SsaCellKind::End(_) => 1int,
            _ => 0int,
        }) + count_ends(cs.drop_first())
    }
}

/// The value of the first `Start` cell.
pub open spec fn start_of(cs: Seq<SsaCellView>) -> int
    decreases cs.len(),
{
    if cs.len() == 0 {
        0
    } else {
        match cs[0].kind {
            SsaCellKind::Start(t) => t,
            _ => start_of(cs.drop_first()),
        }
    }
}

/// The value of the first `End` cell.
pub open spec fn end_of(cs: Seq<SsaCellView>) -> int
    decreases cs.len(),
{
    if cs.len() == 0 {
        0
    } else {
        match cs[0].kind {
            SsaCellKind::End(t) => t,
            _ => end_of(cs.drop_first()),
        }
    }
}

/// A well-formed record: exactly one `Start` and one `End` cell, with times
/// whose absolute values exist.
pub open spec fn ssa_record_wf(r: SsaRecordView) -> bool {
    &&& count_starts(r.cells) == 1
    &&& count_ends(r.cells) == 1
    &&& i64::MIN < start_of(r.cells) <= i64::MAX
    &&& i64::MIN < end_of(r.cells) <= i64::MAX
}

/// A well-formed file: every record is.
pub open spec fn ssa_wf(v: SsaView) -> bool {
    forall|i: int| 0 <= i < v.records.len() ==> ssa_record_wf(#[trigger] v.records[i])
}

/// The entries of an `.ssa` file: one per dialogue line, the text field
/// taken verbatim.
pub open spec fn ssa_entries(v: SsaView) -> Seq<EntryView> {
    Seq::new(
        v.records.len(),
        |i: int|
            EntryView {
                start: start_of(v.records[i].cells),
                end: end_of(v.records[i].cells),
                line: Some(v.records[i].text),
            },
    )
}

/// A cell list with the `Start` and `End` values overwritten.
pub open spec fn cells_updated(cs: Seq<SsaCellView>, s: int, e: int) -> Seq<SsaCellView> {
    Seq::new(
        cs.len(),
        |j: int|
            SsaCellView {
                lead: cs[j].lead,
                kind: match cs[j].kind {
                    SsaCellKind::Start(_) => SsaCellKind::Start(s),
                    SsaCellKind::End(_) => SsaCellKind::End(e),
                    SsaCellKind::Plain(x) => SsaCellKind::Plain(x),
                },
                tail: cs[j].tail,
            },
    )
}

/// The file after writing a list of entries back: the times of record `i`
/// are overwritten with entry `i`'s, and its text when the entry carries one.
pub open spec fn ssa_updated(v: SsaView, new: Seq<EntryView>) -> SsaView {
    SsaView {
        records: Seq::new(
            v.records.len(),
            |i: int|
                SsaRecordView {
                    pre: v.records[i].pre,
                    head: v.records[i].head,
                    cells: cells_updated(v.records[i].cells, new[i].start, new[i].end),
                    text: match new[i].line {
                        Some(t) => t,
                        None => v.records[i].text,
                    },
                    term: v.records[i].term,
                },
        ),
        tail: v.tail,
    }
}

/// Overwriting the times puts exactly the new values in place: the updated
/// cell list is still well-formed and reads back the new times.
pub proof fn lemma_cells_updated(cs: Seq<SsaCellView>, s: int, e: int)
    requires
        count_starts(cs) == 1,
        count_ends(cs) == 1,
    ensures
        count_starts(cells_updated(cs, s, e)) == 1,
        count_ends(cells_updated(cs, s, e)) == 1,
        start_of(cells_updated(cs, s, e)) == s,
        end_of(cells_updated(cs, s, e)) == e,
    decreases cs.len(),
{
    lemma_counts_nonneg(cs);
    if cs.len() > 0 {
        let u = cells_updated(cs, s, e);
        assert(u.drop_first() =~= cells_updated(cs.drop_first(), s, e));
        match cs[0].kind {
            SsaCellKind::Start(_) => {
                lemma_counts_nonneg(cs.drop_first());
                lemma_start_absent(cs.drop_first(), s, e);
                lemma_cells_updated_ends(cs, s, e);
            },
            SsaCellKind::End(_) => {
                lemma_counts_nonneg(cs.drop_first());
                lemma_end_absent(cs.drop_first(), s, e);
                lemma_cells_updated_starts(cs, s, e);
            },
            SsaCellKind::Plain(_) => {
                lemma_cells_updated(cs.drop_first(), s, e);
            },
        }
    }
}

/// Counts are never negative.
proof fn lemma_counts_nonneg(cs: Seq<SsaCellView>)
    ensures
        count_starts(cs) >= 0,
        count_ends(cs) >= 0,
    decreases cs.len(),
{
    if cs.len() > 0 {
        lemma_counts_nonneg(cs.drop_first());
    }
}

/// In a list without `Start` cells, updating keeps it that way and
/// `start_of` stays the default.
proof fn lemma_start_absent(cs: Seq<SsaCellView>, s: int, e: int)
    requires
        count_starts(cs) == 0,
    ensures
        count_starts(cells_updated(cs, s, e)) == 0,
        count_ends(cells_updated(cs, s, e)) == count_ends(cs),
        end_of(cells_updated(cs, s, e)) == if count_ends(cs) > 0 {
            e
        } else {
            0
        },
    decreases cs.len(),
{
    lemma_counts_nonneg(cs);
    if cs.len() > 0 {
        let u = cells_updated(cs, s, e);
        assert(u.drop_first() =~= cells_updated(cs.drop_first(), s, e));
        lemma_counts_nonneg(cs.drop_first());
        lemma_start_absent(cs.drop_first(), s, e);
    }
}

/// In a list without `End` cells, updating keeps it that way and `end_of`
/// stays the default.
proof fn lemma_end_absent(cs: Seq<SsaCellView>, s: int, e: int)
    requires
        count_ends(cs) == 0,
    ensures
        count_ends(cells_updated(cs, s, e)) == 0,
        count_starts(cells_updated(cs, s, e)) == count_starts(cs),
        start_of(cells_updated(cs, s, e)) == if count_starts(cs) > 0 {
            s
        } else {
            0
        },
    decreases cs.len(),
{
    lemma_counts_nonneg(cs);
    if cs.len() > 0 {
        let u = cells_updated(cs, s, e);
        assert(u.drop_first() =~= cells_updated(cs.drop_first(), s, e));
        lemma_counts_nonneg(cs.drop_first());
        lemma_end_absent(cs.drop_first(), s, e);
    }
}

/// Updating a one-`Start` list puts `s` in place and keeps the `End` count.
proof fn lemma_cells_updated_starts(cs: Seq<SsaCellView>, s: int, e: int)
    requires
        count_starts(cs) == 1,
    ensures
        count_starts(cells_updated(cs, s, e)) == 1,
        start_of(cells_updated(cs, s, e)) == s,
    decreases cs.len(),
{
    lemma_counts_nonneg(cs);
    if cs.len() > 0 {
        let u = cells_updated(cs, s, e);
        assert(u.drop_first() =~= cells_updated(cs.drop_first(), s, e));
        lemma_counts_nonneg(cs.drop_first());
        match cs[0].kind {
            SsaCellKind::Start(_) => {
                lemma_start_absent(cs.drop_first(), s, e);
            },
            _ => {
                lemma_cells_updated_starts(cs.drop_first(), s, e);
            },
        }
    }
}

/// Updating a one-`End` list puts `e` in place and keeps the `Start` count.
proof fn lemma_cells_updated_ends(cs: Seq<SsaCellView>, s: int, e: int)
    requires
        count_ends(cs) == 1,
    ensures
        count_ends(cells_updated(cs, s, e)) == 1,
        end_of(cells_updated(cs, s, e)) == e,
    decreases cs.len(),
{
    lemma_counts_nonneg(cs);
    if cs.len() > 0 {
        let u = cells_updated(cs, s, e);
        assert(u.drop_first() =~= cells_updated(cs.drop_first(), s, e));
        lemma_counts_nonneg(cs.drop_first());
        match cs[0].kind {
            SsaCellKind::End(_) => {
                lemma_end_absent(cs.drop_first(), s, e);
            },
            _ => {
                lemma_cells_updated_ends(cs.drop_first(), s, e);
            },
        }
    }
}

/// Writing back the entries that were read leaves the entries unchanged.
///
/// This is the `.ssa` half of the read/update round-trip law.
pub proof fn lemma_ssa_update_roundtrip(v: SsaView)
    requires
        ssa_wf(v),
    ensures
        ssa_entries(ssa_updated(v, ssa_entries(v))) == ssa_entries(v),
{
    let e = ssa_entries(v);
    let u = ssa_updated(v, e);
    assert forall|i: int| 0 <= i < u.records.len() implies #[trigger] ssa_entries(u)[i] == e[i] by {
        lemma_cells_updated(v.records[i].cells, e[i].start, e[i].end);
    }
    assert(ssa_entries(u) =~= e);
}

// ////////////////////////////////////////////////////////////////////////////////////////////////
// executable helpers

/// Renders a time point in the canonical `.ssa` form `[-]H:MM:SS.cc`.
fn render_time(t: TimePoint) -> (v: Vec<char>)
    requires
        t@ != i64::MIN,
    ensures
        v@ == render_ssa_time(t@),
{
    let a = t.abs();
    let mut out: Vec<char> = Vec::new();
    if t.is_negative() {
        out.push('-');
    }
    let mut piece = crate::formats::common::render_u64(a.hours() as u64);
    out.append(&mut piece);
    out.push(':');
    let mut piece = render_u64_pad(t.mins_comp() as u64, 2);
    out.append(&mut piece);
    out.push(':');
    let mut piece = render_u64_pad(t.secs_comp() as u64, 2);
    out.append(&mut piece);
    out.push('.');
    let mut piece = render_u64_pad(t.csecs_comp() as u64, 2);
    out.append(&mut piece);
    proof {
        assert(out@ =~= render_ssa_time(t@));
    }
    out
}

impl SsaRecord {
    /// The start and end cell values of this record.
    fn times(&self) -> (r: (TimePoint, TimePoint))
        requires
            count_starts(self@.cells) == 1,
            count_ends(self@.cells) == 1,
        ensures
            r.0@ == start_of(self@.cells),
            r.1@ == end_of(self@.cells),
    {
        let ghost cs = self@.cells;
        let mut start = TimePoint::from_msecs(0);
        let mut end = TimePoint::from_msecs(0);
        let mut sfound = false;
        let mut efound = false;
        let n = self.cells.len();
        let mut i: usize = 0;
        proof {
            assert(cs.skip(0) =~= cs);
            lemma_counts_nonneg(cs);
        }
        while i < n
            invariant
                i <= n,
                n == self.cells@.len(),
                cs == cell_views(self.cells@),
                start_of(cs) == if sfound {
                    start@ as int
                } else {
                    start_of(cs.skip(i as int))
                },
                end_of(cs) == if efound {
                    end@ as int
                } else {
                    end_of(cs.skip(i as int))
                },
                !sfound ==> count_starts(cs) == count_starts(cs.skip(i as int)),
                !efound ==> count_ends(cs) == count_ends(cs.skip(i as int)),
            decreases n - i,
        {
            proof {
                assert(cs.skip(i as int)[0] == cs[i as int]);
                assert(cs[i as int] == self.cells@[i as int]@);
                assert(cs.skip(i as int).drop_first() =~= cs.skip(i + 1));
            }
            match &self.cells[i].value {
                SsaCellValue::Start(t) => {
                    if !sfound {
                        start = *t;
                        sfound = true;
                    }
                },
                SsaCellValue::End(t) => {
                    if !efound {
                        end = *t;
                        efound = true;
                    }
                },
                SsaCellValue::Plain(_) => {},
            }
            i += 1;
        }
        proof {
            assert(cs.skip(n as int) =~= Seq::<SsaCellView>::empty());
            if !sfound {
                assert(count_starts(cs) == 0);
                assert(false);
            }
            if !efound {
                assert(count_ends(cs) == 0);
                assert(false);
            }
        }
        (start, end)
    }
}

/// In a list with exactly one `Start` and one `End` cell, every `Start`
/// cell holds `start_of` and every `End` cell holds `end_of`.
proof fn lemma_unique_times(cs: Seq<SsaCellView>)
    requires
        count_starts(cs) <= 1,
        count_ends(cs) <= 1,
    ensures
        forall|q: int|
            0 <= q < cs.len() ==> match (#[trigger] cs[q]).kind {
                SsaCellKind::Start(t) => t == start_of(cs),
                SsaCellKind::End(t) => t == end_of(cs),
                SsaCellKind::Plain(_) => true,
            },
    decreases cs.len(),
{
    lemma_counts_nonneg(cs);
    if cs.len() > 0 {
        lemma_counts_nonneg(cs.drop_first());
        lemma_unique_times(cs.drop_first());
        assert forall|q: int|
            0 <= q < cs.len() implies match (#[trigger] cs[q]).kind {
            SsaCellKind::Start(t) => t == start_of(cs),
            SsaCellKind::End(t) => t == end_of(cs),
            SsaCellKind::Plain(_) => true,
        } by {
            if q > 0 {
                assert(cs[q] == cs.drop_first()[q - 1]);
                match cs[q].kind {
                    SsaCellKind::Start(t) => {
                        lemma_count_first_start(cs.drop_first(), q - 1);
                        assert(start_of(cs) == start_of(cs.drop_first()) || (match cs[0].kind {
                            SsaCellKind::Start(_) => true,
                            _ => false,
                        }));
                        if (match cs[0].kind {
                            SsaCellKind::Start(_) => true,
                            _ => false,
                        }) {
                            assert(count_starts(cs.drop_first()) == 0);
                            lemma_count_first_start(cs.drop_first(), q - 1);
                            assert(false);
                        }
                    },
                    SsaCellKind::End(t) => {
                        lemma_count_first_end(cs.drop_first(), q - 1);
                        if (match cs[0].kind {
                            SsaCellKind::End(_) => true,
                            _ => false,
                        }) {
                            assert(count_ends(cs.drop_first()) == 0);
                            assert(false);
                        }
                    },
                    SsaCellKind::Plain(_) => {},
                }
            }
        }
    }
}

/// A `Start` (`End`) cell at some position makes the count positive.
proof fn lemma_count_first_start(cs: Seq<SsaCellView>, q: int)
    requires
        0 <= q < cs.len(),
    ensures
        (cs[q].kind is Start) ==> count_starts(cs) >= 1,
    decreases cs.len(),
{
    lemma_counts_nonneg(cs);
    lemma_counts_nonneg(cs.drop_first());
    if q > 0 {
        lemma_count_first_start(cs.drop_first(), q - 1);
        assert(cs.drop_first()[q - 1] == cs[q]);
    }
}

/// An `End` cell at some position makes the count positive.
proof fn lemma_count_first_end(cs: Seq<SsaCellView>, q: int)
    requires
        0 <= q < cs.len(),
    ensures
        (cs[q].kind is End) ==> count_ends(cs) >= 1,
    decreases cs.len(),
{
    lemma_counts_nonneg(cs);
    lemma_counts_nonneg(cs.drop_first());
    if q > 0 {
        lemma_count_first_end(cs.drop_first(), q - 1);
        assert(cs.drop_first()[q - 1] == cs[q]);
    }
}

// ////////////////////////////////////////////////////////////////////////////////////////////////
// the unified protocol

impl SubtitleFile for SsaFile {
    open spec fn wf(&self) -> bool {
        ssa_wf(self@)
    }

    open spec fn spec_entries(&self) -> Seq<EntryView> {
        ssa_entries(self@)
    }

    open spec fn supports_update(&self) -> bool {
        true
    }

    open spec fn accepts(&self, new: Seq<EntryView>) -> bool {
        forall|k: int|
            0 <= k < new.len() ==> i64::MIN < (#[trigger] new[k]).start <= i64::MAX && i64::MIN
                < new[k].end <= i64::MAX
    }

    open spec fn spec_updated(&self, new: Seq<EntryView>) -> SsaView {
        ssa_updated(self@, new)
    }

    open spec fn spec_data(&self) -> Seq<u8> {
        vstd::utf8::encode_utf8(ssa_render(self@))
    }

    fn get_subtitle_entries(&self) -> (r: Result<Vec<SubtitleEntry>, Error>) {
        let ghost rv = self@.records;
        let mut out: Vec<SubtitleEntry> = Vec::new();
        let mut i: usize = 0;
        let n = self.v.len();
        proof {
            assert(entry_views(out@) =~= ssa_entries(self@).take(0));
        }
        while i < n
            invariant
                i <= n,
                n == self.v@.len(),
                rv == ssa_record_views(self.v@),
                rv == self@.records,
                ssa_wf(self@),
                entry_views(out@) == ssa_entries(self@).take(i as int),
            decreases n - i,
        {
            let ghost prev = out@;
            let rec = &self.v[i];
            proof {
                assert(rec@ == rv[i as int]);
                assert(ssa_record_wf(rv[i as int]));
            }
            let (start, end) = rec.times();
            let text = chars_to_string(&rec.text);
            let e = SubtitleEntry::new(TimeSpan::new(start, end), text);
            out.push(e);
            proof {
                assert(entry_views(out@) =~= entry_views(prev).push(
                    ssa_entries(self@)[i as int]));
                assert(entry_views(out@) =~= ssa_entries(self@).take(i + 1));
            }
            i += 1;
        }
        proof {
            assert(ssa_entries(self@).take(n as int) =~= ssa_entries(self@));
        }
        Ok(out)
    }

    fn update_subtitle_entries(&mut self, i: &[SubtitleEntry]) -> (r: Result<(), Error>) {
        let ghost oldv = self@;
        let ghost newvs = entry_views(i@);
        let mut out: Vec<SsaRecord> = Vec::new();
        let mut k: usize = 0;
        let n = self.v.len();
        proof {
            assert(ssa_record_views(out@) =~= ssa_updated(oldv, newvs).records.take(0));
        }
        while k < n
            invariant
                k <= n,
                n == self.v@.len(),
                oldv == self@,
                oldv.records == ssa_record_views(self.v@),
                ssa_wf(oldv),
                newvs == entry_views(i@),
                newvs.len() == oldv.records.len(),
                forall|q: int|
                    0 <= q < newvs.len() ==> i64::MIN < (#[trigger] newvs[q]).start <= i64::MAX
                        && i64::MIN < newvs[q].end <= i64::MAX,
                ssa_record_views(out@) == ssa_updated(oldv, newvs).records.take(k as int),
            decreases n - k,
        {
            let ghost prev = out@;
            let rec = &self.v[k];
            let e = &i[k];
            proof {
                assert(rec@ == oldv.records[k as int]);
                assert(e@ == newvs[k as int]);
                assert(ssa_record_wf(oldv.records[k as int]));
            }
            let newrec = ssa_update_record(rec, e);
            let ghost nv = newrec@;
            proof {
                assert(nv =~~= ssa_updated(oldv, newvs).records[k as int]);
            }
            out.push(newrec);
            k += 1;
            proof {
                assert(ssa_record_views(prev).len() == prev.len());
                assert(prev.len() == k - 1);
                assert(out@[k - 1]@ == nv);
                assert forall|q: int|
                    0 <= q < out@.len() implies #[trigger] ssa_record_views(out@)[q]
                    == ssa_updated(oldv, newvs).records.take(k as int)[q] by {
                    if q < k - 1 {
                        assert(out@[q] == prev[q]);
                        assert(ssa_record_views(prev)[q] == ssa_updated(
                            oldv,
                            newvs,
                        ).records.take(k - 1)[q]);
                    } else {
                        assert(ssa_record_views(out@)[q] == nv);
                    }
                }
                assert(ssa_record_views(out@) =~= ssa_updated(oldv, newvs).records.take(k as int));
            }
        }
        proof {
            assert(ssa_updated(oldv, newvs).records.take(n as int) =~= ssa_updated(
                oldv,
                newvs,
            ).records);
        }
        self.v = out;
        proof {
            assert(self@ =~~= ssa_updated(oldv, newvs));
            assert forall|q: int|
                0 <= q < self@.records.len() implies ssa_record_wf(
                #[trigger] self@.records[q]) by {
                lemma_cells_updated(oldv.records[q].cells, newvs[q].start, newvs[q].end);
            }
        }
        Ok(())
    }

    fn to_data(&self) -> (r: Result<Vec<u8>, Error>) {
        let ghost rv = self@.records;
        let mut out: Vec<char> = Vec::new();
        let mut k: usize = 0;
        let n = self.v.len();
        proof {
            assert(out@ =~= render_ssa_records(rv.take(0)));
        }
        while k < n
            invariant
                k <= n,
                n == self.v@.len(),
                rv == ssa_record_views(self.v@),
                rv == self@.records,
                ssa_wf(self@),
                out@ == render_ssa_records(rv.take(k as int)),
            decreases n - k,
        {
            proof {
                assert(rv.take(k + 1).drop_last() =~= rv.take(k as int));
                assert(rv.take(k + 1).last() == rv[k as int]);
                assert(self.v@[k as int]@ == rv[k as int]);
                assert(ssa_record_wf(rv[k as int]));
            }
            let mut piece = ssa_render_record(&self.v[k]);
            out.append(&mut piece);
            proof {
                assert(out@ =~= render_ssa_records(rv.take(k + 1)));
            }
            k += 1;
        }
        proof {
            assert(rv.take(n as int) =~= rv);
        }
        extend_chars(&mut out, &self.tail);
        let s = chars_to_string(&out);
        Ok(string_to_bytes(&s))
    }
}

/// One record with one entry written back.
fn ssa_update_record(rec: &SsaRecord, e: &SubtitleEntry) -> (r: SsaRecord)
    ensures
        r@ == (SsaRecordView {
            pre: rec@.pre,
            head: rec@.head,
            cells: cells_updated(rec@.cells, e@.start, e@.end),
            text: match e@.line {
                Some(t) => t,
                None => rec@.text,
            },
            term: rec@.term,
        }),
{
    let ghost cs = rec@.cells;
    let mut cells: Vec<SsaCell> = Vec::new();
    let mut j: usize = 0;
    let n = rec.cells.len();
    proof {
        assert(cell_views(cells@) =~= cells_updated(cs, e@.start, e@.end).take(0));
    }
    while j < n
        invariant
            j <= n,
            n == rec.cells@.len(),
            cs == cell_views(rec.cells@),
            e@ == e@,
            cell_views(cells@) == cells_updated(cs, e@.start, e@.end).take(j as int),
        decreases n - j,
    {
        let ghost prev = cells@;
        proof {
            assert(rec.cells@[j as int]@ == cs[j as int]);
        }
        let c = &rec.cells[j];
        let nc = SsaCell {
            lead: dup_chars(&c.lead),
            value: match &c.value {
                SsaCellValue::Start(_) => SsaCellValue::Start(e.timespan.start),
                SsaCellValue::End(_) => SsaCellValue::End(e.timespan.end),
                SsaCellValue::Plain(x) => SsaCellValue::Plain(dup_chars(x)),
            },
            tail: dup_chars(&c.tail),
        };
        let ghost nv = nc@;
        proof {
            assert(nv =~~= cells_updated(cs, e@.start, e@.end)[j as int]);
        }
        cells.push(nc);
        j += 1;
        proof {
            assert(cell_views(prev).len() == prev.len());
            assert(prev.len() == j - 1);
            assert(cells@[j - 1]@ == nv);
            assert forall|q: int|
                0 <= q < cells@.len() implies #[trigger] cell_views(cells@)[q] == cells_updated(
                cs,
                e@.start,
                e@.end,
            ).take(j as int)[q] by {
                if q < j - 1 {
                    assert(cells@[q] == prev[q]);
                    assert(cell_views(prev)[q] == cells_updated(cs, e@.start, e@.end).take(
                        j - 1)[q]);
                } else {
                    assert(cell_views(cells@)[q] == nv);
                }
            }
            assert(cell_views(cells@) =~= cells_updated(cs, e@.start, e@.end).take(j as int));
        }
    }
    proof {
        assert(cells_updated(cs, e@.start, e@.end).take(n as int) =~= cells_updated(
            cs,
            e@.start,
            e@.end,
        ));
    }
    let text: Vec<char> = match &e.line {
        Some(t) => str_to_chars(t.as_str()),
        None => dup_chars(&rec.text),
    };
    let r = SsaRecord {
        pre: dup_chars(&rec.pre),
        head: dup_chars(&rec.head),
        cells,
        text,
        term: dup_chars(&rec.term),
    };
    proof {
        assert(r@ =~~= SsaRecordView {
            pre: rec@.pre,
            head: rec@.head,
            cells: cells_updated(rec@.cells, e@.start, e@.end),
            text: match e@.line {
                Some(t) => t,
                None => rec@.text,
            },
            term: rec@.term,
        });
    }
    r
}

// ////////////////////////////////////////////////////////////////////////////////////////////////
// parsing

/// Is the trimmed line a section header like `[Events]`?
pub open spec fn is_section_header(t: Seq<char>) -> bool {
    t.len() >= 2 && t[0] == '[' && t.last() == ']'
}

/// The value of an `.ssa` timestamp string like `0:19:41.99` (centisecond
/// precision; the last separator may also be a colon), if it is one whose
/// folded total fits.
pub open spec fn spec_parse_ssa_time(s: Seq<char>) -> Option<int> {
    let e1 = crate::formats::common::num_end(s, 0);
    if !(e1 < s.len() && s[e1] == ':') {
        None
    } else {
        let e2 = crate::formats::common::num_end(s, e1 + 1);
        if !(e2 < s.len() && s[e2] == ':') {
            None
        } else {
            let e3 = crate::formats::common::num_end(s, e2 + 1);
            if !(e3 < s.len() && (s[e3] == '.' || s[e3] == ':')) {
                None
            } else {
                let e4 = crate::formats::common::num_end(s, e3 + 1);
                let h = spec_number_i64(s.subrange(0, e1));
                let m = spec_number_i64(s.subrange(e1 + 1, e2));
                let sec = spec_number_i64(s.subrange(e2 + 1, e3));
                let cs = spec_number_i64(s.subrange(e3 + 1, e4));
                if e4 == s.len() && h is Some && m is Some && sec is Some && cs is Some {
                    let total = from_components_total(
                        h->Some_0 as int,
                        m->Some_0 as int,
                        sec->Some_0 as int,
                        cs->Some_0 as int * 10,
                    );
                    if i64::MIN < total <= i64::MAX {
                        Some(total)
                    } else {
                        None
                    }
                } else {
                    None
                }
            }
        }
    }
}

/// Parses the characters of `s` as an `.ssa` timestamp.
fn parse_ssa_time(s: &Vec<char>) -> (r: Option<TimePoint>)
    ensures
        match r {
            Some(t) => spec_parse_ssa_time(s@) == Some(t@) && i64::MIN < t@ <= i64::MAX,
            None => spec_parse_ssa_time(s@) is None,
        },
{
    let n = s.len();
    let e1 = crate::formats::common::scan_num(s, 0);
    if !(e1 < n && s[e1] == ':') {
        return None;
    }
    let e2 = crate::formats::common::scan_num(s, e1 + 1);
    if !(e2 < n && s[e2] == ':') {
        return None;
    }
    let e3 = crate::formats::common::scan_num(s, e2 + 1);
    if !(e3 < n && (s[e3] == '.' || s[e3] == ':')) {
        return None;
    }
    let e4 = crate::formats::common::scan_num(s, e3 + 1);
    if e4 != n {
        return None;
    }
    let h = match parse_i64_chars(s, 0, e1) {
        Some(v) => v,
        None => {
            return None;
        },
    };
    let m = match parse_i64_chars(s, e1 + 1, e2) {
        Some(v) => v,
        None => {
            return None;
        },
    };
    let sec = match parse_i64_chars(s, e2 + 1, e3) {
        Some(v) => v,
        None => {
            return None;
        },
    };
    let cs = match parse_i64_chars(s, e3 + 1, e4) {
        Some(v) => v,
        None => {
            return None;
        },
    };
    let total: i128 = (cs as i128) * 10 + 1000 * (sec as i128 + 60 * (m as i128 + 60 * (
    h as i128)));
    if total <= i64::MIN as i128 || total > i64::MAX as i128 {
        return None;
    }
    Some(TimePoint::from_msecs(total as i64))
}

/// A maximal digit run at `from` pins down `num_end`.
proof fn lemma_num_end_digits(s: Seq<char>, from: int, k: int)
    requires
        0 <= from,
        from + k <= s.len(),
        k >= 1,
        forall|j: int| from <= j < from + k ==> crate::formats::common::is_digit(#[trigger] s[j]),
        from + k == s.len() || !crate::formats::common::is_digit(s[from + k]),
    ensures
        crate::formats::common::num_end(s, from) == from + k,
{
    assert(crate::formats::common::is_digit(s[from]));
    assert(s[from] != '-' && s[from] != '+');
    let tail = s.skip(from);
    assert(forall|j: int| 0 <= j < tail.len() ==> #[trigger] tail[j] == s[from + j]);
    crate::formats::common::lemma_digits_prefix(tail, k);
}

/// A centisecond count decomposes exactly into its display components.
proof fn lemma_centi_components(c: int)
    requires
        c >= 0,
    ensures
        c % 100 + 100 * ((c / 100) % 60 + 60 * ((c / 6000) % 60 + 60 * (c / 360000))) == c,
{
    vstd::arithmetic::div_mod::lemma_fundamental_div_mod(c, 100);
    vstd::arithmetic::div_mod::lemma_fundamental_div_mod(c / 100, 60);
    vstd::arithmetic::div_mod::lemma_fundamental_div_mod(c / 6000, 60);
    vstd::arithmetic::div_mod::lemma_div_denominator(c, 100, 60);
    vstd::arithmetic::div_mod::lemma_div_denominator(c, 6000, 60);
    assert(c / 100 / 60 == c / 6000);
    assert(c / 6000 / 60 == c / 360000);
    assert(c == 100 * (c / 100) + c % 100);
    assert(c / 100 == 60 * (c / 6000) + (c / 100) % 60);
    assert(c / 6000 == 60 * (c / 360000) + (c / 6000) % 60);
}

/// Parsing the canonical rendering of a whole-centisecond time yields the
/// time back: the `.ssa` half of the serialize/parse round-trip on
/// timestamps. Only times on a centisecond boundary round-trip, because the
/// format stores centiseconds (`render_ssa_time(15)` drops the odd 5
/// milliseconds).
#[verifier::rlimit(100)]
#[verifier::spinoff_prover]
pub proof fn lemma_ssa_time_roundtrip(c: int)
    requires
        0 <= c,
        c * 10 <= i64::MAX,
    ensures
        spec_parse_ssa_time(render_ssa_time(c * 10)) == Some(c * 10),
{
    let t = c * 10;
    vstd::arithmetic::div_mod::lemma_div_denominator(t, 10, 100);
    vstd::arithmetic::div_mod::lemma_div_denominator(t, 10, 6000);
    vstd::arithmetic::div_mod::lemma_div_denominator(t, 10, 36000);
    vstd::arithmetic::div_mod::lemma_div_by_multiple(c, 10);
    assert(t / 10 == c);
    assert(t / 1000 == c / 100);
    assert(t / 60000 == c / 6000);
    assert(t / 3600000 == c / 360000) by {
        vstd::arithmetic::div_mod::lemma_div_denominator(t, 36000, 100);
        vstd::arithmetic::div_mod::lemma_div_denominator(c, 3600, 100);
        vstd::arithmetic::div_mod::lemma_div_denominator(t, 10, 360000);
    }
    let h = c / 360000;
    let m = (c / 6000) % 60;
    let sec = (c / 100) % 60;
    let cs = c % 100;
    assert(h >= 0 && h <= c) by {
        vstd::arithmetic::div_mod::lemma_div_nonincreasing(c, 360000);
        vstd::arithmetic::div_mod::lemma_div_pos_is_pos(c, 360000);
    }
    assert(0 <= m < 60 && 0 <= sec < 60 && 0 <= cs < 100) by {
        vstd::arithmetic::div_mod::lemma_mod_bound(c / 6000, 60);
        vstd::arithmetic::div_mod::lemma_mod_bound(c / 100, 60);
        vstd::arithmetic::div_mod::lemma_mod_bound(c, 100);
    }
    let g1 = crate::formats::common::dec_str(h);
    let g2 = dec_str_pad(m, 2);
    let g3 = dec_str_pad(sec, 2);
    let g4 = dec_str_pad(cs, 2);
    crate::formats::common::lemma_dec_str_digits(h);
    crate::formats::common::lemma_dec_str_val(h);
    crate::formats::common::lemma_dec_str_pad_val(m, 2);
    crate::formats::common::lemma_dec_str_pad_val(sec, 2);
    crate::formats::common::lemma_dec_str_pad_val(cs, 2);
    let s = render_ssa_time(t);
    let n1 = g1.len() as int;
    let n2 = g2.len() as int;
    let n3 = g3.len() as int;
    let n4 = g4.len() as int;
    assert(s =~= g1 + seq![':'] + g2 + seq![':'] + g3 + seq!['.'] + g4);
    assert(s.len() == n1 + n2 + n3 + n4 + 3);
    assert forall|j: int| 0 <= j < n1 implies crate::formats::common::is_digit(
        #[trigger] s[j]) by {
        assert(s[j] == g1[j]);
    }
    assert(s[n1] == ':');
    lemma_num_end_digits(s, 0, n1);
    assert forall|j: int| n1 + 1 <= j < n1 + 1 + n2 implies crate::formats::common::is_digit(
        #[trigger] s[j]) by {
        assert(s[j] == g2[j - n1 - 1]);
    }
    assert(s[n1 + 1 + n2] == ':');
    lemma_num_end_digits(s, n1 + 1, n2);
    assert forall|j: int|
        n1 + n2 + 2 <= j < n1 + n2 + 2 + n3 implies crate::formats::common::is_digit(
        #[trigger] s[j]) by {
        assert(s[j] == g3[j - n1 - n2 - 2]);
    }
    assert(s[n1 + n2 + 2 + n3] == '.');
    lemma_num_end_digits(s, n1 + n2 + 2, n3);
    assert forall|j: int|
        n1 + n2 + n3 + 3 <= j < s.len() implies crate::formats::common::is_digit(
        #[trigger] s[j]) by {
        assert(s[j] == g4[j - n1 - n2 - n3 - 3]);
    }
    lemma_num_end_digits(s, n1 + n2 + n3 + 3, n4);
    assert(s.subrange(0, n1) =~= g1);
    assert(s.subrange(n1 + 1, n1 + 1 + n2) =~= g2);
    assert(s.subrange(n1 + n2 + 2, n1 + n2 + 2 + n3) =~= g3);
    assert(s.subrange(n1 + n2 + n3 + 3, s.len() as int) =~= g4);
    lemma_number_of_digits(g1, h);
    lemma_number_of_digits(g2, m);
    lemma_number_of_digits(g3, sec);
    lemma_number_of_digits(g4, cs);
    lemma_centi_components(c);
    assert(from_components_total(h, m, sec, cs * 10) == t) by {
        assert(cs * 10 + 1000 * (sec + 60 * (m + 60 * h)) == 10 * (cs + 100 * (sec + 60 * (m + 60
            * h)))) by (nonlinear_arith);
        assert(10 * (cs + 100 * (sec + 60 * (m + 60 * h))) == 10 * c) by (nonlinear_arith)
            requires
                cs + 100 * (sec + 60 * (m + 60 * h)) == c,
        ;
    }
}

/// A digit string's value is what the signed-number reader returns.
proof fn lemma_number_of_digits(g: Seq<char>, v: int)
    requires
        g.len() >= 1,
        crate::formats::common::all_digits(g),
        crate::formats::common::dec_val(g) == v,
        0 <= v <= i64::MAX,
    ensures
        spec_number_i64(g) == Some(v as i64),
{
    assert(crate::formats::common::is_digit(g[0]));
    assert(g[0] != '-' && g[0] != '+');
}

/// The `Start`/`End` indices and the field count of a `Format:` line, if the
/// line declares exactly one `Start`, one `End` and one final `Text` field.
pub open spec fn spec_fields_info(content: Seq<char>) -> Option<(int, int, int)> {
    let a = ws_prefix_end(content) as int;
    let region = content.skip(a + 7);
    let cells = crate::formats::common::spec_split_char(region, ',');
    if cells_count(cells, "Start"@) == 1 && cells_count(cells, "End"@) == 1 && cells_count(
        cells,
        "Text"@,
    ) == 1 && cells_find(cells, "Text"@) == cells.len() - 1 {
        Some((cells_find(cells, "Start"@), cells_find(cells, "End"@), cells.len() as int))
    } else {
        None
    }
}

/// How many cells trim to the given name.
pub open spec fn cells_count(cells: Seq<Seq<char>>, name: Seq<char>) -> int
    decreases cells.len(),
{
    if cells.len() == 0 {
        0
    } else {
        (if crate::formats::common::trimmed(cells[0]) == name {
            1int
        } else {
            0int
        }) + cells_count(cells.drop_first(), name)
    }
}

/// The index of the first cell that trims to the given name.
pub open spec fn cells_find(cells: Seq<Seq<char>>, name: Seq<char>) -> int
    decreases cells.len(),
{
    if cells.len() == 0 {
        0
    } else if crate::formats::common::trimmed(cells[0]) == name {
        0
    } else {
        1 + cells_find(cells.drop_first(), name)
    }
}

proof fn lemma_cells_find(cells: Seq<Seq<char>>, name: Seq<char>)
    ensures
        cells_count(cells, name) > 0 ==> 0 <= cells_find(cells, name) < cells.len()
            && crate::formats::common::trimmed(cells[cells_find(cells, name) as int]) == name,
        cells_count(cells, name) >= 0,
    decreases cells.len(),
{
    if cells.len() > 0 {
        lemma_cells_find(cells.drop_first(), name);
        if crate::formats::common::trimmed(cells[0]) != name && cells_count(
            cells.drop_first(),
            name,
        ) > 0 {
            assert(cells.drop_first()[cells_find(cells.drop_first(), name) as int]
                == cells[1 + cells_find(cells.drop_first(), name)]);
        }
    }
}

/// Distinct names are found at distinct cells.
proof fn lemma_cells_find_distinct(cells: Seq<Seq<char>>, n1: Seq<char>, n2: Seq<char>)
    requires
        cells_count(cells, n1) > 0,
        cells_count(cells, n2) > 0,
        n1 != n2,
    ensures
        cells_find(cells, n1) != cells_find(cells, n2),
{
    lemma_cells_find(cells, n1);
    lemma_cells_find(cells, n2);
}

/// Does the trimmed line start with the literal?
fn trimmed_starts_with(content: &Vec<char>, lit: &str) -> (b: bool)
    ensures
        b == ({
            let t = crate::formats::common::trimmed(content@);
            lit@.len() <= t.len() && t.subrange(0, lit@.len() as int) == lit@
        }),
{
    let n = content.len();
    let (a, b) = trim_bounds(content, 0, n);
    proof {
        assert(content@.subrange(0, n as int) =~= content@);
    }
    let ghost t = crate::formats::common::trimmed(content@);
    if crate::formats::common::match_lit(content, a, lit) {
        if b - a >= lit.unicode_len() {
            proof {
                assert(t =~= content@.subrange(a as int, b as int));
                assert(t.subrange(0, lit@.len() as int) =~= content@.subrange(
                    a as int,
                    a + lit@.len(),
                ));
            }
            true
        } else {
            proof {
                assert(t.len() < lit@.len());
            }
            false
        }
    } else {
        proof {
            if lit@.len() <= t.len() {
                assert(t =~= content@.subrange(a as int, b as int));
                assert(t.subrange(0, lit@.len() as int) =~= content@.subrange(
                    a as int,
                    a + lit@.len(),
                ));
            }
        }
        false
    }
}

/// Does a cell trim to the given name?
fn cell_is_name(cell: &Vec<char>, name: &str) -> (b: bool)
    ensures
        b == (crate::formats::common::trimmed(cell@) == name@),
{
    let n = cell.len();
    let (a, b) = trim_bounds(cell, 0, n);
    proof {
        assert(cell@.subrange(0, n as int) =~= cell@);
    }
    let ghost t = crate::formats::common::trimmed(cell@);
    if b - a == name.unicode_len() && crate::formats::common::match_lit(cell, a, name) {
        proof {
            assert(t =~= cell@.subrange(a as int, a + name@.len()));
        }
        true
    } else {
        proof {
            if t == name@ {
                assert(t.len() == b - a);
                assert(t =~= cell@.subrange(a as int, b as int));
                if b - a == name@.len() {
                    assert(cell@.subrange(a as int, a + name@.len()) =~= t);
                }
            }
        }
        false
    }
}

/// The number of cells that trim to `name`, and the index of the first one.
fn find_name(cells: &Vec<Vec<char>>, name: &str) -> (r: (usize, usize))
    ensures
        r.0 as int == cells_count(crate::formats::common::chunk_views(cells@), name@),
        r.0 > 0 ==> r.1 as int == cells_find(crate::formats::common::chunk_views(cells@), name@)
            && r.1 < cells@.len(),
{
    let ghost cv = crate::formats::common::chunk_views(cells@);
    let mut count: usize = 0;
    let mut first: usize = 0;
    let n = cells.len();
    let mut i: usize = 0;
    proof {
        assert(cv.skip(0) =~= cv);
    }
    while i < n
        invariant
            i <= n,
            n == cells@.len(),
            cv == crate::formats::common::chunk_views(cells@),
            count as int + cells_count(cv.skip(i as int), name@) == cells_count(cv, name@),
            count > 0 ==> first as int == cells_find(cv, name@) && first < n,
            count == 0 ==> cells_find(cv, name@) == i + cells_find(cv.skip(i as int), name@),
            count <= i,
        decreases n - i,
    {
        proof {
            assert(cv.skip(i as int)[0] == cv[i as int]);
            assert(cv[i as int] == cells@[i as int]@);
            assert(cv.skip(i as int).drop_first() =~= cv.skip(i + 1));
        }
        if cell_is_name(&cells[i], name) {
            if count == 0 {
                first = i;
            }
            count += 1;
        }
        i += 1;
    }
    proof {
        assert(cv.skip(n as int) =~= Seq::<Seq<char>>::empty());
    }
    (count, first)
}

/// Reads the field declaration of a `Format:` line.
fn fields_info(content: &Vec<char>) -> (r: Option<(usize, usize, usize)>)
    requires
        ws_prefix_end(content@) + 7 <= content@.len(),
    ensures
        match r {
            Some((si, ei, nf)) => spec_fields_info(content@) == Some(
                (si as int, ei as int, nf as int),
            ) && si != ei && si < nf - 1 && ei < nf - 1 && nf >= 1,
            None => spec_fields_info(content@) is None,
        },
{
    let n = content.len();
    let a = ws_run_end(content, 0, n);
    proof {
        assert(content@.subrange(0, n as int) =~= content@);
        assert forall|j: int| 0 <= j < a implies is_ws(#[trigger] content@[j]) by {
            assert(content@.subrange(0, a as int)[j] == content@[j]);
        }
        lemma_ws_prefix(content@, a as int);
    }
    let cells = crate::formats::common::split_char(content, a + 7, n, ',');
    let ghost cv = crate::formats::common::chunk_views(cells@);
    proof {
        assert(content@.subrange(a + 7, n as int) =~= content@.skip(a + 7));
    }
    let (sc, si) = find_name(&cells, "Start");
    let (ec, ei) = find_name(&cells, "End");
    let (tc, ti) = find_name(&cells, "Text");
    if sc == 1 && ec == 1 && tc == 1 && ti == cells.len() - 1 {
        proof {
            crate::formats::common::lemma_split_char_shape(content@.skip(a + 7), ',');
            lemma_cells_find(cv, "Start"@);
            lemma_cells_find(cv, "End"@);
            lemma_cells_find(cv, "Text"@);
            reveal_strlit("Start");
            reveal_strlit("End");
            reveal_strlit("Text");
            assert("Start"@.len() == 5 && "End"@.len() == 3 && "Text"@.len() == 4);
            assert("Start"@ != "End"@ && "Start"@ != "Text"@ && "End"@ != "Text"@);
            lemma_cells_find_distinct(cv, "Start"@, "End"@);
            lemma_cells_find_distinct(cv, "Start"@, "Text"@);
            lemma_cells_find_distinct(cv, "End"@, "Text"@);
        }
        Some((si, ei, cells.len()))
    } else {
        None
    }
}

/// The cells of a dialogue line from position `pos` and cell index `i` on,
/// and the position where the text field starts.
#[verifier::opaque]
pub open spec fn spec_parse_cells(
    content: Seq<char>,
    pos: int,
    i: int,
    si: int,
    ei: int,
    nf: int,
) -> Option<(Seq<SsaCellView>, int)>
    decreases nf - i,
{
    if i >= nf - 1 {
        Some((Seq::empty(), pos))
    } else {
        let c = pos + find_char(content.skip(pos), ',');
        if c >= content.len() {
            None
        } else {
            let cellseq = content.subrange(pos, c);
            let a2 = ws_prefix_end(cellseq) as int;
            let b2 = if ws_suffix_start(cellseq) < ws_prefix_end(cellseq) {
                ws_prefix_end(cellseq) as int
            } else {
                ws_suffix_start(cellseq) as int
            };
            let mid = cellseq.subrange(a2, b2);
            let kind = if i == si {
                match spec_parse_ssa_time(mid) {
                    Some(t) => Some(SsaCellKind::Start(t)),
                    None => None,
                }
            } else if i == ei {
                match spec_parse_ssa_time(mid) {
                    Some(t) => Some(SsaCellKind::End(t)),
                    None => None,
                }
            } else {
                Some(SsaCellKind::Plain(mid))
            };
            match kind {
                None => None,
                Some(k) => {
                    let cell = SsaCellView { lead: cellseq.take(a2), kind: k, tail: cellseq.skip(b2) };
                    match spec_parse_cells(content, c + 1, i + 1, si, ei, nf) {
                        None => None,
                        Some((rest, tpos)) => Some((seq![cell] + rest, tpos)),
                    }
                },
            }
        }
    }
}

/// One `Dialogue:` line as a record, given the accumulated filler `pre`.
pub open spec fn spec_parse_dialogue(
    content: Seq<char>,
    term: Seq<char>,
    pre: Seq<char>,
    si: int,
    ei: int,
    nf: int,
) -> Option<SsaRecordView> {
    let a = ws_prefix_end(content) as int;
    let p0 = a + 9 + ws_prefix_end(content.skip(a + 9));
    match spec_parse_cells(content, p0, 0, si, ei, nf) {
        None => None,
        Some((cells, tpos)) => Some(
            SsaRecordView {
                pre,
                head: content.take(p0),
                cells,
                text: content.skip(tpos),
                term,
            },
        ),
    }
}

/// One unfolding step of `spec_parse_cells`, for each of its cases.
proof fn lemma_cells_end(content: Seq<char>, pos: int, i: int, si: int, ei: int, nf: int)
    requires
        i >= nf - 1,
    ensures
        spec_parse_cells(content, pos, i, si, ei, nf) == Some::<(Seq<SsaCellView>, int)>(
            (Seq::empty(), pos),
        ),
{
    reveal(spec_parse_cells);
}

proof fn lemma_cells_step_none(content: Seq<char>, pos: int, i: int, si: int, ei: int, nf: int)
    requires
        i < nf - 1,
        pos + find_char(content.skip(pos), ',') >= content.len(),
    ensures
        spec_parse_cells(content, pos, i, si, ei, nf) is None,
{
    reveal(spec_parse_cells);
}

proof fn lemma_cells_step_badtime(content: Seq<char>, pos: int, i: int, si: int, ei: int, nf: int)
    requires
        i < nf - 1,
        pos + find_char(content.skip(pos), ',') < content.len(),
        i == si || i == ei,
        ({
            let c = pos + find_char(content.skip(pos), ',');
            let cellseq = content.subrange(pos, c);
            spec_parse_ssa_time(crate::formats::common::trimmed(cellseq)) is None
        }),
    ensures
        spec_parse_cells(content, pos, i, si, ei, nf) is None,
{
    reveal(spec_parse_cells);
    let c = pos + find_char(content.skip(pos), ',');
    let cellseq = content.subrange(pos, c);
    assert(crate::formats::common::trimmed(cellseq) == cellseq.subrange(
        ws_prefix_end(cellseq) as int,
        if ws_suffix_start(cellseq) < ws_prefix_end(cellseq) {
            ws_prefix_end(cellseq) as int
        } else {
            ws_suffix_start(cellseq) as int
        },
    ));
}

proof fn lemma_cells_step_ok(
    content: Seq<char>,
    pos: int,
    i: int,
    si: int,
    ei: int,
    nf: int,
    k: SsaCellKind,
)
    requires
        i < nf - 1,
        pos + find_char(content.skip(pos), ',') < content.len(),
        ({
            let c = pos + find_char(content.skip(pos), ',');
            let cellseq = content.subrange(pos, c);
            let mid = crate::formats::common::trimmed(cellseq);
            if i == si {
                spec_parse_ssa_time(mid) is Some && k == SsaCellKind::Start(
                    spec_parse_ssa_time(mid)->Some_0,
                )
            } else if i == ei {
                spec_parse_ssa_time(mid) is Some && k == SsaCellKind::End(
                    spec_parse_ssa_time(mid)->Some_0,
                )
            } else {
                k == SsaCellKind::Plain(mid)
            }
        }),
    ensures
        ({
            let c = pos + find_char(content.skip(pos), ',');
            let cellseq = content.subrange(pos, c);
            let a2 = ws_prefix_end(cellseq) as int;
            let b2 = if ws_suffix_start(cellseq) < ws_prefix_end(cellseq) {
                ws_prefix_end(cellseq) as int
            } else {
                ws_suffix_start(cellseq) as int
            };
            let cell = SsaCellView { lead: cellseq.take(a2), kind: k, tail: cellseq.skip(b2) };
            spec_parse_cells(content, pos, i, si, ei, nf) == (match spec_parse_cells(
                content,
                c + 1,
                i + 1,
                si,
                ei,
                nf,
            ) {
                None => None::<(Seq<SsaCellView>, int)>,
                Some((rest, tpos)) => Some((seq![cell] + rest, tpos)),
            })
        }),
{
    reveal(spec_parse_cells);
}

/// One composed step of the cell loop: appending the parsed cell keeps the
/// running decomposition of the whole cell list.
proof fn lemma_cells_compose_step(
    content: Seq<char>,
    pos: int,
    i: int,
    si: int,
    ei: int,
    nf: int,
    cv: SsaCellView,
    fullspec: Option<(Seq<SsaCellView>, int)>,
    acc: Seq<SsaCellView>,
)
    requires
        i < nf - 1,
        pos + find_char(content.skip(pos), ',') < content.len(),
        ({
            let c = pos + find_char(content.skip(pos), ',');
            let cellseq = content.subrange(pos, c);
            let a2 = ws_prefix_end(cellseq) as int;
            let b2 = if ws_suffix_start(cellseq) < ws_prefix_end(cellseq) {
                ws_prefix_end(cellseq) as int
            } else {
                ws_suffix_start(cellseq) as int
            };
            let mid = crate::formats::common::trimmed(cellseq);
            &&& cv.lead == cellseq.take(a2)
            &&& cv.tail == cellseq.skip(b2)
            &&& if i == si {
                spec_parse_ssa_time(mid) is Some && cv.kind == SsaCellKind::Start(
                    spec_parse_ssa_time(mid)->Some_0,
                )
            } else if i == ei {
                spec_parse_ssa_time(mid) is Some && cv.kind == SsaCellKind::End(
                    spec_parse_ssa_time(mid)->Some_0,
                )
            } else {
                cv.kind == SsaCellKind::Plain(mid)
            }
        }),
        match spec_parse_cells(content, pos, i, si, ei, nf) {
            None => fullspec is None,
            Some((rest, tpos)) => fullspec == Some::<(Seq<SsaCellView>, int)>(
                (acc + rest, tpos),
            ),
        },
    ensures
        ({
            let c = pos + find_char(content.skip(pos), ',');
            match spec_parse_cells(content, c + 1, i + 1, si, ei, nf) {
                None => fullspec is None,
                Some((rest2, tpos2)) => fullspec == Some::<(Seq<SsaCellView>, int)>(
                    (acc.push(cv) + rest2, tpos2),
                ),
            }
        }),
{
    let c = pos + find_char(content.skip(pos), ',');
    let cellseq = content.subrange(pos, c);
    let a2 = ws_prefix_end(cellseq) as int;
    let b2 = if ws_suffix_start(cellseq) < ws_prefix_end(cellseq) {
        ws_prefix_end(cellseq) as int
    } else {
        ws_suffix_start(cellseq) as int
    };
    assert(crate::formats::common::trimmed(cellseq) == cellseq.subrange(a2, b2));
    lemma_cells_step_ok(content, pos, i, si, ei, nf, cv.kind);
    assert(cv =~~= (SsaCellView { lead: cellseq.take(a2), kind: cv.kind, tail: cellseq.skip(b2) }));
    match spec_parse_cells(content, c + 1, i + 1, si, ei, nf) {
        None => {},
        Some((rest2, tpos2)) => {
            match spec_parse_cells(content, pos, i, si, ei, nf) {
                None => {
                    assert(false);
                },
                Some((rest, tpos)) => {
                    assert(rest =~= seq![cv] + rest2);
                    assert(acc + rest =~= acc.push(cv) + rest2);
                },
            }
        },
    }
}

/// Counts and first-value readers under appending one cell.
proof fn lemma_push_cell(cs: Seq<SsaCellView>, x: SsaCellView)
    ensures
        count_starts(cs.push(x)) == count_starts(cs) + (match x.kind {
            SsaCellKind::Start(_) => 1int,
            _ => 0int,
        }),
        count_ends(cs.push(x)) == count_ends(cs) + (match x.kind {
            SsaCellKind::End(_) => 1int,
            _ => 0int,
        }),
        start_of(cs.push(x)) == if count_starts(cs) > 0 {
            start_of(cs)
        } else {
            match x.kind {
                SsaCellKind::Start(t) => t,
                _ => 0,
            }
        },
        end_of(cs.push(x)) == if count_ends(cs) > 0 {
            end_of(cs)
        } else {
            match x.kind {
                SsaCellKind::End(t) => t,
                _ => 0,
            }
        },
    decreases cs.len(),
{
    lemma_counts_nonneg(cs);
    let p = cs.push(x);
    if cs.len() == 0 {
        assert(p[0] == x);
        assert(p.drop_first() =~= Seq::<SsaCellView>::empty());
        assert(count_starts(p) == (match p[0].kind {
            SsaCellKind::Start(_) => 1int,
            _ => 0int,
        }) + count_starts(p.drop_first()));
        assert(count_ends(p) == (match p[0].kind {
            SsaCellKind::End(_) => 1int,
            _ => 0int,
        }) + count_ends(p.drop_first()));
        assert(start_of(p) == (match p[0].kind {
            SsaCellKind::Start(t) => t,
            _ => start_of(p.drop_first()),
        }));
        assert(end_of(p) == (match p[0].kind {
            SsaCellKind::End(t) => t,
            _ => end_of(p.drop_first()),
        }));
    } else {
        assert(p[0] == cs[0]);
        assert(p.drop_first() =~= cs.drop_first().push(x));
        lemma_counts_nonneg(cs.drop_first());
        lemma_push_cell(cs.drop_first(), x);
        assert(count_starts(p) == (match p[0].kind {
            SsaCellKind::Start(_) => 1int,
            _ => 0int,
        }) + count_starts(p.drop_first()));
        assert(count_ends(p) == (match p[0].kind {
            SsaCellKind::End(_) => 1int,
            _ => 0int,
        }) + count_ends(p.drop_first()));
        assert(start_of(p) == (match p[0].kind {
            SsaCellKind::Start(t) => t,
            _ => start_of(p.drop_first()),
        }));
        assert(end_of(p) == (match p[0].kind {
            SsaCellKind::End(t) => t,
            _ => end_of(p.drop_first()),
        }));
        assert(count_starts(cs) == (match cs[0].kind {
            SsaCellKind::Start(_) => 1int,
            _ => 0int,
        }) + count_starts(cs.drop_first()));
        assert(count_ends(cs) == (match cs[0].kind {
            SsaCellKind::End(_) => 1int,
            _ => 0int,
        }) + count_ends(cs.drop_first()));
        assert(start_of(cs) == (match cs[0].kind {
            SsaCellKind::Start(t) => t,
            _ => start_of(cs.drop_first()),
        }));
        assert(end_of(cs) == (match cs[0].kind {
            SsaCellKind::End(t) => t,
            _ => end_of(cs.drop_first()),
        }));
    }
}

/// The format line of the file: the first line that, inside the `[Events]`
/// section, starts with `Format:` after trimming.
#[verifier::opaque]
pub open spec fn spec_find_format(
    lines: Seq<(Seq<char>, Seq<char>)>,
    base: int,
    sec: bool,
) -> Option<(int, Seq<char>)>
    decreases lines.len(),
{
    if lines.len() == 0 {
        None
    } else {
        let t = crate::formats::common::trimmed(lines[0].0);
        let sec2 = if is_section_header(t) {
            t.subrange(1, t.len() - 1) == "Events"@
        } else {
            sec
        };
        if sec2 && t.len() >= 7 && t.subrange(0, 7) == "Format:"@ {
            Some((base, lines[0].0))
        } else {
            spec_find_format(lines.drop_first(), base + 1, sec2)
        }
    }
}

/// The `.ssa` line machine: every line is filler except the `Dialogue:`
/// lines of the `[Events]` section, which become records.
#[verifier::opaque]
pub open spec fn spec_parse_ssa_lines(
    lines: Seq<(Seq<char>, Seq<char>)>,
    base: int,
    sec: bool,
    acc: Seq<char>,
    si: int,
    ei: int,
    nf: int,
) -> Result<(Seq<SsaRecordView>, Seq<char>), (int, ExpectedToken)>
    decreases lines.len(),
{
    if lines.len() == 0 {
        Ok((Seq::empty(), acc))
    } else {
        let content = lines[0].0;
        let term = lines[0].1;
        let t = crate::formats::common::trimmed(content);
        let sec2 = if is_section_header(t) {
            t.subrange(1, t.len() - 1) == "Events"@
        } else {
            sec
        };
        let dialog = sec2 && !is_section_header(t) && t.len() >= 9 && t.subrange(0, 9)
            == "Dialogue:"@;
        if !dialog {
            spec_parse_ssa_lines(
                lines.drop_first(),
                base + 1,
                sec2,
                acc + content + term,
                si,
                ei,
                nf,
            )
        } else {
            match spec_parse_dialogue(content, term, acc, si, ei, nf) {
                None => Err((base, ExpectedToken::DialogueLine)),
                Some(r) => match spec_parse_ssa_lines(
                    lines.drop_first(),
                    base + 1,
                    sec2,
                    Seq::empty(),
                    si,
                    ei,
                    nf,
                ) {
                    Err(e) => Err(e),
                    Ok((rs, tail)) => Ok((seq![r] + rs, tail)),
                },
            }
        }
    }
}

/// The result of parsing a whole `.ssa` text: the dialogue records and all
/// the verbatim text around them, or a failure.
pub open spec fn spec_parse_ssa(s: Seq<char>) -> Result<SsaView, (int, ExpectedToken)> {
    let k = spec_bom_skip(s);
    let lines = spec_split_lines(s.skip(k));
    match spec_find_format(lines, 0, false) {
        None => Err((lines.len() as int, ExpectedToken::FieldsInfo)),
        Some((fline, fl)) => match spec_fields_info(fl) {
            None => Err((fline, ExpectedToken::FieldsInfo)),
            Some((si, ei, nf)) => match spec_parse_ssa_lines(
                lines,
                0,
                false,
                s.take(k),
                si,
                ei,
                nf,
            ) {
                Err(e) => Err(e),
                Ok((recs, tail)) => Ok(SsaView { records: recs, tail }),
            },
        },
    }
}

/// The classification of one line: the new section flag and whether the line
/// is a dialogue line.
fn classify_line(content: &Vec<char>, sec: bool) -> (r: (bool, bool))
    ensures
        ({
            let t = crate::formats::common::trimmed(content@);
            let sec2 = if is_section_header(t) {
                t.subrange(1, t.len() - 1) == "Events"@
            } else {
                sec
            };
            r.0 == sec2 && r.1 == (sec2 && !is_section_header(t) && t.len() >= 9 && t.subrange(
                0,
                9,
            ) == "Dialogue:"@)
        }),
{
    let n = content.len();
    let (a, b) = trim_bounds(content, 0, n);
    proof {
        assert(content@.subrange(0, n as int) =~= content@);
    }
    let ghost t = crate::formats::common::trimmed(content@);
    let header = b - a >= 2 && content[a] == '[' && content[b - 1] == ']';
    proof {
        assert(t =~= content@.subrange(a as int, b as int));
        if t.len() >= 2 {
            assert(t[0] == content@[a as int]);
            assert(t.last() == content@[b - 1]);
        }
        assert(header == is_section_header(t));
    }
    let sec2 = if header {
        let ev = b - a == 8 && crate::formats::common::match_lit(content, a + 1, "Events");
        proof {
            reveal_strlit("Events");
            if b - a == 8 {
                assert(t.subrange(1, t.len() - 1) =~= content@.subrange(a + 1, b - 1));
                if ev {
                    assert(content@.subrange(a + 1, a + 1 + "Events"@.len()) =~= content@.subrange(
                        a + 1,
                        b - 1,
                    ));
                }
            } else {
                assert(t.subrange(1, t.len() - 1).len() != "Events"@.len());
            }
            if ev {
                assert(t.subrange(1, t.len() - 1) == "Events"@);
            } else {
                if t.subrange(1, t.len() - 1) == "Events"@ {
                    assert(b - a == 8);
                    assert(content@.subrange(a + 1, a + 1 + "Events"@.len()) =~= t.subrange(
                        1,
                        t.len() - 1,
                    ));
                }
            }
        }
        ev
    } else {
        sec
    };
    let dialog = if sec2 && !header {
        let d = trimmed_starts_with(content, "Dialogue:");
        proof {
            reveal_strlit("Dialogue:");
        }
        d
    } else {
        false
    };
    (sec2, dialog)
}

/// Parses one `Dialogue:` line into a record.
#[verifier::rlimit(100)]
#[verifier::spinoff_prover]
fn parse_dialogue(content: &Vec<char>, term: &Vec<char>, pre: Vec<char>, si: usize, ei: usize, nf: usize) -> (r:
    Option<SsaRecord>)
    requires
        si != ei,
        si < nf - 1,
        ei < nf - 1,
        ws_prefix_end(content@) + 9 <= content@.len(),
    ensures
        match r {
            Some(rec) => spec_parse_dialogue(content@, term@, pre@, si as int, ei as int, nf as int)
                == Some(rec@) && ssa_record_wf(rec@),
            None => spec_parse_dialogue(content@, term@, pre@, si as int, ei as int, nf as int)
                is None,
        },
{
    let n = content.len();
    let a = ws_run_end(content, 0, n);
    proof {
        assert(content@.subrange(0, n as int) =~= content@);
        assert forall|j: int| 0 <= j < a implies is_ws(#[trigger] content@[j]) by {
            assert(content@.subrange(0, a as int)[j] == content@[j]);
        }
        lemma_ws_prefix(content@, a as int);
    }
    let p0 = ws_run_end(content, a + 9, n);
    proof {
        let tail = content@.skip(a + 9);
        assert(forall|j: int| 0 <= j < tail.len() ==> #[trigger] tail[j] == content@[a + 9 + j]);
        assert forall|j: int| 0 <= j < p0 - (a + 9) implies is_ws(#[trigger] tail[j]) by {
            assert(content@.subrange(a + 9, p0 as int)[j] == content@[a + 9 + j]);
        }
        if (p0 as int) - (a + 9) < tail.len() {
            assert(tail[p0 - (a + 9)] == content@[p0 as int]);
        }
        lemma_ws_prefix(tail, p0 - (a + 9));
    }
    let ghost fullspec = spec_parse_cells(content@, p0 as int, 0, si as int, ei as int, nf as int);
    let mut cells: Vec<SsaCell> = Vec::new();
    let mut pos: usize = p0;
    let mut i: usize = 0;
    proof {
        assert(cell_views(cells@) =~= Seq::<SsaCellView>::empty());
    }
    while i < nf - 1
        invariant
            i <= nf - 1,
            nf >= 1,
            si < nf - 1,
            ei < nf - 1,
            si != ei,
            pos <= content@.len(),
            n == content@.len(),
            fullspec == spec_parse_cells(content@, p0 as int, 0, si as int, ei as int, nf as int),
            spec_parse_dialogue(content@, term@, pre@, si as int, ei as int, nf as int) == (match
            fullspec {
                None => None::<SsaRecordView>,
                Some((cls, tpos)) => Some(
                    SsaRecordView {
                        pre: pre@,
                        head: content@.take(p0 as int),
                        cells: cls,
                        text: content@.skip(tpos),
                        term: term@,
                    },
                ),
            }),
            ({
                match spec_parse_cells(content@, pos as int, i as int, si as int, ei as int, nf as int) {
                    None => fullspec is None,
                    Some((rest, tpos)) => fullspec == Some::<(Seq<SsaCellView>, int)>(
                        (cell_views(cells@) + rest, tpos),
                    ),
                }
            }),
            count_starts(cell_views(cells@)) == if (si as int) < i {
                1int
            } else {
                0int
            },
            count_ends(cell_views(cells@)) == if (ei as int) < i {
                1int
            } else {
                0int
            },
            (si as int) < i ==> i64::MIN < start_of(cell_views(cells@)) <= i64::MAX,
            (ei as int) < i ==> i64::MIN < end_of(cell_views(cells@)) <= i64::MAX,
        decreases nf - 1 - i,
    {
        let c = find_char_from(content, pos, n, ',');
        proof {
            lemma_find_char(content@.skip(pos as int), ',');
            assert(content@.skip(pos as int) =~= content@.subrange(pos as int, n as int));
        }
        if c == n {
            proof {
                lemma_cells_step_none(
                    content@,
                    pos as int,
                    i as int,
                    si as int,
                    ei as int,
                    nf as int,
                );
            }
            return None;
        }
        let (ca, cb) = trim_bounds(content, pos, c);
        let ghost cellseq = content@.subrange(pos as int, c as int);
        proof {
            assert(cellseq.subrange(ca - pos, cb - pos) =~= content@.subrange(
                ca as int,
                cb as int,
            ));
            assert(cellseq.take(ca - pos) =~= content@.subrange(pos as int, ca as int));
            assert(cellseq.skip(cb - pos) =~= content@.subrange(cb as int, c as int));
            assert(crate::formats::common::trimmed(cellseq) == cellseq.subrange(
                ca - pos,
                cb - pos,
            ));
        }
        let value: SsaCellValue = if i == si {
            let mid = subvec(content, ca, cb);
            proof {
                assert(mid@ == crate::formats::common::trimmed(cellseq));
            }
            match parse_ssa_time(&mid) {
                Some(t) => SsaCellValue::Start(t),
                None => {
                    proof {
                        lemma_cells_step_badtime(
                            content@,
                            pos as int,
                            i as int,
                            si as int,
                            ei as int,
                            nf as int,
                        );
                    }
                    return None;
                },
            }
        } else if i == ei {
            let mid = subvec(content, ca, cb);
            proof {
                assert(mid@ == crate::formats::common::trimmed(cellseq));
            }
            match parse_ssa_time(&mid) {
                Some(t) => SsaCellValue::End(t),
                None => {
                    proof {
                        lemma_cells_step_badtime(
                            content@,
                            pos as int,
                            i as int,
                            si as int,
                            ei as int,
                            nf as int,
                        );
                    }
                    return None;
                },
            }
        } else {
            SsaCellValue::Plain(subvec(content, ca, cb))
        };
        let cell = SsaCell { lead: subvec(content, pos, ca), value, tail: subvec(content, cb, c) };
        let ghost cv = cell@;
        proof {
            lemma_cells_compose_step(
                content@,
                pos as int,
                i as int,
                si as int,
                ei as int,
                nf as int,
                cv,
                fullspec,
                cell_views(cells@),
            );
        }
        let ghost prevcells = cells@;
        cells.push(cell);
        pos = c + 1;
        i += 1;
        proof {
            assert(cell_views(prevcells).len() == prevcells.len());
            assert(cells@[prevcells.len() as int]@ == cv);
            assert(cell_views(cells@) =~= cell_views(prevcells).push(cv));
            lemma_push_cell(cell_views(prevcells), cv);
            lemma_counts_nonneg(cell_views(prevcells));
        }
    }
    let text = subvec(content, pos, n);
    let head = subvec(content, 0, p0);
    let rec = SsaRecord {
        pre,
        head,
        cells,
        text,
        term: dup_chars(term),
    };
    proof {
        lemma_cells_end(content@, pos as int, i as int, si as int, ei as int, nf as int);
        assert(cell_views(cells@) + Seq::<SsaCellView>::empty() =~= cell_views(cells@));
        assert(rec@.text =~= content@.skip(pos as int));
        assert(rec@.head =~= content@.take(p0 as int));
        assert(spec_parse_dialogue(content@, term@, pre@, si as int, ei as int, nf as int)
            == Some(rec@));
    }
    Some(rec)
}

/// One unfolding step of `spec_find_format`.
proof fn lemma_find_format_step(lines: Seq<(Seq<char>, Seq<char>)>, i: int, sec: bool)
    requires
        0 <= i < lines.len(),
    ensures
        ({
            let t = crate::formats::common::trimmed(lines[i].0);
            let sec2 = if is_section_header(t) {
                t.subrange(1, t.len() - 1) == "Events"@
            } else {
                sec
            };
            spec_find_format(lines.skip(i), i, sec) == if sec2 && t.len() >= 7 && t.subrange(0, 7)
                == "Format:"@ {
                Some((i, lines[i].0))
            } else {
                spec_find_format(lines.skip(i + 1), i + 1, sec2)
            }
        }),
{
    reveal(spec_find_format);
    assert(lines.skip(i)[0] == lines[i]);
    assert(lines.skip(i).drop_first() =~= lines.skip(i + 1));
}

proof fn lemma_find_format_end(base: int, sec: bool)
    ensures
        spec_find_format(Seq::empty(), base, sec) is None,
{
    reveal(spec_find_format);
}

/// One unfolding step of `spec_parse_ssa_lines`.
proof fn lemma_ssa_lines_step(
    lines: Seq<(Seq<char>, Seq<char>)>,
    i: int,
    sec: bool,
    acc: Seq<char>,
    si: int,
    ei: int,
    nf: int,
)
    requires
        0 <= i < lines.len(),
    ensures
        ({
            let content = lines[i].0;
            let term = lines[i].1;
            let t = crate::formats::common::trimmed(content);
            let sec2 = if is_section_header(t) {
                t.subrange(1, t.len() - 1) == "Events"@
            } else {
                sec
            };
            let dialog = sec2 && !is_section_header(t) && t.len() >= 9 && t.subrange(0, 9)
                == "Dialogue:"@;
            spec_parse_ssa_lines(lines.skip(i), i, sec, acc, si, ei, nf) == if !dialog {
                spec_parse_ssa_lines(
                    lines.skip(i + 1),
                    i + 1,
                    sec2,
                    acc + content + term,
                    si,
                    ei,
                    nf,
                )
            } else {
                match spec_parse_dialogue(content, term, acc, si, ei, nf) {
                    None => Err::<(Seq<SsaRecordView>, Seq<char>), (int, ExpectedToken)>(
                        (i, ExpectedToken::DialogueLine),
                    ),
                    Some(r) => match spec_parse_ssa_lines(
                        lines.skip(i + 1),
                        i + 1,
                        sec2,
                        Seq::empty(),
                        si,
                        ei,
                        nf,
                    ) {
                        Err(e) => Err(e),
                        Ok((rs, tail)) => Ok((seq![r] + rs, tail)),
                    },
                }
            }
        }),
{
    reveal(spec_parse_ssa_lines);
    assert(lines.skip(i)[0] == lines[i]);
    assert(lines.skip(i).drop_first() =~= lines.skip(i + 1));
}

proof fn lemma_ssa_lines_end(base: int, sec: bool, acc: Seq<char>, si: int, ei: int, nf: int)
    ensures
        spec_parse_ssa_lines(Seq::empty(), base, sec, acc, si, ei, nf) == Ok::<
            (Seq<SsaRecordView>, Seq<char>),
            (int, ExpectedToken),
        >((Seq::empty(), acc)),
{
    reveal(spec_parse_ssa_lines);
}

/// Adding a well-formed record keeps the file well-formed.
proof fn lemma_ssa_push_record(prev: Seq<SsaRecordView>, r: SsaRecordView)
    requires
        forall|q: int| 0 <= q < prev.len() ==> ssa_record_wf(#[trigger] prev[q]),
        ssa_record_wf(r),
    ensures
        forall|q: int| 0 <= q < prev.push(r).len() ==> ssa_record_wf(#[trigger] prev.push(r)[q]),
{
    assert forall|q: int|
        0 <= q < prev.push(r).len() implies ssa_record_wf(#[trigger] prev.push(r)[q]) by {
        if q < prev.len() {
            assert(prev.push(r)[q] == prev[q]);
        } else {
            assert(prev.push(r)[q] == r);
        }
    }
}

impl SsaFile {
    /// Parse a `.ssa` subtitle string to an `SsaFile`.
    #[verifier::rlimit(100)]
    pub fn parse(s: &str) -> (r: Result<SsaFile, Error>)
        ensures
            r is Ok <==> spec_parse_ssa(s@) is Ok,
            r is Ok ==> r->Ok_0@ == spec_parse_ssa(s@)->Ok_0 && r->Ok_0.wf(),
            r is Err ==> r->Err_0@ == (ErrorKind::ParsingError {
                line: spec_parse_ssa(s@)->Err_0.0 as usize,
                expected: spec_parse_ssa(s@)->Err_0.1,
            }),
    {
        let chars = str_to_chars(s);
        let n = chars.len();
        let k = bom_skip(&chars);
        let rest = subvec(&chars, k, n);
        proof {
            assert(rest@ =~= s@.skip(spec_bom_skip(s@)));
        }
        let lines = get_lines_chars(&rest);
        let ghost lvs = spec_split_lines(s@.skip(spec_bom_skip(s@)));
        let nl = lines.len();
        proof {
            assert(lvs.skip(0) =~= lvs);
        }
        // pass one: find the format line and read the field declaration
        let mut fi: usize = 0;
        let mut sec: bool = false;
        let mut found = false;
        while fi < nl && !found
            invariant
                fi <= nl,
                nl == lvs.len(),
                lvs == spec_split_lines(s@.skip(spec_bom_skip(s@))),
                line_views(lines@) == lvs,
                !found ==> spec_find_format(lvs, 0, false) == spec_find_format(
                    lvs.skip(fi as int),
                    fi as int,
                    sec,
                ),
                found ==> fi < nl && spec_find_format(lvs, 0, false) == Some(
                    (fi as int, lvs[fi as int].0),
                ) && ({
                    let t = crate::formats::common::trimmed(lvs[fi as int].0);
                    t.len() >= 7 && t.subrange(0, 7) == "Format:"@
                }),
            decreases nl - fi + (if found {
                0int
            } else {
                1int
            }),
        {
            let pair = &lines[fi];
            proof {
                assert(lvs[fi as int] == (pair.0@, pair.1@));
                lemma_find_format_step(lvs, fi as int, sec);
            }
            let (sec2, _dlg) = classify_line(&pair.0, sec);
            let isfmt = if sec2 {
                let f = trimmed_starts_with(&pair.0, "Format:");
                proof {
                    reveal_strlit("Format:");
                }
                f
            } else {
                false
            };
            if isfmt {
                found = true;
            } else {
                sec = sec2;
                fi += 1;
            }
        }
        if !found {
            proof {
                assert(lvs.skip(nl as int) =~= Seq::<(Seq<char>, Seq<char>)>::empty());
                lemma_find_format_end(nl as int, sec);
            }
            return Err(Error::from_kind(ErrorKind::ParsingError {
                line: nl,
                expected: ExpectedToken::FieldsInfo,
            }));
        }
        let fmtline = &lines[fi];
        proof {
            let t = crate::formats::common::trimmed(fmtline.0@);
            crate::formats::common::lemma_ws_prefix_all(fmtline.0@);
            crate::formats::common::lemma_ws_suffix_all(fmtline.0@);
            assert(t.len() >= 7);
            assert(ws_prefix_end(fmtline.0@) + 7 <= fmtline.0@.len());
        }
        let (si, ei, nf) = match fields_info(&fmtline.0) {
            Some(t) => t,
            None => {
                return Err(Error::from_kind(ErrorKind::ParsingError {
                    line: fi,
                    expected: ExpectedToken::FieldsInfo,
                }));
            },
        };
        // pass two: the line machine
        let mut records: Vec<SsaRecord> = Vec::new();
        let mut acc: Vec<char> = subvec(&chars, 0, k);
        let mut sec2: bool = false;
        let mut li: usize = 0;
        proof {
            assert(acc@ =~= s@.take(spec_bom_skip(s@)));
            assert(lvs.skip(0) =~= lvs);
            assert(ssa_record_views(records@) =~= Seq::<SsaRecordView>::empty());
            match spec_parse_ssa_lines(
                lvs,
                0,
                false,
                s@.take(spec_bom_skip(s@)),
                si as int,
                ei as int,
                nf as int,
            ) {
                Err(e) => {},
                Ok((rs, tail)) => {
                    assert(ssa_record_views(records@) + rs =~= rs);
                },
            }
        }
        while li < nl
            invariant
                li <= nl,
                nl == lvs.len(),
                lvs == spec_split_lines(s@.skip(spec_bom_skip(s@))),
                line_views(lines@) == lvs,
                si != ei,
                si < nf - 1,
                ei < nf - 1,
                spec_find_format(lvs, 0, false) is Some,
                spec_fields_info(spec_find_format(lvs, 0, false)->Some_0.1) == Some(
                    (si as int, ei as int, nf as int),
                ),
                spec_parse_ssa_lines(
                    lvs,
                    0,
                    false,
                    s@.take(spec_bom_skip(s@)),
                    si as int,
                    ei as int,
                    nf as int,
                ) == (match spec_parse_ssa_lines(
                    lvs.skip(li as int),
                    li as int,
                    sec2,
                    acc@,
                    si as int,
                    ei as int,
                    nf as int,
                ) {
                    Err(e) => Err::<(Seq<SsaRecordView>, Seq<char>), (int, ExpectedToken)>(e),
                    Ok((rs, tail)) => Ok((ssa_record_views(records@) + rs, tail)),
                }),
                forall|q: int|
                    0 <= q < ssa_record_views(records@).len() ==> ssa_record_wf(
                        #[trigger] ssa_record_views(records@)[q],
                    ),
            decreases nl - li,
        {
            let pair = &lines[li];
            proof {
                assert(lvs[li as int] == (pair.0@, pair.1@));
                lemma_ssa_lines_step(
                    lvs,
                    li as int,
                    sec2,
                    acc@,
                    si as int,
                    ei as int,
                    nf as int,
                );
            }
            let (nsec, dlg) = classify_line(&pair.0, sec2);
            if !dlg {
                extend_chars(&mut acc, &pair.0);
                extend_chars(&mut acc, &pair.1);
                sec2 = nsec;
            } else {
                proof {
                    let t = crate::formats::common::trimmed(pair.0@);
                    crate::formats::common::lemma_ws_prefix_all(pair.0@);
                    crate::formats::common::lemma_ws_suffix_all(pair.0@);
                    assert(t.len() >= 9);
                    assert(ws_prefix_end(pair.0@) + 9 <= pair.0@.len());
                }
                let pre = acc;
                acc = Vec::new();
                let ghost prevrecs = records@;
                match parse_dialogue(&pair.0, &pair.1, pre, si, ei, nf) {
                    None => {
                        return Err(Error::from_kind(ErrorKind::ParsingError {
                            line: li,
                            expected: ExpectedToken::DialogueLine,
                        }));
                    },
                    Some(rec) => {
                        let ghost rv = rec@;
                        records.push(rec);
                        sec2 = nsec;
                        proof {
                            assert(ssa_record_views(prevrecs).len() == prevrecs.len());
                            assert(records@[prevrecs.len() as int]@ == rv);
                            assert(ssa_record_views(records@) =~= ssa_record_views(
                                prevrecs).push(rv));
                            lemma_ssa_push_record(ssa_record_views(prevrecs), rv);
                            assert(acc@ =~= Seq::<char>::empty());
                            let tailr = spec_parse_ssa_lines(
                                lvs.skip(li + 1),
                                li + 1,
                                sec2,
                                Seq::empty(),
                                si as int,
                                ei as int,
                                nf as int,
                            );
                            match tailr {
                                Err(e) => {},
                                Ok((rs, tail)) => {
                                    assert(ssa_record_views(prevrecs) + (seq![rv] + rs)
                                        =~= ssa_record_views(records@) + rs);
                                },
                            }
                        }
                    },
                }
            }
            li += 1;
        }
        proof {
            assert(lvs.skip(nl as int) =~= Seq::<(Seq<char>, Seq<char>)>::empty());
            lemma_ssa_lines_end(nl as int, sec2, acc@, si as int, ei as int, nf as int);
            assert(ssa_record_views(records@) + Seq::<SsaRecordView>::empty() =~= ssa_record_views(
                records@));
        }
        let file = SsaFile { v: records, tail: acc };
        proof {
            assert(file@ =~~= spec_parse_ssa(s@)->Ok_0);
        }
        Ok(file)
    }
}

/// The text rendering of one record.
fn ssa_render_record(rec: &SsaRecord) -> (r: Vec<char>)
    requires
        ssa_record_wf(rec@),
    ensures
        r@ == render_ssa_record(rec@),
{
    let ghost cs = rec@.cells;
    let mut out: Vec<char> = Vec::new();
    extend_chars(&mut out, &rec.pre);
    extend_chars(&mut out, &rec.head);
    let ghost head = out@;
    let mut j: usize = 0;
    let n = rec.cells.len();
    proof {
        assert(cs.skip(0) =~= cs);
        assert(out@ + render_ssa_cells(cs.skip(0)) =~= head + render_ssa_cells(cs));
        lemma_unique_times(cs);
    }
    while j < n
        invariant
            j <= n,
            n == rec.cells@.len(),
            cs == cell_views(rec.cells@),
            forall|q: int|
                0 <= q < cs.len() ==> match (#[trigger] cs[q]).kind {
                    SsaCellKind::Start(t) => t != i64::MIN,
                    SsaCellKind::End(t) => t != i64::MIN,
                    SsaCellKind::Plain(_) => true,
                },
            out@ + render_ssa_cells(cs.skip(j as int)) == head + render_ssa_cells(cs),
        decreases n - j,
    {
        proof {
            assert(cs.skip(j as int)[0] == cs[j as int]);
            assert(rec.cells@[j as int]@ == cs[j as int]);
            assert(cs.skip(j as int).drop_first() =~= cs.skip(j + 1));
        }
        let c = &rec.cells[j];
        extend_chars(&mut out, &c.lead);
        match &c.value {
            SsaCellValue::Start(t) => {
                let mut piece = render_time(*t);
                out.append(&mut piece);
            },
            SsaCellValue::End(t) => {
                let mut piece = render_time(*t);
                out.append(&mut piece);
            },
            SsaCellValue::Plain(x) => {
                extend_chars(&mut out, x);
            },
        }
        extend_chars(&mut out, &c.tail);
        out.push(',');
        proof {
            assert(out@ + render_ssa_cells(cs.skip(j + 1)) =~= head + render_ssa_cells(cs));
        }
        j += 1;
    }
    proof {
        assert(render_ssa_cells(cs.skip(n as int)) =~= Seq::<char>::empty());
        assert(out@ =~= head + render_ssa_cells(cs));
    }
    extend_chars(&mut out, &rec.text);
    extend_chars(&mut out, &rec.term);
    proof {
        assert(out@ =~= render_ssa_record(rec@));
    }
    out
}

} // verus!
