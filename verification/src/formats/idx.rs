//! The `.idx` format: every line is either filler or a bare `timestamp:`
//! field. Entries have no independent end time; an entry is shown until the
//! next one starts, and the last one for a fixed default duration.

use crate::errors::{Error, ErrorKind, ExpectedToken};
use crate::formats::common::{
    all_digits, bom_skip, chars_to_string, dec_val, digit_check, dup_chars, extend_chars,
    is_digit, is_ws, lemma_ws_prefix, match_lit, merged_parts, parse_digits_u64,
    part_views, render_u64_pad, spec_bom_skip, spec_split_char, spec_split_lines, split_char,
    str_to_chars, string_to_bytes, subvec, ws_prefix_end, ws_run_end, dec_str_pad, get_lines_chars,
    line_views, MergablePart, dedup_string_parts,
};
use crate::timetypes::{abs_ms, from_components_total, TimePoint, TimeSpan};
use crate::{entry_views, EntryView, SubtitleEntry, SubtitleFile};
use vstd::prelude::*;

verus! {

/// How long the last entry of an `.idx` file is shown, in milliseconds.
///
/// `.idx` files do not store time spans: every subtitle is shown until the
/// next subtitle starts. This constant decides the span of the final entry
/// (the convention of a popular player).
pub const LAST_ENTRY_SHOW_MSECS: i64 = 60000;

/// The mathematical content of one `.idx` file part.
#[verifier::ext_equal]
pub enum IdxPartView {
    /// Verbatim text: spaces, comments, unimportant fields, ...
    Filler(Seq<char>),
    /// A parsed time of a `timestamp:` field, in milliseconds.
    Timestamp(int),
}

#[derive(Debug, Clone)]
/// One part of an `.idx` file.
pub enum IdxFilePart {
    /// Spaces, field information, comments, unimportant fields, ...
    Filler(Vec<char>),
    /// Represents a parsed time string like `00:42:20:204`.
    Timestamp(TimePoint),
}

impl View for IdxFilePart {
    type V = IdxPartView;

    open spec fn view(&self) -> IdxPartView {
        match self {
            IdxFilePart::Filler(t) => IdxPartView::Filler(t@),
            IdxFilePart::Timestamp(t) => IdxPartView::Timestamp(t@),
        }
    }
}

/// The canonical text of an `.idx` timestamp: `[-]HH:MM:SS:mmm`.
pub open spec fn render_idx_timestamp(t: int) -> Seq<char> {
    let a = abs_ms(t);
    (if t < 0 {
        seq!['-']
    } else {
        Seq::<char>::empty()
    }) + dec_str_pad(a / 3600000, 2) + seq![':'] + dec_str_pad((a / 60000) % 60, 2) + seq![':']
        + dec_str_pad((a / 1000) % 60, 2) + seq![':'] + dec_str_pad(a % 1000, 3)
}

/// The text a part renders to.
pub open spec fn idx_part_render(v: IdxPartView) -> Seq<char> {
    match v {
        IdxPartView::Filler(t) => t,
        IdxPartView::Timestamp(t) => render_idx_timestamp(t),
    }
}

/// The text a whole part sequence renders to.
pub open spec fn idx_render(s: Seq<IdxPartView>) -> Seq<char>
    decreases s.len(),
{
    if s.len() == 0 {
        Seq::empty()
    } else {
        idx_render(s.drop_last()) + idx_part_render(s.last())
    }
}

impl MergablePart for IdxFilePart {
    open spec fn as_filler(v: IdxPartView) -> Option<Seq<char>> {
        match v {
            IdxPartView::Filler(t) => Some(t),
            IdxPartView::Timestamp(_) => None,
        }
    }

    open spec fn mk_filler(t: Seq<char>) -> IdxPartView {
        IdxPartView::Filler(t)
    }

    open spec fn render_view(v: IdxPartView) -> Seq<char> {
        idx_part_render(v)
    }

    proof fn lemma_mk_filler(t: Seq<char>) {
    }

    proof fn lemma_filler_render(v: IdxPartView) {
    }

    fn is_filler(&self) -> (b: bool) {
        match self {
            IdxFilePart::Filler(_) => true,
            IdxFilePart::Timestamp(_) => false,
        }
    }

    fn duplicate(&self) -> (r: Self) {
        match self {
            IdxFilePart::Filler(t) => IdxFilePart::Filler(dup_chars(t)),
            IdxFilePart::Timestamp(t) => IdxFilePart::Timestamp(*t),
        }
    }

    fn merge_filler(&mut self, other: &Self) {
        match self {
            IdxFilePart::Filler(f) => {
                match other {
                    IdxFilePart::Filler(g) => {
                        extend_chars(f, g);
                    },
                    IdxFilePart::Timestamp(_) => {
                        proof {
                            assert(false);
                        }
                    },
                }
            },
            IdxFilePart::Timestamp(_) => {
                proof {
                    assert(false);
                }
            },
        }
    }
}

/// The timestamps of a part sequence, in order.
pub open spec fn idx_timestamps(s: Seq<IdxPartView>) -> Seq<int>
    decreases s.len(),
{
    if s.len() == 0 {
        Seq::empty()
    } else {
        idx_timestamps(s.drop_last()) + (match s.last() {
            IdxPartView::Timestamp(t) => seq![t],
            IdxPartView::Filler(_) => Seq::<int>::empty(),
        })
    }
}

/// Timestamps distribute over concatenation.
pub proof fn lemma_idx_timestamps_concat(a: Seq<IdxPartView>, b: Seq<IdxPartView>)
    ensures
        idx_timestamps(a + b) == idx_timestamps(a) + idx_timestamps(b),
    decreases b.len(),
{
    if b.len() == 0 {
        assert(a + b =~= a);
        assert(idx_timestamps(a) + idx_timestamps(b) =~= idx_timestamps(a));
    } else {
        lemma_idx_timestamps_concat(a, b.drop_last());
        assert((a + b).drop_last() =~= a + b.drop_last());
        assert((a + b).last() == b.last());
        assert(idx_timestamps(a + b) =~= idx_timestamps(a) + idx_timestamps(b));
    }
}

/// Merging fillers keeps the timestamps.
pub proof fn lemma_idx_timestamps_merged(s: Seq<IdxPartView>)
    ensures
        idx_timestamps(merged_parts::<IdxFilePart>(s)) == idx_timestamps(s),
    decreases s.len(),
{
    if s.len() > 0 {
        lemma_idx_timestamps_merged(s.drop_last());
        let r = merged_parts::<IdxFilePart>(s.drop_last());
        let x = s.last();
        let is_merge = r.len() > 0 && IdxFilePart::as_filler(r.last()) is Some
            && IdxFilePart::as_filler(x) is Some;
        if is_merge {
            let t = IdxFilePart::as_filler(r.last())->Some_0 + IdxFilePart::as_filler(x)->Some_0;
            let m = r.drop_last().push(IdxFilePart::mk_filler(t));
            assert(m.drop_last() =~= r.drop_last());
            assert(idx_timestamps(m) =~= idx_timestamps(r.drop_last()));
            assert(idx_timestamps(r) =~= idx_timestamps(r.drop_last()));
            assert(idx_timestamps(s) =~= idx_timestamps(s.drop_last()));
        } else {
            let m = r.push(x);
            assert(m.drop_last() =~= r);
            assert(idx_timestamps(s) =~= idx_timestamps(s.drop_last()) + (match x {
                IdxPartView::Timestamp(t) => seq![t],
                IdxPartView::Filler(_) => Seq::<int>::empty(),
            }));
        }
    }
}

/// All timestamps lie strictly above `i64::MIN` and low enough that the final
/// entry's synthesized end still fits.
pub open spec fn idx_wf(parts: Seq<IdxPartView>) -> bool {
    forall|k: int|
        0 <= k < idx_timestamps(parts).len() ==> i64::MIN < #[trigger] idx_timestamps(parts)[k]
            <= i64::MAX - LAST_ENTRY_SHOW_MSECS
}

/// The entries of an `.idx` part sequence: entry `i` is shown from timestamp
/// `i` until timestamp `i + 1` (the last entry for `LAST_ENTRY_SHOW_MSECS`).
pub open spec fn idx_entries(parts: Seq<IdxPartView>) -> Seq<EntryView> {
    let ts = idx_timestamps(parts);
    Seq::new(
        ts.len(),
        |i: int|
            EntryView {
                start: ts[i],
                end: if i < ts.len() - 1 {
                    ts[i + 1]
                } else {
                    ts[i] + LAST_ENTRY_SHOW_MSECS
                },
                line: None,
            },
    )
}

/// The part sequence with the timestamps replaced by the start times of the
/// given entries, in order; everything else is kept.
pub open spec fn idx_updated(parts: Seq<IdxPartView>, new: Seq<EntryView>) -> Seq<IdxPartView> {
    Seq::new(
        parts.len(),
        |k: int|
            match parts[k] {
                IdxPartView::Filler(t) => IdxPartView::Filler(t),
                IdxPartView::Timestamp(_) => IdxPartView::Timestamp(
                    new[idx_timestamps(parts.take(k)).len() as int].start,
                ),
            },
    )
}

/// At a timestamp part, the number of preceding timestamps indexes that
/// timestamp in the timestamp list.
pub proof fn lemma_idx_timestamp_index(parts: Seq<IdxPartView>, k: int)
    requires
        0 <= k < parts.len(),
        parts[k] is Timestamp,
    ensures
        idx_timestamps(parts.take(k)).len() < idx_timestamps(parts).len(),
        idx_timestamps(parts)[idx_timestamps(parts.take(k)).len() as int] == parts[k]->Timestamp_0,
{
    assert(parts =~= parts.take(k) + (seq![parts[k]] + parts.skip(k + 1)));
    lemma_idx_timestamps_concat(parts.take(k), seq![parts[k]] + parts.skip(k + 1));
    lemma_idx_timestamps_concat(seq![parts[k]], parts.skip(k + 1));
    let p = parts[k];
    assert(idx_timestamps(seq![p]) =~= seq![p->Timestamp_0]) by {
        let single = seq![p];
        assert(single.len() == 1);
        assert(single.last() == p);
        assert(single.drop_last() =~= Seq::<IdxPartView>::empty());
        assert(idx_timestamps(single.drop_last()) =~= Seq::<int>::empty());
    }
    let n = idx_timestamps(parts.take(k)).len();
    assert(idx_timestamps(parts) =~= idx_timestamps(parts.take(k)) + (seq![parts[k]->Timestamp_0]
        + idx_timestamps(parts.skip(k + 1))));
}

/// Writing back the entries that were read leaves the file unchanged.
///
/// This is the `.idx` half of the read/update round-trip law: for every
/// parsed file, `update_subtitle_entries(get_subtitle_entries())` is the
/// identity on the file value, so reading the entries again yields an equal
/// list.
pub proof fn lemma_idx_update_roundtrip(parts: Seq<IdxPartView>)
    ensures
        idx_updated(parts, idx_entries(parts)) == parts,
{
    assert forall|k: int| 0 <= k < parts.len() implies idx_updated(parts, idx_entries(parts))[k]
        == parts[k] by {
        if parts[k] is Timestamp {
            lemma_idx_timestamp_index(parts, k);
        }
    }
    assert(idx_updated(parts, idx_entries(parts)) =~= parts);
}

// ////////////////////////////////////////////////////////////////////////////////////////////////
// timestamp rendering

/// Renders a time point in the canonical `.idx` form `[-]HH:MM:SS:mmm`.
fn render_timestamp(t: TimePoint) -> (v: Vec<char>)
    requires
        t@ != i64::MIN,
    ensures
        v@ == render_idx_timestamp(t@),
{
    let mut out: Vec<char> = Vec::new();
    if t.is_negative() {
        out.push('-');
    }
    let a = t.abs();
    let h: i64 = a.hours();
    let mut piece = render_u64_pad(h as u64, 2);
    out.append(&mut piece);
    out.push(':');
    let mut piece = render_u64_pad(t.mins_comp() as u64, 2);
    out.append(&mut piece);
    out.push(':');
    let mut piece = render_u64_pad(t.secs_comp() as u64, 2);
    out.append(&mut piece);
    out.push(':');
    let mut piece = render_u64_pad(t.msecs_comp() as u64, 3);
    out.append(&mut piece);
    assert(out@ =~= render_idx_timestamp(t@));
    out
}

// ////////////////////////////////////////////////////////////////////////////////////////////////
// timestamp parsing

/// A valid component group of an `.idx` timestamp: nonempty, all digits, and
/// a value an `i64` can hold.
pub open spec fn valid_idx_group(g: Seq<char>) -> bool {
    g.len() > 0 && all_digits(g) && dec_val(g) <= i64::MAX
}

/// The value of an `.idx` timestamp string `H:M:S:ms`, if it is one (with the
/// folded total small enough that the synthesized end of a final entry still
/// fits).
pub open spec fn spec_parse_idx_timestamp(s: Seq<char>) -> Option<int> {
    let gs = spec_split_char(s, ':');
    if gs.len() == 4 && valid_idx_group(gs[0]) && valid_idx_group(gs[1]) && valid_idx_group(gs[2])
        && valid_idx_group(gs[3]) {
        let total = from_components_total(
            dec_val(gs[0]),
            dec_val(gs[1]),
            dec_val(gs[2]),
            dec_val(gs[3]),
        );
        if total <= i64::MAX - LAST_ENTRY_SHOW_MSECS {
            Some(total)
        } else {
            None
        }
    } else {
        None
    }
}

/// Parses one timestamp component group.
fn parse_idx_group(g: &Vec<char>) -> (r: Option<i64>)
    ensures
        match r {
            Some(v) => valid_idx_group(g@) && v as int == dec_val(g@) && 0 <= v,
            None => !valid_idx_group(g@),
        },
{
    let n = g.len();
    proof {
        assert(g@.subrange(0, g@.len() as int) =~= g@);
    }
    match parse_digits_u64(g, 0, n) {
        None => None,
        Some(v) => {
            if v <= 9223372036854775807u64 {
                proof {
                    crate::formats::common::lemma_dec_val_nonneg(g@);
                }
                Some(v as i64)
            } else {
                None
            }
        },
    }
}

/// Parses the characters `s[from..to]` as an `.idx` timestamp like
/// `00:41:36:961`.
fn parse_idx_timestamp(s: &Vec<char>, from: usize, to: usize) -> (r: Option<TimePoint>)
    requires
        from <= to <= s@.len(),
    ensures
        match r {
            Some(t) => spec_parse_idx_timestamp(s@.subrange(from as int, to as int)) == Some(t@)
                && 0 <= t@ <= i64::MAX - LAST_ENTRY_SHOW_MSECS,
            None => spec_parse_idx_timestamp(s@.subrange(from as int, to as int)) is None,
        },
{
    let gs = split_char(s, from, to, ':');
    let ghost specgs = spec_split_char(s@.subrange(from as int, to as int), ':');
    if gs.len() != 4 {
        return None;
    }
    proof {
        assert(gs@[0]@ == specgs[0] && gs@[1]@ == specgs[1] && gs@[2]@ == specgs[2] && gs@[3]@
            == specgs[3]);
    }
    let h = match parse_idx_group(&gs[0]) {
        Some(v) => v,
        None => {
            return None;
        },
    };
    let m = match parse_idx_group(&gs[1]) {
        Some(v) => v,
        None => {
            return None;
        },
    };
    let sec = match parse_idx_group(&gs[2]) {
        Some(v) => v,
        None => {
            return None;
        },
    };
    let ms = match parse_idx_group(&gs[3]) {
        Some(v) => v,
        None => {
            return None;
        },
    };
    let total: i128 = ms as i128 + 1000 * (sec as i128 + 60 * (m as i128 + 60 * (h as i128)));
    if total > (i64::MAX - LAST_ENTRY_SHOW_MSECS) as i128 {
        return None;
    }
    Some(TimePoint::from_msecs(total as i64))
}

// ////////////////////////////////////////////////////////////////////////////////////////////////
// the timestamp round-trip law

/// Splitting a digit group followed by a colon peels the group off.
proof fn lemma_split_colon_group(g: Seq<char>, rest: Seq<char>)
    requires
        all_digits(g),
    ensures
        spec_split_char(g + seq![':'] + rest, ':') == seq![g] + spec_split_char(rest, ':'),
{
    let s = g + seq![':'] + rest;
    assert forall|j: int| 0 <= j < g.len() implies s[j] != ':' by {
        assert(s[j] == g[j]);
        assert(is_digit(g[j]));
    }
    assert(s[g.len() as int] == ':');
    crate::formats::common::lemma_find_char_at(s, ':', g.len() as int);
    assert(s.take(g.len() as int) =~= g);
    assert(s.skip(g.len() as int + 1) =~= rest);
}

/// A digit group alone is one whole piece.
proof fn lemma_split_colon_last(g: Seq<char>)
    requires
        all_digits(g),
    ensures
        spec_split_char(g, ':') == seq![g],
{
    assert forall|j: int| 0 <= j < g.len() implies g[j] != ':' by {
        assert(is_digit(g[j]));
    }
    crate::formats::common::lemma_find_char_absent(g, ':');
}

/// Parsing the canonical rendering of a parsed timestamp yields the
/// timestamp back: the `.idx` half of the serialize/parse round-trip on the
/// semantic parts (every timestamp a parsed file can hold is in range).
#[verifier::rlimit(100)]
#[verifier::spinoff_prover]
pub proof fn lemma_idx_timestamp_roundtrip(t: int)
    requires
        0 <= t <= i64::MAX - LAST_ENTRY_SHOW_MSECS,
    ensures
        spec_parse_idx_timestamp(render_idx_timestamp(t)) == Some(t),
{
    let g1 = dec_str_pad(t / 3600000, 2);
    let g2 = dec_str_pad((t / 60000) % 60, 2);
    let g3 = dec_str_pad((t / 1000) % 60, 2);
    let g4 = dec_str_pad(t % 1000, 3);
    let h = t / 3600000;
    let m = (t / 60000) % 60;
    let sec = (t / 1000) % 60;
    let ms = t % 1000;
    assert(h >= 0 && h <= t) by {
        vstd::arithmetic::div_mod::lemma_div_nonincreasing(t, 3600000);
        vstd::arithmetic::div_mod::lemma_div_pos_is_pos(t, 3600000);
    }
    assert(0 <= m < 60 && 0 <= sec < 60 && 0 <= ms < 1000) by {
        vstd::arithmetic::div_mod::lemma_mod_bound(t / 60000, 60);
        vstd::arithmetic::div_mod::lemma_mod_bound(t / 1000, 60);
        vstd::arithmetic::div_mod::lemma_mod_bound(t, 1000);
    }
    crate::formats::common::lemma_dec_str_pad_val(h, 2);
    crate::formats::common::lemma_dec_str_pad_val(m, 2);
    crate::formats::common::lemma_dec_str_pad_val(sec, 2);
    crate::formats::common::lemma_dec_str_pad_val(ms, 3);
    let s = render_idx_timestamp(t);
    assert(s =~= g1 + seq![':'] + (g2 + seq![':'] + (g3 + seq![':'] + g4)));
    lemma_split_colon_group(g1, g2 + seq![':'] + (g3 + seq![':'] + g4));
    lemma_split_colon_group(g2, g3 + seq![':'] + g4);
    lemma_split_colon_group(g3, g4);
    lemma_split_colon_last(g4);
    let gs = spec_split_char(s, ':');
    assert(gs =~= seq![g1, g2, g3, g4]) by {
        assert(spec_split_char(g2 + seq![':'] + (g3 + seq![':'] + g4), ':') =~= seq![g2, g3, g4]);
    }
    assert(gs[0] == g1 && gs[1] == g2 && gs[2] == g3 && gs[3] == g4);
    crate::timetypes::lemma_time_components(t);
    assert(valid_idx_group(g1) && valid_idx_group(g2) && valid_idx_group(g3) && valid_idx_group(
        g4,
    ));
    assert(from_components_total(dec_val(gs[0]), dec_val(gs[1]), dec_val(gs[2]), dec_val(gs[3]))
        == t);
}

// ////////////////////////////////////////////////////////////////////////////////////////////////
// line parsing

/// Is `c` a digit or a colon (the characters an `.idx` timestamp consists of)?
pub open spec fn is_dc(c: char) -> bool {
    is_digit(c) || c == ':'
}

/// The length of the longest digit-or-colon prefix of `s`.
pub open spec fn dc_run_len(s: Seq<char>) -> nat
    decreases s.len(),
{
    if s.len() > 0 && is_dc(s[0]) {
        1 + dc_run_len(s.drop_first())
    } else {
        0
    }
}

/// A maximal digit-or-colon run from the start has exactly length `dc_run_len`.
proof fn lemma_dc_run(s: Seq<char>, i: int)
    requires
        0 <= i <= s.len(),
        forall|j: int| 0 <= j < i ==> is_dc(#[trigger] s[j]),
        i < s.len() ==> !is_dc(s[i]),
    ensures
        dc_run_len(s) == i,
    decreases s.len(),
{
    if s.len() > 0 && is_dc(s[0]) {
        assert(forall|j: int| 0 <= j < i - 1 ==> s.drop_first()[j] == s[j + 1]);
        assert(i >= 1);
        if i - 1 < s.drop_first().len() {
            assert(s.drop_first()[i - 1] == s[i]);
        }
        lemma_dc_run(s.drop_first(), i - 1);
    }
}

/// The end of the digit-or-colon run beginning at `from`.
fn dc_run_end(s: &Vec<char>, from: usize) -> (e: usize)
    requires
        from <= s@.len(),
    ensures
        from <= e <= s@.len(),
        e - from == dc_run_len(s@.skip(from as int)),
{
    let n = s.len();
    let mut i: usize = from;
    while i < n && (digit_check(s[i]) || s[i] == ':')
        invariant
            from <= i <= n == s@.len(),
            forall|j: int| from <= j < i ==> is_dc(#[trigger] s@[j]),
        decreases n - i,
    {
        i += 1;
    }
    proof {
        let sub = s@.skip(from as int);
        assert(forall|j: int| 0 <= j < sub.len() ==> #[trigger] sub[j] == s@[from + j]);
        lemma_dc_run(sub, i - from);
    }
    i
}

/// The parts of one `.idx` line: either a single filler, or the decomposition
/// of a `timestamp:` field line. `None` is a parse failure.
pub open spec fn spec_parse_idx_line(line: Seq<char>) -> Option<Seq<IdxPartView>> {
    let a = ws_prefix_end(line) as int;
    if !(a + 10 <= line.len() && line.subrange(a, a + 10) == "timestamp:"@) {
        Some(seq![IdxPartView::Filler(line)])
    } else {
        let b = a + 10 + ws_prefix_end(line.skip(a + 10));
        let c = b + dc_run_len(line.skip(b));
        match spec_parse_idx_timestamp(line.subrange(b, c)) {
            Some(t) => Some(
                seq![
                    IdxPartView::Filler(line.take(a)),
                    IdxPartView::Filler(line.subrange(a, a + 10)),
                    IdxPartView::Filler(line.subrange(a + 10, b)),
                    IdxPartView::Timestamp(t),
                    IdxPartView::Filler(line.skip(c)),
                ],
            ),
            None => None,
        }
    }
}

/// Parses one `.idx` line into file parts.
#[verifier::rlimit(30)]
fn parse_idx_line(line: &Vec<char>) -> (r: Option<Vec<IdxFilePart>>)
    ensures
        match r {
            Some(ps) => spec_parse_idx_line(line@) == Some(part_views(ps@)) && idx_wf(
                part_views(ps@),
            ),
            None => spec_parse_idx_line(line@) is None,
        },
{
    let n = line.len();
    let a = ws_run_end(line, 0, n);
    proof {
        assert(line@.subrange(0, n as int) =~= line@);
        assert forall|j: int| 0 <= j < a implies is_ws(#[trigger] line@[j]) by {
            assert(line@.subrange(0, a as int)[j] == line@[j]);
        }
        lemma_ws_prefix(line@, a as int);
    }
    if !match_lit(line, a, "timestamp:") {
        proof {
            reveal_strlit("timestamp:");
        }
        let ghost ps = seq![IdxPartView::Filler(line@)];
        let mut out: Vec<IdxFilePart> = Vec::new();
        out.push(IdxFilePart::Filler(dup_chars(line)));
        proof {
            assert(part_views(out@) =~= ps);
            lemma_idx_ts_single(IdxPartView::Filler(line@));
        }
        return Some(out);
    }
    proof {
        reveal_strlit("timestamp:");
    }
    let b0 = a + 10;
    let b = ws_run_end(line, b0, n);
    proof {
        let tail = line@.skip(b0 as int);
        assert(forall|j: int| 0 <= j < tail.len() ==> #[trigger] tail[j] == line@[b0 + j]);
        assert forall|j: int| 0 <= j < b - b0 implies is_ws(#[trigger] tail[j]) by {
            assert(line@.subrange(b0 as int, b as int)[j] == line@[b0 + j]);
        }
        if (b as int) - b0 < tail.len() {
            assert(tail[b - b0] == line@[b as int]);
        }
        lemma_ws_prefix(tail, b - b0);
    }
    let c = dc_run_end(line, b);
    match parse_idx_timestamp(line, b, c) {
        Some(t) => {
            let mut out: Vec<IdxFilePart> = Vec::new();
            out.push(IdxFilePart::Filler(subvec(line, 0, a)));
            out.push(IdxFilePart::Filler(subvec(line, a, b0)));
            out.push(IdxFilePart::Filler(subvec(line, b0, b)));
            out.push(IdxFilePart::Timestamp(t));
            out.push(IdxFilePart::Filler(subvec(line, c, n)));
            proof {
                let ps = spec_parse_idx_line(line@)->Some_0;
                assert(line@.take(a as int) =~= line@.subrange(0, a as int));
                assert(line@.skip(c as int) =~= line@.subrange(c as int, n as int));
                assert(part_views(out@) =~= ps);
                lemma_idx_line_ts(ps, t@);
            }
            Some(out)
        },
        None => None,
    }
}

/// The timestamps of a one-part sequence.
proof fn lemma_idx_ts_single(p: IdxPartView)
    ensures
        idx_timestamps(seq![p]) =~= match p {
            IdxPartView::Timestamp(t) => seq![t],
            IdxPartView::Filler(_) => Seq::<int>::empty(),
        },
{
    let s = seq![p];
    assert(s.len() == 1);
    assert(s.last() == p);
    assert(s.drop_last() =~= Seq::<IdxPartView>::empty());
    assert(idx_timestamps(s.drop_last()) =~= Seq::<int>::empty());
}

/// The timestamps of a parsed timestamp line are just the one value.
proof fn lemma_idx_line_ts(ps: Seq<IdxPartView>, t: int)
    requires
        ps.len() == 5,
        ps[0] is Filler,
        ps[1] is Filler,
        ps[2] is Filler,
        ps[3] == IdxPartView::Timestamp(t),
        ps[4] is Filler,
        i64::MIN < t <= i64::MAX - LAST_ENTRY_SHOW_MSECS,
    ensures
        idx_timestamps(ps) =~= seq![t],
        idx_wf(ps),
{
    lemma_idx_ts_single(ps[0]);
    lemma_idx_ts_single(ps[1]);
    lemma_idx_ts_single(ps[2]);
    lemma_idx_ts_single(ps[3]);
    lemma_idx_ts_single(ps[4]);
    let a = seq![ps[0]] + seq![ps[1]];
    let b = a + seq![ps[2]];
    let c = b + seq![ps[3]];
    lemma_idx_timestamps_concat(seq![ps[0]], seq![ps[1]]);
    lemma_idx_timestamps_concat(a, seq![ps[2]]);
    lemma_idx_timestamps_concat(b, seq![ps[3]]);
    lemma_idx_timestamps_concat(c, seq![ps[4]]);
    assert(c + seq![ps[4]] =~= ps);
    assert(idx_timestamps(ps) =~= seq![t]);
}

/// Timestamp bounds hold of a concatenation if they hold of both halves.
proof fn lemma_idx_wf_concat(a: Seq<IdxPartView>, b: Seq<IdxPartView>)
    requires
        idx_wf(a),
        idx_wf(b),
    ensures
        idx_wf(a + b),
{
    lemma_idx_timestamps_concat(a, b);
    assert forall|k: int|
        0 <= k < idx_timestamps(a + b).len() implies i64::MIN < #[trigger] idx_timestamps(a + b)[k]
        <= i64::MAX - LAST_ENTRY_SHOW_MSECS by {
        if k < idx_timestamps(a).len() {
            assert(idx_timestamps(a + b)[k] == idx_timestamps(a)[k]);
        } else {
            assert(idx_timestamps(a + b)[k] == idx_timestamps(b)[k - idx_timestamps(a).len()]);
        }
    }
}

// ////////////////////////////////////////////////////////////////////////////////////////////////
// whole-file parsing

/// The result of parsing a list of lines (with their terminators), starting
/// at line number `base`; an error carries the 0-based number of the line
/// that failed.
pub open spec fn spec_parse_idx_lines(lines: Seq<(Seq<char>, Seq<char>)>, base: int) -> Result<
    Seq<IdxPartView>,
    int,
>
    decreases lines.len(),
{
    if lines.len() == 0 {
        Ok(Seq::empty())
    } else {
        match spec_parse_idx_line(lines[0].0) {
            None => Err(base),
            Some(ps) => match spec_parse_idx_lines(lines.drop_first(), base + 1) {
                Err(e) => Err(e),
                Ok(rest) => Ok(ps + seq![IdxPartView::Filler(lines[0].1)] + rest),
            },
        }
    }
}

/// The parts of a whole `.idx` text (before filler merging): a filler for the
/// byte order mark, then the parts of every line followed by its terminator.
/// An error carries the 0-based number of the failing line.
pub open spec fn spec_parse_idx(s: Seq<char>) -> Result<Seq<IdxPartView>, int> {
    let k = spec_bom_skip(s);
    match spec_parse_idx_lines(spec_split_lines(s.skip(k)), 0) {
        Err(e) => Err(e),
        Ok(ps) => Ok(seq![IdxPartView::Filler(s.take(k))] + ps),
    }
}

/// Appending an `Ok` prefix to a parse result.
pub open spec fn idx_compose(a: Seq<IdxPartView>, r: Result<Seq<IdxPartView>, int>) -> Result<
    Seq<IdxPartView>,
    int,
> {
    match r {
        Ok(t) => Ok(a + t),
        Err(e) => Err(e),
    }
}

// ////////////////////////////////////////////////////////////////////////////////////////////////
// the file

#[derive(Debug, Clone)]
/// Represents a reconstructable `.idx` file.
///
/// All (for this project) unimportant information is saved into
/// `IdxFilePart::Filler(...)`, so a timespan-altered file still has the same
/// meta-information.
pub struct IdxFile {
    v: Vec<IdxFilePart>,
}

impl View for IdxFile {
    type V = Seq<IdxPartView>;

    closed spec fn view(&self) -> Seq<IdxPartView> {
        part_views(self.v@)
    }
}

impl IdxFile {
    /// Wraps parts as a file, merging consecutive fillers.
    fn new(v: Vec<IdxFilePart>) -> (r: IdxFile)
        ensures
            r@ == merged_parts::<IdxFilePart>(part_views(v@)),
    {
        IdxFile { v: dedup_string_parts(v) }
    }

    /// Parse a `.idx` subtitle string to an `IdxFile`.
    pub fn parse(s: &str) -> (r: Result<IdxFile, Error>)
        ensures
            r is Ok <==> spec_parse_idx(s@) is Ok,
            r is Ok ==> r->Ok_0@ == merged_parts::<IdxFilePart>(spec_parse_idx(s@)->Ok_0)
                && r->Ok_0.wf(),
            r is Err ==> r->Err_0@ == (ErrorKind::ParsingError {
                line: spec_parse_idx(s@)->Err_0 as usize,
                expected: ExpectedToken::Timestamp,
            }),
    {
        let chars = str_to_chars(s);
        let n = chars.len();
        let k = bom_skip(&chars);
        let mut parts: Vec<IdxFilePart> = Vec::new();
        parts.push(IdxFilePart::Filler(subvec(&chars, 0, k)));
        let rest = subvec(&chars, k, n);
        proof {
            assert(rest@ =~= s@.skip(spec_bom_skip(s@)));
        }
        let lines = get_lines_chars(&rest);
        let ghost lvs = spec_split_lines(s@.skip(spec_bom_skip(s@)));
        let nl = lines.len();
        let mut li: usize = 0;
        proof {
            assert(lvs.skip(0) =~= lvs);
            assert(part_views(parts@) =~= seq![IdxPartView::Filler(s@.take(spec_bom_skip(s@)))]);
            lemma_idx_ts_single(IdxPartView::Filler(s@.take(spec_bom_skip(s@))));
        }
        while li < nl
            invariant
                li <= nl,
                nl == lvs.len(),
                line_views(lines@) == lvs,
                spec_parse_idx(s@) == idx_compose(
                    part_views(parts@),
                    spec_parse_idx_lines(lvs.skip(li as int), li as int),
                ),
                idx_wf(part_views(parts@)),
            decreases nl - li,
        {
            let pair = &lines[li];
            let ghost acc = part_views(parts@);
            proof {
                assert(lvs.skip(li as int)[0] == lvs[li as int]);
                assert(lvs[li as int] == (pair.0@, pair.1@));
                assert(lvs.skip(li as int).drop_first() =~= lvs.skip(li + 1));
            }
            match parse_idx_line(&pair.0) {
                None => {
                    proof {
                        assert(spec_parse_idx_lines(lvs.skip(li as int), li as int) == Err::<
                            Seq<IdxPartView>,
                            int,
                        >(li as int));
                    }
                    return Err(Error::from_kind(ErrorKind::ParsingError {
                        line: li,
                        expected: ExpectedToken::Timestamp,
                    }));
                },
                Some(mut ps) => {
                    let ghost psv = part_views(ps@);
                    parts.append(&mut ps);
                    parts.push(IdxFilePart::Filler(dup_chars(&pair.1)));
                    proof {
                        let termp = IdxPartView::Filler(pair.1@);
                        assert(part_views(parts@) =~= acc + psv + seq![termp]);
                        lemma_idx_ts_single(termp);
                        lemma_idx_wf_concat(acc, psv);
                        lemma_idx_wf_concat(acc + psv, seq![termp]);
                        let tail = spec_parse_idx_lines(lvs.skip(li + 1), li + 1);
                        match tail {
                            Err(e) => {
                                assert(spec_parse_idx(s@) == idx_compose(
                                    part_views(parts@),
                                    tail,
                                ));
                            },
                            Ok(ts) => {
                                assert(acc + (psv + seq![termp] + ts) =~= (acc + psv + seq![termp])
                                    + ts);
                                assert(spec_parse_idx(s@) == idx_compose(
                                    part_views(parts@),
                                    tail,
                                ));
                            },
                        }
                    }
                },
            }
            li += 1;
        }
        proof {
            assert(lvs.skip(nl as int) =~= Seq::<(Seq<char>, Seq<char>)>::empty());
            assert(part_views(parts@) + Seq::<IdxPartView>::empty() =~= part_views(parts@));
            assert(spec_parse_idx(s@) == Ok::<Seq<IdxPartView>, int>(part_views(parts@)));
        }
        let ghost finalacc = part_views(parts@);
        let file = IdxFile::new(parts);
        proof {
            lemma_idx_timestamps_merged(finalacc);
        }
        Ok(file)
    }
}

impl SubtitleFile for IdxFile {
    open spec fn wf(&self) -> bool {
        idx_wf(self@)
    }

    open spec fn spec_entries(&self) -> Seq<EntryView> {
        idx_entries(self@)
    }

    open spec fn supports_update(&self) -> bool {
        true
    }

    open spec fn accepts(&self, new: Seq<EntryView>) -> bool {
        forall|k: int|
            0 <= k < new.len() ==> i64::MIN < (#[trigger] new[k]).start <= i64::MAX
                - LAST_ENTRY_SHOW_MSECS
    }

    open spec fn spec_updated(&self, new: Seq<EntryView>) -> Seq<IdxPartView> {
        idx_updated(self@, new)
    }

    open spec fn spec_data(&self) -> Seq<u8> {
        vstd::utf8::encode_utf8(idx_render(self@))
    }

    fn get_subtitle_entries(&self) -> (r: Result<Vec<SubtitleEntry>, Error>) {
        let ghost pv = self@;
        let mut tps: Vec<TimePoint> = Vec::new();
        let mut i: usize = 0;
        let n = self.v.len();
        proof {
            assert(pv.take(0) =~= Seq::<IdxPartView>::empty());
            assert(tps@.map(|j: int, t: TimePoint| t@) =~= idx_timestamps(pv.take(0)));
        }
        while i < n
            invariant
                i <= n,
                n == self.v@.len(),
                pv == part_views(self.v@),
                tps@.map(|j: int, t: TimePoint| t@) == idx_timestamps(pv.take(i as int)),
            decreases n - i,
        {
            let ghost prev = tps@;
            proof {
                assert(pv.take(i + 1).drop_last() =~= pv.take(i as int));
                assert(pv.take(i + 1).last() == pv[i as int]);
                assert(pv[i as int] == self.v@[i as int]@);
            }
            match &self.v[i] {
                IdxFilePart::Timestamp(t) => {
                    tps.push(*t);
                    proof {
                        assert(tps@.map(|j: int, t: TimePoint| t@) =~= prev.map(
                            |j: int, t: TimePoint| t@).push(t@));
                        assert(tps@.map(|j: int, t: TimePoint| t@) =~= idx_timestamps(
                            pv.take(i + 1)));
                    }
                },
                IdxFilePart::Filler(_) => {
                    proof {
                        assert(tps@.map(|j: int, t: TimePoint| t@) =~= idx_timestamps(
                            pv.take(i + 1)));
                    }
                },
            }
            i += 1;
        }
        proof {
            assert(pv.take(n as int) =~= pv);
        }
        let ghost ts = idx_timestamps(pv);
        let m = tps.len();
        let mut out: Vec<SubtitleEntry> = Vec::new();
        let mut j: usize = 0;
        proof {
            assert(entry_views(out@) =~= idx_entries(pv).take(0));
        }
        while j < m
            invariant
                j <= m,
                m == tps@.len(),
                pv == self@,
                idx_wf(pv),
                ts == idx_timestamps(pv),
                tps@.map(|j: int, t: TimePoint| t@) == ts,
                entry_views(out@) == idx_entries(pv).take(j as int),
            decreases m - j,
        {
            let ghost prev = out@;
            let start = tps[j];
            proof {
                assert(tps@.map(|j: int, t: TimePoint| t@)[j as int] == start@);
            }
            let end: TimePoint = if j + 1 < m {
                proof {
                    assert(tps@.map(|j: int, t: TimePoint| t@)[j + 1] == tps@[j + 1]@);
                }
                tps[j + 1]
            } else {
                start.add_delta(crate::timetypes::TimeDelta::from_msecs(LAST_ENTRY_SHOW_MSECS))
            };
            out.push(SubtitleEntry::from_span(TimeSpan::new(start, end)));
            proof {
                assert(entry_views(out@) =~= entry_views(prev).push(
                    EntryView { start: start@, end: end@, line: None }));
                assert(idx_entries(pv)[j as int] == EntryView {
                    start: start@,
                    end: end@,
                    line: None,
                });
                assert(entry_views(out@) =~= idx_entries(pv).take(j + 1));
            }
            j += 1;
        }
        proof {
            assert(idx_entries(pv).take(m as int) =~= idx_entries(pv));
        }
        Ok(out)
    }

    fn update_subtitle_entries(&mut self, i: &[SubtitleEntry]) -> (r: Result<(), Error>) {
        let ghost pv = self@;
        let ghost newvs = entry_views(i@);
        let mut out: Vec<IdxFilePart> = Vec::new();
        let mut c: usize = 0;
        let mut k: usize = 0;
        let n = self.v.len();
        proof {
            assert(part_views(out@) =~= idx_updated(pv, newvs).take(0));
            assert(pv.take(0) =~= Seq::<IdxPartView>::empty());
        }
        while k < n
            invariant
                k <= n,
                n == self.v@.len(),
                pv == part_views(self.v@),
                newvs == entry_views(i@),
                newvs.len() == idx_entries(pv).len(),
                c as int == idx_timestamps(pv.take(k as int)).len(),
                part_views(out@) == idx_updated(pv, newvs).take(k as int),
            decreases n - k,
        {
            let ghost prev = out@;
            proof {
                assert(pv.take(k + 1).drop_last() =~= pv.take(k as int));
                assert(pv.take(k + 1).last() == pv[k as int]);
                assert(pv[k as int] == self.v@[k as int]@);
                assert(pv.take(k + 1) =~= pv.take(k as int) + seq![pv[k as int]]);
                lemma_idx_timestamps_concat(pv.take(k as int), seq![pv[k as int]]);
                lemma_idx_ts_single(pv[k as int]);
            }
            match &self.v[k] {
                IdxFilePart::Filler(f) => {
                    out.push(IdxFilePart::Filler(dup_chars(f)));
                    proof {
                        assert(idx_updated(pv, newvs)[k as int] == IdxPartView::Filler(
                            pv[k as int]->Filler_0));
                        assert(part_views(out@) =~= part_views(prev).push(
                            IdxPartView::Filler(pv[k as int]->Filler_0)));
                        assert(part_views(out@) =~= idx_updated(pv, newvs).take(k + 1));
                    }
                },
                IdxFilePart::Timestamp(_) => {
                    proof {
                        lemma_idx_timestamp_index(pv, k as int);
                    }
                    let e = &i[c];
                    out.push(IdxFilePart::Timestamp(e.timespan.start));
                    c += 1;
                    proof {
                        assert(newvs[c - 1].start == e.timespan.start@);
                        assert(idx_updated(pv, newvs)[k as int] == IdxPartView::Timestamp(
                            newvs[c - 1].start));
                        assert(part_views(out@) =~= part_views(prev).push(
                            IdxPartView::Timestamp(newvs[c - 1].start)));
                        assert(part_views(out@) =~= idx_updated(pv, newvs).take(k + 1));
                    }
                },
            }
            k += 1;
        }
        proof {
            assert(idx_updated(pv, newvs).take(n as int) =~= idx_updated(pv, newvs));
        }
        self.v = out;
        proof {
            lemma_idx_updated_ts(pv, newvs);
            assert forall|q: int|
                0 <= q < idx_timestamps(self@).len() implies i64::MIN < #[trigger] idx_timestamps(
                self@)[q] <= i64::MAX - LAST_ENTRY_SHOW_MSECS by {
                assert(idx_timestamps(self@)[q] == newvs[q].start);
            }
        }
        Ok(())
    }

    fn to_data(&self) -> (r: Result<Vec<u8>, Error>) {
        let ghost pv = self@;
        let mut out: Vec<char> = Vec::new();
        let mut k: usize = 0;
        let n = self.v.len();
        proof {
            assert(out@ =~= idx_render(pv.take(0)));
        }
        while k < n
            invariant
                k <= n,
                n == self.v@.len(),
                pv == part_views(self.v@),
                idx_wf(pv),
                out@ == idx_render(pv.take(k as int)),
            decreases n - k,
        {
            let ghost prev = out@;
            proof {
                assert(pv.take(k + 1).drop_last() =~= pv.take(k as int));
                assert(pv.take(k + 1).last() == pv[k as int]);
                assert(pv[k as int] == self.v@[k as int]@);
            }
            match &self.v[k] {
                IdxFilePart::Filler(f) => {
                    extend_chars(&mut out, f);
                },
                IdxFilePart::Timestamp(t) => {
                    proof {
                        lemma_idx_timestamp_index(pv, k as int);
                    }
                    let mut piece = render_timestamp(*t);
                    out.append(&mut piece);
                },
            }
            proof {
                assert(out@ =~= idx_render(pv.take(k + 1)));
            }
            k += 1;
        }
        proof {
            assert(pv.take(n as int) =~= pv);
        }
        let s = chars_to_string(&out);
        Ok(string_to_bytes(&s))
    }
}

/// The timestamps after an update are exactly the new start times.
pub proof fn lemma_idx_updated_ts(parts: Seq<IdxPartView>, new: Seq<EntryView>)
    ensures
        idx_timestamps(idx_updated(parts, new)) =~= Seq::new(
            idx_timestamps(parts).len(),
            |q: int| new[q].start,
        ),
    decreases parts.len(),
{
    if parts.len() == 0 {
        assert(idx_updated(parts, new) =~= Seq::<IdxPartView>::empty());
    } else {
        lemma_idx_updated_ts(parts.drop_last(), new);
        let u = idx_updated(parts, new);
        let n = parts.len() as int;
        assert(u.drop_last() =~= idx_updated(parts.drop_last(), new)) by {
            assert forall|q: int| 0 <= q < n - 1 implies u[q] == idx_updated(
                parts.drop_last(),
                new,
            )[q] by {
                assert(parts.drop_last().take(q) =~= parts.take(q));
                assert(parts.drop_last()[q] == parts[q]);
            }
        }
        assert(parts =~= parts.take(n - 1) + seq![parts[n - 1]]);
        lemma_idx_timestamps_concat(parts.take(n - 1), seq![parts[n - 1]]);
        lemma_idx_ts_single(parts[n - 1]);
        assert(parts.take(n - 1) =~= parts.drop_last());
        assert(u.last() == match parts[n - 1] {
            IdxPartView::Filler(t) => IdxPartView::Filler(t),
            IdxPartView::Timestamp(_) => IdxPartView::Timestamp(
                new[idx_timestamps(parts.take(n - 1)).len() as int].start,
            ),
        });
        assert(idx_timestamps(u) == idx_timestamps(u.drop_last()) + (match u.last() {
            IdxPartView::Timestamp(t) => seq![t],
            IdxPartView::Filler(_) => Seq::<int>::empty(),
        }));
    }
}

} // verus!
