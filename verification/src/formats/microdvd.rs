//! The `.sub` (`MicroDVD`) format: every line is
//! `{start_frame}{end_frame}{tag}...text1|{tag}...text2`, frame-timed with a
//! configurable frames-per-second value. Serialization normalizes the file:
//! lines are grouped by identical frame spans, and tags shared by a whole
//! group are hoisted to container scope (an uppercase first letter).

use crate::errors::{Error, ErrorKind, ExpectedToken};
use crate::formats::common::{
    bom_skip, chars_to_string, dup_chars, extend_chars, find_char, find_char_from, get_lines_chars,
    int_str, lemma_find_char, line_views, num_end, parse_i64_chars, render_i64, scan_num,
    spec_bom_skip, spec_number_i64, spec_split_lines, str_to_chars, string_to_bytes, subvec,
};
use crate::timetypes::{TimePoint, TimeSpan};
use crate::{entry_views, EntryView, SubtitleEntry, SubtitleFile};
use vstd::prelude::*;

verus! {

/// The largest accepted absolute frame number. Larger values are rejected at
/// parse time so that every frame/millisecond conversion stays exact.
pub const FRAME_LIMIT: i64 = 1000000000000;

/// The largest accepted frame rate, in thousandths of frames per second.
pub const MAX_MILLI_FPS: u32 = 1000000;

/// A frame rate in thousandths of frames per second (so common rates like
/// 23.976 fps are exact). Bounded so that conversions between frames and
/// milliseconds are exact and invertible.
#[derive(Clone, Copy, Debug, PartialEq, Eq, Structural)]
pub struct FramesPerSecond {
    milli_fps: u32,
}

impl View for FramesPerSecond {
    type V = int;

    closed spec fn view(&self) -> int {
        self.milli_fps as int
    }
}

impl FramesPerSecond {
    /// A whole frame rate like 25 fps.
    pub fn new(fps: u32) -> (r: FramesPerSecond)
        requires
            1 <= fps <= 1000,
        ensures
            r@ == fps * 1000,
    {
        FramesPerSecond { milli_fps: fps * 1000 }
    }

    /// A frame rate in thousandths of frames per second (23976 is 23.976 fps).
    pub fn from_milli_fps(m: u32) -> (r: FramesPerSecond)
        requires
            1 <= m <= MAX_MILLI_FPS,
        ensures
            r@ == m,
    {
        FramesPerSecond { milli_fps: m }
    }

    /// The rate in thousandths of frames per second.
    pub fn milli_fps(&self) -> (r: u32)
        ensures
            r as int == self@,
    {
        self.milli_fps
    }
}

/// Division rounding to the nearest integer, halves up (`b` positive).
pub open spec fn round_div(a: int, b: int) -> int {
    (2 * a + b) / (2 * b)
}

/// The millisecond timestamp of a frame number.
pub open spec fn ms_of_frame(f: int, m: int) -> int {
    round_div(f * 1000000, m)
}

/// The frame number of a millisecond timestamp.
pub open spec fn frame_of_ms(ms: int, m: int) -> int {
    round_div(ms * m, 1000000)
}

/// The lower-case form of an ASCII letter (other characters unchanged).
pub open spec fn lower_char(c: char) -> char {
    if false {
        c
    } else if c == 'A' {
        'a'
    } else if c == 'B' {
        'b'
    } else if c == 'C' {
        'c'
    } else if c == 'D' {
        'd'
    } else if c == 'E' {
        'e'
    } else if c == 'F' {
        'f'
    } else if c == 'G' {
        'g'
    } else if c == 'H' {
        'h'
    } else if c == 'I' {
        'i'
    } else if c == 'J' {
        'j'
    } else if c == 'K' {
        'k'
    } else if c == 'L' {
        'l'
    } else if c == 'M' {
        'm'
    } else if c == 'N' {
        'n'
    } else if c == 'O' {
        'o'
    } else if c == 'P' {
        'p'
    } else if c == 'Q' {
        'q'
    } else if c == 'R' {
        'r'
    } else if c == 'S' {
        's'
    } else if c == 'T' {
        't'
    } else if c == 'U' {
        'u'
    } else if c == 'V' {
        'v'
    } else if c == 'W' {
        'w'
    } else if c == 'X' {
        'x'
    } else if c == 'Y' {
        'y'
    } else if c == 'Z' {
        'z'
    } else {
        c
    }
}

/// The upper-case form of an ASCII letter (other characters unchanged).
pub open spec fn upper_char(c: char) -> char {
    if false {
        c
    } else if c == 'a' {
        'A'
    } else if c == 'b' {
        'B'
    } else if c == 'c' {
        'C'
    } else if c == 'd' {
        'D'
    } else if c == 'e' {
        'E'
    } else if c == 'f' {
        'F'
    } else if c == 'g' {
        'G'
    } else if c == 'h' {
        'H'
    } else if c == 'i' {
        'I'
    } else if c == 'j' {
        'J'
    } else if c == 'k' {
        'K'
    } else if c == 'l' {
        'L'
    } else if c == 'm' {
        'M'
    } else if c == 'n' {
        'N'
    } else if c == 'o' {
        'O'
    } else if c == 'p' {
        'P'
    } else if c == 'q' {
        'Q'
    } else if c == 'r' {
        'R'
    } else if c == 's' {
        'S'
    } else if c == 't' {
        'T'
    } else if c == 'u' {
        'U'
    } else if c == 'v' {
        'V'
    } else if c == 'w' {
        'W'
    } else if c == 'x' {
        'X'
    } else if c == 'y' {
        'Y'
    } else if c == 'z' {
        'Z'
    } else {
        c
    }
}

/// Is the tag container-scope (applies to every line of its group)?
pub open spec fn is_container_tag(t: Seq<char>) -> bool {
    t.len() > 0 && 'A' <= t[0] <= 'Z'
}

/// The stored form of a tag: its first character lower-cased.
pub open spec fn lower_first(t: Seq<char>) -> Seq<char> {
    if t.len() == 0 {
        t
    } else {
        t.update(0, lower_char(t[0]))
    }
}

/// The container-scope rendering of a tag: its first character upper-cased.
pub open spec fn upper_first(t: Seq<char>) -> Seq<char> {
    if t.len() == 0 {
        t
    } else {
        t.update(0, upper_char(t[0]))
    }
}

/// Exec twin of `lower_char`.
fn lower_char_exec(c: char) -> (r: char)
    ensures
        r == lower_char(c),
{
    if false {
        c
    } else if c == 'A' {
        'a'
    } else if c == 'B' {
        'b'
    } else if c == 'C' {
        'c'
    } else if c == 'D' {
        'd'
    } else if c == 'E' {
        'e'
    } else if c == 'F' {
        'f'
    } else if c == 'G' {
        'g'
    } else if c == 'H' {
        'h'
    } else if c == 'I' {
        'i'
    } else if c == 'J' {
        'j'
    } else if c == 'K' {
        'k'
    } else if c == 'L' {
        'l'
    } else if c == 'M' {
        'm'
    } else if c == 'N' {
        'n'
    } else if c == 'O' {
        'o'
    } else if c == 'P' {
        'p'
    } else if c == 'Q' {
        'q'
    } else if c == 'R' {
        'r'
    } else if c == 'S' {
        's'
    } else if c == 'T' {
        't'
    } else if c == 'U' {
        'u'
    } else if c == 'V' {
        'v'
    } else if c == 'W' {
        'w'
    } else if c == 'X' {
        'x'
    } else if c == 'Y' {
        'y'
    } else if c == 'Z' {
        'z'
    } else {
        c
    }
}

/// Exec twin of `upper_char`.
fn upper_char_exec(c: char) -> (r: char)
    ensures
        r == upper_char(c),
{
    if false {
        c
    } else if c == 'a' {
        'A'
    } else if c == 'b' {
        'B'
    } else if c == 'c' {
        'C'
    } else if c == 'd' {
        'D'
    } else if c == 'e' {
        'E'
    } else if c == 'f' {
        'F'
    } else if c == 'g' {
        'G'
    } else if c == 'h' {
        'H'
    } else if c == 'i' {
        'I'
    } else if c == 'j' {
        'J'
    } else if c == 'k' {
        'K'
    } else if c == 'l' {
        'L'
    } else if c == 'm' {
        'M'
    } else if c == 'n' {
        'N'
    } else if c == 'o' {
        'O'
    } else if c == 'p' {
        'P'
    } else if c == 'q' {
        'Q'
    } else if c == 'r' {
        'R'
    } else if c == 's' {
        'S'
    } else if c == 't' {
        'T'
    } else if c == 'u' {
        'U'
    } else if c == 'v' {
        'V'
    } else if c == 'w' {
        'W'
    } else if c == 'x' {
        'X'
    } else if c == 'y' {
        'Y'
    } else if c == 'z' {
        'Z'
    } else {
        c
    }
}

/// Exec twin of `lower_first`.
fn lower_first_exec(t: &Vec<char>) -> (r: Vec<char>)
    ensures
        r@ == lower_first(t@),
{
    let mut r = dup_chars(t);
    if r.len() > 0 {
        let c = lower_char_exec(r[0]);
        r.set(0, c);
        assert(r@ =~= lower_first(t@));
    }
    r
}

/// Exec twin of `upper_first`.
fn upper_first_exec(t: &Vec<char>) -> (r: Vec<char>)
    ensures
        r@ == upper_first(t@),
{
    let mut r = dup_chars(t);
    if r.len() > 0 {
        let c = upper_char_exec(r[0]);
        r.set(0, c);
        assert(r@ =~= upper_first(t@));
    }
    r
}

/// Exec twin of `is_container_tag`.
fn is_container_exec(t: &Vec<char>) -> (b: bool)
    ensures
        b == is_container_tag(t@),
{
    t.len() > 0 && 'A' <= t[0] && t[0] <= 'Z'
}

/// The mathematical content of one `MicroDVD` line.
#[verifier::ext_equal]
pub struct MdvdLineView {
    /// The start frame.
    pub start: int,
    /// The end frame.
    pub end: int,
    /// The formatting tags of the line (stored with a lower-case first
    /// character), container tags of its source line included.
    pub fmts: Seq<Seq<char>>,
    /// The dialog text of the line.
    pub text: Seq<char>,
}

/// The mathematical content of a `MicroDVD` file.
#[verifier::ext_equal]
pub struct MdvdView {
    /// The frame rate, in thousandths of frames per second.
    pub milli_fps: int,
    /// The lines, in source order.
    pub lines: Seq<MdvdLineView>,
}

#[derive(Debug)]
struct MdvdLine {
    start_frame: i64,
    end_frame: i64,
    formatting: Vec<Vec<char>>,
    text: Vec<char>,
}

#[derive(Debug, Clone)]
/// Represents a reconstructable `.sub` (`MicroDVD`) file.
pub struct MdvdFile {
    fps: FramesPerSecond,
    v: Vec<MdvdLine>,
}

/// The views of a tag list.
spec fn tag_views(s: Seq<Vec<char>>) -> Seq<Seq<char>> {
    s.map(|i: int, t: Vec<char>| t@)
}

impl View for MdvdLine {
    type V = MdvdLineView;

    closed spec fn view(&self) -> MdvdLineView {
        MdvdLineView {
            start: self.start_frame as int,
            end: self.end_frame as int,
            fmts: tag_views(self.formatting@),
            text: self.text@,
        }
    }
}

/// The views of a line list.
spec fn mdvd_line_views(s: Seq<MdvdLine>) -> Seq<MdvdLineView> {
    s.map(|i: int, l: MdvdLine| l@)
}

impl View for MdvdFile {
    type V = MdvdView;

    closed spec fn view(&self) -> MdvdView {
        MdvdView { milli_fps: self.fps@, lines: mdvd_line_views(self.v@) }
    }
}

impl Clone for MdvdLine {
    fn clone(&self) -> (r: Self)
        ensures
            r@ == self@,
    {
        let mut formatting: Vec<Vec<char>> = Vec::new();
        let mut i: usize = 0;
        while i < self.formatting.len()
            invariant
                i <= self.formatting@.len(),
                tag_views(formatting@) == tag_views(self.formatting@).take(i as int),
            decreases self.formatting@.len() - i,
        {
            let ghost prev = formatting@;
            let t = dup_chars(&self.formatting[i]);
            let ghost tv = t@;
            formatting.push(t);
            i += 1;
            proof {
                assert(prev.len() == tag_views(prev).len());
                assert(formatting@[i - 1]@ == tv);
                assert(tag_views(formatting@) =~= tag_views(self.formatting@).take(i as int));
            }
        }
        proof {
            assert(tag_views(self.formatting@).take(self.formatting@.len() as int) =~= tag_views(
                self.formatting@));
        }
        MdvdLine {
            start_frame: self.start_frame,
            end_frame: self.end_frame,
            formatting,
            text: dup_chars(&self.text),
        }
    }
}

/// Bounded frame numbers, and a bounded rate.
pub open spec fn mdvd_wf(v: MdvdView) -> bool {
    &&& 0 < v.milli_fps <= MAX_MILLI_FPS
    &&& forall|i: int|
        0 <= i < v.lines.len() ==> -FRAME_LIMIT <= (#[trigger] v.lines[i]).start <= FRAME_LIMIT
            && -FRAME_LIMIT <= v.lines[i].end <= FRAME_LIMIT
}

/// The entries of a `MicroDVD` file: the frame span converted to
/// milliseconds, and the text.
pub open spec fn mdvd_entries(v: MdvdView) -> Seq<EntryView> {
    Seq::new(
        v.lines.len(),
        |i: int|
            EntryView {
                start: ms_of_frame(v.lines[i].start, v.milli_fps),
                end: ms_of_frame(v.lines[i].end, v.milli_fps),
                line: Some(v.lines[i].text),
            },
    )
}

/// The file after writing entries back: times are converted back to frames,
/// the text is replaced when present, the tags are kept.
pub open spec fn mdvd_updated(v: MdvdView, new: Seq<EntryView>) -> MdvdView {
    MdvdView {
        milli_fps: v.milli_fps,
        lines: Seq::new(
            v.lines.len(),
            |i: int|
                MdvdLineView {
                    start: frame_of_ms(new[i].start, v.milli_fps),
                    end: frame_of_ms(new[i].end, v.milli_fps),
                    fmts: v.lines[i].fmts,
                    text: match new[i].line {
                        Some(t) => t,
                        None => v.lines[i].text,
                    },
                },
        ),
    }
}

/// Rounding division, as executable code.
fn round_div_exec(a: i128, b: i128) -> (r: i128)
    requires
        0 < b <= 0x100000000000000000000000000i128,
        -0x100000000000000000000000000i128 <= a <= 0x100000000000000000000000000i128,
    ensures
        r as int == round_div(a as int, b as int),
{
    let num: i128 = 2 * a + b;
    let den: i128 = 2 * b;
    match num.checked_div_euclid(den) {
        Some(q) => q,
        None => {
            proof {
                crate::formats::microdvd::lemma_div_bounds(num as int, den as int);
                assert(false);
            }
            0
        },
    }
}

/// The Euclidean quotient lies between the bounds of its arguments.
pub proof fn lemma_div_bounds(a: int, b: int)
    requires
        b > 0,
    ensures
        a >= 0 ==> 0 <= a / b <= a,
        a < 0 ==> a <= a / b <= 0,
{
    if a >= 0 {
        assert(0 <= a / b <= a) by (nonlinear_arith)
            requires
                a >= 0 && b > 0,
        ;
    } else {
        assert(a <= a / b <= 0) by (nonlinear_arith)
            requires
                a < 0 && b > 0,
        ;
    }
}

/// Milliseconds of a frame, as executable code.
fn ms_of_frame_exec(f: i64, m: u32) -> (r: i64)
    requires
        0 < m <= MAX_MILLI_FPS,
        -FRAME_LIMIT <= f <= FRAME_LIMIT,
    ensures
        r as int == ms_of_frame(f as int, m as int),
{
    proof {
        assert(-0x100000000000000000000000000 <= (f as int) * 1000000
            <= 0x100000000000000000000000000) by (nonlinear_arith)
            requires
                -FRAME_LIMIT <= f as int <= FRAME_LIMIT,
        ;
    }
    let a: i128 = (f as i128) * 1000000;
    let r = round_div_exec(a, m as i128);
    proof {
        lemma_div_bounds(2 * (a as int) + m, 2 * (m as int));
    }
    r as i64
}

/// The frame of a millisecond timestamp, as executable code.
fn frame_of_ms_exec(ms: i64, m: u32) -> (r: Option<i64>)
    requires
        0 < m <= MAX_MILLI_FPS,
    ensures
        match r {
            Some(f) => f as int == frame_of_ms(ms as int, m as int) && -FRAME_LIMIT <= f
                <= FRAME_LIMIT,
            None => !(-FRAME_LIMIT <= frame_of_ms(ms as int, m as int) <= FRAME_LIMIT),
        },
{
    proof {
        assert(-0x100000000000000000000000000 <= (ms as int) * (m as int)
            <= 0x100000000000000000000000000) by (nonlinear_arith)
            requires
                i64::MIN <= ms as int <= i64::MAX && 0 < m as int <= MAX_MILLI_FPS,
        ;
    }
    let a: i128 = (ms as i128) * (m as i128);
    let q = round_div_exec(a, 1000000);
    if -FRAME_LIMIT as i128 <= q && q <= FRAME_LIMIT as i128 {
        Some(q as i64)
    } else {
        None
    }
}


// ////////////////////////////////////////////////////////////////////////////////////////////////
// the read/update round-trip law

/// Converting a frame to milliseconds and back yields the frame: the bounded
/// rate keeps a millisecond finer than a frame, so the rounding is lossless.
pub proof fn lemma_frame_roundtrip(f: int, m: int)
    requires
        0 < m <= MAX_MILLI_FPS,
    ensures
        frame_of_ms(ms_of_frame(f, m), m) == f,
{
    let a1 = 2 * (f * 1000000) + m;
    let b1 = 2 * m;
    let q = a1 / b1;
    vstd::arithmetic::div_mod::lemma_fundamental_div_mod(a1, b1);
    let r1 = a1 % b1;
    assert(a1 == b1 * q + r1);
    assert(0 <= r1 < b1) by {
        vstd::arithmetic::div_mod::lemma_mod_bound(a1, b1);
    }
    assert(q == ms_of_frame(f, m)) by {
        assert(2 * (f * 1000000) == 2 * f * 1000000) by (nonlinear_arith);
        assert(f * 1000000 * 2 + m == 2 * (f * 1000000) + m) by (nonlinear_arith);
    }
    let a2 = 2 * (q * m) + 1000000;
    let r2 = 1000000 + m - r1;
    assert(b1 * q == 2 * (q * m)) by (nonlinear_arith)
        requires
            b1 == 2 * m,
    ;
    assert(a2 == 2 * (f * 1000000) + m - r1 + 1000000);
    assert(a2 == 2000000 * f + r2) by {
        assert(2 * (f * 1000000) == 2000000 * f) by (nonlinear_arith);
    }
    assert(r2 > 0);
    assert(r2 <= 2000000);
    if r2 == 2000000 {
        // would need both a zero remainder and the maximal rate, which is
        // impossible by parity
        assert(r1 == 0 && m == 1000000);
        assert(a1 == b1 * q);
        assert(2000000 * q == 2000000 * f + 1000000);
        assert(2 * (q - f) * 1000000 == 1000000) by (nonlinear_arith)
            requires
                2000000 * q == 2000000 * f + 1000000,
        ;
        assert(false);
    }
    vstd::arithmetic::div_mod::lemma_fundamental_div_mod_converse(a2, 2000000, f, r2);
    assert(a2 == f * 2000000 + r2) by (nonlinear_arith)
        requires
            a2 == 2000000 * f + r2,
    ;
    assert(a2 / 2000000 == f);
    assert(frame_of_ms(q, m) == (2 * (q * m) + 1000000) / 2000000) by {
        assert(q * m * 2 + 1000000 == 2 * (q * m) + 1000000) by (nonlinear_arith);
    }
}

/// Writing back the entries that were read leaves the entries unchanged.
///
/// This is the `MicroDVD` half of the read/update round-trip law: for every
/// well-formed file (bounded frames, a rate of at most 1000 fps), writing
/// `get_subtitle_entries()` back and reading again yields an equal list.
pub proof fn lemma_mdvd_update_roundtrip(v: MdvdView)
    requires
        mdvd_wf(v),
    ensures
        mdvd_entries(mdvd_updated(v, mdvd_entries(v))) == mdvd_entries(v),
{
    let e = mdvd_entries(v);
    let u = mdvd_updated(v, e);
    assert forall|i: int| 0 <= i < u.lines.len() implies #[trigger] mdvd_entries(u)[i]
        == e[i] by {
        lemma_frame_roundtrip(v.lines[i].start, v.milli_fps);
        lemma_frame_roundtrip(v.lines[i].end, v.milli_fps);
    }
    assert(mdvd_entries(u) =~= e);
}

// ////////////////////////////////////////////////////////////////////////////////////////////////
// parsing

/// The leading tag groups `{...}{...}` of a segment, and the position after
/// them. `None` when an opening brace has no closing one.
#[verifier::opaque]
pub open spec fn mdvd_tags(s: Seq<char>, pos: int) -> Option<(Seq<Seq<char>>, int)>
    decreases s.len() - pos,
{
    if pos < 0 || pos >= s.len() || s[pos] != '{' {
        Some((Seq::empty(), pos))
    } else {
        let c = pos + 1 + find_char(s.skip(pos + 1), '}');
        if c >= s.len() {
            None
        } else {
            match mdvd_tags(s, c + 1) {
                None => None,
                Some((rest, e)) => Some((seq![s.subrange(pos + 1, c)] + rest, e)),
            }
        }
    }
}

/// The `|`-separated segments of a line from `pos` on: each with its leading
/// tags and its text.
#[verifier::opaque]
pub open spec fn mdvd_segments(s: Seq<char>, pos: int) -> Option<Seq<(Seq<Seq<char>>, Seq<char>)>>
    decreases s.len() - pos,
{
    if pos < 0 || pos > s.len() {
        None
    } else {
        match mdvd_tags(s, pos) {
            None => None,
            Some((tg, p2)) => {
                if !(pos <= p2 <= s.len()) {
                    None
                } else {
                    let t = p2 + find_char(s.skip(p2), '|');
                    let seg = (tg, s.subrange(p2, t));
                    if t >= s.len() {
                        Some(seq![seg])
                    } else {
                        match mdvd_segments(s, t + 1) {
                            None => None,
                            Some(rest) => Some(seq![seg] + rest),
                        }
                    }
                }
            },
        }
    }
}

/// The stored (folded) container tags of all segments, in order.
pub open spec fn container_tags(segs: Seq<(Seq<Seq<char>>, Seq<char>)>) -> Seq<Seq<char>>
    decreases segs.len(),
{
    if segs.len() == 0 {
        Seq::empty()
    } else {
        filter_container(segs[0].0, true) + container_tags(segs.drop_first())
    }
}

/// The folded tags of one group with the given container-scope flag.
pub open spec fn filter_container(tags: Seq<Seq<char>>, container: bool) -> Seq<Seq<char>>
    decreases tags.len(),
{
    if tags.len() == 0 {
        Seq::empty()
    } else {
        (if is_container_tag(tags[0]) == container {
            seq![lower_first(tags[0])]
        } else {
            Seq::<Seq<char>>::empty()
        }) + filter_container(tags.drop_first(), container)
    }
}

/// The lines a segment list produces: all share the frame span; each line
/// carries every container tag of the whole source line plus its own tags.
pub open spec fn mdvd_lines_of(
    segs: Seq<(Seq<Seq<char>>, Seq<char>)>,
    start: int,
    end: int,
    ctags: Seq<Seq<char>>,
) -> Seq<MdvdLineView> {
    Seq::new(
        segs.len(),
        |i: int|
            MdvdLineView {
                start,
                end,
                fmts: ctags + filter_container(segs[i].0, false),
                text: segs[i].1,
            },
    )
}

/// One parsed `MicroDVD` line `{start}{end}tags/text...`, or `None` when the
/// line does not match the grammar (frames must be numbers up to
/// `FRAME_LIMIT` in magnitude).
pub open spec fn spec_parse_mdvd_line(s: Seq<char>) -> Option<Seq<MdvdLineView>> {
    if !(s.len() > 0 && s[0] == '{') {
        None
    } else {
        let e1 = num_end(s, 1);
        if !(e1 < s.len() && s[e1] == '}') {
            None
        } else {
            match spec_number_i64(s.subrange(1, e1)) {
                None => None,
                Some(f1) => {
                    if !(-FRAME_LIMIT <= f1 <= FRAME_LIMIT && e1 + 1 < s.len() && s[e1 + 1]
                        == '{') {
                        None
                    } else {
                        let e2 = num_end(s, e1 + 2);
                        if !(e2 < s.len() && s[e2] == '}') {
                            None
                        } else {
                            match spec_number_i64(s.subrange(e1 + 2, e2)) {
                                None => None,
                                Some(f2) => {
                                    if !(-FRAME_LIMIT <= f2 <= FRAME_LIMIT) {
                                        None
                                    } else {
                                        match mdvd_segments(s, e2 + 1) {
                                            None => None,
                                            Some(segs) => Some(
                                                mdvd_lines_of(
                                                    segs,
                                                    f1 as int,
                                                    f2 as int,
                                                    container_tags(segs),
                                                ),
                                            ),
                                        }
                                    }
                                },
                            }
                        }
                    }
                },
            }
        }
    }
}

/// The whole parse: the concatenation of every line's lines, or the number
/// of the line that failed.
pub open spec fn spec_parse_mdvd_lines(lines: Seq<(Seq<char>, Seq<char>)>, base: int) -> Result<
    Seq<MdvdLineView>,
    int,
>
    decreases lines.len(),
{
    if lines.len() == 0 {
        Ok(Seq::empty())
    } else {
        match spec_parse_mdvd_line(lines[0].0) {
            None => Err(base),
            Some(ls) => match spec_parse_mdvd_lines(lines.drop_first(), base + 1) {
                Err(e) => Err(e),
                Ok(rest) => Ok(ls + rest),
            },
        }
    }
}

/// The result of parsing a whole `MicroDVD` text.
pub open spec fn spec_parse_mdvd(s: Seq<char>, milli_fps: int) -> Result<MdvdView, int> {
    match spec_parse_mdvd_lines(spec_split_lines(s.skip(spec_bom_skip(s))), 0) {
        Err(e) => Err(e),
        Ok(ls) => Ok(MdvdView { milli_fps, lines: ls }),
    }
}

/// An exact copy of a tag list.
fn dup_tags(src: &Vec<Vec<char>>) -> (r: Vec<Vec<char>>)
    ensures
        tag_views(r@) == tag_views(src@),
{
    let mut r: Vec<Vec<char>> = Vec::new();
    let mut i: usize = 0;
    while i < src.len()
        invariant
            i <= src@.len(),
            tag_views(r@) == tag_views(src@).take(i as int),
        decreases src@.len() - i,
    {
        let ghost prev = r@;
        let t = dup_chars(&src[i]);
        let ghost tv = t@;
        proof {
            assert(tv == tag_views(src@)[i as int]);
        }
        r.push(t);
        i += 1;
        proof {
            assert(tag_views(prev).len() == prev.len());
            assert(r@[i - 1]@ == tv);
            assert forall|k: int|
                0 <= k < r@.len() implies #[trigger] tag_views(r@)[k] == tag_views(src@).take(
                i as int)[k] by {
                if k < i - 1 {
                    assert(r@[k] == prev[k]);
                    assert(tag_views(prev)[k] == tag_views(src@).take(i - 1)[k]);
                } else {
                    assert(tag_views(r@)[k] == tv);
                }
            }
            assert(tag_views(r@) =~= tag_views(src@).take(i as int));
        }
    }
    proof {
        assert(tag_views(src@).take(src@.len() as int) =~= tag_views(src@));
    }
    r
}

/// Exec twin of `mdvd_tags`.
fn parse_tags(s: &Vec<char>, pos: usize) -> (r: Option<(Vec<Vec<char>>, usize)>)
    requires
        pos <= s@.len(),
    ensures
        match r {
            Some((tg, e)) => mdvd_tags(s@, pos as int) == Some((tag_views(tg@), e as int)) && pos
                <= e <= s@.len(),
            None => mdvd_tags(s@, pos as int) is None,
        },
    decreases s@.len() - pos,
{
    proof {
        reveal(mdvd_tags);
    }
    let n = s.len();
    if pos >= n || s[pos] != '{' {
        let r: Vec<Vec<char>> = Vec::new();
        proof {
            assert(tag_views(r@) =~= Seq::<Seq<char>>::empty());
        }
        return Some((r, pos));
    }
    let c = find_char_from(s, pos + 1, n, '}');
    proof {
        lemma_find_char(s@.skip(pos + 1), '}');
        assert(s@.skip(pos + 1) =~= s@.subrange(pos + 1, n as int));
    }
    if c == n {
        return None;
    }
    let tag = subvec(s, pos + 1, c);
    match parse_tags(s, c + 1) {
        None => None,
        Some((rest, e)) => {
            let ghost restv = tag_views(rest@);
            let mut tg: Vec<Vec<char>> = Vec::new();
            tg.push(tag);
            let mut rest2 = dup_tags(&rest);
            tg.append(&mut rest2);
            proof {
                assert(tag_views(tg@) =~= seq![s@.subrange(pos + 1, c as int)] + restv);
            }
            Some((tg, e))
        },
    }
}

/// Exec twin of `mdvd_segments`.
fn parse_segments(s: &Vec<char>, pos: usize) -> (r: Option<Vec<(Vec<Vec<char>>, Vec<char>)>>)
    requires
        pos <= s@.len(),
    ensures
        match r {
            Some(segs) => mdvd_segments(s@, pos as int) == Some(seg_views(segs@)),
            None => mdvd_segments(s@, pos as int) is None,
        },
    decreases s@.len() - pos,
{
    proof {
        reveal(mdvd_segments);
    }
    let n = s.len();
    let (tg, p2) = match parse_tags(s, pos) {
        Some(x) => x,
        None => {
            return None;
        },
    };
    let t = find_char_from(s, p2, n, '|');
    proof {
        lemma_find_char(s@.skip(p2 as int), '|');
        assert(s@.skip(p2 as int) =~= s@.subrange(p2 as int, n as int));
    }
    let text = subvec(s, p2, t);
    if t == n {
        let mut segs: Vec<(Vec<Vec<char>>, Vec<char>)> = Vec::new();
        let ghost tgv = tag_views(tg@);
        segs.push((tg, text));
        proof {
            assert(seg_views(segs@) =~= seq![(tgv, s@.subrange(p2 as int, t as int))]);
        }
        Some(segs)
    } else {
        match parse_segments(s, t + 1) {
            None => None,
            Some(rest) => {
                let ghost restv = seg_views(rest@);
                let ghost tgv = tag_views(tg@);
                let mut segs: Vec<(Vec<Vec<char>>, Vec<char>)> = Vec::new();
                segs.push((tg, text));
                let mut i: usize = 0;
                while i < rest.len()
                    invariant
                        i <= rest@.len(),
                        restv == seg_views(rest@),
                        seg_views(segs@) == seq![(tgv, s@.subrange(p2 as int, t as int))]
                            + restv.take(i as int),
                    decreases rest@.len() - i,
                {
                    let ghost prev = segs@;
                    let p = &rest[i];
                    let seg = (dup_tags(&p.0), dup_chars(&p.1));
                    let ghost sv = (tag_views(seg.0@), seg.1@);
                    proof {
                        assert(sv == restv[i as int]);
                    }
                    segs.push(seg);
                    i += 1;
                    proof {
                        assert(seg_views(prev).len() == prev.len());
                        assert((tag_views(segs@[prev.len() as int].0@), segs@[prev.len() as int].1@)
                            == sv);
                        assert forall|k: int|
                            0 <= k < segs@.len() implies #[trigger] seg_views(segs@)[k] == (seq![
                            (tgv, s@.subrange(p2 as int, t as int)),
                        ] + restv.take(i as int))[k] by {
                            if k < prev.len() {
                                assert(segs@[k] == prev[k]);
                                assert(seg_views(prev)[k] == (seq![
                                    (tgv, s@.subrange(p2 as int, t as int)),
                                ] + restv.take(i - 1))[k]);
                            } else {
                                assert(seg_views(segs@)[k] == sv);
                            }
                        }
                        assert(seg_views(segs@) =~= seq![(tgv, s@.subrange(p2 as int, t as int))]
                            + restv.take(i as int));
                    }
                }
                proof {
                    assert(restv.take(restv.len() as int) =~= restv);
                    assert(seg_views(segs@) =~= seq![(tgv, s@.subrange(p2 as int, t as int))]
                        + restv);
                }
                Some(segs)
            },
        }
    }
}

/// The views of a segment list.
spec fn seg_views(s: Seq<(Vec<Vec<char>>, Vec<char>)>) -> Seq<(Seq<Seq<char>>, Seq<char>)> {
    s.map(|i: int, p: (Vec<Vec<char>>, Vec<char>)| (tag_views(p.0@), p.1@))
}


/// Exec twin of `filter_container` (with folding).
fn filter_container_exec(tags: &Vec<Vec<char>>, container: bool, from: usize) -> (r: Vec<
    Vec<char>,
>)
    requires
        from <= tags@.len(),
    ensures
        tag_views(r@) == filter_container(tag_views(tags@).skip(from as int), container),
    decreases tags@.len() - from,
{
    let ghost tv = tag_views(tags@);
    if from == tags.len() {
        let r: Vec<Vec<char>> = Vec::new();
        proof {
            assert(tv.skip(from as int) =~= Seq::<Seq<char>>::empty());
            assert(tag_views(r@) =~= filter_container(tv.skip(from as int), container));
        }
        return r;
    }
    proof {
        assert(tv.skip(from as int)[0] == tv[from as int]);
        assert(tv[from as int] == tags@[from as int]@);
        assert(tv.skip(from as int).drop_first() =~= tv.skip(from + 1));
    }
    let mut rest = filter_container_exec(tags, container, from + 1);
    if is_container_exec(&tags[from]) == container {
        let ghost restv = tag_views(rest@);
        let mut r: Vec<Vec<char>> = Vec::new();
        r.push(lower_first_exec(&tags[from]));
        r.append(&mut rest);
        proof {
            assert(tag_views(r@) =~= seq![lower_first(tv[from as int])] + restv);
        }
        r
    } else {
        proof {
            assert(tag_views(rest@) =~= filter_container(tv.skip(from as int), container));
        }
        rest
    }
}

/// Exec twin of `container_tags`.
fn container_tags_exec(segs: &Vec<(Vec<Vec<char>>, Vec<char>)>, from: usize) -> (r: Vec<
    Vec<char>,
>)
    requires
        from <= segs@.len(),
    ensures
        tag_views(r@) == container_tags(seg_views(segs@).skip(from as int)),
    decreases segs@.len() - from,
{
    let ghost sv = seg_views(segs@);
    if from == segs.len() {
        let r: Vec<Vec<char>> = Vec::new();
        proof {
            assert(sv.skip(from as int) =~= Seq::<(Seq<Seq<char>>, Seq<char>)>::empty());
            assert(tag_views(r@) =~= container_tags(sv.skip(from as int)));
        }
        return r;
    }
    proof {
        assert(sv.skip(from as int)[0] == sv[from as int]);
        assert(sv[from as int] == (tag_views(segs@[from as int].0@), segs@[from as int].1@));
        assert(sv.skip(from as int).drop_first() =~= sv.skip(from + 1));
    }
    let n0 = segs[from].0.len();
    proof {
        assert(tag_views(segs@[from as int].0@).skip(0) =~= tag_views(segs@[from as int].0@));
    }
    let mut head = filter_container_exec(&segs[from].0, true, 0);
    let mut rest = container_tags_exec(segs, from + 1);
    let ghost headv = tag_views(head@);
    let ghost restv = tag_views(rest@);
    head.append(&mut rest);
    proof {
        assert(tag_views(head@) =~= headv + restv);
    }
    head
}

/// Parses one `MicroDVD` line.
#[verifier::rlimit(100)]
fn parse_mdvd_line(content: &Vec<char>) -> (r: Option<Vec<MdvdLine>>)
    ensures
        match r {
            Some(ls) => spec_parse_mdvd_line(content@) == Some(mdvd_line_views(ls@)) && (forall|
                q: int,
            |
                0 <= q < ls@.len() ==> -FRAME_LIMIT <= (#[trigger] mdvd_line_views(ls@)[q]).start
                    <= FRAME_LIMIT && -FRAME_LIMIT <= mdvd_line_views(ls@)[q].end <= FRAME_LIMIT),
            None => spec_parse_mdvd_line(content@) is None,
        },
{
    let n = content.len();
    if !(n > 0 && content[0] == '{') {
        return None;
    }
    let e1 = scan_num(content, 1);
    if !(e1 < n && content[e1] == '}') {
        return None;
    }
    let f1 = match parse_i64_chars(content, 1, e1) {
        Some(v) => v,
        None => {
            return None;
        },
    };
    if !(-FRAME_LIMIT <= f1 && f1 <= FRAME_LIMIT && e1 + 1 < n && content[e1 + 1] == '{') {
        return None;
    }
    let e2 = scan_num(content, e1 + 2);
    if !(e2 < n && content[e2] == '}') {
        return None;
    }
    let f2 = match parse_i64_chars(content, e1 + 2, e2) {
        Some(v) => v,
        None => {
            return None;
        },
    };
    if !(-FRAME_LIMIT <= f2 && f2 <= FRAME_LIMIT) {
        return None;
    }
    let segs = match parse_segments(content, e2 + 1) {
        Some(x) => x,
        None => {
            return None;
        },
    };
    let ghost segv = seg_views(segs@);
    proof {
        assert(segv.skip(0) =~= segv);
    }
    let ctags = container_tags_exec(&segs, 0);
    let ghost ctv = tag_views(ctags@);
    let mut ls: Vec<MdvdLine> = Vec::new();
    let ns = segs.len();
    let mut i: usize = 0;
    proof {
        assert(mdvd_line_views(ls@) =~= mdvd_lines_of(segv, f1 as int, f2 as int, ctv).take(0));
    }
    while i < ns
        invariant
            i <= ns,
            ns == segs@.len(),
            segv == seg_views(segs@),
            ctv == tag_views(ctags@),
            -FRAME_LIMIT <= f1 <= FRAME_LIMIT,
            -FRAME_LIMIT <= f2 <= FRAME_LIMIT,
            mdvd_line_views(ls@) == mdvd_lines_of(segv, f1 as int, f2 as int, ctv).take(i as int),
        decreases ns - i,
    {
        let ghost prev = ls@;
        proof {
            assert(segv[i as int] == (tag_views(segs@[i as int].0@), segs@[i as int].1@));
            assert(tag_views(segs@[i as int].0@).skip(0) =~= tag_views(segs@[i as int].0@));
        }
        let mut fmts = dup_tags(&ctags);
        let mut own = filter_container_exec(&segs[i].0, false, 0);
        let ghost ownv = tag_views(own@);
        fmts.append(&mut own);
        proof {
            assert(tag_views(fmts@) =~= ctv + ownv);
        }
        let line = MdvdLine {
            start_frame: f1,
            end_frame: f2,
            formatting: fmts,
            text: dup_chars(&segs[i].1),
        };
        let ghost lv = line@;
        proof {
            assert(lv =~~= mdvd_lines_of(segv, f1 as int, f2 as int, ctv)[i as int]);
        }
        ls.push(line);
        i += 1;
        proof {
            assert(mdvd_line_views(prev).len() == prev.len());
            assert(ls@[i - 1]@ == lv);
            assert forall|k: int|
                0 <= k < ls@.len() implies #[trigger] mdvd_line_views(ls@)[k] == mdvd_lines_of(
                segv,
                f1 as int,
                f2 as int,
                ctv,
            ).take(i as int)[k] by {
                if k < i - 1 {
                    assert(ls@[k] == prev[k]);
                    assert(mdvd_line_views(prev)[k] == mdvd_lines_of(
                        segv,
                        f1 as int,
                        f2 as int,
                        ctv,
                    ).take(i - 1)[k]);
                } else {
                    assert(mdvd_line_views(ls@)[k] == lv);
                }
            }
            assert(mdvd_line_views(ls@) =~= mdvd_lines_of(segv, f1 as int, f2 as int, ctv).take(
                i as int));
        }
    }
    proof {
        assert(mdvd_lines_of(segv, f1 as int, f2 as int, ctv).take(ns as int) =~= mdvd_lines_of(
            segv,
            f1 as int,
            f2 as int,
            ctv,
        ));
    }
    Some(ls)
}

impl MdvdFile {
    /// Parse a `MicroDVD` `.sub` subtitle string to an `MdvdFile`, with the
    /// frame rate of the associated video.
    pub fn parse(s: &str, fps: FramesPerSecond) -> (r: Result<MdvdFile, Error>)
        requires
            0 < fps@ <= MAX_MILLI_FPS,
        ensures
            r is Ok <==> spec_parse_mdvd(s@, fps@) is Ok,
            r is Ok ==> r->Ok_0@ == spec_parse_mdvd(s@, fps@)->Ok_0 && r->Ok_0.wf(),
            r is Err ==> r->Err_0@ == (ErrorKind::ParsingError {
                line: spec_parse_mdvd(s@, fps@)->Err_0 as usize,
                expected: ExpectedToken::SubtitleLine,
            }),
    {
        let chars = str_to_chars(s);
        let n = chars.len();
        let k = bom_skip(&chars);
        let rest = subvec(&chars, k, n);
        proof {
            assert(rest@ =~= s@.skip(spec_bom_skip(s@)));
        }
        let lines = get_lines_chars(&rest);
        let ghost lvs = spec_split_lines(s@.skip(spec_bom_skip(s@)));
        let nl = lines.len();
        let mut v: Vec<MdvdLine> = Vec::new();
        let mut li: usize = 0;
        proof {
            assert(lvs.skip(0) =~= lvs);
            assert(mdvd_line_views(v@) =~= Seq::<MdvdLineView>::empty());
        }
        while li < nl
            invariant
                li <= nl,
                nl == lvs.len(),
                lvs == spec_split_lines(s@.skip(spec_bom_skip(s@))),
                line_views(lines@) == lvs,
                spec_parse_mdvd_lines(lvs, 0) == (match spec_parse_mdvd_lines(
                    lvs.skip(li as int),
                    li as int,
                ) {
                    Err(e) => Err::<Seq<MdvdLineView>, int>(e),
                    Ok(ls) => Ok(mdvd_line_views(v@) + ls),
                }),
                forall|q: int|
                    0 <= q < mdvd_line_views(v@).len() ==> -FRAME_LIMIT <= (
                    #[trigger] mdvd_line_views(v@)[q]).start <= FRAME_LIMIT && -FRAME_LIMIT
                        <= mdvd_line_views(v@)[q].end <= FRAME_LIMIT,
            decreases nl - li,
        {
            let pair = &lines[li];
            proof {
                assert(lvs.skip(li as int)[0] == lvs[li as int]);
                assert(lvs[li as int] == (pair.0@, pair.1@));
                assert(lvs.skip(li as int).drop_first() =~= lvs.skip(li + 1));
            }
            match parse_mdvd_line(&pair.0) {
                None => {
                    return Err(Error::from_kind(ErrorKind::ParsingError {
                        line: li,
                        expected: ExpectedToken::SubtitleLine,
                    }));
                },
                Some(mut ls) => {
                    let ghost lsv = mdvd_line_views(ls@);
                    let ghost prev = v@;
                    v.append(&mut ls);
                    proof {
                        assert(mdvd_line_views(v@) =~= mdvd_line_views(prev) + lsv);
                        match spec_parse_mdvd_lines(lvs.skip(li + 1), li + 1) {
                            Err(e) => {},
                            Ok(restls) => {
                                assert(mdvd_line_views(prev) + (lsv + restls) =~= mdvd_line_views(
                                    v@) + restls);
                            },
                        }
                        assert forall|q: int|
                            0 <= q < mdvd_line_views(v@).len() implies -FRAME_LIMIT <= (
                        #[trigger] mdvd_line_views(v@)[q]).start <= FRAME_LIMIT && -FRAME_LIMIT
                            <= mdvd_line_views(v@)[q].end <= FRAME_LIMIT by {
                            if q < prev.len() {
                                assert(mdvd_line_views(v@)[q] == mdvd_line_views(prev)[q]);
                            } else {
                                assert(mdvd_line_views(v@)[q] == lsv[q - prev.len()]);
                            }
                        }
                    }
                },
            }
            li += 1;
        }
        proof {
            assert(lvs.skip(nl as int) =~= Seq::<(Seq<char>, Seq<char>)>::empty());
            assert(mdvd_line_views(v@) + Seq::<MdvdLineView>::empty() =~= mdvd_line_views(v@));
        }
        let file = MdvdFile { fps, v };
        proof {
            assert(file@ =~~= spec_parse_mdvd(s@, fps@)->Ok_0);
        }
        Ok(file)
    }
}


// ////////////////////////////////////////////////////////////////////////////////////////////////
// serialization (grouping and tag hoisting)

/// Lexicographic order on frame spans.
pub open spec fn key_lt(a: (int, int), b: (int, int)) -> bool {
    a.0 < b.0 || (a.0 == b.0 && a.1 < b.1)
}

/// Insertion into a sorted list of distinct keys.
pub open spec fn keys_insert(ks: Seq<(int, int)>, k: (int, int)) -> Seq<(int, int)>
    decreases ks.len(),
{
    if ks.len() == 0 {
        seq![k]
    } else if k == ks[0] {
        ks
    } else if key_lt(k, ks[0]) {
        seq![k] + ks
    } else {
        seq![ks[0]] + keys_insert(ks.drop_first(), k)
    }
}

/// The sorted distinct frame spans of a line list.
pub open spec fn keys_of(lines: Seq<MdvdLineView>) -> Seq<(int, int)>
    decreases lines.len(),
{
    if lines.len() == 0 {
        Seq::empty()
    } else {
        keys_insert(keys_of(lines.drop_last()), (lines.last().start, lines.last().end))
    }
}

/// The lines with the given frame span, in source order.
pub open spec fn filter_key(lines: Seq<MdvdLineView>, k: (int, int)) -> Seq<MdvdLineView>
    decreases lines.len(),
{
    if lines.len() == 0 {
        Seq::empty()
    } else {
        (if lines[0].start == k.0 && lines[0].end == k.1 {
            seq![lines[0]]
        } else {
            Seq::<MdvdLineView>::empty()
        }) + filter_key(lines.drop_first(), k)
    }
}

/// Does the tag list contain the tag?
pub open spec fn contains_tag(fs: Seq<Seq<char>>, f: Seq<char>) -> bool
    decreases fs.len(),
{
    if fs.len() == 0 {
        false
    } else {
        fs[0] == f || contains_tag(fs.drop_first(), f)
    }
}

/// The tag list with duplicates removed (first occurrences kept).
pub open spec fn dedup_tags(fs: Seq<Seq<char>>, seen: Seq<Seq<char>>) -> Seq<Seq<char>>
    decreases fs.len(),
{
    if fs.len() == 0 {
        Seq::empty()
    } else if contains_tag(seen, fs[0]) {
        dedup_tags(fs.drop_first(), seen)
    } else {
        seq![fs[0]] + dedup_tags(fs.drop_first(), seen.push(fs[0]))
    }
}

/// Does every line of the group carry the tag?
pub open spec fn in_all(group: Seq<MdvdLineView>, f: Seq<char>) -> bool
    decreases group.len(),
{
    if group.len() == 0 {
        true
    } else {
        contains_tag(group[0].fmts, f) && in_all(group.drop_first(), f)
    }
}

/// The tags of `fs` carried by every line of the group.
pub open spec fn filter_in_all(fs: Seq<Seq<char>>, group: Seq<MdvdLineView>) -> Seq<Seq<char>>
    decreases fs.len(),
{
    if fs.len() == 0 {
        Seq::empty()
    } else {
        (if in_all(group, fs[0]) {
            seq![fs[0]]
        } else {
            Seq::<Seq<char>>::empty()
        }) + filter_in_all(fs.drop_first(), group)
    }
}

/// The tags of `fs` that are not in `common`.
pub open spec fn filter_not_in(fs: Seq<Seq<char>>, common: Seq<Seq<char>>) -> Seq<Seq<char>>
    decreases fs.len(),
{
    if fs.len() == 0 {
        Seq::empty()
    } else {
        (if contains_tag(common, fs[0]) {
            Seq::<Seq<char>>::empty()
        } else {
            seq![fs[0]]
        }) + filter_not_in(fs.drop_first(), common)
    }
}

/// The container-scope tags of a group: the shared tags of all its lines; a
/// group of a single line hoists nothing.
pub open spec fn common_of(group: Seq<MdvdLineView>) -> Seq<Seq<char>> {
    if group.len() <= 1 {
        Seq::empty()
    } else {
        filter_in_all(dedup_tags(group[0].fmts, Seq::empty()), group)
    }
}

/// Tags rendered `{Tag}` with an upper-case first character.
pub open spec fn tags_upper(fs: Seq<Seq<char>>) -> Seq<char>
    decreases fs.len(),
{
    if fs.len() == 0 {
        Seq::empty()
    } else {
        seq!['{'] + upper_first(fs[0]) + seq!['}'] + tags_upper(fs.drop_first())
    }
}

/// Tags rendered `{tag}` as stored.
pub open spec fn tags_plain(fs: Seq<Seq<char>>) -> Seq<char>
    decreases fs.len(),
{
    if fs.len() == 0 {
        Seq::empty()
    } else {
        seq!['{'] + fs[0] + seq!['}'] + tags_plain(fs.drop_first())
    }
}

/// The `|`-joined segments of one group: each line's own (non-hoisted)
/// tags followed by its text.
pub open spec fn segs_render(group: Seq<MdvdLineView>, common: Seq<Seq<char>>) -> Seq<char>
    decreases group.len(),
{
    if group.len() == 0 {
        Seq::empty()
    } else {
        let head = tags_plain(filter_not_in(dedup_tags(group[0].fmts, Seq::empty()), common))
            + group[0].text;
        if group.len() == 1 {
            head
        } else {
            head + seq!['|'] + segs_render(group.drop_first(), common)
        }
    }
}

/// One rendered group line.
pub open spec fn group_render(lines: Seq<MdvdLineView>, k: (int, int)) -> Seq<char> {
    let group = filter_key(lines, k);
    let common = common_of(group);
    seq!['{'] + int_str(k.0) + seq!['}', '{'] + int_str(k.1) + seq!['}'] + tags_upper(common)
        + segs_render(group, common)
}

/// All groups, joined with newlines.
pub open spec fn groups_render(ks: Seq<(int, int)>, lines: Seq<MdvdLineView>) -> Seq<char>
    decreases ks.len(),
{
    if ks.len() == 0 {
        Seq::empty()
    } else if ks.len() == 1 {
        group_render(lines, ks[0])
    } else {
        group_render(lines, ks[0]) + seq!['\n'] + groups_render(ks.drop_first(), lines)
    }
}

/// The normalized text a `MicroDVD` file value renders to.
pub open spec fn mdvd_render(v: MdvdView) -> Seq<char> {
    groups_render(keys_of(v.lines), v.lines)
}

// ////////////////////////////////////////////////////////////////////////////////////////////////
// the unified protocol

impl SubtitleFile for MdvdFile {
    open spec fn wf(&self) -> bool {
        mdvd_wf(self@)
    }

    open spec fn spec_entries(&self) -> Seq<EntryView> {
        mdvd_entries(self@)
    }

    open spec fn supports_update(&self) -> bool {
        true
    }

    open spec fn accepts(&self, new: Seq<EntryView>) -> bool {
        forall|k: int|
            0 <= k < new.len() ==> -FRAME_LIMIT <= frame_of_ms(
                (#[trigger] new[k]).start,
                self@.milli_fps,
            ) <= FRAME_LIMIT && -FRAME_LIMIT <= frame_of_ms(new[k].end, self@.milli_fps)
                <= FRAME_LIMIT
    }

    open spec fn spec_updated(&self, new: Seq<EntryView>) -> MdvdView {
        mdvd_updated(self@, new)
    }

    open spec fn spec_data(&self) -> Seq<u8> {
        vstd::utf8::encode_utf8(mdvd_render(self@))
    }

    fn get_subtitle_entries(&self) -> (r: Result<Vec<SubtitleEntry>, Error>) {
        let ghost lv = self@.lines;
        let m = self.fps.milli_fps();
        let mut out: Vec<SubtitleEntry> = Vec::new();
        let mut i: usize = 0;
        let n = self.v.len();
        proof {
            assert(entry_views(out@) =~= mdvd_entries(self@).take(0));
        }
        while i < n
            invariant
                i <= n,
                n == self.v@.len(),
                lv == mdvd_line_views(self.v@),
                lv == self@.lines,
                m as int == self@.milli_fps,
                mdvd_wf(self@),
                entry_views(out@) == mdvd_entries(self@).take(i as int),
            decreases n - i,
        {
            let ghost prev = out@;
            let line = &self.v[i];
            proof {
                assert(line@ == lv[i as int]);
            }
            let start = ms_of_frame_exec(line.start_frame, m);
            let end = ms_of_frame_exec(line.end_frame, m);
            let text = chars_to_string(&line.text);
            let e = SubtitleEntry::new(
                TimeSpan::new(TimePoint::from_msecs(start), TimePoint::from_msecs(end)),
                text,
            );
            out.push(e);
            proof {
                assert(entry_views(out@) =~= entry_views(prev).push(
                    mdvd_entries(self@)[i as int]));
                assert(entry_views(out@) =~= mdvd_entries(self@).take(i + 1));
            }
            i += 1;
        }
        proof {
            assert(mdvd_entries(self@).take(n as int) =~= mdvd_entries(self@));
        }
        Ok(out)
    }

    fn update_subtitle_entries(&mut self, i: &[SubtitleEntry]) -> (r: Result<(), Error>) {
        let ghost oldv = self@;
        let ghost newvs = entry_views(i@);
        let m = self.fps.milli_fps();
        let mut out: Vec<MdvdLine> = Vec::new();
        let mut k: usize = 0;
        let n = self.v.len();
        proof {
            assert(mdvd_line_views(out@) =~= mdvd_updated(oldv, newvs).lines.take(0));
        }
        while k < n
            invariant
                k <= n,
                n == self.v@.len(),
                oldv == self@,
                oldv.lines == mdvd_line_views(self.v@),
                m as int == oldv.milli_fps,
                mdvd_wf(oldv),
                newvs == entry_views(i@),
                newvs.len() == oldv.lines.len(),
                forall|q: int|
                    0 <= q < newvs.len() ==> -FRAME_LIMIT <= frame_of_ms(
                        (#[trigger] newvs[q]).start,
                        oldv.milli_fps,
                    ) <= FRAME_LIMIT && -FRAME_LIMIT <= frame_of_ms(newvs[q].end, oldv.milli_fps)
                        <= FRAME_LIMIT,
                mdvd_line_views(out@) == mdvd_updated(oldv, newvs).lines.take(k as int),
            decreases n - k,
        {
            let ghost prev = out@;
            let line = &self.v[k];
            let e = &i[k];
            proof {
                assert(line@ == oldv.lines[k as int]);
                assert(e@ == newvs[k as int]);
            }
            let sf = match frame_of_ms_exec(e.timespan.start.msecs(), m) {
                Some(f) => f,
                None => {
                    proof {
                        assert(false);
                    }
                    0
                },
            };
            let ef = match frame_of_ms_exec(e.timespan.end.msecs(), m) {
                Some(f) => f,
                None => {
                    proof {
                        assert(false);
                    }
                    0
                },
            };
            let text: Vec<char> = match &e.line {
                Some(t) => str_to_chars(t.as_str()),
                None => dup_chars(&line.text),
            };
            let newline = MdvdLine {
                start_frame: sf,
                end_frame: ef,
                formatting: dup_tags(&line.formatting),
                text,
            };
            let ghost nv = newline@;
            proof {
                assert(nv =~~= mdvd_updated(oldv, newvs).lines[k as int]);
            }
            out.push(newline);
            k += 1;
            proof {
                assert(mdvd_line_views(prev).len() == prev.len());
                assert(out@[k - 1]@ == nv);
                assert forall|q: int|
                    0 <= q < out@.len() implies #[trigger] mdvd_line_views(out@)[q]
                    == mdvd_updated(oldv, newvs).lines.take(k as int)[q] by {
                    if q < k - 1 {
                        assert(out@[q] == prev[q]);
                        assert(mdvd_line_views(prev)[q] == mdvd_updated(
                            oldv,
                            newvs,
                        ).lines.take(k - 1)[q]);
                    } else {
                        assert(mdvd_line_views(out@)[q] == nv);
                    }
                }
                assert(mdvd_line_views(out@) =~= mdvd_updated(oldv, newvs).lines.take(k as int));
            }
        }
        proof {
            assert(mdvd_updated(oldv, newvs).lines.take(n as int) =~= mdvd_updated(
                oldv,
                newvs,
            ).lines);
        }
        self.v = out;
        proof {
            assert(self@ =~~= mdvd_updated(oldv, newvs));
        }
        Ok(())
    }

    fn to_data(&self) -> (r: Result<Vec<u8>, Error>) {
        let ghost lv = self@.lines;
        let keys = keys_of_exec(&self.v);
        let nk = keys.len();
        let mut out: Vec<char> = Vec::new();
        let mut i: usize = 0;
        let ghost ks = key_views(keys@);
        proof {
            assert(ks.skip(0) =~= ks);
            assert(out@ + groups_render(ks.skip(0), lv) =~= groups_render(ks, lv));
        }
        while i < nk
            invariant
                i <= nk,
                nk == keys@.len(),
                ks == key_views(keys@),
                lv == mdvd_line_views(self.v@),
                lv == self@.lines,
                mdvd_wf(self@),
                out@ + groups_render(ks.skip(i as int), lv) == groups_render(ks, lv),
            decreases nk - i,
        {
            proof {
                assert(ks.skip(i as int)[0] == ks[i as int]);
                assert(ks[i as int] == (keys@[i as int].0 as int, keys@[i as int].1 as int));
                assert(ks.skip(i as int).drop_first() =~= ks.skip(i + 1));
            }
            let mut piece = render_group(&self.v, keys[i].0, keys[i].1);
            out.append(&mut piece);
            if i + 1 < nk {
                out.push('\n');
                proof {
                    assert(ks.skip(i as int).len() > 1);
                    assert(out@ + groups_render(ks.skip(i + 1), lv) =~= groups_render(ks, lv));
                }
            } else {
                proof {
                    assert(ks.skip(i as int).len() == 1);
                    assert(ks.skip(i + 1) =~= Seq::<(int, int)>::empty());
                    assert(groups_render(ks.skip(i + 1), lv) =~= Seq::<char>::empty());
                    assert(out@ + groups_render(ks.skip(i + 1), lv) =~= groups_render(ks, lv));
                }
            }
            i += 1;
        }
        proof {
            assert(ks.skip(nk as int) =~= Seq::<(int, int)>::empty());
            assert(groups_render(ks.skip(nk as int), lv) =~= Seq::<char>::empty());
            assert(out@ =~= groups_render(ks, lv));
        }
        let st = chars_to_string(&out);
        Ok(string_to_bytes(&st))
    }
}

/// The views of a key list.
spec fn key_views(s: Seq<(i64, i64)>) -> Seq<(int, int)> {
    s.map(|i: int, k: (i64, i64)| (k.0 as int, k.1 as int))
}

/// Exec twin of `keys_insert`.
fn keys_insert_exec(ks: &Vec<(i64, i64)>, k: (i64, i64), from: usize) -> (r: Vec<(i64, i64)>)
    requires
        from <= ks@.len(),
    ensures
        key_views(r@) == keys_insert(key_views(ks@).skip(from as int), (k.0 as int, k.1 as int)),
    decreases ks@.len() - from,
{
    let ghost kv = key_views(ks@);
    let ghost kk = (k.0 as int, k.1 as int);
    if from == ks.len() {
        let mut r: Vec<(i64, i64)> = Vec::new();
        r.push(k);
        proof {
            assert(kv.skip(from as int) =~= Seq::<(int, int)>::empty());
            assert(key_views(r@) =~= seq![kk]);
        }
        return r;
    }
    proof {
        assert(kv.skip(from as int)[0] == kv[from as int]);
        assert(kv[from as int] == (ks@[from as int].0 as int, ks@[from as int].1 as int));
        assert(kv.skip(from as int).drop_first() =~= kv.skip(from + 1));
    }
    let h = ks[from];
    if k.0 == h.0 && k.1 == h.1 {
        let r = dup_keys(ks, from);
        proof {
            assert(kk == kv[from as int]);
            assert(key_views(r@) =~= keys_insert(kv.skip(from as int), kk));
        }
        r
    } else if k.0 < h.0 || (k.0 == h.0 && k.1 < h.1) {
        let mut r: Vec<(i64, i64)> = Vec::new();
        r.push(k);
        let mut rest = dup_keys(ks, from);
        let ghost restv = key_views(rest@);
        r.append(&mut rest);
        proof {
            assert(kk != kv[from as int]);
            assert(key_views(r@) =~= seq![kk] + restv);
        }
        r
    } else {
        let mut r: Vec<(i64, i64)> = Vec::new();
        r.push(h);
        let mut rest = keys_insert_exec(ks, k, from + 1);
        let ghost restv = key_views(rest@);
        r.append(&mut rest);
        proof {
            assert(kk != kv[from as int]);
            assert(!key_lt(kk, kv[from as int]));
            assert(key_views(r@) =~= seq![kv[from as int]] + restv);
        }
        r
    }
}

/// A copy of the key list from `from` on.
fn dup_keys(ks: &Vec<(i64, i64)>, from: usize) -> (r: Vec<(i64, i64)>)
    requires
        from <= ks@.len(),
    ensures
        key_views(r@) == key_views(ks@).skip(from as int),
{
    let ghost kv = key_views(ks@);
    let mut r: Vec<(i64, i64)> = Vec::new();
    let mut i: usize = from;
    let n = ks.len();
    proof {
        assert(key_views(r@) =~= kv.skip(from as int).take(0));
    }
    while i < n
        invariant
            from <= i <= n,
            n == ks@.len(),
            kv == key_views(ks@),
            key_views(r@) == kv.skip(from as int).take(i - from),
        decreases n - i,
    {
        let ghost prev = r@;
        r.push(ks[i]);
        i += 1;
        proof {
            assert(key_views(prev).len() == prev.len());
            assert(key_views(r@) =~= kv.skip(from as int).take(i - from));
        }
    }
    proof {
        assert(kv.skip(from as int).take(n - from) =~= kv.skip(from as int));
    }
    r
}

/// Exec twin of `keys_of`.
fn keys_of_exec(lines: &Vec<MdvdLine>) -> (r: Vec<(i64, i64)>)
    ensures
        key_views(r@) == keys_of(mdvd_line_views(lines@)),
{
    let ghost lvf = mdvd_line_views(lines@);
    let mut r: Vec<(i64, i64)> = Vec::new();
    let mut i: usize = 0;
    let n = lines.len();
    proof {
        assert(key_views(r@) =~= keys_of(lvf.take(0)));
    }
    while i < n
        invariant
            i <= n,
            n == lines@.len(),
            lvf == mdvd_line_views(lines@),
            key_views(r@) == keys_of(lvf.take(i as int)),
        decreases n - i,
    {
        proof {
            assert(lvf.take(i + 1).drop_last() =~= lvf.take(i as int));
            assert(lvf.take(i + 1).last() == lvf[i as int]);
            assert(lvf[i as int] == lines@[i as int]@);
            assert(key_views(r@).skip(0) =~= key_views(r@));
        }
        let line = &lines[i];
        let r2 = keys_insert_exec(&r, (line.start_frame, line.end_frame), 0);
        r = r2;
        i += 1;
    }
    proof {
        assert(lvf.take(n as int) =~= lvf);
    }
    r
}


/// Exec twin of `contains_tag`.
fn contains_tag_exec(fs: &Vec<Vec<char>>, f: &Vec<char>, from: usize) -> (b: bool)
    requires
        from <= fs@.len(),
    ensures
        b == contains_tag(tag_views(fs@).skip(from as int), f@),
    decreases fs@.len() - from,
{
    let ghost fv = tag_views(fs@);
    if from == fs.len() {
        proof {
            assert(fv.skip(from as int) =~= Seq::<Seq<char>>::empty());
        }
        return false;
    }
    proof {
        assert(fv.skip(from as int)[0] == fv[from as int]);
        assert(fv[from as int] == fs@[from as int]@);
        assert(fv.skip(from as int).drop_first() =~= fv.skip(from + 1));
    }
    if chars_eq(&fs[from], f) {
        true
    } else {
        contains_tag_exec(fs, f, from + 1)
    }
}

/// Character-vector equality.
fn chars_eq(a: &Vec<char>, b: &Vec<char>) -> (r: bool)
    ensures
        r == (a@ == b@),
{
    if a.len() != b.len() {
        return false;
    }
    let n = a.len();
    let mut i: usize = 0;
    while i < n
        invariant
            i <= n,
            n == a@.len() == b@.len(),
            forall|j: int| 0 <= j < i ==> a@[j] == b@[j],
        decreases n - i,
    {
        if a[i] != b[i] {
            return false;
        }
        i += 1;
    }
    proof {
        assert(a@ =~= b@);
    }
    true
}

/// Exec twin of `dedup_tags`.
fn dedup_tags_exec(fs: &Vec<Vec<char>>, seen: Vec<Vec<char>>, from: usize) -> (r: Vec<Vec<char>>)
    requires
        from <= fs@.len(),
    ensures
        tag_views(r@) == dedup_tags(tag_views(fs@).skip(from as int), tag_views(seen@)),
    decreases fs@.len() - from,
{
    let ghost fv = tag_views(fs@);
    let ghost sv = tag_views(seen@);
    if from == fs.len() {
        let r: Vec<Vec<char>> = Vec::new();
        proof {
            assert(fv.skip(from as int) =~= Seq::<Seq<char>>::empty());
            assert(tag_views(r@) =~= dedup_tags(fv.skip(from as int), sv));
        }
        return r;
    }
    proof {
        assert(fv.skip(from as int)[0] == fv[from as int]);
        assert(fv[from as int] == fs@[from as int]@);
        assert(fv.skip(from as int).drop_first() =~= fv.skip(from + 1));
        assert(sv.skip(0) =~= sv);
    }
    if contains_tag_exec(&seen, &fs[from], 0) {
        dedup_tags_exec(fs, seen, from + 1)
    } else {
        let head = dup_chars(&fs[from]);
        let ghost hv = head@;
        let mut seen2 = seen;
        let ghost prevseen = seen2@;
        seen2.push(dup_chars(&fs[from]));
        proof {
            assert(tag_views(seen2@) =~= sv.push(fv[from as int]));
        }
        let mut rest = dedup_tags_exec(fs, seen2, from + 1);
        let ghost restv = tag_views(rest@);
        let mut r: Vec<Vec<char>> = Vec::new();
        r.push(head);
        r.append(&mut rest);
        proof {
            assert(tag_views(r@) =~= seq![hv] + restv);
        }
        r
    }
}

/// Exec twin of `in_all`.
fn in_all_exec(group: &Vec<MdvdLine>, f: &Vec<char>, from: usize) -> (b: bool)
    requires
        from <= group@.len(),
    ensures
        b == in_all(mdvd_line_views(group@).skip(from as int), f@),
    decreases group@.len() - from,
{
    let ghost gv = mdvd_line_views(group@);
    if from == group.len() {
        proof {
            assert(gv.skip(from as int) =~= Seq::<MdvdLineView>::empty());
        }
        return true;
    }
    proof {
        assert(gv.skip(from as int)[0] == gv[from as int]);
        assert(gv[from as int] == group@[from as int]@);
        assert(gv.skip(from as int).drop_first() =~= gv.skip(from + 1));
        assert(tag_views(group@[from as int].formatting@).skip(0) =~= tag_views(
            group@[from as int].formatting@));
    }
    if !contains_tag_exec(&group[from].formatting, f, 0) {
        return false;
    }
    in_all_exec(group, f, from + 1)
}

/// Exec twin of `filter_in_all`.
fn filter_in_all_exec(fs: &Vec<Vec<char>>, group: &Vec<MdvdLine>, from: usize) -> (r: Vec<
    Vec<char>,
>)
    requires
        from <= fs@.len(),
    ensures
        tag_views(r@) == filter_in_all(
            tag_views(fs@).skip(from as int),
            mdvd_line_views(group@),
        ),
    decreases fs@.len() - from,
{
    let ghost fv = tag_views(fs@);
    let ghost gv = mdvd_line_views(group@);
    if from == fs.len() {
        let r: Vec<Vec<char>> = Vec::new();
        proof {
            assert(fv.skip(from as int) =~= Seq::<Seq<char>>::empty());
            assert(tag_views(r@) =~= filter_in_all(fv.skip(from as int), gv));
        }
        return r;
    }
    proof {
        assert(fv.skip(from as int)[0] == fv[from as int]);
        assert(fv[from as int] == fs@[from as int]@);
        assert(fv.skip(from as int).drop_first() =~= fv.skip(from + 1));
        assert(gv.skip(0) =~= gv);
    }
    let keep = in_all_exec(group, &fs[from], 0);
    let mut rest = filter_in_all_exec(fs, group, from + 1);
    let ghost restv = tag_views(rest@);
    if keep {
        let mut r: Vec<Vec<char>> = Vec::new();
        r.push(dup_chars(&fs[from]));
        r.append(&mut rest);
        proof {
            assert(tag_views(r@) =~= seq![fv[from as int]] + restv);
        }
        r
    } else {
        proof {
            assert(tag_views(rest@) =~= filter_in_all(fv.skip(from as int), gv));
        }
        rest
    }
}

/// Exec twin of `filter_not_in`.
fn filter_not_in_exec(fs: &Vec<Vec<char>>, common: &Vec<Vec<char>>, from: usize) -> (r: Vec<
    Vec<char>,
>)
    requires
        from <= fs@.len(),
    ensures
        tag_views(r@) == filter_not_in(tag_views(fs@).skip(from as int), tag_views(common@)),
    decreases fs@.len() - from,
{
    let ghost fv = tag_views(fs@);
    let ghost cv = tag_views(common@);
    if from == fs.len() {
        let r: Vec<Vec<char>> = Vec::new();
        proof {
            assert(fv.skip(from as int) =~= Seq::<Seq<char>>::empty());
            assert(tag_views(r@) =~= filter_not_in(fv.skip(from as int), cv));
        }
        return r;
    }
    proof {
        assert(fv.skip(from as int)[0] == fv[from as int]);
        assert(fv[from as int] == fs@[from as int]@);
        assert(fv.skip(from as int).drop_first() =~= fv.skip(from + 1));
        assert(cv.skip(0) =~= cv);
    }
    let skip = contains_tag_exec(common, &fs[from], 0);
    let mut rest = filter_not_in_exec(fs, common, from + 1);
    let ghost restv = tag_views(rest@);
    if skip {
        proof {
            assert(tag_views(rest@) =~= filter_not_in(fv.skip(from as int), cv));
        }
        rest
    } else {
        let mut r: Vec<Vec<char>> = Vec::new();
        r.push(dup_chars(&fs[from]));
        r.append(&mut rest);
        proof {
            assert(tag_views(r@) =~= seq![fv[from as int]] + restv);
        }
        r
    }
}

/// Exec twin of `filter_key`.
fn filter_key_exec(lines: &Vec<MdvdLine>, k0: i64, k1: i64, from: usize) -> (r: Vec<MdvdLine>)
    requires
        from <= lines@.len(),
    ensures
        mdvd_line_views(r@) == filter_key(
            mdvd_line_views(lines@).skip(from as int),
            (k0 as int, k1 as int),
        ),
    decreases lines@.len() - from,
{
    let ghost lv = mdvd_line_views(lines@);
    let ghost kk = (k0 as int, k1 as int);
    if from == lines.len() {
        let r: Vec<MdvdLine> = Vec::new();
        proof {
            assert(lv.skip(from as int) =~= Seq::<MdvdLineView>::empty());
            assert(mdvd_line_views(r@) =~= filter_key(lv.skip(from as int), kk));
        }
        return r;
    }
    proof {
        assert(lv.skip(from as int)[0] == lv[from as int]);
        assert(lv[from as int] == lines@[from as int]@);
        assert(lv.skip(from as int).drop_first() =~= lv.skip(from + 1));
    }
    let line = &lines[from];
    let keep = line.start_frame == k0 && line.end_frame == k1;
    let mut rest = filter_key_exec(lines, k0, k1, from + 1);
    let ghost restv = mdvd_line_views(rest@);
    if keep {
        let mut r: Vec<MdvdLine> = Vec::new();
        r.push(line.clone());
        r.append(&mut rest);
        proof {
            assert(mdvd_line_views(r@) =~= seq![lv[from as int]] + restv);
        }
        r
    } else {
        proof {
            assert(mdvd_line_views(rest@) =~= filter_key(lv.skip(from as int), kk));
        }
        rest
    }
}

/// Exec twin of `tags_upper`.
fn tags_upper_exec(fs: &Vec<Vec<char>>, from: usize) -> (r: Vec<char>)
    requires
        from <= fs@.len(),
    ensures
        r@ == tags_upper(tag_views(fs@).skip(from as int)),
    decreases fs@.len() - from,
{
    let ghost fv = tag_views(fs@);
    if from == fs.len() {
        let r: Vec<char> = Vec::new();
        proof {
            assert(fv.skip(from as int) =~= Seq::<Seq<char>>::empty());
            assert(r@ =~= tags_upper(fv.skip(from as int)));
        }
        return r;
    }
    proof {
        assert(fv.skip(from as int)[0] == fv[from as int]);
        assert(fv[from as int] == fs@[from as int]@);
        assert(fv.skip(from as int).drop_first() =~= fv.skip(from + 1));
    }
    let mut r: Vec<char> = Vec::new();
    r.push('{');
    let mut u = upper_first_exec(&fs[from]);
    r.append(&mut u);
    r.push('}');
    let mut rest = tags_upper_exec(fs, from + 1);
    let ghost restv = rest@;
    r.append(&mut rest);
    proof {
        assert(r@ =~= seq!['{'] + upper_first(fv[from as int]) + seq!['}'] + restv);
    }
    r
}

/// Exec twin of `tags_plain`.
fn tags_plain_exec(fs: &Vec<Vec<char>>, from: usize) -> (r: Vec<char>)
    requires
        from <= fs@.len(),
    ensures
        r@ == tags_plain(tag_views(fs@).skip(from as int)),
    decreases fs@.len() - from,
{
    let ghost fv = tag_views(fs@);
    if from == fs.len() {
        let r: Vec<char> = Vec::new();
        proof {
            assert(fv.skip(from as int) =~= Seq::<Seq<char>>::empty());
            assert(r@ =~= tags_plain(fv.skip(from as int)));
        }
        return r;
    }
    proof {
        assert(fv.skip(from as int)[0] == fv[from as int]);
        assert(fv[from as int] == fs@[from as int]@);
        assert(fv.skip(from as int).drop_first() =~= fv.skip(from + 1));
    }
    let mut r: Vec<char> = Vec::new();
    r.push('{');
    extend_chars(&mut r, &fs[from]);
    r.push('}');
    let mut rest = tags_plain_exec(fs, from + 1);
    let ghost restv = rest@;
    r.append(&mut rest);
    proof {
        assert(r@ =~= seq!['{'] + fv[from as int] + seq!['}'] + restv);
    }
    r
}

/// Exec twin of `segs_render`.
fn segs_render_exec(group: &Vec<MdvdLine>, common: &Vec<Vec<char>>, from: usize) -> (r: Vec<char>)
    requires
        from <= group@.len(),
    ensures
        r@ == segs_render(mdvd_line_views(group@).skip(from as int), tag_views(common@)),
    decreases group@.len() - from,
{
    let ghost gv = mdvd_line_views(group@);
    let ghost cv = tag_views(common@);
    if from == group.len() {
        let r: Vec<char> = Vec::new();
        proof {
            assert(gv.skip(from as int) =~= Seq::<MdvdLineView>::empty());
            assert(r@ =~= segs_render(gv.skip(from as int), cv));
        }
        return r;
    }
    proof {
        assert(gv.skip(from as int)[0] == gv[from as int]);
        assert(gv[from as int] == group@[from as int]@);
        assert(gv.skip(from as int).drop_first() =~= gv.skip(from + 1));
        assert(tag_views(group@[from as int].formatting@).skip(0) =~= tag_views(
            group@[from as int].formatting@));
    }
    let seen: Vec<Vec<char>> = Vec::new();
    proof {
        assert(tag_views(seen@) =~= Seq::<Seq<char>>::empty());
    }
    let deduped = dedup_tags_exec(&group[from].formatting, seen, 0);
    proof {
        assert(tag_views(deduped@).skip(0) =~= tag_views(deduped@));
    }
    let own = filter_not_in_exec(&deduped, common, 0);
    proof {
        assert(tag_views(own@).skip(0) =~= tag_views(own@));
    }
    let mut r = tags_plain_exec(&own, 0);
    extend_chars(&mut r, &group[from].text);
    let ghost headv = r@;
    proof {
        assert(headv =~= tags_plain(filter_not_in(dedup_tags(gv[from as int].fmts, Seq::empty()),
            cv)) + gv[from as int].text);
    }
    if from + 1 == group.len() {
        proof {
            assert(gv.skip(from as int).len() == 1);
            assert(r@ =~= segs_render(gv.skip(from as int), cv));
        }
        r
    } else {
        r.push('|');
        let mut rest = segs_render_exec(group, common, from + 1);
        let ghost restv = rest@;
        r.append(&mut rest);
        proof {
            assert(r@ =~= headv + seq!['|'] + restv);
        }
        r
    }
}

/// One rendered group line, as executable code.
fn render_group(lines: &Vec<MdvdLine>, k0: i64, k1: i64) -> (r: Vec<char>)
    ensures
        r@ == group_render(mdvd_line_views(lines@), (k0 as int, k1 as int)),
{
    let ghost lv = mdvd_line_views(lines@);
    let ghost kk = (k0 as int, k1 as int);
    proof {
        assert(lv.skip(0) =~= lv);
    }
    let group = filter_key_exec(lines, k0, k1, 0);
    let common: Vec<Vec<char>> = if group.len() <= 1 {
        let c: Vec<Vec<char>> = Vec::new();
        proof {
            assert(tag_views(c@) =~= common_of(filter_key(lv, kk)));
        }
        c
    } else {
        proof {
            assert(mdvd_line_views(group@)[0] == group@[0]@);
            assert(tag_views(group@[0].formatting@).skip(0) =~= tag_views(
                group@[0].formatting@));
        }
        let seen: Vec<Vec<char>> = Vec::new();
        proof {
            assert(tag_views(seen@) =~= Seq::<Seq<char>>::empty());
        }
        let deduped = dedup_tags_exec(&group[0].formatting, seen, 0);
        proof {
            assert(tag_views(deduped@).skip(0) =~= tag_views(deduped@));
            assert(mdvd_line_views(group@).skip(0) =~= mdvd_line_views(group@));
        }
        let c = filter_in_all_exec(&deduped, &group, 0);
        proof {
            assert(tag_views(c@) =~= common_of(filter_key(lv, kk)));
        }
        c
    };
    let mut r: Vec<char> = Vec::new();
    r.push('{');
    let mut num = render_i64(k0);
    r.append(&mut num);
    r.push('}');
    r.push('{');
    let mut num = render_i64(k1);
    r.append(&mut num);
    r.push('}');
    proof {
        assert(tag_views(common@).skip(0) =~= tag_views(common@));
    }
    let mut cm = tags_upper_exec(&common, 0);
    r.append(&mut cm);
    proof {
        assert(mdvd_line_views(group@).skip(0) =~= mdvd_line_views(group@));
    }
    let mut sg = segs_render_exec(&group, &common, 0);
    r.append(&mut sg);
    proof {
        assert(r@ =~= group_render(lv, kk));
    }
    r
}

} // verus!
