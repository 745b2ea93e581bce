//! The aesthetic lyrics format (`.alrc`): a line-oriented text document with
//! `[ti:]`, `[ar:]` and `[length:]` header tags and time-stamped appreciation
//! lines such as
//! `[00:10.50] [和弦:C | 动态:Mezzo | 音色:Bright] [Synesthesia: ...] critique`.
//!
//! Times are kept in milliseconds.
use vstd::prelude::*;
use crate::report::{ReportInfo, ReportRow, RowModel};
use crate::text::{
    chars_of, decimal, decimal_string, find_char, find_in, has_prefix, lemma_find_char, lemma_split_char_nonempty,
    next_piece, parse_u64, parse_u64_window, skip_white, split_char, split_pair, trim,
    trim_start, trim_window, window_has_prefix, window_string,
};

verus! {

// ---------------------------------------------------------------------------
// Models
// ---------------------------------------------------------------------------

/// One time-stamped appreciation line.
pub struct AlrcSegment {
    /// Offset from the start of the track, in milliseconds.
    pub time_offset_ms: u128,
    pub chord: String,
    pub dynamic: String,
    pub timbre: String,
    pub synesthesia: String,
    pub critique: String,
}

/// Mathematical model of an [`AlrcSegment`].
pub struct SegmentModel {
    pub time_offset_ms: int,
    pub chord: Seq<char>,
    pub dynamic: Seq<char>,
    pub timbre: Seq<char>,
    pub synesthesia: Seq<char>,
    pub critique: Seq<char>,
}

impl View for AlrcSegment {
    type V = SegmentModel;

    open spec fn view(&self) -> SegmentModel {
        SegmentModel {
            time_offset_ms: self.time_offset_ms as int,
            chord: self.chord@,
            dynamic: self.dynamic@,
            timbre: self.timbre@,
            synesthesia: self.synesthesia@,
            critique: self.critique@,
        }
    }
}

/// Every offset a time stamp can denote lies below this bound.
pub open spec fn offset_bound() -> int {
    0x1_0000_0000_0000_0000_0000
}

// ---------------------------------------------------------------------------
// Time stamps
// ---------------------------------------------------------------------------

/// Milliseconds contributed by the fractional part `ff` of a time stamp whose
/// digits read as `value`: hundredths for two digits, thousandths for three,
/// nothing otherwise.
pub open spec fn fraction_ms(ff: Seq<char>, value: int) -> int {
    if ff.len() == 2 {
        value * 10
    } else if ff.len() == 3 {
        value
    } else {
        0
    }
}

/// A fraction of two digits counts hundredths and one of three thousandths:
/// appending a zero to two fraction digits names the same moment, and a
/// fraction never reaches a whole second.
pub proof fn lemma_fraction_units(ff: Seq<char>, value: int)
    requires
        0 <= value,
    ensures
        ff.len() == 2 ==> fraction_ms(ff, value) == fraction_ms(ff.push('0'), value * 10),
        ff.len() == 2 && value < 100 ==> 0 <= fraction_ms(ff, value) < 1000,
        ff.len() == 3 && value < 1000 ==> 0 <= fraction_ms(ff, value) < 1000,
{
}

/// The time stamp `mm:ss[.ff]` in milliseconds: exactly one `:`; minutes and
/// whole seconds as unsigned integers; the part after the first `.` (up to a
/// second `.`) as the fraction.
pub open spec fn spec_parse_time(s: Seq<char>) -> Option<int> {
    let parts = split_char(s, ':');
    if parts.len() != 2 {
        None
    } else {
        let sp = split_char(parts[1], '.');
        match (parse_u64(parts[0]), parse_u64(sp[0])) {
            (Some(mins), Some(secs)) => {
                if sp.len() > 1 {
                    match parse_u64(sp[1]) {
                        Some(v) => Some(mins * 60000 + secs * 1000 + fraction_ms(sp[1], v as int)),
                        None => None,
                    }
                } else {
                    Some(mins * 60000 + secs * 1000)
                }
            },
            _ => None,
        }
    }
}

/// Parses the time stamp held in the window `[lo, hi)`.
fn parse_time_window(v: &Vec<char>, lo: usize, hi: usize) -> (r: Option<u128>)
    requires
        lo <= hi <= v.len(),
    ensures
        match r {
            Some(t) => spec_parse_time(v@.subrange(lo as int, hi as int)) == Some(t as int) && t
                < offset_bound(),
            None => spec_parse_time(v@.subrange(lo as int, hi as int)) == None::<int>,
        },
{
    let ghost w = v@.subrange(lo as int, hi as int);
    let colon = match split_pair(v, lo, hi, ':') {
        Some(p) => p,
        None => {
            return None;
        },
    };
    let ghost parts = split_char(w, ':');
    let ghost rest = v@.subrange(colon + 1, hi as int);
    let mins = match parse_u64_window(v, lo, colon) {
        Some(m) => m,
        None => {
            return None;
        },
    };
    let dot = next_piece(v, colon + 1, hi, '.');
    let secs = match parse_u64_window(v, colon + 1, dot) {
        Some(x) => x,
        None => {
            return None;
        },
    };
    let whole = (mins as u128) * 60000 + (secs as u128) * 1000;
    if dot == hi {
        return Some(whole);
    }
    let frac_end = next_piece(v, dot + 1, hi, '.');
    proof {
        lemma_split_char_nonempty(v@.subrange(dot + 1, hi as int), '.');
    }
    let value = match parse_u64_window(v, dot + 1, frac_end) {
        Some(x) => x,
        None => {
            return None;
        },
    };
    let ff_len = frac_end - (dot + 1);
    let frac: u128 = if ff_len == 2 {
        (value as u128) * 10
    } else if ff_len == 3 {
        value as u128
    } else {
        0
    };
    Some(whole + frac)
}

/// Parses a time stamp `mm:ss[.ff]` into milliseconds.
pub fn parse_time(text: &str) -> (r: Option<u128>)
    ensures
        match r {
            Some(t) => spec_parse_time(text@) == Some(t as int),
            None => spec_parse_time(text@) == None::<int>,
        },
{
    let v = chars_of(text);
    assert(v@.subrange(0, v@.len() as int) =~= v@);
    parse_time_window(&v, 0, v.len())
}


// ---------------------------------------------------------------------------
// Appreciation lines
// ---------------------------------------------------------------------------

/// The attribute key for the chord (`和弦`).
pub open spec fn chord_key() -> Seq<char> {
    seq!['和', '弦']
}

/// The attribute key for the dynamic level (`动态`).
pub open spec fn dynamic_key() -> Seq<char> {
    seq!['动', '态']
}

/// The attribute key for the timbre (`音色`).
pub open spec fn timbre_key() -> Seq<char> {
    seq!['音', '色']
}

/// The prefix that introduces a synesthesia note.
pub open spec fn synesthesia_tag() -> Seq<char> {
    seq!['S', 'y', 'n', 'e', 's', 't', 'h', 'e', 's', 'i', 'a', ':']
}

/// Chord, dynamic level and timbre of a line.
pub struct Labels {
    pub chord: Seq<char>,
    pub dynamic: Seq<char>,
    pub timbre: Seq<char>,
}

/// The labels a line has when its attribute block says nothing.
pub open spec fn default_labels() -> Labels {
    Labels { chord: "Unknown"@, dynamic: "Medium"@, timbre: "Warm"@ }
}

/// One `key:value` attribute applied to `l`: a piece with exactly one `:`
/// whose trimmed key is a known attribute sets that label to the trimmed value.
pub open spec fn apply_attr(l: Labels, part: Seq<char>) -> Labels {
    let kv = split_char(part, ':');
    if kv.len() == 2 {
        let k = trim(kv[0]);
        let val = trim(kv[1]);
        if k == chord_key() {
            Labels { chord: val, dynamic: l.dynamic, timbre: l.timbre }
        } else if k == dynamic_key() {
            Labels { chord: l.chord, dynamic: val, timbre: l.timbre }
        } else if k == timbre_key() {
            Labels { chord: l.chord, dynamic: l.dynamic, timbre: val }
        } else {
            l
        }
    } else {
        l
    }
}

/// The attributes `parts` applied from left to right: a later one wins.
pub open spec fn apply_attrs(l: Labels, parts: Seq<Seq<char>>) -> Labels
    decreases parts.len(),
{
    if parts.len() == 0 {
        l
    } else {
        apply_attr(apply_attrs(l, parts.drop_last()), parts.last())
    }
}

/// A bracketed block at the start of `s` (after white space): its inside and
/// what follows its closing bracket.
pub open spec fn spec_bracket(s: Seq<char>) -> Option<(Seq<char>, Seq<char>)> {
    let t = trim_start(s);
    if t.len() > 0 && t[0] == '[' {
        match find_char(t, ']') {
            Some(k) => Some((t.subrange(1, k), t.skip(k + 1))),
            None => None,
        }
    } else {
        None
    }
}

/// The labels of the optional attribute block at the start of `rem`, and the
/// text after it.
pub open spec fn labels_block(rem: Seq<char>) -> (Labels, Seq<char>) {
    match spec_bracket(rem) {
        Some((inner, rest)) => (apply_attrs(default_labels(), split_char(inner, '|')), rest),
        None => (default_labels(), rem),
    }
}

/// The synesthesia note of the optional block at the start of `rem`, and the
/// text after that block.
pub open spec fn synesthesia_block(rem: Seq<char>) -> (Seq<char>, Seq<char>) {
    match spec_bracket(rem) {
        Some((inner, rest)) => (
            if has_prefix(inner, synesthesia_tag()) {
                trim(inner.skip(12))
            } else {
                seq![]
            },
            rest,
        ),
        None => (seq![], rem),
    }
}

/// An appreciation line: `[time]`, then an optional attribute block, an
/// optional synesthesia block, and the critique (the trimmed rest).
pub open spec fn spec_parse_line(line: Seq<char>) -> Option<SegmentModel> {
    if line.len() == 0 || line[0] != '[' {
        None
    } else {
        match find_char(line, ']') {
            None => None,
            Some(e) => match spec_parse_time(line.subrange(1, e)) {
                None => None,
                Some(t) => {
                    let lb = labels_block(line.skip(e + 1));
                    let sb = synesthesia_block(lb.1);
                    Some(
                        SegmentModel {
                            time_offset_ms: t,
                            chord: lb.0.chord,
                            dynamic: lb.0.dynamic,
                            timbre: lb.0.timbre,
                            synesthesia: sb.0,
                            critique: trim(sb.1),
                        },
                    )
                },
            },
        }
    }
}

/// The bracketed block at the start of the window `[lo, hi)`: the window of
/// its inside and the start of what follows it.
fn bracket_window(v: &Vec<char>, lo: usize, hi: usize) -> (r: Option<(usize, usize, usize)>)
    requires
        lo <= hi <= v.len(),
    ensures
        match r {
            Some((a, b, next)) => {
                &&& lo <= a <= b < next <= hi
                &&& spec_bracket(v@.subrange(lo as int, hi as int)) == Some(
                    (v@.subrange(a as int, b as int), v@.subrange(next as int, hi as int)),
                )
            },
            None => spec_bracket(v@.subrange(lo as int, hi as int)) is None,
        },
{
    let t0 = skip_white(v, lo, hi);
    let ghost t = v@.subrange(t0 as int, hi as int);
    if t0 < hi && v[t0] == '[' {
        match find_in(v, t0, hi, ']') {
            Some(k) => {
                proof {
                    lemma_find_char(t, ']');
                }
                assert(t.subrange(1, k - t0) =~= v@.subrange(t0 + 1, k as int));
                assert(t.skip(k - t0 + 1) =~= v@.subrange(k + 1, hi as int));
                Some((t0 + 1, k, k + 1))
            },
            None => None,
        }
    } else {
        None
    }
}

/// Whether the window `[lo, hi)` holds exactly the two characters `c0 c1`.
fn window_is_pair(v: &Vec<char>, lo: usize, hi: usize, c0: char, c1: char) -> (r: bool)
    requires
        lo <= hi <= v.len(),
    ensures
        r == (v@.subrange(lo as int, hi as int) == seq![c0, c1]),
{
    if hi - lo == 2 && v[lo] == c0 && v[lo + 1] == c1 {
        assert(v@.subrange(lo as int, hi as int) =~= seq![c0, c1]);
        true
    } else {
        proof {
            let w = v@.subrange(lo as int, hi as int);
            let p = seq![c0, c1];
            if w == p {
                assert(w.len() == p.len());
                assert(w[0] == v@[lo as int] && p[0] == c0);
                assert(w[1] == v@[lo + 1] && p[1] == c1);
            }
        }
        false
    }
}

/// Applies the `|`-separated attributes in the window `[lo, hi)` to the
/// three labels.
fn apply_attr_window(
    s: &str,
    v: &Vec<char>,
    lo: usize,
    hi: usize,
    chord: &mut String,
    dynamic: &mut String,
    timbre: &mut String,
)
    requires
        v@ == s@,
        lo <= hi <= v.len(),
    ensures
        apply_attrs(
            Labels { chord: old(chord)@, dynamic: old(dynamic)@, timbre: old(timbre)@ },
            split_char(v@.subrange(lo as int, hi as int), '|'),
        ) == (Labels { chord: final(chord)@, dynamic: final(dynamic)@, timbre: final(timbre)@ }),
{
    let ghost start = Labels { chord: chord@, dynamic: dynamic@, timbre: timbre@ };
    let ghost all = split_char(v@.subrange(lo as int, hi as int), '|');
    let ghost mut done: Seq<Seq<char>> = seq![];
    let mut cur = lo;
    assert(all == done + split_char(v@.subrange(cur as int, hi as int), '|'));
    loop
        invariant_except_break
            lo <= cur <= hi <= v.len(),
            v@ == s@,
            all == done + split_char(v@.subrange(cur as int, hi as int), '|'),
            apply_attrs(start, done) == (Labels { chord: chord@, dynamic: dynamic@, timbre: timbre@ }),
        ensures
            apply_attrs(start, all) == (Labels { chord: chord@, dynamic: dynamic@, timbre: timbre@ }),
        decreases hi - cur,
    {
        let end = next_piece(v, cur, hi, '|');
        let ghost piece = v@.subrange(cur as int, end as int);
        let ghost before = Labels { chord: chord@, dynamic: dynamic@, timbre: timbre@ };
        match split_pair(v, cur, end, ':') {
            Some(q) => {
                let (ka, kb) = trim_window(v, cur, q);
                let (va, vb) = trim_window(v, q + 1, end);
                if window_is_pair(v, ka, kb, '和', '弦') {
                    *chord = window_string(s, v, va, vb);
                } else if window_is_pair(v, ka, kb, '动', '态') {
                    *dynamic = window_string(s, v, va, vb);
                } else if window_is_pair(v, ka, kb, '音', '色') {
                    *timbre = window_string(s, v, va, vb);
                }
            },
            None => {},
        }
        assert(apply_attr(before, piece) == (Labels {
            chord: chord@,
            dynamic: dynamic@,
            timbre: timbre@,
        }));
        proof {
            let nd = done.push(piece);
            assert(nd.drop_last() =~= done);
            done = nd;
        }
        if end == hi {
            assert(all =~= done);
            break;
        }
        assert(all =~= done + split_char(v@.subrange(end + 1, hi as int), '|'));
        cur = end + 1;
    }
}

/// Parses the appreciation line held in the window `[lo, hi)` of `s`.
fn parse_line_window(s: &str, v: &Vec<char>, lo: usize, hi: usize) -> (r: Option<AlrcSegment>)
    requires
        v@ == s@,
        lo <= hi <= v.len(),
    ensures
        match r {
            Some(seg) => spec_parse_line(v@.subrange(lo as int, hi as int)) == Some(seg@)
                && seg.time_offset_ms < offset_bound(),
            None => spec_parse_line(v@.subrange(lo as int, hi as int)) is None,
        },
{
    let ghost line = v@.subrange(lo as int, hi as int);
    if lo == hi || v[lo] != '[' {
        return None;
    }
    let e = match find_in(v, lo, hi, ']') {
        Some(e) => e,
        None => {
            return None;
        },
    };
    proof {
        lemma_find_char(line, ']');
    }
    assert(line.subrange(1, e - lo) =~= v@.subrange(lo + 1, e as int));
    let t = match parse_time_window(v, lo + 1, e) {
        Some(t) => t,
        None => {
            return None;
        },
    };
    assert(line.skip(e - lo + 1) =~= v@.subrange(e + 1, hi as int));
    let mut chord = String::from_str("Unknown");
    let mut dynamic = String::from_str("Medium");
    let mut timbre = String::from_str("Warm");
    let rem1 = match bracket_window(v, e + 1, hi) {
        Some((a, b, next)) => {
            apply_attr_window(s, v, a, b, &mut chord, &mut dynamic, &mut timbre);
            next
        },
        None => e + 1,
    };
    let ghost lb = labels_block(line.skip(e - lo + 1));
    assert(lb.1 == v@.subrange(rem1 as int, hi as int));
    assert(lb.0 == (Labels { chord: chord@, dynamic: dynamic@, timbre: timbre@ }));
    let syn_tag: Vec<char> = vec!['S', 'y', 'n', 'e', 's', 't', 'h', 'e', 's', 'i', 'a', ':'];
    assert(syn_tag@ =~= synesthesia_tag());
    let mut synesthesia = String::new();
    let rem2 = match bracket_window(v, rem1, hi) {
        Some((a, b, next)) => {
            if window_has_prefix(v, a, b, &syn_tag) {
                let (sa, sb) = trim_window(v, a + 12, b);
                assert(v@.subrange(a as int, b as int).skip(12) =~= v@.subrange(a + 12, b as int));
                synesthesia = window_string(s, v, sa, sb);
            } else {
                assert(synesthesia@ =~= seq![]);
            }
            next
        },
        None => {
            assert(synesthesia@ =~= seq![]);
            rem1
        },
    };
    let (ca, cb) = trim_window(v, rem2, hi);
    let critique = window_string(s, v, ca, cb);
    Some(AlrcSegment { time_offset_ms: t, chord, dynamic, timbre, synesthesia, critique })
}

/// Parses one appreciation line.
pub fn parse_line(line: &str) -> (r: Option<AlrcSegment>)
    ensures
        match r {
            Some(seg) => spec_parse_line(line@) == Some(seg@),
            None => spec_parse_line(line@) is None,
        },
{
    let v = chars_of(line);
    assert(v@.subrange(0, v@.len() as int) =~= v@);
    parse_line_window(line, &v, 0, v.len())
}


// ---------------------------------------------------------------------------
// Documents
// ---------------------------------------------------------------------------

/// A parsed aesthetic lyrics document.
pub struct AlrcDoc {
    pub title: String,
    pub artist: String,
    /// Length of the piece in milliseconds.
    pub total_duration_ms: u128,
    /// The appreciation lines, ordered by time offset.
    pub segments: Vec<AlrcSegment>,
}

/// Mathematical model of a document while its lines are read.
pub struct DocModel {
    pub title: Seq<char>,
    pub artist: Seq<char>,
    pub total_duration_ms: int,
    pub segments: Seq<SegmentModel>,
}

/// Models of a sequence of segments.
pub open spec fn models(v: Seq<AlrcSegment>) -> Seq<SegmentModel> {
    v.map_values(|s: AlrcSegment| s@)
}

/// The segments of `s` that sit at offset `t`, in their order in `s`.
pub open spec fn at_time(s: Seq<SegmentModel>, t: int) -> Seq<SegmentModel> {
    s.filter(|x: SegmentModel| x.time_offset_ms == t)
}

/// The offsets of `s` never decrease.
pub open spec fn sorted_by_time(s: Seq<SegmentModel>) -> bool {
    forall|i: int, j: int|
        0 <= i < j < s.len() ==> #[trigger] s[i].time_offset_ms <= #[trigger] s[j].time_offset_ms
}

/// `sorted` is `orig` stably sorted by offset: ordered, and for every offset
/// the segments at that offset are those of `orig` in their original order.
pub open spec fn stably_sorted(sorted: Seq<SegmentModel>, orig: Seq<SegmentModel>) -> bool {
    &&& sorted_by_time(sorted)
    &&& forall|t: int| #[trigger] at_time(sorted, t) == at_time(orig, t)
}

pub open spec fn title_tag() -> Seq<char> {
    seq!['[', 't', 'i', ':']
}

pub open spec fn artist_tag() -> Seq<char> {
    seq!['[', 'a', 'r', ':']
}

pub open spec fn length_tag() -> Seq<char> {
    seq!['[', 'l', 'e', 'n', 'g', 't', 'h', ':']
}

/// A parsed number, or 0 when the text is not one.
pub open spec fn or_zero(o: Option<u64>) -> int {
    match o {
        Some(v) => v as int,
        None => 0,
    }
}

/// The document before any line is read.
pub open spec fn initial_doc() -> DocModel {
    DocModel {
        title: "Unknown Title"@,
        artist: "Unknown Artist"@,
        total_duration_ms: 0,
        segments: seq![],
    }
}

/// The effect of one (untrimmed) line on the document: blank lines are
/// skipped; `[ti:..]`, `[ar:..]` and `[length:mm:ss]` set the header (when
/// their `]` is present); any other line that parses is appended as a segment.
pub open spec fn doc_step(d: DocModel, raw: Seq<char>) -> DocModel {
    let line = trim(raw);
    if line.len() == 0 {
        d
    } else if has_prefix(line, title_tag()) {
        match find_char(line, ']') {
            Some(e) => DocModel {
                title: line.subrange(4, e),
                artist: d.artist,
                total_duration_ms: d.total_duration_ms,
                segments: d.segments,
            },
            None => d,
        }
    } else if has_prefix(line, artist_tag()) {
        match find_char(line, ']') {
            Some(e) => DocModel {
                title: d.title,
                artist: line.subrange(4, e),
                total_duration_ms: d.total_duration_ms,
                segments: d.segments,
            },
            None => d,
        }
    } else if has_prefix(line, length_tag()) {
        match find_char(line, ']') {
            Some(e) => {
                let parts = split_char(line.subrange(8, e), ':');
                if parts.len() == 2 {
                    DocModel {
                        title: d.title,
                        artist: d.artist,
                        total_duration_ms: (or_zero(parse_u64(parts[0])) * 60 + or_zero(
                            parse_u64(parts[1]),
                        )) * 1000,
                        segments: d.segments,
                    }
                } else {
                    d
                }
            },
            None => d,
        }
    } else {
        match spec_parse_line(line) {
            Some(seg) => DocModel {
                title: d.title,
                artist: d.artist,
                total_duration_ms: d.total_duration_ms,
                segments: d.segments.push(seg),
            },
            None => d,
        }
    }
}

/// The document after reading `lines` in order.
pub open spec fn read_lines(lines: Seq<Seq<char>>) -> DocModel
    decreases lines.len(),
{
    if lines.len() == 0 {
        initial_doc()
    } else {
        doc_step(read_lines(lines.drop_last()), lines.last())
    }
}

/// The lines of a text.
pub open spec fn text_lines(content: Seq<char>) -> Seq<Seq<char>> {
    split_char(content, '\n')
}

/// `doc` holds what `m` describes, its segments stably sorted by offset.
pub open spec fn holds_model(doc: AlrcDoc, m: DocModel) -> bool {
    &&& doc.title@ == m.title
    &&& doc.artist@ == m.artist
    &&& doc.total_duration_ms == m.total_duration_ms
    &&& stably_sorted(models(doc.segments@), m.segments)
    &&& offsets_bounded(doc.segments@)
}

/// Every offset in `v` lies below [`offset_bound`].
pub open spec fn offsets_bounded(v: Seq<AlrcSegment>) -> bool {
    forall|i: int| 0 <= i < v.len() ==> #[trigger] v[i].time_offset_ms < offset_bound()
}

/// A stable sort is empty exactly when what it sorts is.
proof fn lemma_stably_sorted_empty(a: Seq<SegmentModel>, b: Seq<SegmentModel>)
    requires
        stably_sorted(a, b),
    ensures
        a.len() == 0 <==> b.len() == 0,
{
    broadcast use Seq::lemma_filter_contains;

    if a.len() > 0 {
        let t = a[0].time_offset_ms;
        let pred = |y: SegmentModel| y.time_offset_ms == t;
        assert(a.filter(pred).contains(a[0]));
        if b.len() == 0 {
            lemma_filter_none(b, pred);
            assert(at_time(a, t) == at_time(b, t));
        }
    }
    if b.len() > 0 {
        let t = b[0].time_offset_ms;
        let pred = |y: SegmentModel| y.time_offset_ms == t;
        assert(b.filter(pred).contains(b[0]));
        if a.len() == 0 {
            lemma_filter_none(a, pred);
            assert(at_time(a, t) == at_time(b, t));
        }
    }
}

/// Filtering a sequence in which nothing passes gives nothing.
proof fn lemma_filter_none(s: Seq<SegmentModel>, pred: spec_fn(SegmentModel) -> bool)
    requires
        forall|i: int| 0 <= i < s.len() ==> !pred(#[trigger] s[i]),
    ensures
        s.filter(pred) == Seq::<SegmentModel>::empty(),
    decreases s.len(),
{
    reveal(Seq::filter);
    if s.len() > 0 {
        assert forall|i: int| 0 <= i < s.drop_last().len() implies !pred(
            #[trigger] s.drop_last()[i],
        ) by {
            assert(s.drop_last()[i] == s[i]);
        }
        lemma_filter_none(s.drop_last(), pred);
    }
    assert(s.filter(pred) =~= Seq::<SegmentModel>::empty());
}

/// Filtering after appending one element.
proof fn lemma_filter_push(s: Seq<SegmentModel>, x: SegmentModel, pred: spec_fn(SegmentModel) -> bool)
    ensures
        s.push(x).filter(pred) == (if pred(x) {
            s.filter(pred).push(x)
        } else {
            s.filter(pred)
        }),
{
    reveal(Seq::filter);
    assert(s.push(x).drop_last() =~= s);
}

/// Inserts `seg` after every segment whose offset is not greater.
fn insert_by_time(segs: &mut Vec<AlrcSegment>, seg: AlrcSegment)
    requires
        sorted_by_time(models(old(segs)@)),
        offsets_bounded(old(segs)@),
        seg.time_offset_ms < offset_bound(),
    ensures
        sorted_by_time(models(final(segs)@)),
        offsets_bounded(final(segs)@),
        forall|t: int| #[trigger]
            at_time(models(final(segs)@), t) == at_time(models(old(segs)@).push(seg@), t),
{
    let ghost old_m = models(segs@);
    let n = segs.len();
    let mut idx: usize = 0;
    while idx < n && segs[idx].time_offset_ms <= seg.time_offset_ms
        invariant
            idx <= n == segs.len(),
            old_m == models(segs@),
            forall|j: int| 0 <= j < idx ==> #[trigger] segs@[j].time_offset_ms
                <= seg.time_offset_ms,
        decreases n - idx,
    {
        idx = idx + 1;
    }
    let ghost x = seg@;
    let ghost a = old_m.take(idx as int);
    let ghost b = old_m.skip(idx as int);
    proof {
        assert forall|j: int| 0 <= j < b.len() implies #[trigger] b[j].time_offset_ms
            > x.time_offset_ms by {
            assert(b[j] == old_m[idx + j]);
            assert(old_m[idx + j] == segs@[idx + j]@);
            if idx < n {
                assert(old_m[idx as int] == segs@[idx as int]@);
                assert(old_m[idx as int].time_offset_ms <= old_m[idx + j].time_offset_ms);
            }
        }
    }
    let ghost old_v = segs@;
    segs.insert(idx, seg);
    assert(segs@ =~= old_v.insert(idx as int, seg));
    let ghost new_m = models(segs@);
    assert(new_m =~= a + seq![x] + b);
    assert(a + b =~= old_m);
    proof {
        assert forall|i: int, j: int| 0 <= i < j < new_m.len() implies #[trigger] new_m[i].time_offset_ms
            <= #[trigger] new_m[j].time_offset_ms by {
            if i < idx && j < idx {
                assert(new_m[i] == old_m[i] && new_m[j] == old_m[j]);
            } else if i < idx && j == idx {
                assert(new_m[i] == old_m[i]);
                assert(old_m[i] == segs@[i]@);
            } else if i < idx {
                assert(new_m[i] == old_m[i] && new_m[j] == old_m[j - 1]);
            } else if i == idx {
                assert(new_m[j] == b[j - idx - 1]);
            } else {
                assert(new_m[i] == old_m[i - 1] && new_m[j] == old_m[j - 1]);
            }
        }
        assert forall|t: int| #[trigger] at_time(new_m, t) == at_time(old_m.push(x), t) by {
            let pred = |y: SegmentModel| y.time_offset_ms == t;
            Seq::filter_distributes_over_add(a + seq![x], b, pred);
            Seq::filter_distributes_over_add(a, seq![x], pred);
            Seq::filter_distributes_over_add(a, b, pred);
            lemma_filter_push(Seq::<SegmentModel>::empty(), x, pred);
            assert(Seq::<SegmentModel>::empty().push(x) =~= seq![x]);
            lemma_filter_none(Seq::<SegmentModel>::empty(), pred);
            lemma_filter_push(old_m, x, pred);
            if x.time_offset_ms == t {
                lemma_filter_none(b, pred);
                assert(a.filter(pred) + b.filter(pred) =~= a.filter(pred));
                assert(at_time(new_m, t) =~= at_time(old_m.push(x), t));
            } else {
                assert(seq![x].filter(pred) =~= Seq::<SegmentModel>::empty());
                assert(at_time(new_m, t) =~= at_time(old_m.push(x), t));
            }
        }
    }
}

/// Applies the line in the window `[lo, hi)` of `s` to `doc`.
fn read_line_window(
    doc: &mut AlrcDoc,
    s: &str,
    v: &Vec<char>,
    lo: usize,
    hi: usize,
    Ghost(m): Ghost<DocModel>,
)
    requires
        v@ == s@,
        lo <= hi <= v.len(),
        holds_model(*old(doc), m),
    ensures
        holds_model(*final(doc), doc_step(m, v@.subrange(lo as int, hi as int))),
{
    let ghost raw = v@.subrange(lo as int, hi as int);
    let (a, b) = trim_window(v, lo, hi);
    let ghost line = v@.subrange(a as int, b as int);
    if a == b {
        return;
    }
    let ti: Vec<char> = vec!['[', 't', 'i', ':'];
    let ar: Vec<char> = vec!['[', 'a', 'r', ':'];
    let len_tag: Vec<char> = vec!['[', 'l', 'e', 'n', 'g', 't', 'h', ':'];
    assert(ti@ =~= title_tag());
    assert(ar@ =~= artist_tag());
    assert(len_tag@ =~= length_tag());
    if window_has_prefix(v, a, b, &ti) || window_has_prefix(v, a, b, &ar) {
        let is_title = window_has_prefix(v, a, b, &ti);
        let ghost tag = if is_title { title_tag() } else { artist_tag() };
        match find_in(v, a, b, ']') {
            Some(e) => {
                proof {
                    lemma_find_char(line, ']');
                    assert(line.take(4) == tag);
                    assert(line[0] == tag[0] && line[1] == tag[1] && line[2] == tag[2] && line[3]
                        == tag[3]);
                }
                assert(line.subrange(4, e - a) =~= v@.subrange(a + 4, e as int));
                let text = window_string(s, v, a + 4, e);
                if is_title {
                    doc.title = text;
                } else {
                    doc.artist = text;
                }
            },
            None => {},
        }
        return;
    }
    if window_has_prefix(v, a, b, &len_tag) {
        match find_in(v, a, b, ']') {
            Some(e) => {
                proof {
                    lemma_find_char(line, ']');
                    assert(line.take(8) == length_tag());
                    assert(line[0] == length_tag()[0] && line[1] == length_tag()[1] && line[2]
                        == length_tag()[2] && line[3] == length_tag()[3] && line[4]
                        == length_tag()[4] && line[5] == length_tag()[5] && line[6]
                        == length_tag()[6] && line[7] == length_tag()[7]);
                }
                assert(line.subrange(8, e - a) =~= v@.subrange(a + 8, e as int));
                match split_pair(v, a + 8, e, ':') {
                    Some(p) => {
                        let mins: u128 = match parse_u64_window(v, a + 8, p) {
                            Some(x) => x as u128,
                            None => 0,
                        };
                        let secs: u128 = match parse_u64_window(v, p + 1, e) {
                            Some(x) => x as u128,
                            None => 0,
                        };
                        doc.total_duration_ms = (mins * 60 + secs) * 1000;
                    },
                    None => {},
                }
            },
            None => {},
        }
        return;
    }
    match parse_line_window(s, v, a, b) {
        Some(seg) => {
            proof {
                lemma_filter_push(m.segments, seg@, |y: SegmentModel| y.time_offset_ms == 0);
            }
            insert_by_time(&mut doc.segments, seg);
            proof {
                assert forall|t: int| #[trigger] at_time(models(doc.segments@), t) == at_time(
                    m.segments.push(seg@),
                    t,
                ) by {
                    let pred = |y: SegmentModel| y.time_offset_ms == t;
                    lemma_filter_push(m.segments, seg@, pred);
                    lemma_filter_push(models(old(doc).segments@), seg@, pred);
                    assert(at_time(models(old(doc).segments@), t) == at_time(m.segments, t));
                }
            }
        },
        None => {},
    }
}

/// Reads every line of `content` into a document, with no default length.
fn read_document(content: &str) -> (doc: AlrcDoc)
    ensures
        holds_model(doc, read_lines(text_lines(content@))),
{
    let v = chars_of(content);
    let n = v.len();
    let mut doc = AlrcDoc {
        title: String::from_str("Unknown Title"),
        artist: String::from_str("Unknown Artist"),
        total_duration_ms: 0,
        segments: Vec::new(),
    };
    let ghost all = text_lines(v@);
    let ghost mut done: Seq<Seq<char>> = seq![];
    proof {
        reveal(Seq::filter);
        assert(v@.subrange(0, n as int) =~= v@);
        assert(all =~= done + split_char(v@.subrange(0, n as int), '\n'));
        assert forall|t: int| #[trigger] at_time(models(doc.segments@), t) == at_time(
            initial_doc().segments,
            t,
        ) by {
            assert(models(doc.segments@) =~= Seq::<SegmentModel>::empty());
        }
    }
    let mut cur: usize = 0;
    loop
        invariant_except_break
            cur <= n == v.len(),
            v@ == content@,
            all == done + split_char(v@.subrange(cur as int, n as int), '\n'),
            holds_model(doc, read_lines(done)),
        ensures
            all == done,
            holds_model(doc, read_lines(done)),
        decreases n - cur,
    {
        let end = next_piece(&v, cur, n, '\n');
        let ghost piece = v@.subrange(cur as int, end as int);
        read_line_window(&mut doc, content, &v, cur, end, Ghost(read_lines(done)));
        proof {
            let nd = done.push(piece);
            assert(nd.drop_last() =~= done);
            done = nd;
        }
        if end == n {
            assert(all =~= done);
            break;
        }
        assert(all =~= done + split_char(v@.subrange(end + 1, n as int), '\n'));
        cur = end + 1;
    }
    doc
}

/// The length to fall back on when none was given: the last offset plus five
/// seconds, or 0 when there are no segments.
pub open spec fn default_length(segs: Seq<AlrcSegment>) -> int {
    if segs.len() > 0 {
        segs.last().time_offset_ms + 5000
    } else {
        0
    }
}

/// The last offset plus five seconds, or 0 for no segments.
fn default_length_of(segs: &Vec<AlrcSegment>) -> (r: u128)
    requires
        offsets_bounded(segs@),
    ensures
        r == default_length(segs@),
{
    if segs.len() > 0 {
        let last = segs.len() - 1;
        assert(segs@[last as int].time_offset_ms < offset_bound());
        segs[last].time_offset_ms + 5000
    } else {
        0
    }
}

impl AlrcDoc {
    /// Parses the text of an aesthetic lyrics document.
    ///
    /// Header tags and appreciation lines are read in order; the segments end
    /// up stably sorted by offset. When no length was given (or it is zero)
    /// and there are segments, the length is the last offset plus five
    /// seconds.
    pub fn parse(content: &str) -> (doc: AlrcDoc)
        ensures
            ({
                let m = read_lines(text_lines(content@));
                &&& doc.title@ == m.title
                &&& doc.artist@ == m.artist
                &&& stably_sorted(models(doc.segments@), m.segments)
                &&& doc.total_duration_ms == (if m.total_duration_ms == 0 && m.segments.len() > 0 {
                    doc.segments@.last().time_offset_ms + 5000
                } else {
                    m.total_duration_ms
                })
            }),
    {
        let mut doc = read_document(content);
        let ghost m = read_lines(text_lines(content@));
        proof {
            lemma_stably_sorted_empty(models(doc.segments@), m.segments);
        }
        if doc.total_duration_ms == 0 {
            doc.total_duration_ms = default_length_of(&doc.segments);
        }
        doc
    }
}


// ---------------------------------------------------------------------------
// Live preview
// ---------------------------------------------------------------------------

/// `r` names the segment in force at `elapsed_ms`: the last one whose offset
/// is not after it, or none when every segment starts later.
pub open spec fn is_active_segment(segs: Seq<AlrcSegment>, elapsed_ms: int, r: Option<usize>) -> bool {
    match r {
        Some(i) => {
            &&& i < segs.len()
            &&& segs[i as int].time_offset_ms <= elapsed_ms
            &&& forall|j: int| i < j < segs.len() ==> #[trigger] segs[j].time_offset_ms > elapsed_ms
        },
        None => forall|j: int| 0 <= j < segs.len() ==> #[trigger] segs[j].time_offset_ms > elapsed_ms,
    }
}

/// What the live preview shows at one moment.
pub enum RenderFrame {
    /// The piece is over: the preview stops.
    Finished,
    /// The piece is playing; `active` is the segment in force, if any.
    Playing { active: Option<usize> },
}

impl AlrcDoc {
    /// The segment in force `elapsed_ms` milliseconds into the piece.
    pub fn active_segment(&self, elapsed_ms: u128) -> (r: Option<usize>)
        ensures
            is_active_segment(self.segments@, elapsed_ms as int, r),
    {
        let mut i = self.segments.len();
        while i > 0
            invariant
                i <= self.segments.len(),
                forall|j: int| i <= j < self.segments.len() ==> #[trigger] self.segments@[j].time_offset_ms
                    > elapsed_ms,
            decreases i,
        {
            if self.segments[i - 1].time_offset_ms <= elapsed_ms {
                return Some(i - 1);
            }
            i = i - 1;
        }
        None
    }

    /// The frame of the live preview `elapsed_ms` milliseconds into the piece:
    /// finished once the length is reached, otherwise the segment in force.
    pub fn render_frame(&self, elapsed_ms: u128) -> (r: RenderFrame)
        ensures
            match r {
                RenderFrame::Finished => elapsed_ms >= self.total_duration_ms,
                RenderFrame::Playing { active } => elapsed_ms < self.total_duration_ms
                    && is_active_segment(self.segments@, elapsed_ms as int, active),
            },
    {
        if elapsed_ms >= self.total_duration_ms {
            RenderFrame::Finished
        } else {
            RenderFrame::Playing { active: self.active_segment(elapsed_ms) }
        }
    }
}

/// `n` written with at least two digits (`{:02}`).
pub open spec fn two_digits(n: nat) -> Seq<char> {
    if n < 10 {
        "0"@ + decimal(n)
    } else {
        decimal(n)
    }
}

/// The clock of the live preview: elapsed minutes, seconds and hundredths,
/// then the length in minutes and seconds (`"01:05.20 / 03:30.00"`).
pub open spec fn spec_clock_text(elapsed_ms: nat, total_ms: nat) -> Seq<char> {
    let es = elapsed_ms / 1000;
    let hundredths = (elapsed_ms % 1000) / 10;
    let ts = total_ms / 1000;
    two_digits(es / 60) + ":"@ + two_digits(es % 60) + "."@ + two_digits(hundredths % 100) + " / "@
        + two_digits(ts / 60) + ":"@ + two_digits(ts % 60) + ".00"@
}

/// `n` written with at least two digits.
fn two_digit_text(n: u128) -> (r: String)
    ensures
        r@ == two_digits(n as nat),
{
    if n < 10 {
        String::from_str("0").concat(decimal_string(n).as_str())
    } else {
        decimal_string(n)
    }
}

/// The clock line of the live preview at `elapsed_ms` into a piece of
/// `total_ms` milliseconds.
pub fn clock_text(elapsed_ms: u128, total_ms: u128) -> (r: String)
    ensures
        r@ == spec_clock_text(elapsed_ms as nat, total_ms as nat),
{
    let es = elapsed_ms / 1000;
    let hundredths = (elapsed_ms % 1000) / 10;
    let ts = total_ms / 1000;
    two_digit_text(es / 60).concat(":").concat(two_digit_text(es % 60).as_str()).concat(".").concat(
        two_digit_text(hundredths % 100).as_str(),
    ).concat(" / ").concat(two_digit_text(ts / 60).as_str()).concat(":").concat(
        two_digit_text(ts % 60).as_str(),
    ).concat(".00")
}

/// Cells of the playback bar.
pub open spec fn playback_width() -> int {
    40
}

/// The playback bar with `filled` of its cells played: heavy cells up to a
/// marker, light cells after it; once every cell is played, one more heavy
/// cell takes the marker's place.
pub open spec fn spec_playback_bar(filled: int) -> Seq<char> {
    if filled < playback_width() {
        Seq::new(
            playback_width() as nat,
            |i: int|
                if i < filled {
                    '━'
                } else if i == filled {
                    '●'
                } else {
                    '─'
                },
        )
    } else {
        Seq::new((playback_width() + 1) as nat, |i: int| '━')
    }
}

/// The playback bar shows how much has been played: before the end it has
/// one cell per step, the played cells heavy, then one marker, then light
/// cells; at the end every cell is heavy and one more heavy cell takes the
/// marker's place.
pub proof fn lemma_playback_bar_shows_played(filled: int)
    requires
        0 <= filled <= playback_width(),
    ensures
        filled < playback_width() ==> spec_playback_bar(filled).len() == playback_width(),
        filled == playback_width() ==> spec_playback_bar(filled).len() == playback_width() + 1,
        forall|i: int| 0 <= i < spec_playback_bar(filled).len() ==> (#[trigger] spec_playback_bar(filled)[i]
            == '━' <==> (i < filled || filled == playback_width())),
        filled < playback_width() ==> spec_playback_bar(filled)[filled] == '●',
        forall|i: int| filled < i < spec_playback_bar(filled).len() ==> #[trigger] spec_playback_bar(filled)[i]
            == '─',
{
}

/// The playback bar of the live preview with `filled` cells played.
pub fn playback_bar(filled: usize) -> (r: String)
    requires
        filled <= 40,
    ensures
        r@ == spec_playback_bar(filled as int),
{
    let heavy = "━";
    let marker = "●";
    let light = "─";
    proof {
        reveal_strlit("━");
        reveal_strlit("●");
        reveal_strlit("─");
    }
    let ghost target = spec_playback_bar(filled as int);
    let mut bar = String::new();
    let mut i: usize = 0;
    while i < filled
        invariant
            i <= filled <= 40,
            heavy@ == seq!['━'],
            target == spec_playback_bar(filled as int),
            bar@ == target.take(i as int),
        decreases filled - i,
    {
        bar.append(heavy);
        assert(bar@ =~= target.take(i + 1));
        i = i + 1;
    }
    if filled < 40 {
        bar.append(marker);
        assert(bar@ =~= target.take(filled + 1));
        let mut j: usize = filled + 1;
        while j < 40
            invariant
                filled < j <= 40,
                light@ == seq!['─'],
                target == spec_playback_bar(filled as int),
                bar@ == target.take(j as int),
            decreases 40 - j,
        {
            bar.append(light);
            assert(bar@ =~= target.take(j + 1));
            j = j + 1;
        }
        assert(bar@ =~= target);
    } else {
        bar.append(heavy);
        assert(bar@ =~= target);
    }
    bar
}

// ---------------------------------------------------------------------------
// Falling back on the report
// ---------------------------------------------------------------------------

/// The title a document has when it names none.
pub open spec fn missing_title() -> Seq<char> {
    "Unknown Title"@
}

/// The label a segment carries when its chord or timbre is not known.
pub open spec fn unknown_label() -> Seq<char> {
    "Unknown"@
}

/// A document's length once the report is consulted: the length it gives
/// when nonzero; otherwise the report's duration when it gives a positive
/// one; otherwise the last offset plus five seconds (0 without segments).
pub open spec fn length_with_report(given: int, report: Option<int>, segs: Seq<AlrcSegment>) -> int {
    if given != 0 {
        given
    } else {
        match report {
            Some(d) => if d > 0 {
                d
            } else {
                default_length(segs)
            },
            None => default_length(segs),
        }
    }
}

/// A document's title once the report is consulted: its own, unless it
/// names none and the report names the analysed file.
pub open spec fn title_with_report(given: Seq<char>, report: Option<Seq<char>>) -> Seq<char> {
    if given == missing_title() {
        match report {
            Some(f) => f,
            None => given,
        }
    } else {
        given
    }
}

/// Row `r` of the report's table spans the moment `t`.
pub open spec fn covers(r: RowModel, t: int) -> bool {
    r.start_ms <= t < r.end_ms
}

/// The first row of `rows` that spans `t`, if any.
pub fn covering_row(rows: &Vec<ReportRow>, t: u128) -> (r: Option<usize>)
    ensures
        match r {
            Some(k) => k < rows@.len() && covers(rows@[k as int]@, t as int) && forall|j: int|
                0 <= j < k ==> !covers(#[trigger] rows@[j]@, t as int),
            None => forall|j: int| 0 <= j < rows@.len() ==> !covers(#[trigger] rows@[j]@, t as int),
        },
{
    let mut k: usize = 0;
    while k < rows.len()
        invariant
            k <= rows@.len(),
            forall|j: int| 0 <= j < k ==> !covers(#[trigger] rows@[j]@, t as int),
        decreases rows.len() - k,
    {
        if rows[k].start_ms <= t && t < rows[k].end_ms {
            return Some(k);
        }
        k = k + 1;
    }
    None
}

/// The chord, dynamic level and timbre the preview shows for a segment.
pub struct ShownLabels {
    pub chord: String,
    pub dynamic: String,
    pub timbre: String,
}

/// The labels shown for segment `s` at moment `t`: when its chord or timbre
/// is unknown and a row of the report spans `t`, the first such row's chord,
/// dynamic level and timbre; otherwise the segment's own.
pub open spec fn shows_labels(r: ShownLabels, s: SegmentModel, rows: Seq<RowModel>, t: int) -> bool {
    if (s.chord == unknown_label() || s.timbre == unknown_label()) && exists|k: int|
        0 <= k < rows.len() && covers(#[trigger] rows[k], t) {
        exists|k: int|
            0 <= k < rows.len() && covers(#[trigger] rows[k], t) && (forall|j: int|
                0 <= j < k ==> !covers(#[trigger] rows[j], t)) && r.chord@ == rows[k].chord
                && r.dynamic@ == rows[k].dynamic && r.timbre@ == rows[k].timbre
    } else {
        r.chord@ == s.chord && r.dynamic@ == s.dynamic && r.timbre@ == s.timbre
    }
}

impl AlrcDoc {
    /// Parses a document and fills in, from the co-located single-track
    /// report, what the document leaves out: the title (the report's file
    /// name) when it names none, and the length (the report's duration) when
    /// it gives none. The segments are those of [`AlrcDoc::parse`].
    pub fn parse_with_report(content: &str, report: &ReportInfo) -> (doc: AlrcDoc)
        ensures
            ({
                let m = read_lines(text_lines(content@));
                &&& doc.title@ == title_with_report(m.title, report@.filename)
                &&& doc.artist@ == m.artist
                &&& stably_sorted(models(doc.segments@), m.segments)
                &&& doc.total_duration_ms == length_with_report(
                    m.total_duration_ms,
                    report@.duration_ms,
                    doc.segments@,
                )
            }),
    {
        let mut doc = read_document(content);
        let missing = String::from_str("Unknown Title");
        if doc.title == missing {
            match &report.filename {
                Some(f) => {
                    doc.title = f.clone();
                },
                None => {},
            }
        }
        if doc.total_duration_ms == 0 {
            doc.total_duration_ms = match report.duration_ms {
                Some(d) => if d > 0 {
                    d
                } else {
                    default_length_of(&doc.segments)
                },
                None => default_length_of(&doc.segments),
            };
        }
        doc
    }

    /// The chord, dynamic level and timbre the preview shows for segment
    /// `index` at `elapsed_ms`: a segment whose chord or timbre is "Unknown"
    /// takes them from the report's row that spans that moment, when there
    /// is one.
    pub fn shown_labels(&self, index: usize, report: &ReportInfo, elapsed_ms: u128) -> (r: ShownLabels)
        requires
            index < self.segments@.len(),
        ensures
            shows_labels(r, self.segments@[index as int]@, report@.rows, elapsed_ms as int),
    {
        let seg = &self.segments[index];
        let unknown = String::from_str("Unknown");
        if seg.chord == unknown || seg.timbre == unknown {
            match covering_row(&report.rows, elapsed_ms) {
                Some(k) => {
                    let row = &report.rows[k];
                    assert(report@.rows[k as int] == row@);
                    assert forall|j: int| 0 <= j < k implies !covers(
                        #[trigger] report@.rows[j],
                        elapsed_ms as int,
                    ) by {
                        assert(report@.rows[j] == report.rows@[j]@);
                    }
                    return ShownLabels {
                        chord: row.chord.clone(),
                        dynamic: row.dynamic.clone(),
                        timbre: row.timbre.clone(),
                    };
                },
                None => {
                    assert forall|j: int| 0 <= j < report@.rows.len() implies !covers(
                        #[trigger] report@.rows[j],
                        elapsed_ms as int,
                    ) by {
                        assert(report@.rows[j] == report.rows@[j]@);
                    }
                },
            }
        }
        ShownLabels {
            chord: seg.chord.clone(),
            dynamic: seg.dynamic.clone(),
            timbre: seg.timbre.clone(),
        }
    }
}

} // verus!
