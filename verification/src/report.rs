//! Reading back a single-track report (`.lrmd.md`): the file name, the
//! duration and the rows of the segment table, which the live preview falls
//! back on where an `.alrc` document says nothing.
use vstd::prelude::*;
use crate::text::{
    chars_of, has_prefix, lemma_split_char_nonempty, next_piece, parse_u64, parse_u64_window,
    piece_bounds, split_char, split_pair, trim, trim_window, window_has_prefix, window_string,
    window_views,
};

verus! {

// ---------------------------------------------------------------------------
// Model
// ---------------------------------------------------------------------------

/// One row of the segment table: its time span and labels.
pub struct ReportRow {
    /// Start of the span, in milliseconds.
    pub start_ms: u128,
    /// End of the span, in milliseconds.
    pub end_ms: u128,
    pub chord: String,
    pub dynamic: String,
    pub timbre: String,
}

/// Mathematical model of a [`ReportRow`].
pub struct RowModel {
    pub start_ms: int,
    pub end_ms: int,
    pub chord: Seq<char>,
    pub dynamic: Seq<char>,
    pub timbre: Seq<char>,
}

impl View for ReportRow {
    type V = RowModel;

    open spec fn view(&self) -> RowModel {
        RowModel {
            start_ms: self.start_ms as int,
            end_ms: self.end_ms as int,
            chord: self.chord@,
            dynamic: self.dynamic@,
            timbre: self.timbre@,
        }
    }
}

/// What a report tells: the analysed file's name, its duration, and the
/// segment table.
pub struct ReportInfo {
    pub filename: Option<String>,
    /// Duration in milliseconds.
    pub duration_ms: Option<u128>,
    pub rows: Vec<ReportRow>,
}

/// Mathematical model of a [`ReportInfo`].
pub struct InfoModel {
    pub filename: Option<Seq<char>>,
    pub duration_ms: Option<int>,
    pub rows: Seq<RowModel>,
}

/// Models of a sequence of rows.
pub open spec fn row_models(rows: Seq<ReportRow>) -> Seq<RowModel> {
    rows.map_values(|r: ReportRow| r@)
}

impl View for ReportInfo {
    type V = InfoModel;

    open spec fn view(&self) -> InfoModel {
        InfoModel {
            filename: match self.filename {
                Some(f) => Some(f@),
                None => None,
            },
            duration_ms: match self.duration_ms {
                Some(d) => Some(d as int),
                None => None,
            },
            rows: row_models(self.rows@),
        }
    }
}

impl ReportInfo {
    /// A report that tells nothing (there is none).
    pub fn empty() -> (r: ReportInfo)
        ensures
            r@.filename is None,
            r@.duration_ms is None,
            r@.rows.len() == 0,
    {
        ReportInfo { filename: None, duration_ms: None, rows: Vec::new() }
    }
}

// ---------------------------------------------------------------------------
// Grammar
// ---------------------------------------------------------------------------

/// The factor that turns a fraction of `len` digits into milliseconds.
pub open spec fn frac_scale(len: int) -> int {
    if len == 1 {
        100
    } else if len == 2 {
        10
    } else {
        1
    }
}

/// A fraction of one, two or three digits counts tenths, hundredths or
/// thousandths of a second: scaled to milliseconds, its largest value is
/// 999 ms and one more digit divides the unit by ten.
pub proof fn lemma_frac_scale_units(len: int)
    requires
        1 <= len <= 3,
    ensures
        len == 1 ==> frac_scale(len) * 10 == 1000,
        len == 2 ==> frac_scale(len) * 100 == 1000,
        len == 3 ==> frac_scale(len) * 1000 == 1000,
        len < 3 ==> frac_scale(len) == frac_scale(len + 1) * 10,
{
}

/// A number of seconds written `w` or `w.f` with one to three fraction
/// digits, in milliseconds.
pub open spec fn spec_seconds_ms(s: Seq<char>) -> Option<int> {
    let parts = split_char(s, '.');
    match parse_u64(parts[0]) {
        None => None,
        Some(w) => if parts.len() == 1 {
            Some(w * 1000)
        } else if parts.len() == 2 && 1 <= parts[1].len() <= 3 && parts[1][0] != '+' {
            match parse_u64(parts[1]) {
                Some(f) => Some(w * 1000 + f * frac_scale(parts[1].len() as int)),
                None => None,
            }
        } else {
            None
        },
    }
}

/// A time span `"<a>s - <b>s"` in milliseconds.
pub open spec fn spec_range_ms(r: Seq<char>) -> Option<(int, int)> {
    let parts = split_char(r, '-');
    if parts.len() != 2 {
        None
    } else {
        let a = trim(parts[0]);
        let b = trim(parts[1]);
        if a.len() >= 1 && a.last() == 's' && b.len() >= 1 && b.last() == 's' {
            match (spec_seconds_ms(a.drop_last()), spec_seconds_ms(b.drop_last())) {
                (Some(x), Some(y)) => Some((x, y)),
                _ => None,
            }
        } else {
            None
        }
    }
}

/// `s` is enclosed in `**`.
pub open spec fn is_bold(s: Seq<char>) -> bool {
    s.len() >= 4 && s[0] == '*' && s[1] == '*' && s[s.len() - 2] == '*' && s[s.len() - 1] == '*'
}

/// `s` is enclosed in backticks.
pub open spec fn is_ticked(s: Seq<char>) -> bool {
    s.len() >= 2 && s[0] == '`' && s[s.len() - 1] == '`'
}

/// A table row `| **<span>** | `<chord>` | <dynamic> | <timbre> | <rhythm> |`.
pub open spec fn spec_parse_row(line: Seq<char>) -> Option<RowModel> {
    let cells = split_char(line, '|');
    if cells.len() == 7 && trim(cells[0]).len() == 0 && trim(cells[6]).len() == 0 {
        let c1 = trim(cells[1]);
        let c2 = trim(cells[2]);
        if is_bold(c1) && is_ticked(c2) {
            match spec_range_ms(c1.subrange(2, c1.len() - 2)) {
                Some(span) => Some(
                    RowModel {
                        start_ms: span.0,
                        end_ms: span.1,
                        chord: c2.subrange(1, c2.len() - 1),
                        dynamic: trim(cells[3]),
                        timbre: trim(cells[4]),
                    },
                ),
                None => None,
            }
        } else {
            None
        }
    } else {
        None
    }
}

/// How the file name line starts.
pub open spec fn filename_prefix() -> Seq<char> {
    "- **Filename**: `"@
}

/// How the duration line starts.
pub open spec fn duration_prefix() -> Seq<char> {
    "- **Duration**: `"@
}

/// How the duration line ends.
pub open spec fn duration_suffix() -> Seq<char> {
    " seconds`"@
}

/// `p` is a suffix of `s`.
pub open spec fn has_suffix(s: Seq<char>, p: Seq<char>) -> bool {
    p.len() <= s.len() && s.skip(s.len() - p.len()) == p
}

/// The report before any line is read.
pub open spec fn empty_info() -> InfoModel {
    InfoModel { filename: None, duration_ms: None, rows: seq![] }
}

/// The effect of one (untrimmed) line: the file name line and the duration
/// line set those fields (the last one wins); a table row is appended; any
/// other line is skipped.
pub open spec fn report_step(m: InfoModel, raw: Seq<char>) -> InfoModel {
    let line = trim(raw);
    let fp = filename_prefix();
    let dp = duration_prefix();
    let ds = duration_suffix();
    if has_prefix(line, fp) && line.len() > fp.len() && line.last() == '`' {
        InfoModel { filename: Some(line.subrange(fp.len() as int, line.len() - 1)), ..m }
    } else if has_prefix(line, dp) && line.len() >= dp.len() + ds.len() && has_suffix(line, ds) {
        match spec_seconds_ms(line.subrange(dp.len() as int, line.len() - ds.len())) {
            Some(d) => InfoModel { duration_ms: Some(d), ..m },
            None => m,
        }
    } else {
        match spec_parse_row(line) {
            Some(r) => InfoModel { rows: m.rows.push(r), ..m },
            None => m,
        }
    }
}

/// The report after reading `lines` in order.
pub open spec fn read_report(lines: Seq<Seq<char>>) -> InfoModel
    decreases lines.len(),
{
    if lines.len() == 0 {
        empty_info()
    } else {
        report_step(read_report(lines.drop_last()), lines.last())
    }
}

/// What the text of a report tells.
pub open spec fn spec_parse_report(content: Seq<char>) -> InfoModel {
    read_report(split_char(content, '\n'))
}

// ---------------------------------------------------------------------------
// Parsing
// ---------------------------------------------------------------------------

/// The seconds in the window `[lo, hi)`, in milliseconds.
fn seconds_window(v: &Vec<char>, lo: usize, hi: usize) -> (r: Option<u128>)
    requires
        lo <= hi <= v.len(),
    ensures
        match r {
            Some(x) => spec_seconds_ms(v@.subrange(lo as int, hi as int)) == Some(x as int),
            None => spec_seconds_ms(v@.subrange(lo as int, hi as int)) is None,
        },
{
    let ghost w = v@.subrange(lo as int, hi as int);
    let dot = next_piece(v, lo, hi, '.');
    let ghost parts = split_char(w, '.');
    assert(parts[0] == v@.subrange(lo as int, dot as int));
    let whole: u128 = match parse_u64_window(v, lo, dot) {
        None => {
            return None;
        },
        Some(x) => (x as u128) * 1000,
    };
    if dot == hi {
        return Some(whole);
    }
    let ghost rest = v@.subrange(dot + 1, hi as int);
    let e2 = next_piece(v, dot + 1, hi, '.');
    if e2 < hi {
        proof {
            lemma_split_char_nonempty(v@.subrange(e2 + 1, hi as int), '.');
        }
        assert(parts.len() >= 3);
        return None;
    }
    assert(parts.len() == 2 && parts[1] == rest);
    let flen = hi - (dot + 1);
    if flen < 1 || flen > 3 {
        return None;
    }
    if v[dot + 1] == '+' {
        assert(rest[0] == '+');
        return None;
    }
    let scale: u128 = if flen == 1 {
        100
    } else if flen == 2 {
        10
    } else {
        1
    };
    match parse_u64_window(v, dot + 1, hi) {
        None => None,
        Some(f) => Some(whole + (f as u128) * scale),
    }
}

/// The time span in the window `[lo, hi)`, in milliseconds.
fn range_window(v: &Vec<char>, lo: usize, hi: usize) -> (r: Option<(u128, u128)>)
    requires
        lo <= hi <= v.len(),
    ensures
        match r {
            Some((x, y)) => spec_range_ms(v@.subrange(lo as int, hi as int)) == Some(
                (x as int, y as int),
            ),
            None => spec_range_ms(v@.subrange(lo as int, hi as int)) is None,
        },
{
    let p = match split_pair(v, lo, hi, '-') {
        None => {
            return None;
        },
        Some(p) => p,
    };
    let (a0, a1) = trim_window(v, lo, p);
    let (b0, b1) = trim_window(v, p + 1, hi);
    if a1 == a0 || v[a1 - 1] != 's' || b1 == b0 || v[b1 - 1] != 's' {
        return None;
    }
    assert(v@.subrange(a0 as int, a1 as int).drop_last() =~= v@.subrange(a0 as int, a1 - 1));
    assert(v@.subrange(b0 as int, b1 as int).drop_last() =~= v@.subrange(b0 as int, b1 - 1));
    let x = match seconds_window(v, a0, a1 - 1) {
        None => {
            return None;
        },
        Some(x) => x,
    };
    let y = match seconds_window(v, b0, b1 - 1) {
        None => {
            return None;
        },
        Some(y) => y,
    };
    Some((x, y))
}

/// The table row in the window `[lo, hi)` of `s`, whose characters are `v`.
fn row_window(s: &str, v: &Vec<char>, lo: usize, hi: usize) -> (r: Option<ReportRow>)
    requires
        v@ == s@,
        lo <= hi <= v.len(),
    ensures
        match r {
            Some(row) => spec_parse_row(v@.subrange(lo as int, hi as int)) == Some(row@),
            None => spec_parse_row(v@.subrange(lo as int, hi as int)) is None,
        },
{
    let ghost w = v@.subrange(lo as int, hi as int);
    let cells = piece_bounds(v, lo, hi, '|');
    let ghost cv = split_char(w, '|');
    if cells.len() != 7 {
        return None;
    }
    assert forall|k: int| 0 <= k < 7 implies #[trigger] cv[k] == v@.subrange(
        cells@[k].0 as int,
        cells@[k].1 as int,
    ) by {
        assert(window_views(v@, cells@)[k] == v@.subrange(cells@[k].0 as int, cells@[k].1 as int));
    }
    let (e0, e1) = trim_window(v, cells[0].0, cells[0].1);
    let (f0, f1) = trim_window(v, cells[6].0, cells[6].1);
    assert(cv[0] == v@.subrange(cells@[0].0 as int, cells@[0].1 as int));
    assert(cv[6] == v@.subrange(cells@[6].0 as int, cells@[6].1 as int));
    if e0 != e1 || f0 != f1 {
        return None;
    }
    let (p0, p1) = trim_window(v, cells[1].0, cells[1].1);
    let (q0, q1) = trim_window(v, cells[2].0, cells[2].1);
    assert(cv[1] == v@.subrange(cells@[1].0 as int, cells@[1].1 as int));
    assert(cv[2] == v@.subrange(cells@[2].0 as int, cells@[2].1 as int));
    let ghost c1 = v@.subrange(p0 as int, p1 as int);
    let ghost c2 = v@.subrange(q0 as int, q1 as int);
    if p1 - p0 < 4 || v[p0] != '*' || v[p0 + 1] != '*' || v[p1 - 2] != '*' || v[p1 - 1] != '*' {
        if p1 - p0 >= 4 {
            assert(c1[0] == v@[p0 as int] && c1[1] == v@[p0 + 1] && c1[c1.len() - 2] == v@[p1 - 2]
                && c1[c1.len() - 1] == v@[p1 - 1]);
        }
        return None;
    }
    assert(c1[0] == v@[p0 as int] && c1[1] == v@[p0 + 1] && c1[c1.len() - 2] == v@[p1 - 2]
        && c1[c1.len() - 1] == v@[p1 - 1]);
    if q1 - q0 < 2 || v[q0] != '`' || v[q1 - 1] != '`' {
        if q1 - q0 >= 2 {
            assert(c2[0] == v@[q0 as int] && c2[c2.len() - 1] == v@[q1 - 1]);
        }
        return None;
    }
    assert(c2[0] == v@[q0 as int] && c2[c2.len() - 1] == v@[q1 - 1]);
    assert(c1.subrange(2, c1.len() - 2) =~= v@.subrange(p0 + 2, p1 - 2));
    let span = match range_window(v, p0 + 2, p1 - 2) {
        None => {
            return None;
        },
        Some(span) => span,
    };
    assert(c2.subrange(1, c2.len() - 1) =~= v@.subrange(q0 + 1, q1 - 1));
    let (d0, d1) = trim_window(v, cells[3].0, cells[3].1);
    let (t0, t1) = trim_window(v, cells[4].0, cells[4].1);
    assert(cv[3] == v@.subrange(cells@[3].0 as int, cells@[3].1 as int));
    assert(cv[4] == v@.subrange(cells@[4].0 as int, cells@[4].1 as int));
    Some(
        ReportRow {
            start_ms: span.0,
            end_ms: span.1,
            chord: window_string(s, v, q0 + 1, q1 - 1),
            dynamic: window_string(s, v, d0, d1),
            timbre: window_string(s, v, t0, t1),
        },
    )
}

/// Applies the line in the window `[lo, hi)` of `s` to `info`.
fn read_report_line(info: &mut ReportInfo, s: &str, v: &Vec<char>, lo: usize, hi: usize)
    requires
        v@ == s@,
        lo <= hi <= v.len(),
    ensures
        final(info)@ == report_step(old(info)@, v@.subrange(lo as int, hi as int)),
{
    let (a, b) = trim_window(v, lo, hi);
    let ghost line = v@.subrange(a as int, b as int);
    let fp = chars_of("- **Filename**: `");
    let dp = chars_of("- **Duration**: `");
    let ds = chars_of(" seconds`");
    if window_has_prefix(v, a, b, &fp) && b - a > fp.len() && v[b - 1] == '`' {
        assert(line.last() == v@[b - 1]);
        assert(line.subrange(fp@.len() as int, line.len() - 1) =~= v@.subrange(
            a + fp@.len(),
            b - 1,
        ));
        info.filename = Some(window_string(s, v, a + fp.len(), b - 1));
        return;
    }
    if b - a > fp.len() && window_has_prefix(v, a, b, &fp) {
        assert(line.last() == v@[b - 1]);
    }
    if window_has_prefix(v, a, b, &dp) && b - a >= dp.len() && b - a - dp.len() >= ds.len() && window_has_prefix(
        v,
        b - ds.len(),
        b,
        &ds,
    ) {
        assert(v@.subrange(b - ds@.len(), b as int).take(ds@.len() as int) =~= v@.subrange(
            b - ds@.len(),
            b as int,
        ));
        assert(line.skip(line.len() - ds@.len()) =~= v@.subrange(b - ds@.len(), b as int));
        assert(line.subrange(dp@.len() as int, line.len() - ds@.len()) =~= v@.subrange(
            a + dp@.len(),
            b - ds@.len(),
        ));
        match seconds_window(v, a + dp.len(), b - ds.len()) {
            Some(d) => {
                info.duration_ms = Some(d);
            },
            None => {},
        }
        return;
    }
    if window_has_prefix(v, a, b, &dp) && b - a >= dp.len() && b - a - dp.len() >= ds.len() {
        assert(v@.subrange(b - ds@.len(), b as int).take(ds@.len() as int) =~= v@.subrange(
            b - ds@.len(),
            b as int,
        ));
        assert(line.skip(line.len() - ds@.len()) =~= v@.subrange(b - ds@.len(), b as int));
    }
    match row_window(s, v, a, b) {
        Some(row) => {
            let ghost before = info.rows@;
            let ghost rv = row@;
            info.rows.push(row);
            assert(row_models(info.rows@) =~= row_models(before).push(rv));
        },
        None => {},
    }
}

/// Reads the text of a single-track report.
pub fn parse_report(content: &str) -> (r: ReportInfo)
    ensures
        r@ == spec_parse_report(content@),
{
    let v = chars_of(content);
    let n = v.len();
    let mut info = ReportInfo::empty();
    let ghost all = split_char(v@, '\n');
    let ghost mut done: Seq<Seq<char>> = seq![];
    assert(v@.subrange(0, n as int) =~= v@);
    assert(info@.rows =~= empty_info().rows);
    let mut cur: usize = 0;
    loop
        invariant_except_break
            cur <= n == v.len(),
            v@ == content@,
            all == done + split_char(v@.subrange(cur as int, n as int), '\n'),
            info@ == read_report(done),
        ensures
            all == done,
            info@ == read_report(done),
        decreases n - cur,
    {
        let end = next_piece(&v, cur, n, '\n');
        let ghost piece = v@.subrange(cur as int, end as int);
        read_report_line(&mut info, content, &v, cur, end);
        proof {
            let nd = done.push(piece);
            assert(nd.drop_last() =~= done);
            done = nd;
        }
        if end == n {
            assert(all =~= done);
            break;
        }
        assert(all =~= done + split_char(v@.subrange(end + 1, n as int), '\n'));
        cur = end + 1;
    }
    info
}

} // verus!
