//! Batch analysis of a directory: where each report goes, and the tally of
//! the run. Scanning, threads and file output are the caller's.
use vstd::prelude::*;
use crate::paths::{join_path, path_join, path_strip_prefix, strip_path_prefix};
use crate::text::{chars_of, next_piece, split_char, string_views, trim, trim_window};

verus! {

/// The suffix of an analysis report file.
pub open spec fn report_suffix() -> Seq<char> {
    ".lrmd.md"@
}

/// Where the report of `audio_path` goes: next to the audio file, or, with an
/// output directory, under it at the audio file's place relative to the batch
/// directory (the audio path itself when it does not lie under the batch
/// directory).
pub open spec fn spec_report_path(audio_path: Seq<char>, batch_dir: Seq<char>, out_dir: Option<Seq<char>>) -> Seq<char> {
    match out_dir {
        Some(out) => {
            let rel = match path_strip_prefix(audio_path, batch_dir) {
                Some(r) => r,
                None => audio_path,
            };
            path_join(out, rel) + report_suffix()
        },
        None => audio_path + report_suffix(),
    }
}

/// The path of the report file for `audio_path`.
pub fn get_target_report_path(audio_path: &str, batch_dir: &str, out_dir: Option<&str>) -> (r: String)
    ensures
        r@ == spec_report_path(
            audio_path@,
            batch_dir@,
            match out_dir {
                Some(o) => Some(o@),
                None => None,
            },
        ),
{
    match out_dir {
        Some(out) => {
            let dest = match strip_path_prefix(audio_path, batch_dir) {
                Some(rel) => join_path(out, rel.as_str()),
                None => join_path(out, audio_path),
            };
            dest.concat(".lrmd.md")
        },
        None => String::from_str(audio_path).concat(".lrmd.md"),
    }
}

// ---------------------------------------------------------------------------
// Which files a run takes
// ---------------------------------------------------------------------------

/// `c` with an ASCII capital letter turned into its small letter.
pub open spec fn ascii_lower(c: char) -> char {
    if 65 <= (c as u32) <= 90 {
        ((c as u32) + 32) as char
    } else {
        c
    }
}

/// `a` and `b` are equal when ASCII letters are compared without regard to
/// case (`str::eq_ignore_ascii_case`).
pub open spec fn eq_ignore_ascii_case(a: Seq<char>, b: Seq<char>) -> bool {
    a.len() == b.len() && forall|i: int| 0 <= i < a.len() ==> #[trigger] ascii_lower(a[i])
        == ascii_lower(b[i])
}

/// Comparing without regard to ASCII case identifies exactly a capital
/// ASCII letter with its small letter: two characters compare equal if and
/// only if they are the same or are the two cases of one ASCII letter; so
/// `"MP3"` matches `"mp3"` but `"É"` does not match `"é"`. The comparison is
/// an equivalence.
pub proof fn lemma_ascii_case_pairs(c: char, d: char, a: Seq<char>, b: Seq<char>, e: Seq<char>)
    ensures
        ascii_lower(c) == ascii_lower(d) <==> (c == d || (65 <= (c as u32) <= 90 && (d as u32)
            == (c as u32) + 32) || (65 <= (d as u32) <= 90 && (c as u32) == (d as u32) + 32)),
        eq_ignore_ascii_case(a, a),
        eq_ignore_ascii_case(a, b) ==> eq_ignore_ascii_case(b, a),
        eq_ignore_ascii_case(a, b) && eq_ignore_ascii_case(b, e) ==> eq_ignore_ascii_case(a, e),
{
    let cu = c as u32;
    let du = d as u32;
    if 65 <= cu <= 90 {
        assert((((cu + 32) as u32) as char) as u32 == cu + 32);
    }
    if 65 <= du <= 90 {
        assert((((du + 32) as u32) as char) as u32 == du + 32);
    }
    if eq_ignore_ascii_case(a, b) && eq_ignore_ascii_case(b, e) {
        assert forall|i: int| 0 <= i < a.len() implies #[trigger] ascii_lower(a[i]) == ascii_lower(e[i]) by {
            assert(ascii_lower(a[i]) == ascii_lower(b[i]));
            assert(ascii_lower(b[i]) == ascii_lower(e[i]));
        }
    }
}

/// `ext` is one of `extensions`, ignoring ASCII case.
pub open spec fn extension_listed(extensions: Seq<Seq<char>>, ext: Seq<char>) -> bool {
    exists|i: int| 0 <= i < extensions.len() && eq_ignore_ascii_case(#[trigger] extensions[i], ext)
}

/// The small letter of `c` when it is an ASCII capital.
fn ascii_lower_char(c: char) -> (r: char)
    ensures
        r == ascii_lower(c),
{
    let u = c as u32;
    if 65 <= u && u <= 90 {
        let small = (u + 32) as u8;
        small as char
    } else {
        c
    }
}

/// Whether `a` and `b` are equal ignoring ASCII case.
fn same_ignoring_ascii_case(a: &str, b: &str) -> (r: bool)
    ensures
        r == eq_ignore_ascii_case(a@, b@),
{
    let va = chars_of(a);
    let vb = chars_of(b);
    if va.len() != vb.len() {
        return false;
    }
    let mut i: usize = 0;
    while i < va.len()
        invariant
            i <= va.len() == vb.len(),
            va@ == a@,
            vb@ == b@,
            forall|j: int| 0 <= j < i ==> #[trigger] ascii_lower(a@[j]) == ascii_lower(b@[j]),
        decreases va.len() - i,
    {
        if ascii_lower_char(va[i]) != ascii_lower_char(vb[i]) {
            return false;
        }
        i = i + 1;
    }
    true
}

/// Whether a file with extension `ext` is to be analysed: the extension is
/// one of `extensions`, compared without regard to ASCII case.
pub fn matches_extension(extensions: &Vec<String>, ext: &str) -> (r: bool)
    ensures
        r == extension_listed(string_views(extensions@), ext@),
{
    let ghost views = string_views(extensions@);
    let mut i: usize = 0;
    while i < extensions.len()
        invariant
            i <= extensions.len(),
            views == string_views(extensions@),
            forall|j: int| 0 <= j < i ==> !eq_ignore_ascii_case(#[trigger] views[j], ext@),
        decreases extensions.len() - i,
    {
        assert(views[i as int] == extensions@[i as int]@);
        if same_ignoring_ascii_case(extensions[i].as_str(), ext) {
            return true;
        }
        i = i + 1;
    }
    false
}

/// The extension list written as text: the pieces between commas, each
/// trimmed of white space.
pub open spec fn spec_extension_list(text: Seq<char>) -> Seq<Seq<char>> {
    split_char(text, ',').map_values(|p: Seq<char>| trim(p))
}

/// Reads a comma-separated extension list such as `"mp3, flac,wav"`.
pub fn split_extensions(text: &str) -> (r: Vec<String>)
    ensures
        string_views(r@) == spec_extension_list(text@),
{
    let v = chars_of(text);
    let n = v.len();
    let mut r: Vec<String> = Vec::new();
    let mut lo: usize = 0;
    assert(v@.subrange(0, n as int) =~= v@);
    loop
        invariant
            lo <= n == v.len(),
            v@ == text@,
            string_views(r@) + spec_extension_list(v@.subrange(lo as int, n as int))
                == spec_extension_list(text@),
        decreases n - lo,
    {
        let end = next_piece(&v, lo, n, ',');
        let (a, b) = trim_window(&v, lo, end);
        let piece = String::from_str(text.substring_char(a, b));
        let ghost before = r@;
        r.push(piece);
        assert(string_views(r@) =~= string_views(before).push(trim(v@.subrange(lo as int, end as int))));
        if end == n {
            assert(spec_extension_list(v@.subrange(lo as int, n as int)) =~= seq![trim(v@.subrange(lo as int, n as int))]);
            return r;
        }
        assert(spec_extension_list(v@.subrange(lo as int, n as int)) =~= seq![trim(v@.subrange(lo as int, end as int))] + spec_extension_list(v@.subrange(end + 1, n as int)));
        lo = end + 1;
    }
}

/// Positions `0..n` of the files a run analyses: all of them, except, when
/// existing reports are skipped, those whose report already exists.
pub open spec fn spec_pending(report_exists: Seq<bool>, skip_existing: bool) -> Seq<int>
    decreases report_exists.len(),
{
    if report_exists.len() == 0 {
        seq![]
    } else {
        let last = report_exists.len() - 1;
        let rest = spec_pending(report_exists.drop_last(), skip_existing);
        if skip_existing && report_exists[last] {
            rest
        } else {
            rest.push(last)
        }
    }
}

/// Skipping is exactly what `--skip-existing` asks for: a file is analysed
/// if and only if existing reports are not skipped or its report does not
/// exist; the files to analyse are listed once each, in increasing order;
/// and together with the skipped ones they account for every file.
pub proof fn lemma_pending_is_exactly_the_unskipped(report_exists: Seq<bool>, skip_existing: bool)
    ensures
        forall|i: int|
            0 <= i < report_exists.len() ==> (#[trigger] spec_pending(report_exists, skip_existing).contains(i)
                <==> !(skip_existing && report_exists[i])),
        forall|k: int|
            0 <= k < spec_pending(report_exists, skip_existing).len() ==> 0 <= #[trigger] spec_pending(
                report_exists,
                skip_existing,
            )[k] < report_exists.len(),
        forall|k: int, l: int|
            0 <= k < l < spec_pending(report_exists, skip_existing).len() ==> #[trigger] spec_pending(
                report_exists,
                skip_existing,
            )[k] < #[trigger] spec_pending(report_exists, skip_existing)[l],
    decreases report_exists.len(),
{
    if report_exists.len() > 0 {
        let prev = report_exists.drop_last();
        let last = report_exists.len() - 1;
        lemma_pending_is_exactly_the_unskipped(prev, skip_existing);
        let rest = spec_pending(prev, skip_existing);
        let cur = spec_pending(report_exists, skip_existing);
        assert forall|i: int| 0 <= i < report_exists.len() implies (#[trigger] cur.contains(i)
            <==> !(skip_existing && report_exists[i])) by {
            if i < last {
                assert(prev[i] == report_exists[i]);
                if cur.contains(i) {
                    let k = choose|k: int| 0 <= k < cur.len() && cur[k] == i;
                    if !(skip_existing && report_exists[last]) && k == rest.len() {
                    } else {
                        assert(rest[k] == i);
                        assert(rest.contains(i));
                    }
                }
                if rest.contains(i) {
                    let k = choose|k: int| 0 <= k < rest.len() && rest[k] == i;
                    assert(cur[k] == i);
                }
            } else {
                if !(skip_existing && report_exists[last]) {
                    assert(cur[rest.len() as int] == last);
                } else {
                    if cur.contains(i) {
                        let k = choose|k: int| 0 <= k < cur.len() && cur[k] == i;
                        assert(rest[k] < prev.len());
                    }
                }
            }
        }
    }
}

/// `s` lists position `i`.
pub open spec fn lists(s: Seq<usize>, i: int) -> bool {
    exists|k: int| 0 <= k < s.len() && s[k] == i
}

/// Splits the files of a run into those to analyse and those skipped, given
/// for each file whether a non-empty report of it already exists: it returns
/// the positions of the files to analyse, in order, and how many were
/// skipped.
pub fn select_pending(report_exists: &Vec<bool>, skip_existing: bool) -> (r: (Vec<usize>, usize))
    ensures
        r.0@.map_values(|i: usize| i as int) == spec_pending(report_exists@, skip_existing),
        r.0@.len() + r.1 == report_exists@.len(),
        forall|i: int|
            0 <= i < report_exists@.len() ==> (#[trigger] lists(r.0@, i) <==> !(skip_existing
                && report_exists@[i])),
{
    let mut pending: Vec<usize> = Vec::new();
    let mut skipped: usize = 0;
    let mut i: usize = 0;
    while i < report_exists.len()
        invariant
            i <= report_exists.len(),
            pending@.map_values(|k: usize| k as int) == spec_pending(report_exists@.take(i as int), skip_existing),
            pending@.len() + skipped == i,
        decreases report_exists.len() - i,
    {
        assert(report_exists@.take(i + 1).drop_last() =~= report_exists@.take(i as int));
        if skip_existing && report_exists[i] {
            skipped = skipped + 1;
        } else {
            let ghost before = pending@;
            pending.push(i);
            assert(pending@.map_values(|k: usize| k as int) =~= before.map_values(|k: usize| k as int).push(i as int));
        }
        i = i + 1;
    }
    assert(report_exists@.take(report_exists.len() as int) =~= report_exists@);
    proof {
        let sp = spec_pending(report_exists@, skip_existing);
        lemma_pending_is_exactly_the_unskipped(report_exists@, skip_existing);
        assert forall|i: int| 0 <= i < report_exists@.len() implies (#[trigger] lists(pending@, i)
            <==> !(skip_existing && report_exists@[i])) by {
            if lists(pending@, i) {
                let k = choose|k: int| 0 <= k < pending@.len() && #[trigger] pending@[k] == i;
                assert(sp[k] == i);
                assert(sp.contains(i));
            }
            if sp.contains(i) {
                let k = choose|k: int| 0 <= k < sp.len() && sp[k] == i;
                assert(pending@[k] == i);
            }
        }
    }
    (pending, skipped)
}

/// The outcome of a batch run.
pub struct BatchSummary {
    /// Audio files found.
    pub total: usize,
    /// Files analysed (successfully or not).
    pub processed: usize,
    /// Files skipped because their report already existed.
    pub skipped: usize,
    /// Files whose analysis or report failed.
    pub failed: usize,
    /// Each failed file with its error.
    pub errors: Vec<(String, String)>,
    /// Wall-clock time of the run, in milliseconds.
    pub elapsed_ms: u128,
}

impl BatchSummary {
    /// The summary before any file is analysed.
    pub fn start(total: usize, skipped: usize) -> (r: BatchSummary)
        ensures
            r.total == total,
            r.skipped == skipped,
            r.processed == 0,
            r.failed == 0,
            r.errors@.len() == 0,
            r.elapsed_ms == 0,
    {
        BatchSummary { total, processed: 0, skipped, failed: 0, errors: Vec::new(), elapsed_ms: 0 }
    }

    /// Records the outcome of one analysed file: it counts as processed, and a
    /// failure is counted and kept with its file.
    pub fn record(&mut self, file: String, outcome: Result<(), String>)
        requires
            old(self).processed < usize::MAX,
            old(self).failed <= old(self).processed,
        ensures
            final(self).total == old(self).total,
            final(self).skipped == old(self).skipped,
            final(self).elapsed_ms == old(self).elapsed_ms,
            final(self).processed == old(self).processed + 1,
            final(self).failed <= final(self).processed,
            match outcome {
                Ok(()) => final(self).failed == old(self).failed && final(self).errors@ == old(
                    self,
                ).errors@,
                Err(e) => final(self).failed == old(self).failed + 1 && final(self).errors@ == old(
                    self,
                ).errors@.push((file, e)),
            },
    {
        self.processed = self.processed + 1;
        match outcome {
            Ok(()) => {},
            Err(e) => {
                self.failed = self.failed + 1;
                self.errors.push((file, e));
            },
        }
    }

    /// Files that were analysed successfully.
    pub fn succeeded(&self) -> (r: usize)
        requires
            self.failed <= self.processed,
        ensures
            r == self.processed - self.failed,
    {
        self.processed - self.failed
    }
}

/// Width of the progress bar, in cells.
pub open spec fn bar_width() -> int {
    20
}

/// Percentage done (rounded down) after `processed` of `total` files.
pub open spec fn spec_percentage(processed: int, total: int) -> int {
    processed * 100 / total
}

/// The progress bar: one filled cell per full 5 percent, then empty cells.
pub open spec fn spec_progress_bar(percentage: int) -> Seq<char> {
    let filled = percentage * bar_width() / 100;
    Seq::new(bar_width() as nat, |i: int| if i < filled { '█' } else { '░' })
}

/// The percentage is the share of files done, rounded down: it never
/// overstates progress and is less than one percent behind; the bar has one
/// filled cell per full five percent, filled cells first.
pub proof fn lemma_progress_is_share_done(processed: int, total: int)
    requires
        0 < total,
        0 <= processed <= total,
    ensures
        spec_percentage(processed, total) * total <= processed * 100 < (spec_percentage(processed, total) + 1) * total,
        0 <= spec_percentage(processed, total) <= 100,
        spec_progress_bar(spec_percentage(processed, total)).len() == bar_width(),
        forall|i: int| 0 <= i < bar_width() ==> (#[trigger] spec_progress_bar(spec_percentage(processed, total))[i] == '█'
            <==> i * 5 + 5 <= spec_percentage(processed, total)),
{
    let p = spec_percentage(processed, total);
    assert(p * total <= processed * 100 < (p + 1) * total) by (nonlinear_arith)
        requires
            p == processed * 100 / total,
            total > 0,
            processed >= 0,
    ;
    assert(0 <= p <= 100) by (nonlinear_arith)
        requires
            p == processed * 100 / total,
            total > 0,
            0 <= processed <= total,
    ;
    assert forall|i: int| 0 <= i < bar_width() implies (#[trigger] spec_progress_bar(p)[i] == '█'
        <==> i * 5 + 5 <= p) by {
        assert(p * bar_width() / 100 == p / 5);
    }
}

/// The percentage done and the progress bar after `processed` of `total` files.
pub fn progress(processed: usize, total: usize) -> (r: (usize, String))
    requires
        0 < total,
        processed <= total,
        total <= usize::MAX / 100,
    ensures
        r.0 == spec_percentage(processed as int, total as int),
        r.1@ == spec_progress_bar(r.0 as int),
{
    let percentage = processed * 100 / total;
    assert(percentage <= 100) by (nonlinear_arith)
        requires
            percentage as int == (processed as int) * 100 / (total as int),
            processed <= total,
            total > 0,
    ;
    let filled = percentage * 20 / 100;
    let full = "█";
    let empty = "░";
    proof {
        reveal_strlit("█");
        reveal_strlit("░");
    }
    assert(full@ =~= seq!['█']);
    assert(empty@ =~= seq!['░']);
    let mut bar = String::new();
    let mut i: usize = 0;
    while i < 20
        invariant
            i <= 20,
            filled == percentage * 20 / 100,
            full@ == seq!['█'],
            empty@ == seq!['░'],
            bar@ == spec_progress_bar(percentage as int).take(i as int),
        decreases 20 - i,
    {
        if i < filled {
            bar.append(full);
        } else {
            bar.append(empty);
        }
        assert(bar@ =~= spec_progress_bar(percentage as int).take(i + 1));
        i = i + 1;
    }
    assert(bar@ =~= spec_progress_bar(percentage as int));
    (percentage, bar)
}

} // verus!
