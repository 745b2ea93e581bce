//! The symbolic side of the analysis pipeline: how a track is cut into
//! analysis segments, how consecutive segments that read alike are merged,
//! and how the comparative report of two aligned versions is written.
//!
//! The acoustic measurements that label each segment are real-valued and are
//! computed outside this module; here a segment is its textual labels.
use vstd::prelude::*;
use crate::alignment::dtw::{
    lemma_warp_path_is_warping, steps_cover, warp_path, DtwAligner, DtwStep,
};
use crate::text::{chars_of, decimal, decimal_string, has_prefix, join, join_lines, string_views};

verus! {

/// The analysis pipeline.
pub struct SonicPipeline;

// ---------------------------------------------------------------------------
// Chord roots
// ---------------------------------------------------------------------------

/// A note letter `A`..`G`.
pub open spec fn is_note_letter(c: char) -> bool {
    65 <= (c as u32) <= 71
}

/// The root of a chord symbol: a note letter with an optional `#` or `b`
/// (`"C#m7"` has root `"C#"`, `"Am"` has root `"A"`); a symbol that does not
/// start with a note letter (`"Silent"`, `"Unknown"`) is its own root.
pub open spec fn spec_chord_root(c: Seq<char>) -> Seq<char> {
    if c.len() >= 2 && is_note_letter(c[0]) && (c[1] == '#' || c[1] == 'b') {
        c.take(2)
    } else if c.len() >= 1 && is_note_letter(c[0]) {
        c.take(1)
    } else {
        c
    }
}

/// The root of a chord symbol is a prefix of it: the note letter, and the
/// accidental (`#` or `b`) right after it whenever there is one, so a chord
/// on a sharpened or flattened note never has the root of the natural note.
pub proof fn lemma_chord_root_keeps_accidental(c: Seq<char>, d: Seq<char>)
    ensures
        has_prefix(c, spec_chord_root(c)),
        c.len() >= 2 && is_note_letter(c[0]) && (c[1] == '#' || c[1] == 'b') ==> spec_chord_root(
            c,
        ).len() == 2,
        c.len() >= 1 && is_note_letter(c[0]) && !(c.len() >= 2 && (c[1] == '#' || c[1] == 'b'))
            ==> spec_chord_root(c).len() == 1,
        c.len() >= 2 && is_note_letter(c[0]) && (c[1] == '#' || c[1] == 'b') && d.len() >= 1
            && is_note_letter(d[0]) && !(d.len() >= 2 && (d[1] == '#' || d[1] == 'b'))
            ==> spec_chord_root(c) != spec_chord_root(d),
{
    assert(c.take(c.len() as int) =~= c);
    if c.len() >= 2 && is_note_letter(c[0]) && (c[1] == '#' || c[1] == 'b') && d.len() >= 1
        && is_note_letter(d[0]) && !(d.len() >= 2 && (d[1] == '#' || d[1] == 'b')) {
        assert(spec_chord_root(c).len() != spec_chord_root(d).len());
    }
}

impl SonicPipeline {
    /// Extracts the root pitch class from a chord symbol.
    pub fn get_chord_root(chord: &str) -> (r: &str)
        ensures
            r@ == spec_chord_root(chord@),
    {
        let len = chord.unicode_len();
        if len >= 1 {
            let c0 = chord.get_char(0);
            let u0 = c0 as u32;
            if 65 <= u0 && u0 <= 71 {
                if len >= 2 {
                    let c1 = chord.get_char(1);
                    if c1 == '#' || c1 == 'b' {
                        return chord.substring_char(0, 2);
                    }
                }
                return chord.substring_char(0, 1);
            }
        }
        chord
    }
}


// ---------------------------------------------------------------------------
// Segment labels and merging
// ---------------------------------------------------------------------------

/// The textual description of one analysis segment.
pub struct SegmentLabels {
    /// `"<start>s - <end>s"`.
    pub time_range: String,
    pub chord: String,
    pub dynamic_level: String,
    pub timbre_brightness: String,
    pub rhythm_activity: String,
}

/// Mathematical model of [`SegmentLabels`].
pub struct LabelsModel {
    pub time_range: Seq<char>,
    pub chord: Seq<char>,
    pub dynamic_level: Seq<char>,
    pub timbre_brightness: Seq<char>,
    pub rhythm_activity: Seq<char>,
}

impl View for SegmentLabels {
    type V = LabelsModel;

    open spec fn view(&self) -> LabelsModel {
        LabelsModel {
            time_range: self.time_range@,
            chord: self.chord@,
            dynamic_level: self.dynamic_level@,
            timbre_brightness: self.timbre_brightness@,
            rhythm_activity: self.rhythm_activity@,
        }
    }
}

impl SegmentLabels {
    /// A copy of these labels.
    pub fn duplicate(&self) -> (r: SegmentLabels)
        ensures
            r@ == self@,
    {
        SegmentLabels {
            time_range: self.time_range.clone(),
            chord: self.chord.clone(),
            dynamic_level: self.dynamic_level.clone(),
            timbre_brightness: self.timbre_brightness.clone(),
            rhythm_activity: self.rhythm_activity.clone(),
        }
    }
}

/// A run of consecutive segments `[start, end)` merged into one description.
pub struct MergedRun {
    pub start: usize,
    pub end: usize,
    pub labels: SegmentLabels,
}

/// Mathematical model of a [`MergedRun`].
pub struct RunModel {
    pub start: int,
    pub end: int,
    pub labels: LabelsModel,
}

impl View for MergedRun {
    type V = RunModel;

    open spec fn view(&self) -> RunModel {
        RunModel { start: self.start as int, end: self.end as int, labels: self.labels@ }
    }
}

/// Models of a sequence of segment labels.
pub open spec fn label_models(v: Seq<SegmentLabels>) -> Seq<LabelsModel> {
    v.map_values(|s: SegmentLabels| s@)
}

/// Models of a sequence of runs.
pub open spec fn run_models(v: Seq<MergedRun>) -> Seq<RunModel> {
    v.map_values(|r: MergedRun| r@)
}

/// Two segments read alike: same chord root, dynamic level, timbre and
/// rhythmic activity.
pub open spec fn same_reading(a: LabelsModel, b: LabelsModel) -> bool {
    &&& spec_chord_root(a.chord) == spec_chord_root(b.chord)
    &&& a.dynamic_level == b.dynamic_level
    &&& a.timbre_brightness == b.timbre_brightness
    &&& a.rhythm_activity == b.rhythm_activity
}

/// The separator between the two ends of a time range.
pub open spec fn range_sep() -> Seq<char> {
    seq![' ', '-', ' ']
}

/// First position of the separator in `s`.
pub open spec fn find_sep(s: Seq<char>) -> Option<int>
    decreases s.len(),
{
    if s.len() < 3 {
        None
    } else if s.take(3) == range_sep() {
        Some(0)
    } else {
        match find_sep(s.drop_first()) {
            Some(i) => Some(i + 1),
            None => None,
        }
    }
}

/// The two ends of a time range: defined when cutting at the separator
/// (left to right, without overlap) gives exactly two pieces.
pub open spec fn range_ends(s: Seq<char>) -> Option<(Seq<char>, Seq<char>)> {
    match find_sep(s) {
        Some(i) => if find_sep(s.skip(i + 3)) is None {
            Some((s.take(i), s.skip(i + 3)))
        } else {
            None
        },
        None => None,
    }
}

/// The range from the start of `cur` to the end of `next`; `cur` unchanged
/// when either is not a two-ended range.
pub open spec fn merged_range(cur: Seq<char>, next: Seq<char>) -> Seq<char> {
    match (range_ends(cur), range_ends(next)) {
        (Some(c), Some(n)) => c.0 + range_sep() + n.1,
        _ => cur,
    }
}

/// One segment `seg` (at index `k`) added to the merge state: it extends the
/// current run when it reads alike, and starts a new run otherwise.
pub open spec fn merge_step(st: (Seq<RunModel>, RunModel), k: int, seg: LabelsModel) -> (
    Seq<RunModel>,
    RunModel,
) {
    let cur = st.1;
    if same_reading(cur.labels, seg) {
        (
            st.0,
            RunModel {
                start: cur.start,
                end: k + 1,
                labels: LabelsModel {
                    time_range: merged_range(cur.labels.time_range, seg.time_range),
                    chord: cur.labels.chord,
                    dynamic_level: cur.labels.dynamic_level,
                    timbre_brightness: cur.labels.timbre_brightness,
                    rhythm_activity: cur.labels.rhythm_activity,
                },
            },
        )
    } else {
        (st.0.push(cur), RunModel { start: k, end: k + 1, labels: seg })
    }
}

/// The finished runs and the open run after the first `k` segments (`k >= 1`).
pub open spec fn merge_prefix(segs: Seq<LabelsModel>, k: nat) -> (Seq<RunModel>, RunModel)
    decreases k,
{
    if k <= 1 {
        (seq![], RunModel { start: 0, end: 1, labels: segs[0] })
    } else {
        merge_step(merge_prefix(segs, (k - 1) as nat), k - 1, segs[k - 1])
    }
}

/// The runs of consecutive segments that read alike, merged left to right.
pub open spec fn spec_merge_runs(segs: Seq<LabelsModel>) -> Seq<RunModel> {
    if segs.len() == 0 {
        seq![]
    } else {
        let st = merge_prefix(segs, segs.len());
        st.0.push(st.1)
    }
}

/// `run` carries the labels of `seg` apart from its time range.
pub open spec fn carries_labels(run: LabelsModel, seg: LabelsModel) -> bool {
    &&& run.chord == seg.chord
    &&& run.dynamic_level == seg.dynamic_level
    &&& run.timbre_brightness == seg.timbre_brightness
    &&& run.rhythm_activity == seg.rhythm_activity
}

/// `runs` is a merge of the first `k` segments: consecutive, non-empty runs
/// covering `[0, k)`, each reading alike throughout and carrying the labels of
/// its first segment, with no two neighbouring runs reading alike.
pub open spec fn merged_runs_of(segs: Seq<LabelsModel>, runs: Seq<RunModel>, k: int) -> bool {
    &&& (runs.len() == 0 <==> k == 0)
    &&& k > 0 ==> runs[0].start == 0 && runs.last().end == k
    &&& forall|r: int| 0 <= r < runs.len() ==> 0 <= #[trigger] runs[r].start < runs[r].end <= k
    &&& forall|r: int| 0 <= r < runs.len() - 1 ==> #[trigger] runs[r].end == runs[r + 1].start
    &&& forall|r: int| 0 <= r < runs.len() ==> carries_labels(#[trigger] runs[r].labels, segs[runs[r].start])
    &&& forall|r: int, i: int|
        0 <= r < runs.len() && runs[r].start <= i < runs[r].end ==> same_reading(
            #[trigger] runs[r].labels,
            #[trigger] segs[i],
        )
    &&& forall|r: int| 0 <= r < runs.len() - 1 ==> !same_reading(#[trigger] runs[r].labels, runs[r + 1].labels)
}

/// The merge state after `k` segments describes a merge of those segments.
proof fn lemma_merge_prefix(segs: Seq<LabelsModel>, k: nat)
    requires
        1 <= k <= segs.len(),
    ensures
        merge_prefix(segs, k).1.end == k,
        merged_runs_of(segs, merge_prefix(segs, k).0.push(merge_prefix(segs, k).1), k as int),
    decreases k,
{
    if k > 1 {
        lemma_merge_prefix(segs, (k - 1) as nat);
        let st = merge_prefix(segs, (k - 1) as nat);
        let old_runs = st.0.push(st.1);
        let seg = segs[k - 1];
        let st2 = merge_prefix(segs, k);
        let runs = st2.0.push(st2.1);
        assert(old_runs.last() == st.1);
        if same_reading(st.1.labels, seg) {
            assert(st2.0 == st.0);
            assert forall|r: int| 0 <= r < runs.len() - 1 implies #[trigger] runs[r].end == runs[r
                + 1].start by {
                assert(runs[r] == old_runs[r]);
                if r + 1 < runs.len() - 1 {
                    assert(runs[r + 1] == old_runs[r + 1]);
                }
            }
            assert forall|r: int, i: int|
                0 <= r < runs.len() && runs[r].start <= i < runs[r].end implies same_reading(
                #[trigger] runs[r].labels,
                #[trigger] segs[i],
            ) by {
                if r < runs.len() - 1 {
                    assert(runs[r] == old_runs[r]);
                } else if i < k - 1 {
                    assert(same_reading(old_runs[r].labels, segs[i]));
                }
            }
            assert forall|r: int| 0 <= r < runs.len() - 1 implies !same_reading(
                #[trigger] runs[r].labels,
                runs[r + 1].labels,
            ) by {
                assert(runs[r] == old_runs[r]);
                assert(!same_reading(old_runs[r].labels, old_runs[r + 1].labels));
            }
            assert forall|r: int| 0 <= r < runs.len() implies carries_labels(
                #[trigger] runs[r].labels,
                segs[runs[r].start],
            ) by {
                if r < runs.len() - 1 {
                    assert(runs[r] == old_runs[r]);
                } else {
                    assert(carries_labels(old_runs[r].labels, segs[old_runs[r].start]));
                }
            }
            assert forall|r: int| 0 <= r < runs.len() implies 0 <= #[trigger] runs[r].start
                < runs[r].end <= k by {
                if r < runs.len() - 1 {
                    assert(runs[r] == old_runs[r]);
                }
            }
        } else {
            assert(st2.0 == old_runs);
            assert forall|r: int| 0 <= r < runs.len() - 1 implies #[trigger] runs[r].end == runs[r
                + 1].start by {
                assert(runs[r] == old_runs[r]);
                if r + 1 < runs.len() - 1 {
                    assert(runs[r + 1] == old_runs[r + 1]);
                }
            }
            assert forall|r: int, i: int|
                0 <= r < runs.len() && runs[r].start <= i < runs[r].end implies same_reading(
                #[trigger] runs[r].labels,
                #[trigger] segs[i],
            ) by {
                if r < runs.len() - 1 {
                    assert(runs[r] == old_runs[r]);
                }
            }
            assert forall|r: int| 0 <= r < runs.len() - 1 implies !same_reading(
                #[trigger] runs[r].labels,
                runs[r + 1].labels,
            ) by {
                assert(runs[r] == old_runs[r]);
                if r + 1 < runs.len() - 1 {
                    assert(runs[r + 1] == old_runs[r + 1]);
                }
            }
            assert forall|r: int| 0 <= r < runs.len() implies carries_labels(
                #[trigger] runs[r].labels,
                segs[runs[r].start],
            ) by {
                if r < runs.len() - 1 {
                    assert(runs[r] == old_runs[r]);
                }
            }
            assert forall|r: int| 0 <= r < runs.len() implies 0 <= #[trigger] runs[r].start
                < runs[r].end <= k by {
                if r < runs.len() - 1 {
                    assert(runs[r] == old_runs[r]);
                }
            }
        }
    } else {
        let runs = merge_prefix(segs, k).0.push(merge_prefix(segs, k).1);
        assert(runs.len() == 1);
    }
}

/// Merging segments partitions them into consecutive non-empty runs that
/// cover every segment in order; every segment of a run reads like the run
/// (same chord root, dynamic level, timbre and rhythmic activity); each run
/// carries the labels of its first segment; and no two neighbouring runs read
/// alike, so merging again would change nothing.
pub proof fn lemma_merge_segments_laws(segs: Seq<LabelsModel>)
    ensures
        merged_runs_of(segs, spec_merge_runs(segs), segs.len() as int),
{
    if segs.len() > 0 {
        lemma_merge_prefix(segs, segs.len());
    }
}

/// Recursive characterisation of [`find_sep`] from its first match.
proof fn lemma_find_sep_from_facts(s: Seq<char>, i: int)
    requires
        0 <= i,
        i + 3 <= s.len(),
        s.subrange(i, i + 3) == range_sep(),
        forall|j: int| 0 <= j < i ==> #[trigger] s.subrange(j, j + 3) != range_sep(),
    ensures
        find_sep(s) == Some(i),
    decreases s.len(),
{
    if i > 0 {
        assert(s.subrange(0, 0int + 3) != range_sep());
        assert(s.take(3) =~= s.subrange(0, 3));
        assert forall|j: int| 0 <= j < i - 1 implies #[trigger] s.drop_first().subrange(j, j + 3)
            != range_sep() by {
            assert(s.drop_first().subrange(j, j + 3) =~= s.subrange(j + 1, j + 1 + 3));
        }
        assert(s.drop_first().subrange(i - 1, i + 2) =~= s.subrange(i, i + 3));
        lemma_find_sep_from_facts(s.drop_first(), i - 1);
    } else {
        assert(s.take(3) =~= s.subrange(0, 3));
    }
}

/// [`find_sep`] is `None` when no position starts the separator.
proof fn lemma_find_sep_none(s: Seq<char>)
    requires
        forall|j: int| 0 <= j && j + 3 <= s.len() ==> #[trigger] s.subrange(j, j + 3) != range_sep(),
    ensures
        find_sep(s) == None::<int>,
    decreases s.len(),
{
    if s.len() >= 3 {
        assert(s.subrange(0, 0int + 3) != range_sep());
        assert(s.take(3) =~= s.subrange(0, 3));
        assert forall|j: int| 0 <= j && j + 3 <= s.drop_first().len() implies #[trigger] s.drop_first().subrange(
            j,
            j + 3,
        ) != range_sep() by {
            assert(s.drop_first().subrange(j, j + 3) =~= s.subrange(j + 1, j + 1 + 3));
        }
        lemma_find_sep_none(s.drop_first());
    }
}

/// First position of the separator in the window `[lo, hi)`.
fn find_sep_in(v: &Vec<char>, lo: usize, hi: usize) -> (r: Option<usize>)
    requires
        lo <= hi <= v.len(),
    ensures
        match r {
            Some(p) => lo <= p && p + 3 <= hi && find_sep(v@.subrange(lo as int, hi as int))
                == Some(p - lo),
            None => find_sep(v@.subrange(lo as int, hi as int)) == None::<int>,
        },
{
    let ghost w = v@.subrange(lo as int, hi as int);
    let mut p = lo;
    while p < hi && hi - p >= 3
        invariant
            lo <= p <= hi <= v.len(),
            w == v@.subrange(lo as int, hi as int),
            forall|j: int| 0 <= j < p - lo ==> #[trigger] w.subrange(j, j + 3) != range_sep(),
        decreases hi - p,
    {
        assert(w.subrange(p - lo, p - lo + 3) =~= seq![v@[p as int], v@[p + 1], v@[p + 2]]);
        if v[p] == ' ' && v[p + 1] == '-' && v[p + 2] == ' ' {
            proof {
                lemma_find_sep_from_facts(w, p - lo);
            }
            return Some(p);
        }
        assert(seq![v@[p as int], v@[p + 1], v@[p + 2]][0] == v@[p as int]);
        assert(seq![v@[p as int], v@[p + 1], v@[p + 2]][1] == v@[p + 1]);
        assert(seq![v@[p as int], v@[p + 1], v@[p + 2]][2] == v@[p + 2]);
        p = p + 1;
    }
    proof {
        lemma_find_sep_none(w);
    }
    None
}

/// The ends of the time range `s`: the positions where the first end stops
/// and the second begins.
fn range_ends_of(v: &Vec<char>) -> (r: Option<(usize, usize)>)
    ensures
        match r {
            Some((a, b)) => a <= b <= v.len() && range_ends(v@) == Some(
                (v@.subrange(0, a as int), v@.subrange(b as int, v@.len() as int)),
            ),
            None => range_ends(v@) is None,
        },
{
    let n = v.len();
    assert(v@.subrange(0, n as int) =~= v@);
    match find_sep_in(v, 0, n) {
        Some(i) => {
            assert(v@.skip(i + 3) =~= v@.subrange(i + 3, n as int));
            assert(v@.take(i as int) =~= v@.subrange(0, i as int));
            match find_sep_in(v, i + 3, n) {
                None => Some((i, i + 3)),
                Some(_) => None,
            }
        },
        None => None,
    }
}

/// The time range that spans `cur` and then `next`.
fn merge_time_range(cur: &String, next: &String) -> (r: String)
    ensures
        r@ == merged_range(cur@, next@),
{
    let vc = chars_of(cur.as_str());
    let vn = chars_of(next.as_str());
    match (range_ends_of(&vc), range_ends_of(&vn)) {
        (Some((a, _)), Some((_, b))) => {
            let sep = " - ";
            proof {
                reveal_strlit(" - ");
            }
            assert(sep@ =~= range_sep());
            let head = String::from_str(cur.as_str().substring_char(0, a));
            let with_sep = head.concat(sep);
            with_sep.concat(next.as_str().substring_char(b, vn.len()))
        },
        _ => cur.clone(),
    }
}

impl SonicPipeline {
    /// Merges runs of consecutive segments that read alike (same chord root,
    /// dynamic level, timbre and rhythmic activity) into one description
    /// whose time range spans the run. Each run records which segments it
    /// covers, so that measurements can be combined over the same runs.
    pub fn merge_segments(segs: &Vec<SegmentLabels>) -> (runs: Vec<MergedRun>)
        ensures
            run_models(runs@) == spec_merge_runs(label_models(segs@)),
    {
        let n = segs.len();
        let ghost ls = label_models(segs@);
        let mut runs: Vec<MergedRun> = Vec::new();
        if n == 0 {
            assert(run_models(runs@) =~= seq![]);
            return runs;
        }
        let mut current = MergedRun { start: 0, end: 1, labels: segs[0].duplicate() };
        let mut k: usize = 1;
        while k < n
            invariant
                1 <= k <= n == segs.len(),
                ls == label_models(segs@),
                (run_models(runs@), current@) == merge_prefix(ls, k as nat),
            decreases n - k,
        {
            let next = &segs[k];
            let ghost st = merge_prefix(ls, k as nat);
            assert(ls[k as int] == next@);
            let root_cur = String::from_str(Self::get_chord_root(current.labels.chord.as_str()));
            let root_next = String::from_str(Self::get_chord_root(next.chord.as_str()));
            let same = root_cur == root_next && current.labels.dynamic_level == next.dynamic_level
                && current.labels.timbre_brightness == next.timbre_brightness
                && current.labels.rhythm_activity == next.rhythm_activity;
            if same {
                let merged = merge_time_range(&current.labels.time_range, &next.time_range);
                current.labels.time_range = merged;
                current.end = k + 1;
            } else {
                let mut done = MergedRun { start: k, end: k + 1, labels: next.duplicate() };
                std::mem::swap(&mut current, &mut done);
                runs.push(done);
                assert(run_models(runs@) =~= st.0.push(st.1));
            }
            k = k + 1;
        }
        runs.push(current);
        assert(run_models(runs@) =~= spec_merge_runs(ls));
        runs
    }
}


// ---------------------------------------------------------------------------
// Segmentation
// ---------------------------------------------------------------------------

/// How a track is cut into analysis segments (frames are STFT frames).
pub enum SliceMode {
    /// Fixed windows of `frames_per_step` frames.
    FixedStep { frames_per_step: usize },
    /// Cuts at the given onset frames.
    Onset { boundaries: Vec<usize> },
    /// A cut every `frames_per_beat` frames.
    Beat { frames_per_beat: usize },
}

/// `s` is strictly increasing.
pub open spec fn strictly_increasing(s: Seq<usize>) -> bool {
    forall|i: int, j: int| 0 <= i < j < s.len() ==> #[trigger] s[i] < #[trigger] s[j]
}

/// The cut points of onset mode: the start, the end, and every onset strictly
/// inside the track.
pub open spec fn is_onset_cut(boundaries: Seq<usize>, n: int, x: int) -> bool {
    ||| x == 0
    ||| x == n
    ||| (0 < x < n && boundaries.contains(x as usize))
}

/// Number of whole beats that start strictly inside a track of `n` frames
/// (after the first).
pub open spec fn inner_beats(n: int, per_beat: int) -> int {
    if n == 0 {
        0
    } else {
        (n - 1) / per_beat
    }
}

/// The cut points of beat mode: `0`, every multiple of `per_beat` below `n`,
/// and `n`.
pub open spec fn spec_beat_points(per_beat: int, n: int) -> Seq<usize> {
    seq![0usize] + Seq::new(inner_beats(n, per_beat) as nat, |k: int| ((k + 1) * per_beat) as usize)
        + seq![n as usize]
}

/// The first cut point after frame `f` (in the order the points are listed),
/// or `n` when there is none.
pub open spec fn first_after(splits: Seq<usize>, f: int, n: int) -> int
    decreases splits.len(),
{
    if splits.len() == 0 {
        n
    } else if splits[0] > f {
        splits[0] as int
    } else {
        first_after(splits.drop_first(), f, n)
    }
}

/// The first cut after `f` lies after `f` and not beyond `n`.
pub proof fn lemma_first_after(splits: Seq<usize>, f: int, n: int)
    requires
        f < n,
        forall|i: int| 0 <= i < splits.len() ==> #[trigger] splits[i] <= n,
    ensures
        f < first_after(splits, f, n) <= n,
    decreases splits.len(),
{
    if splits.len() > 0 && splits[0] <= f {
        assert forall|i: int| 0 <= i < splits.drop_first().len() implies #[trigger] splits.drop_first()[i]
            <= n by {
            assert(splits.drop_first()[i] == splits[i + 1]);
        }
        lemma_first_after(splits.drop_first(), f, n);
    }
}

/// The segments `[f, e)` from frame `f` on when cutting at `splits`: each
/// segment runs to the first cut after its start.
pub open spec fn split_plan(splits: Seq<usize>, n: int, f: int) -> Seq<(usize, usize)>
    decreases n - f,
{
    if f >= n || exists|i: int| 0 <= i < splits.len() && #[trigger] splits[i] > n {
        seq![]
    } else {
        let e = first_after(splits, f, n);
        proof {
            lemma_first_after(splits, f, n);
        }
        seq![(f as usize, e as usize)] + split_plan(splits, n, e)
    }
}

/// The segments from frame `f` on in fixed windows of `step` frames (the last
/// one possibly shorter); none when `step` is zero.
pub open spec fn step_plan(n: int, step: int, f: int) -> Seq<(usize, usize)>
    decreases n - f,
{
    if f >= n || step <= 0 {
        seq![]
    } else {
        let e = if f + step < n {
            f + step
        } else {
            n
        };
        seq![(f as usize, e as usize)] + step_plan(n, step, e)
    }
}

/// The segments of a track of `n` frames cut in `mode`.
pub open spec fn spec_plan(n: int, mode: SliceMode) -> Seq<(usize, usize)> {
    match mode {
        SliceMode::FixedStep { frames_per_step } => step_plan(n, frames_per_step as int, 0),
        SliceMode::Onset { boundaries } => split_plan(
            onset_points_model(boundaries@, n),
            n,
            0,
        ),
        SliceMode::Beat { frames_per_beat } => split_plan(
            spec_beat_points(frames_per_beat as int, n),
            n,
            0,
        ),
    }
}

/// The onset cut points in increasing order: the frames `0..=n` that are
/// cut points.
pub open spec fn onset_points_model(boundaries: Seq<usize>, n: int) -> Seq<usize> {
    Seq::new((n + 1) as nat, |i: int| i as usize).filter(
        |x: usize| is_onset_cut(boundaries, n, x as int),
    )
}

/// `plan` tiles the frames `[f, n)`: consecutive non-empty segments from `f`
/// to `n`.
pub open spec fn tiles(plan: Seq<(usize, usize)>, f: int, n: int) -> bool {
    &&& (plan.len() == 0 <==> f >= n)
    &&& plan.len() > 0 ==> plan[0].0 == f && plan.last().1 == n
    &&& forall|k: int| 0 <= k < plan.len() ==> #[trigger] plan[k].0 < plan[k].1
    &&& forall|k: int| 0 <= k < plan.len() - 1 ==> #[trigger] plan[k].1 == plan[k + 1].0
}

/// Cutting at points that do not lie beyond the end tiles the track.
pub proof fn lemma_split_plan_tiles(splits: Seq<usize>, n: int, f: int)
    requires
        0 <= f,
        n <= usize::MAX,
        forall|i: int| 0 <= i < splits.len() ==> #[trigger] splits[i] <= n,
    ensures
        tiles(split_plan(splits, n, f), f, n),
    decreases n - f,
{
    if f < n {
        lemma_first_after(splits, f, n);
        let e = first_after(splits, f, n);
        lemma_split_plan_tiles(splits, n, e);
        let rest = split_plan(splits, n, e);
        let plan = split_plan(splits, n, f);
        assert(plan == seq![(f as usize, e as usize)] + rest);
        assert forall|k: int| 0 <= k < plan.len() implies #[trigger] plan[k].0 < plan[k].1 by {
            if k > 0 {
                assert(plan[k] == rest[k - 1]);
            }
        }
        assert forall|k: int| 0 <= k < plan.len() - 1 implies #[trigger] plan[k].1 == plan[k + 1].0 by {
            if k > 0 {
                assert(plan[k] == rest[k - 1]);
            }
            assert(plan[k + 1] == rest[k]);
        }
    }
}

/// Fixed windows of a positive length tile the track, and no window is longer
/// than the step.
pub proof fn lemma_step_plan_tiles(n: int, step: int, f: int)
    requires
        0 <= f,
        step > 0,
        n <= usize::MAX,
    ensures
        tiles(step_plan(n, step, f), f, n),
        forall|k: int|
            0 <= k < step_plan(n, step, f).len() ==> #[trigger] step_plan(n, step, f)[k].1
                - step_plan(n, step, f)[k].0 <= step,
    decreases n - f,
{
    if f < n {
        let e = if f + step < n {
            f + step
        } else {
            n
        };
        lemma_step_plan_tiles(n, step, e);
        let rest = step_plan(n, step, e);
        let plan = step_plan(n, step, f);
        assert(plan == seq![(f as usize, e as usize)] + rest);
        assert forall|k: int| 0 <= k < plan.len() implies #[trigger] plan[k].0 < plan[k].1 && plan[k].1
            - plan[k].0 <= step by {
            if k > 0 {
                assert(plan[k] == rest[k - 1]);
            }
        }
        assert forall|k: int| 0 <= k < plan.len() - 1 implies #[trigger] plan[k].1 == plan[k + 1].0 by {
            if k > 0 {
                assert(plan[k] == rest[k - 1]);
            }
            assert(plan[k + 1] == rest[k]);
        }
    }
}

/// Inserts `x` into the strictly increasing `v` unless it is already there.
fn insert_unique(v: &mut Vec<usize>, x: usize)
    requires
        strictly_increasing(old(v)@),
    ensures
        strictly_increasing(final(v)@),
        forall|y: usize| #[trigger] final(v)@.contains(y) <==> (old(v)@.contains(y) || y == x),
{
    let n = v.len();
    let mut i: usize = 0;
    while i < n && v[i] < x
        invariant
            i <= n == v.len(),
            strictly_increasing(v@),
            forall|j: int| 0 <= j < i ==> #[trigger] v@[j] < x,
        decreases n - i,
    {
        i = i + 1;
    }
    if i < n && v[i] == x {
        return;
    }
    let ghost old_v = v@;
    v.insert(i, x);
    assert(v@ =~= old_v.insert(i as int, x));
    assert forall|a: int, b: int| 0 <= a < b < v@.len() implies #[trigger] v@[a] < #[trigger] v@[b] by {
        if b < i {
        } else if b == i {
        } else if a < i {
            assert(v@[b] == old_v[b - 1]);
            assert(old_v[i as int] > x);
        } else if a == i {
            assert(v@[b] == old_v[b - 1]);
            if b - 1 > i {
                assert(old_v[i as int] < old_v[b - 1]);
            }
        } else {
            assert(v@[a] == old_v[a - 1] && v@[b] == old_v[b - 1]);
        }
    }
    assert forall|y: usize| #[trigger] v@.contains(y) <==> (old_v.contains(y) || y == x) by {
        if v@.contains(y) {
            let k = choose|k: int| 0 <= k < v@.len() && #[trigger] v@[k] == y;
            if k < i {
                assert(old_v[k] == y);
            } else if k > i {
                assert(old_v[k - 1] == y);
            }
        }
        if old_v.contains(y) {
            let k = choose|k: int| 0 <= k < old_v.len() && #[trigger] old_v[k] == y;
            if k < i {
                assert(v@[k] == y);
            } else {
                assert(v@[k + 1] == y);
            }
        }
        if y == x {
            assert(v@[i as int] == x);
        }
    }
}

impl SonicPipeline {
    /// The cut points of onset mode: `0`, every onset strictly inside the
    /// track, and the end, sorted and without repetition.
    pub fn onset_split_points(boundaries: &Vec<usize>, num_frames: usize) -> (r: Vec<usize>)
        ensures
            r@ == onset_points_model(boundaries@, num_frames as int),
            strictly_increasing(r@),
            forall|x: usize| #[trigger] r@.contains(x) <==> is_onset_cut(boundaries@, num_frames as int, x as int),
    {
        let mut r: Vec<usize> = Vec::new();
        r.push(0);
        let mut k: usize = 0;
        assert(boundaries@.take(0) =~= Seq::<usize>::empty());
        assert(r@ =~= seq![0usize]);
        assert forall|x: usize| #[trigger] r@.contains(x) <==> (x == 0 || (0 < x < num_frames
            && boundaries@.take(0).contains(x))) by {
            if x == 0 {
                assert(r@[0] == x);
            }
        }
        while k < boundaries.len()
            invariant
                k <= boundaries.len(),
                strictly_increasing(r@),
                forall|x: usize| #[trigger] r@.contains(x) <==> (x == 0 || (0 < x < num_frames
                    && boundaries@.take(k as int).contains(x))),
            decreases boundaries.len() - k,
        {
            let b = boundaries[k];
            let ghost prev = r@;
            if 0 < b && b < num_frames {
                insert_unique(&mut r, b);
            }
            assert forall|x: usize| #[trigger] r@.contains(x) <==> (x == 0 || (0 < x < num_frames
                && boundaries@.take(k + 1).contains(x))) by {
                if boundaries@.take(k + 1).contains(x) {
                    let j = choose|j: int| 0 <= j < k + 1 && #[trigger] boundaries@.take(k + 1)[j] == x;
                    if j < k {
                        assert(boundaries@.take(k as int)[j] == x);
                    }
                }
                if boundaries@.take(k as int).contains(x) {
                    let j = choose|j: int| 0 <= j < k && #[trigger] boundaries@.take(k as int)[j] == x;
                    assert(boundaries@.take(k + 1)[j] == x);
                }
                assert(boundaries@.take(k + 1)[k as int] == b);
            }
            k = k + 1;
        }
        assert(boundaries@.take(k as int) =~= boundaries@);
        insert_unique(&mut r, num_frames);
        proof {
            lemma_onset_points_model(boundaries@, num_frames as int);
            lemma_strictly_increasing_unique(r@, onset_points_model(boundaries@, num_frames as int));
        }
        r
    }

    /// The cut points of beat mode: `0`, every multiple of `frames_per_beat`
    /// below `num_frames`, and `num_frames`.
    pub fn beat_split_points(frames_per_beat: usize, num_frames: usize) -> (r: Vec<usize>)
        requires
            frames_per_beat > 0 || num_frames == 0,
        ensures
            r@ == spec_beat_points(frames_per_beat as int, num_frames as int),
    {
        let mut r: Vec<usize> = Vec::new();
        r.push(0);
        if num_frames == 0 {
            assert(r@.push(0) =~= spec_beat_points(frames_per_beat as int, 0));
            r.push(num_frames);
            return r;
        }
        let ghost count = inner_beats(num_frames as int, frames_per_beat as int);
        let ghost mids = Seq::new(count as nat, |k: int| ((k + 1) * frames_per_beat) as usize);
        let mut current = frames_per_beat;
        let mut k: usize = 0;
        proof {
            assert(count * frames_per_beat <= num_frames - 1) by (nonlinear_arith)
                requires
                    count == (num_frames - 1) / (frames_per_beat as int),
                    frames_per_beat > 0,
                    num_frames > 0,
            ;
            assert((count + 1) * frames_per_beat > num_frames - 1) by (nonlinear_arith)
                requires
                    count == (num_frames - 1) / (frames_per_beat as int),
                    frames_per_beat > 0,
                    num_frames > 0,
            ;
            assert(r@ =~= seq![0usize] + mids.take(0));
        }
        loop
            invariant_except_break
                frames_per_beat > 0,
                num_frames > 0,
                count == inner_beats(num_frames as int, frames_per_beat as int),
                count * frames_per_beat <= num_frames - 1,
                (count + 1) * frames_per_beat > num_frames - 1,
                mids == Seq::new(count as nat, |q: int| ((q + 1) * frames_per_beat) as usize),
                current == (k + 1) * frames_per_beat,
                k <= count,
                r@ == seq![0usize] + mids.take(k as int),
            ensures
                k == count,
                r@ == seq![0usize] + mids.take(k as int),
            decreases count - k,
        {
            if current >= num_frames {
                assert(k >= count) by (nonlinear_arith)
                    requires
                        current == (k + 1) * frames_per_beat,
                        current >= num_frames,
                        count * frames_per_beat <= num_frames - 1,
                        frames_per_beat > 0,
                ;
                break;
            }
            assert(k < count) by (nonlinear_arith)
                requires
                    current == (k + 1) * frames_per_beat,
                    current < num_frames,
                    (count + 1) * frames_per_beat > num_frames - 1,
                    frames_per_beat > 0,
            ;
            r.push(current);
            assert(r@ =~= seq![0usize] + mids.take(k + 1));
            k = k + 1;
            if frames_per_beat > usize::MAX - current {
                assert(k >= count) by (nonlinear_arith)
                    requires
                        current == k * frames_per_beat,
                        current + frames_per_beat > usize::MAX,
                        count * frames_per_beat <= num_frames - 1,
                        num_frames <= usize::MAX,
                        frames_per_beat > 0,
                ;
                break;
            }
            current = current + frames_per_beat;
            assert(current == (k + 1) * frames_per_beat) by (nonlinear_arith)
                requires
                    current == k * frames_per_beat + frames_per_beat,
            ;
        }
        assert(mids.take(k as int) =~= mids);
        r.push(num_frames);
        r
    }

    /// The segments cut at `splits`: from frame 0 on, each segment runs to
    /// the first cut after its start (or to the end).
    pub fn plan_from_splits(splits: &Vec<usize>, num_frames: usize) -> (plan: Vec<(usize, usize)>)
        requires
            forall|i: int| 0 <= i < splits@.len() ==> #[trigger] splits@[i] <= num_frames,
        ensures
            plan@ == split_plan(splits@, num_frames as int, 0),
    {
        let ghost full = split_plan(splits@, num_frames as int, 0);
        let mut plan: Vec<(usize, usize)> = Vec::new();
        let mut f: usize = 0;
        assert(plan@ + split_plan(splits@, num_frames as int, 0) =~= full);
        while f < num_frames
            invariant
                f <= num_frames,
                forall|i: int| 0 <= i < splits@.len() ==> #[trigger] splits@[i] <= num_frames,
                plan@ + split_plan(splits@, num_frames as int, f as int) == full,
            decreases num_frames - f,
        {
            let mut e = num_frames;
            let mut i: usize = 0;
            let mut found = false;
            assert(splits@.skip(0) =~= splits@);
            while i < splits.len() && !found
                invariant
                    i <= splits.len(),
                    f < num_frames,
                    found ==> e == first_after(splits@, f as int, num_frames as int),
                    !found ==> e == num_frames && first_after(splits@, f as int, num_frames as int)
                        == first_after(splits@.skip(i as int), f as int, num_frames as int),
                decreases splits.len() - i + (if found {
                    0int
                } else {
                    1int
                }),
            {
                assert(splits@.skip(i as int).drop_first() =~= splits@.skip(i + 1));
                assert(splits@.skip(i as int)[0] == splits@[i as int]);
                if splits[i] > f {
                    e = splits[i];
                    found = true;
                } else {
                    i = i + 1;
                }
            }
            proof {
                if !found {
                    assert(splits@.skip(i as int).len() == 0);
                }
                lemma_first_after(splits@, f as int, num_frames as int);
            }
            assert(e == first_after(splits@, f as int, num_frames as int));
            let ghost old_plan = plan@;
            plan.push((f, e));
            assert(plan@ + split_plan(splits@, num_frames as int, e as int) =~= old_plan + split_plan(
                splits@,
                num_frames as int,
                f as int,
            ));
            f = e;
        }
        assert(plan@ =~= full);
        plan
    }

    /// The segments of fixed windows of `frames_per_step` frames; none when
    /// the step is zero.
    pub fn plan_fixed_step(frames_per_step: usize, num_frames: usize) -> (plan: Vec<(usize, usize)>)
        ensures
            plan@ == step_plan(num_frames as int, frames_per_step as int, 0),
    {
        let ghost full = step_plan(num_frames as int, frames_per_step as int, 0);
        let mut plan: Vec<(usize, usize)> = Vec::new();
        if frames_per_step == 0 {
            return plan;
        }
        let mut f: usize = 0;
        assert(plan@ + step_plan(num_frames as int, frames_per_step as int, 0) =~= full);
        while f < num_frames
            invariant
                f <= num_frames,
                frames_per_step > 0,
                plan@ + step_plan(num_frames as int, frames_per_step as int, f as int) == full,
            decreases num_frames - f,
        {
            let e = if frames_per_step < num_frames - f {
                f + frames_per_step
            } else {
                num_frames
            };
            let ghost old_plan = plan@;
            plan.push((f, e));
            assert(plan@ + step_plan(num_frames as int, frames_per_step as int, e as int)
                =~= old_plan + step_plan(num_frames as int, frames_per_step as int, f as int));
            f = e;
        }
        assert(plan@ =~= full);
        plan
    }
}


/// A strictly increasing sequence is determined by the values it contains.
pub proof fn lemma_strictly_increasing_unique(a: Seq<usize>, b: Seq<usize>)
    requires
        strictly_increasing(a),
        strictly_increasing(b),
        forall|x: usize| #[trigger] a.contains(x) <==> b.contains(x),
    ensures
        a == b,
    decreases a.len() + b.len(),
{
    if a.len() == 0 && b.len() == 0 {
        assert(a =~= b);
    } else if a.len() == 0 && b.len() > 0 {
        assert(b.contains(b[0]));
        assert(a.contains(b[0]));
    } else if b.len() == 0 && a.len() > 0 {
        assert(a.contains(a[0]));
        assert(b.contains(a[0]));
    } else if a.len() > 0 {
        assert(a.contains(a[0]) && b.contains(b[0]));
        assert(b.contains(a[0]) && a.contains(b[0]));
        let i = choose|i: int| 0 <= i < b.len() && #[trigger] b[i] == a[0];
        let j = choose|j: int| 0 <= j < a.len() && #[trigger] a[j] == b[0];
        assert(b[0] <= b[i]) by {
            if i > 0 {
                assert(b[0] < b[i]);
            }
        }
        assert(a[0] <= a[j]) by {
            if j > 0 {
                assert(a[0] < a[j]);
            }
        }
        assert(a[0] == b[0]);
        let a1 = a.drop_first();
        let b1 = b.drop_first();
        assert forall|x: usize| #[trigger] a1.contains(x) <==> b1.contains(x) by {
            if a1.contains(x) {
                let k = choose|k: int| 0 <= k < a1.len() && #[trigger] a1[k] == x;
                assert(a[k + 1] == x && a[0] < a[k + 1]);
                assert(a.contains(x));
                assert(b.contains(x));
                let q = choose|q: int| 0 <= q < b.len() && #[trigger] b[q] == x;
                assert(q > 0);
                assert(b1[q - 1] == x);
            }
            if b1.contains(x) {
                let k = choose|k: int| 0 <= k < b1.len() && #[trigger] b1[k] == x;
                assert(b[k + 1] == x && b[0] < b[k + 1]);
                assert(b.contains(x));
                assert(a.contains(x));
                let q = choose|q: int| 0 <= q < a.len() && #[trigger] a[q] == x;
                assert(q > 0);
                assert(a1[q - 1] == x);
            }
        }
        lemma_strictly_increasing_unique(a1, b1);
        assert(a =~= seq![a[0]] + a1);
        assert(b =~= seq![b[0]] + b1);
    }
}

/// Filtering keeps a sequence strictly increasing.
proof fn lemma_filter_increasing(s: Seq<usize>, pred: spec_fn(usize) -> bool)
    requires
        strictly_increasing(s),
    ensures
        strictly_increasing(s.filter(pred)),
    decreases s.len(),
{
    reveal(Seq::filter);
    if s.len() > 0 {
        let rest = s.drop_last();
        lemma_filter_increasing(rest, pred);
        let fr = rest.filter(pred);
        if pred(s.last()) {
            assert forall|i: int| 0 <= i < fr.len() implies #[trigger] fr[i] < s.last() by {
                assert(fr.contains(fr[i]));
                rest.lemma_filter_contains_rev(pred, fr[i]);
                let k = choose|k: int| 0 <= k < rest.len() && #[trigger] rest[k] == fr[i];
                assert(s[k] == rest[k]);
            }
            let r = fr.push(s.last());
            assert forall|i: int, j: int| 0 <= i < j < r.len() implies #[trigger] r[i] < #[trigger] r[j] by {
                if j < fr.len() {
                    assert(r[i] == fr[i] && r[j] == fr[j]);
                } else {
                    assert(r[i] == fr[i]);
                }
            }
        }
    }
}

/// The onset cut points are strictly increasing and are exactly the cut
/// points.
proof fn lemma_onset_points_model(boundaries: Seq<usize>, n: int)
    requires
        0 <= n <= usize::MAX,
    ensures
        strictly_increasing(onset_points_model(boundaries, n)),
        forall|x: usize| #[trigger] onset_points_model(boundaries, n).contains(x) <==> is_onset_cut(
            boundaries,
            n,
            x as int,
        ),
{
    let range = Seq::new((n + 1) as nat, |i: int| i as usize);
    let pred = |x: usize| is_onset_cut(boundaries, n, x as int);
    let m = range.filter(pred);
    lemma_filter_increasing(range, pred);
    assert forall|x: usize| #[trigger] m.contains(x) <==> is_onset_cut(boundaries, n, x as int) by {
        if m.contains(x) {
            range.lemma_filter_contains_rev(pred, x);
            let k = choose|k: int| 0 <= k < m.len() && #[trigger] m[k] == x;
            range.lemma_filter_pred(pred, k);
        }
        if is_onset_cut(boundaries, n, x as int) {
            assert(x <= n);
            assert(range[x as int] == x);
            range.lemma_filter_contains(pred, x as int);
        }
    }
}

/// Beat cut points never lie beyond the end.
proof fn lemma_plan_tiles_beat_points(per_beat: int, n: int)
    requires
        per_beat > 0 || n == 0,
        0 <= n <= usize::MAX,
    ensures
        forall|i: int|
            0 <= i < spec_beat_points(per_beat, n).len() ==> #[trigger] spec_beat_points(per_beat, n)[i]
                <= n,
{
    let pts = spec_beat_points(per_beat, n);
    assert forall|i: int| 0 <= i < pts.len() implies #[trigger] pts[i] <= n by {
        if 0 < i < pts.len() - 1 {
            let k = i - 1;
            assert(pts[i] == ((k + 1) * per_beat) as usize);
            assert(0 < (k + 1) * per_beat <= n - 1) by (nonlinear_arith)
                requires
                    0 <= k < inner_beats(n, per_beat),
                    inner_beats(n, per_beat) == (n - 1) / per_beat,
                    per_beat > 0,
                    n > 0,
            ;
        }
    }
}

/// Whether `mode` can be carried out on a track of `n` frames: beat mode
/// needs a positive beat length unless the track is empty.
pub open spec fn mode_ok(n: int, mode: SliceMode) -> bool {
    match mode {
        SliceMode::Beat { frames_per_beat } => frames_per_beat > 0 || n == 0,
        _ => true,
    }
}

/// Every slicing strategy tiles the track: its segments are consecutive,
/// non-empty, start at frame 0 and end at the last frame (fixed windows need
/// a positive step; with a zero step there are no segments).
pub proof fn lemma_plan_tiles(n: int, mode: SliceMode)
    requires
        0 <= n <= usize::MAX,
        mode_ok(n, mode),
        mode matches SliceMode::FixedStep { frames_per_step } ==> frames_per_step > 0,
    ensures
        tiles(spec_plan(n, mode), 0, n),
{
    match mode {
        SliceMode::FixedStep { frames_per_step } => {
            lemma_step_plan_tiles(n, frames_per_step as int, 0);
        },
        SliceMode::Onset { boundaries } => {
            let pts = onset_points_model(boundaries@, n);
            lemma_onset_points_model(boundaries@, n);
            assert forall|i: int| 0 <= i < pts.len() implies #[trigger] pts[i] <= n by {
                assert(pts.contains(pts[i]));
            }
            lemma_split_plan_tiles(pts, n, 0);
        },
        SliceMode::Beat { frames_per_beat } => {
            lemma_plan_tiles_beat_points(frames_per_beat as int, n);
            lemma_split_plan_tiles(spec_beat_points(frames_per_beat as int, n), n, 0);
        },
    }
}


/// Where `mode` cuts a track of `n` frames, described directly: fixed steps
/// and beats cut at every multiple of their length, onset mode at the start
/// and at every onset inside the track; every mode cuts at the end.
pub open spec fn cuts_at(n: int, mode: SliceMode, x: int) -> bool {
    match mode {
        SliceMode::FixedStep { frames_per_step } => x == n || (0 <= x < n && x % (
        frames_per_step as int) == 0),
        SliceMode::Onset { boundaries } => is_onset_cut(boundaries@, n, x),
        SliceMode::Beat { frames_per_beat } => x == n || (0 <= x < n && x % (frames_per_beat as int)
            == 0),
    }
}

/// Among increasing cut points, the first one after `f` is the least one
/// after `f`.
proof fn lemma_first_after_is_next(splits: Seq<usize>, f: int, n: int, w: int)
    requires
        strictly_increasing(splits),
        0 <= w < splits.len(),
        splits[w] > f,
    ensures
        exists|i: int| 0 <= i < splits.len() && splits[i] == first_after(splits, f, n),
        forall|j: int| 0 <= j < splits.len() && f < splits[j] ==> first_after(splits, f, n) <= #[trigger] splits[j],
    decreases splits.len(),
{
    if splits[0] > f {
        assert(splits[0] == first_after(splits, f, n));
        assert forall|j: int| 0 <= j < splits.len() && f < splits[j] implies first_after(splits, f, n)
            <= #[trigger] splits[j] by {
            if j > 0 {
                assert(splits[0] < splits[j]);
            }
        }
    } else {
        let rest = splits.drop_first();
        assert forall|i: int, j: int| 0 <= i < j < rest.len() implies #[trigger] rest[i] < #[trigger] rest[j] by {
            assert(rest[i] == splits[i + 1] && rest[j] == splits[j + 1]);
        }
        assert(w > 0);
        assert(rest[w - 1] == splits[w]);
        lemma_first_after_is_next(rest, f, n, w - 1);
        let i = choose|i: int| 0 <= i < rest.len() && rest[i] == first_after(rest, f, n);
        assert(splits[i + 1] == rest[i]);
        assert forall|j: int| 0 <= j < splits.len() && f < splits[j] implies first_after(splits, f, n)
            <= #[trigger] splits[j] by {
            if j > 0 {
                assert(splits[j] == rest[j - 1]);
            }
        }
    }
}

/// Cutting at increasing points that include the start `f` and the end `n`
/// gives segments that start and end at cut points, with no cut point
/// strictly inside any of them.
#[verifier::rlimit(40)]
proof fn lemma_split_plan_cuts(splits: Seq<usize>, n: int, f: int)
    requires
        0 <= f <= n <= usize::MAX,
        strictly_increasing(splits),
        forall|i: int| 0 <= i < splits.len() ==> #[trigger] splits[i] <= n,
        splits.contains(n as usize),
        splits.contains(f as usize),
    ensures
        forall|k: int|
            0 <= k < split_plan(splits, n, f).len() ==> splits.contains(
                #[trigger] split_plan(splits, n, f)[k].0,
            ) && splits.contains(split_plan(splits, n, f)[k].1) && forall|j: int|
                0 <= j < splits.len() ==> !(split_plan(splits, n, f)[k].0 < #[trigger] splits[j]
                    < split_plan(splits, n, f)[k].1),
    decreases n - f,
{
    if f < n {
        let e = first_after(splits, f, n);
        lemma_first_after(splits, f, n);
        let w = choose|w: int| 0 <= w < splits.len() && splits[w] == n as usize;
        lemma_first_after_is_next(splits, f, n, w);
        let i = choose|i: int| 0 <= i < splits.len() && splits[i] == first_after(splits, f, n);
        assert(!exists|q: int| 0 <= q < splits.len() && #[trigger] splits[q] > n);
        let plan = split_plan(splits, n, f);
        let rest = split_plan(splits, n, e);
        assert(plan == seq![(f as usize, e as usize)] + rest);
        assert(splits[i] == e as usize);
        assert(splits.contains(e as usize));
        assert forall|j: int| 0 <= j < splits.len() implies !(f < #[trigger] splits[j] < e) by {
            if f < splits[j] {
                assert(e <= splits[j]);
            }
        }
        lemma_split_plan_cuts(splits, n, e);
        assert forall|k: int| 0 <= k < plan.len() implies splits.contains(#[trigger] plan[k].0)
            && splits.contains(plan[k].1) && forall|j: int|
            0 <= j < splits.len() ==> !(plan[k].0 < #[trigger] splits[j] < plan[k].1) by {
            if k > 0 {
                assert(plan[k] == rest[k - 1]);
                assert(splits.contains(rest[k - 1].0) && splits.contains(rest[k - 1].1));
            } else {
                assert(plan[k] == (f as usize, e as usize));
                assert(plan[k].0 as int == f && plan[k].1 as int == e);
            }
        }
    }
}

/// The beat cut points are increasing and are exactly the multiples of the
/// beat length inside the track, and its end.
proof fn lemma_beat_points_are_multiples(p: int, n: int)
    requires
        0 < p <= usize::MAX,
        0 < n <= usize::MAX,
    ensures
        strictly_increasing(spec_beat_points(p, n)),
        forall|i: int| 0 <= i < spec_beat_points(p, n).len() ==> #[trigger] spec_beat_points(p, n)[i] <= n,
        forall|x: int|
            0 <= x <= n ==> (spec_beat_points(p, n).contains(x as usize) <==> #[trigger] cuts_at(
                n,
                SliceMode::Beat { frames_per_beat: p as usize },
                x,
            )),
{
    let pts = spec_beat_points(p, n);
    let inner = inner_beats(n, p);
    let mode = SliceMode::Beat { frames_per_beat: p as usize };
    vstd::arithmetic::div_mod::lemma_fundamental_div_mod(n - 1, p);
    vstd::arithmetic::div_mod::lemma_mod_pos_bound(n - 1, p);
    vstd::arithmetic::div_mod::lemma_div_pos_is_pos(n - 1, p);
    assert(inner * p <= n - 1) by (nonlinear_arith)
        requires
            n - 1 == p * inner + (n - 1) % p,
            0 <= (n - 1) % p,
    ;
    assert(pts.len() == inner + 2);
    assert forall|i: int| 1 <= i <= inner implies (#[trigger] pts[i]) as int == i * p && 0 < i * p
        < n by {
        assert(i * p <= inner * p) by (nonlinear_arith)
            requires
                i <= inner,
                p > 0,
        ;
        assert(0 < i * p) by (nonlinear_arith)
            requires
                i >= 1,
                p > 0,
        ;
    }
    assert forall|i: int, j: int| 0 <= i < j < pts.len() implies #[trigger] pts[i] < #[trigger] pts[j] by {
        if 1 <= i && j <= inner {
            assert(i * p < j * p) by (nonlinear_arith)
                requires
                    i < j,
                    p > 0,
            ;
        }
    }
    assert forall|i: int| 0 <= i < pts.len() implies #[trigger] pts[i] <= n by {}
    assert forall|x: int| 0 <= x <= n implies (pts.contains(x as usize) <==> #[trigger] cuts_at(
        n,
        mode,
        x,
    )) by {
        if pts.contains(x as usize) {
            let i = choose|i: int| 0 <= i < pts.len() && pts[i] == x as usize;
            if i == 0 {
                vstd::arithmetic::div_mod::lemma_fundamental_div_mod_converse(0, p, 0, 0);
            } else if i <= inner {
                vstd::arithmetic::div_mod::lemma_fundamental_div_mod_converse(x, p, i, 0);
            }
        }
        if cuts_at(n, mode, x) {
            if x == n {
                assert(pts[inner + 1] == n as usize);
            } else if x == 0 {
                assert(pts[0] == 0usize);
            } else {
                vstd::arithmetic::div_mod::lemma_fundamental_div_mod(x, p);
                let q = x / p;
                assert(x == p * q);
                assert(1 <= q <= inner) by (nonlinear_arith)
                    requires
                        x == p * q,
                        0 < x < n,
                        p > 0,
                        n - 1 == p * inner + (n - 1) % p,
                        0 <= (n - 1) % p < p,
                ;
                assert(pts[q] as int == q * p);
                assert(q * p == p * q) by (nonlinear_arith);
                assert(pts[q] == x as usize);
            }
        }
    }
}

/// Fixed windows from a multiple of the step start and end at multiples of
/// the step (or at the end), with no multiple strictly inside.
proof fn lemma_step_plan_cuts(n: int, s: int, f: int)
    requires
        0 <= f,
        s > 0,
        f % s == 0,
        n <= usize::MAX,
    ensures
        forall|k: int|
            0 <= k < step_plan(n, s, f).len() ==> (#[trigger] step_plan(n, s, f)[k]).0 as int % s == 0
                && 0 <= step_plan(n, s, f)[k].0 < n && (step_plan(n, s, f)[k].1 == n || (
            step_plan(n, s, f)[k].1 < n && step_plan(n, s, f)[k].1 as int % s == 0)) && forall|x: int|
                step_plan(n, s, f)[k].0 < x < step_plan(n, s, f)[k].1 ==> #[trigger] (x % s) != 0,
    decreases n - f,
{
    if f < n {
        let e = if f + s < n {
            f + s
        } else {
            n
        };
        let plan = step_plan(n, s, f);
        let rest = step_plan(n, s, e);
        assert(plan == seq![(f as usize, e as usize)] + rest);
        vstd::arithmetic::div_mod::lemma_fundamental_div_mod(f, s);
        let q = f / s;
        assert(f == q * s) by (nonlinear_arith)
            requires
                f == s * q + f % s,
                f % s == 0,
        ;
        if e == f + s {
            assert(f + s == (q + 1) * s) by (nonlinear_arith)
                requires
                    f == q * s,
            ;
            vstd::arithmetic::div_mod::lemma_fundamental_div_mod_converse(f + s, s, q + 1, 0);
        }
        assert forall|x: int| f < x < e implies #[trigger] (x % s) != 0 by {
            vstd::arithmetic::div_mod::lemma_fundamental_div_mod_converse(x, s, q, x - f);
        }
        if e < n {
            lemma_step_plan_cuts(n, s, e);
        }
        assert forall|k: int| 0 <= k < plan.len() implies (#[trigger] plan[k]).0 as int % s == 0 && 0
            <= plan[k].0 < n && (plan[k].1 == n || (plan[k].1 < n && plan[k].1 as int % s == 0))
            && forall|x: int| plan[k].0 < x < plan[k].1 ==> #[trigger] (x % s) != 0 by {
            if k > 0 {
                assert(plan[k] == rest[k - 1]);
            }
        }
    }
}

/// Each slicing strategy cuts exactly where it says: every segment starts
/// and ends where the mode cuts (fixed steps and beats at multiples of their
/// length, onsets at the start and the onsets inside the track, and every
/// mode at the end), and no cut falls strictly inside a segment. With the
/// tiling law this fixes the segments completely.
pub proof fn lemma_plan_cuts_where_mode_cuts(n: int, mode: SliceMode)
    requires
        0 <= n <= usize::MAX,
        mode_ok(n, mode),
        mode matches SliceMode::FixedStep { frames_per_step } ==> frames_per_step > 0,
    ensures
        forall|k: int|
            0 <= k < spec_plan(n, mode).len() ==> cuts_at(n, mode, (#[trigger] spec_plan(n, mode)[k]).0 as int)
                && cuts_at(n, mode, spec_plan(n, mode)[k].1 as int) && forall|x: int|
                spec_plan(n, mode)[k].0 < x < spec_plan(n, mode)[k].1 ==> !#[trigger] cuts_at(n, mode, x),
{
    let plan = spec_plan(n, mode);
    match mode {
        SliceMode::FixedStep { frames_per_step } => {
            let s = frames_per_step as int;
            vstd::arithmetic::div_mod::lemma_fundamental_div_mod_converse(0, s, 0, 0);
            lemma_step_plan_cuts(n, s, 0);
        },
        SliceMode::Onset { boundaries } => {
            let pts = onset_points_model(boundaries@, n);
            lemma_onset_points_model(boundaries@, n);
            assert(is_onset_cut(boundaries@, n, n));
            assert(is_onset_cut(boundaries@, n, 0));
            assert(pts.contains(n as usize));
            assert(pts.contains(0usize));
            assert forall|i: int| 0 <= i < pts.len() implies #[trigger] pts[i] <= n by {
                assert(pts.contains(pts[i]));
            }
            lemma_split_plan_cuts(pts, n, 0);
            assert forall|k: int| 0 <= k < plan.len() implies cuts_at(n, mode, (#[trigger] plan[k]).0 as int)
                && cuts_at(n, mode, plan[k].1 as int) && forall|x: int|
                plan[k].0 < x < plan[k].1 ==> !#[trigger] cuts_at(n, mode, x) by {
                assert(pts.contains(plan[k].0) && pts.contains(plan[k].1));
                assert forall|x: int| plan[k].0 < x < plan[k].1 implies !#[trigger] cuts_at(n, mode, x) by {
                    if cuts_at(n, mode, x) {
                        assert(0 <= x <= n);
                        assert(pts.contains(x as usize));
                        let j = choose|j: int| 0 <= j < pts.len() && pts[j] == x as usize;
                        assert(plan[k].0 < pts[j] < plan[k].1);
                    }
                }
            }
        },
        SliceMode::Beat { frames_per_beat } => {
            let p = frames_per_beat as int;
            if n > 0 {
                let pts = spec_beat_points(p, n);
                lemma_beat_points_are_multiples(p, n);
                assert(mode == SliceMode::Beat { frames_per_beat: p as usize });
                assert(cuts_at(n, mode, n));
                assert(pts.contains(n as usize));
                vstd::arithmetic::div_mod::lemma_fundamental_div_mod_converse(0, p, 0, 0);
                assert(cuts_at(n, mode, 0));
                assert(pts.contains(0usize));
                lemma_split_plan_cuts(pts, n, 0);
                assert forall|k: int| 0 <= k < plan.len() implies cuts_at(n, mode, (#[trigger] plan[k]).0 as int)
                    && cuts_at(n, mode, plan[k].1 as int) && forall|x: int|
                    plan[k].0 < x < plan[k].1 ==> !#[trigger] cuts_at(n, mode, x) by {
                    assert(pts.contains(plan[k].0) && pts.contains(plan[k].1));
                    let j0 = choose|j: int| 0 <= j < pts.len() && pts[j] == plan[k].0;
                    let j1 = choose|j: int| 0 <= j < pts.len() && pts[j] == plan[k].1;
                    assert(pts[j0] <= n && pts[j1] <= n);
                    assert(cuts_at(n, mode, plan[k].0 as int));
                    assert(cuts_at(n, mode, plan[k].1 as int));
                    assert forall|x: int| plan[k].0 < x < plan[k].1 implies !#[trigger] cuts_at(n, mode, x) by {
                        if cuts_at(n, mode, x) {
                            assert(pts.contains(x as usize));
                            let j = choose|j: int| 0 <= j < pts.len() && pts[j] == x as usize;
                            assert(plan[k].0 < pts[j] < plan[k].1);
                        }
                    }
                }
            }
        },
    }
}

impl SonicPipeline {
    /// Cuts a track of `num_frames` frames into analysis segments in `mode`:
    /// fixed windows; segments between onsets; or segments of one beat.
    pub fn plan_segments(num_frames: usize, mode: &SliceMode) -> (plan: Vec<(usize, usize)>)
        requires
            mode_ok(num_frames as int, *mode),
        ensures
            plan@ == spec_plan(num_frames as int, *mode),
    {
        match mode {
            SliceMode::FixedStep { frames_per_step } => Self::plan_fixed_step(
                *frames_per_step,
                num_frames,
            ),
            SliceMode::Onset { boundaries } => {
                let pts = Self::onset_split_points(boundaries, num_frames);
                assert forall|i: int| 0 <= i < pts@.len() implies #[trigger] pts@[i] <= num_frames by {
                    assert(pts@.contains(pts@[i]));
                }
                Self::plan_from_splits(&pts, num_frames)
            },
            SliceMode::Beat { frames_per_beat } => {
                let pts = Self::beat_split_points(*frames_per_beat, num_frames);
                proof {
                    lemma_plan_tiles_beat_points(*frames_per_beat as int, num_frames as int);
                }
                Self::plan_from_splits(&pts, num_frames)
            },
        }
    }
}


// ---------------------------------------------------------------------------
// Comparative report
// ---------------------------------------------------------------------------

/// What the comparative report needs of an analysed track.
pub struct TrackDescription {
    pub filename: String,
    pub estimated_global_key: String,
    pub segments: Vec<SegmentLabels>,
}

/// Mathematical model of a [`TrackDescription`].
pub struct TrackModel {
    pub filename: Seq<char>,
    pub estimated_global_key: Seq<char>,
    pub segments: Seq<LabelsModel>,
}

impl View for TrackDescription {
    type V = TrackModel;

    open spec fn view(&self) -> TrackModel {
        TrackModel {
            filename: self.filename@,
            estimated_global_key: self.estimated_global_key@,
            segments: label_models(self.segments@),
        }
    }
}

/// The alignment path of two tracks with `na` and `nb` segments: empty when
/// either is empty, otherwise the warping path the steps trace.
pub open spec fn alignment_path(steps: Seq<Vec<DtwStep>>, na: int, nb: int) -> Seq<(usize, usize)> {
    if na == 0 || nb == 0 {
        seq![]
    } else {
        warp_path(steps, (na - 1) as usize, (nb - 1) as usize)
    }
}

/// The line describing one track in the report header.
pub open spec fn track_line(prefix: Seq<char>, t: TrackModel) -> Seq<char> {
    prefix + t.filename + "` | Estimated Key: `"@ + t.estimated_global_key + "`"@
}

/// The header lines of the comparative report.
pub open spec fn comparative_header(a: TrackModel, b: TrackModel) -> Seq<Seq<char>> {
    seq![
        "# SonicBridge: LLM-Readable Music Comparative Report (LRMD)\n"@,
        "> [!IMPORTANT]"@,
        "> This is a DTW-aligned comparative aesthetic analysis comparing the interpretation, vocal affect, and mix dynamics of two versions of the same track.\n"@,
        "## 1. Global Metadata & Comparison"@,
        track_line("- **Track A (Original)**: `"@, a),
        track_line("- **Track B (Cover)**: `"@, b),
        "- **Aesthetic Register shift**: Pitch transposed and matched dynamic range via temporal warping.\n"@,
        "## 2. Dynamic Time Warped (DTW) Aesthetic Alignment Matrix"@,
        "The matrix below aligns identical musical sections across both tracks, bypassing tempo differences:\n"@,
        "| Music Step | Timeline A | Timeline B | Track A (Original) Interpretation | Track B (Cover) Interpretation |"@,
        "| :--- | :--- | :--- | :--- | :--- |"@,
    ]
}

/// One interpretation cell: chord, dynamic level and timbre of a segment.
pub open spec fn interpretation(s: LabelsModel) -> Seq<char> {
    "Chord `"@ + s.chord + "` <br> Dynamic: "@ + s.dynamic_level + " <br> Timbre: "@
        + s.timbre_brightness
}

/// The table row for step `step`, which pairs segment `sa` of the first track
/// with segment `sb` of the second.
pub open spec fn comparison_row(step: nat, sa: LabelsModel, sb: LabelsModel) -> Seq<char> {
    "| **Step "@ + decimal(step) + "** | "@ + sa.time_range + " | "@ + sb.time_range + " | "@
        + interpretation(sa) + " | "@ + interpretation(sb) + " |"@
}

/// One row per cell of the alignment path, numbered from 1.
pub open spec fn comparison_rows(
    path: Seq<(usize, usize)>,
    a: Seq<LabelsModel>,
    b: Seq<LabelsModel>,
) -> Seq<Seq<char>> {
    Seq::new(
        path.len(),
        |k: int| comparison_row((k + 1) as nat, a[path[k].0 as int], b[path[k].1 as int]),
    )
}

/// The comparative report: the header, then one row per aligned pair, one
/// line each.
pub open spec fn spec_comparative_report(
    a: TrackModel,
    b: TrackModel,
    path: Seq<(usize, usize)>,
) -> Seq<char> {
    join(comparative_header(a, b) + comparison_rows(path, a.segments, b.segments), "\n"@)
}

/// The interpretation cell of a segment.
fn interpretation_text(s: &SegmentLabels) -> (r: String)
    ensures
        r@ == interpretation(s@),
{
    String::from_str("Chord `").concat(s.chord.as_str()).concat("` <br> Dynamic: ").concat(
        s.dynamic_level.as_str(),
    ).concat(" <br> Timbre: ").concat(s.timbre_brightness.as_str())
}

/// The table row for one aligned pair.
fn comparison_row_text(step: usize, sa: &SegmentLabels, sb: &SegmentLabels) -> (r: String)
    ensures
        r@ == comparison_row(step as nat, sa@, sb@),
{
    let number = decimal_string(step as u128);
    let ia = interpretation_text(sa);
    let ib = interpretation_text(sb);
    String::from_str("| **Step ").concat(number.as_str()).concat("** | ").concat(
        sa.time_range.as_str(),
    ).concat(" | ").concat(sb.time_range.as_str()).concat(" | ").concat(ia.as_str()).concat(
        " | ",
    ).concat(ib.as_str()).concat(" |")
}

/// The header line of one track.
fn track_line_text(prefix: &str, t: &TrackDescription) -> (r: String)
    ensures
        r@ == track_line(prefix@, t@),
{
    String::from_str(prefix).concat(t.filename.as_str()).concat("` | Estimated Key: `").concat(
        t.estimated_global_key.as_str(),
    ).concat("`")
}

impl SonicPipeline {
    /// Writes the comparative report of two versions of a piece: their
    /// metadata, then one table row per cell of the DTW alignment path, each
    /// pairing a segment of the first version with one of the second. The
    /// path is the one traced back through `steps` (see
    /// [`DtwAligner::backtrack`]).
    pub fn process_comparative(
        track_a: &TrackDescription,
        track_b: &TrackDescription,
        steps: &Vec<Vec<DtwStep>>,
    ) -> (report: String)
        requires
            track_a.segments.len() > 0 && track_b.segments.len() > 0 ==> steps_cover(
                steps@,
                track_a.segments.len() as int,
                track_b.segments.len() as int,
            ),
        ensures
            report@ == spec_comparative_report(
                track_a@,
                track_b@,
                alignment_path(
                    steps@,
                    track_a.segments.len() as int,
                    track_b.segments.len() as int,
                ),
            ),
    {
        let na = track_a.segments.len();
        let nb = track_b.segments.len();
        let aligner = DtwAligner::new();
        let path = aligner.backtrack(na, nb, steps);
        let ghost gpath = alignment_path(steps@, na as int, nb as int);
        assert(path@ =~= gpath);
        proof {
            if na > 0 && nb > 0 {
                lemma_warp_path_is_warping(steps@, (na - 1) as usize, (nb - 1) as usize);
                assert forall|q: int| 0 <= q < gpath.len() implies #[trigger] gpath[q].0 < na
                    && gpath[q].1 < nb by {
                    assert(gpath[q].0 <= (na - 1) as usize);
                    assert(gpath[q].1 <= (nb - 1) as usize);
                }
            } else {
                assert(gpath.len() == 0);
            }
        }
        assert(forall|q: int| 0 <= q < gpath.len() ==> #[trigger] gpath[q].0 < na && gpath[q].1 < nb);
        let mut lines: Vec<String> = Vec::new();
        lines.push(String::from_str("# SonicBridge: LLM-Readable Music Comparative Report (LRMD)\n"));
        lines.push(String::from_str("> [!IMPORTANT]"));
        lines.push(String::from_str("> This is a DTW-aligned comparative aesthetic analysis comparing the interpretation, vocal affect, and mix dynamics of two versions of the same track.\n"));
        lines.push(String::from_str("## 1. Global Metadata & Comparison"));
        lines.push(track_line_text("- **Track A (Original)**: `", track_a));
        lines.push(track_line_text("- **Track B (Cover)**: `", track_b));
        lines.push(String::from_str("- **Aesthetic Register shift**: Pitch transposed and matched dynamic range via temporal warping.\n"));
        lines.push(String::from_str("## 2. Dynamic Time Warped (DTW) Aesthetic Alignment Matrix"));
        lines.push(String::from_str("The matrix below aligns identical musical sections across both tracks, bypassing tempo differences:\n"));
        lines.push(String::from_str("| Music Step | Timeline A | Timeline B | Track A (Original) Interpretation | Track B (Cover) Interpretation |"));
        lines.push(String::from_str("| :--- | :--- | :--- | :--- | :--- |"));
        let ghost header = comparative_header(track_a@, track_b@);
        let ghost rows = comparison_rows(gpath, track_a@.segments, track_b@.segments);
        assert(string_views(lines@) =~= header);
        let mut k: usize = 0;
        while k < path.len()
            invariant
                k <= path.len(),
                path@ == gpath,
                na == track_a.segments.len(),
                nb == track_b.segments.len(),
                forall|q: int| 0 <= q < gpath.len() ==> #[trigger] gpath[q].0 < na && gpath[q].1 < nb,
                rows == comparison_rows(gpath, track_a@.segments, track_b@.segments),
                string_views(lines@) == header + rows.take(k as int),
            decreases path.len() - k,
        {
            let (i, j) = path[k];
            assert(track_a@.segments[i as int] == track_a.segments@[i as int]@);
            assert(track_b@.segments[j as int] == track_b.segments@[j as int]@);
            let row = comparison_row_text(k + 1, &track_a.segments[i], &track_b.segments[j]);
            assert(row@ == rows[k as int]);
            let ghost old_lines = lines@;
            let ghost row_view = row@;
            lines.push(row);
            assert(lines@ =~= old_lines.push(row));
            assert(string_views(lines@) =~= string_views(old_lines).push(row_view));
            assert(header + rows.take(k + 1) =~= (header + rows.take(k as int)).push(rows[k as int]));
            k = k + 1;
        }
        assert(rows.take(path.len() as int) =~= rows);
        let sep = "\n";
        join_lines(&lines, sep)
    }
}


// ---------------------------------------------------------------------------
// Single-track report
// ---------------------------------------------------------------------------

/// The global findings of a single-track analysis, with each measured
/// quantity already written out as text.
pub struct TrackSummary {
    pub filename: String,
    /// The duration in seconds, written with two decimals.
    pub duration_text: String,
    /// The tempo in BPM written with one decimal, or nothing when the track
    /// has no steady pulse.
    pub bpm_text: Option<String>,
    pub tempo_feeling: String,
    pub estimated_global_key: String,
    pub primary_style: String,
    /// The analysis confidence, written with two decimals.
    pub confidence_text: String,
}

/// Mathematical model of a [`TrackSummary`].
pub struct SummaryModel {
    pub filename: Seq<char>,
    pub duration_text: Seq<char>,
    pub bpm_text: Option<Seq<char>>,
    pub tempo_feeling: Seq<char>,
    pub estimated_global_key: Seq<char>,
    pub primary_style: Seq<char>,
    pub confidence_text: Seq<char>,
}

impl View for TrackSummary {
    type V = SummaryModel;

    open spec fn view(&self) -> SummaryModel {
        SummaryModel {
            filename: self.filename@,
            duration_text: self.duration_text@,
            bpm_text: match self.bpm_text {
                Some(t) => Some(t@),
                None => None,
            },
            tempo_feeling: self.tempo_feeling@,
            estimated_global_key: self.estimated_global_key@,
            primary_style: self.primary_style@,
            confidence_text: self.confidence_text@,
        }
    }
}

/// The tempo line of the report.
pub open spec fn tempo_line(m: SummaryModel) -> Seq<char> {
    match m.bpm_text {
        None => "- **Tempo (BPM)**: `Unknown (Ambient / Free Rhythm)` ("@ + m.tempo_feeling + ")"@,
        Some(b) => "- **Tempo (BPM)**: `"@ + b + " BPM` ("@ + m.tempo_feeling + ")"@,
    }
}

/// The heading of the segment table, which names how the track was cut.
pub open spec fn interval_heading(onset_mode: bool, beat_mode: bool, step_text: Seq<char>) -> Seq<char> {
    if onset_mode {
        "## 2. Spatiotemporal Track Analysis (Adaptive Onset Intervals)"@
    } else if beat_mode {
        "## 2. Spatiotemporal Track Analysis (Beat-Synchronous Resampling)"@
    } else {
        "## 2. Spatiotemporal Track Analysis ("@ + step_text + "-Second Intervals)"@
    }
}

/// The lines of the report before the segment rows.
pub open spec fn report_header(m: SummaryModel, heading: Seq<char>) -> Seq<Seq<char>> {
    seq![
        "# SonicBridge: LLM-Readable Music Descriptor (LRMD)\n"@,
        "> [!NOTE]"@,
        "> This is a physical-to-semantic acoustic report generated by SonicBridge. Pure-text LLMs can 'listen to' and 'appreciate' this track via this spatiotemporal matrix.\n"@,
        "## 1. Global Acoustic & Musicological Metadata"@,
        "- **Filename**: `"@ + m.filename + "`"@,
        "- **Duration**: `"@ + m.duration_text + " seconds`"@,
        tempo_line(m),
        "- **Estimated Key**: `"@ + m.estimated_global_key + "`"@,
        "- **Primary Style**: `"@ + m.primary_style + "`"@,
        "- **Analysis Confidence**: `"@ + m.confidence_text + "`\n"@,
        heading,
        "| Timeline | Chord | Dynamic Intensity | Timbral Brightness | Rhythmic & Transient Activity |"@,
        "| :--- | :--- | :--- | :--- | :--- |"@,
    ]
}

/// The table heading follows the slicing the run used: with onset mode on it
/// always names adaptive onset intervals, whether or not beat mode is also
/// on; with beat mode alone it names beat-synchronous resampling; otherwise
/// it names the step length. The heading is the eleventh line of the report.
pub proof fn lemma_heading_follows_slicing(m: SummaryModel, beat_mode: bool, step_text: Seq<char>)
    ensures
        interval_heading(true, beat_mode, step_text)
            == "## 2. Spatiotemporal Track Analysis (Adaptive Onset Intervals)"@,
        interval_heading(false, true, step_text)
            == "## 2. Spatiotemporal Track Analysis (Beat-Synchronous Resampling)"@,
        has_prefix(interval_heading(false, false, step_text), "## 2. Spatiotemporal Track Analysis ("@),
        interval_heading(false, false, step_text).subrange(
            "## 2. Spatiotemporal Track Analysis ("@.len() as int,
            ("## 2. Spatiotemporal Track Analysis ("@.len() + step_text.len()) as int,
        ) == step_text,
        forall|onset: bool, beat: bool| #[trigger] report_header(m, interval_heading(onset, beat, step_text))[10]
            == interval_heading(onset, beat, step_text),
{
    let p = "## 2. Spatiotemporal Track Analysis ("@;
    let h = interval_heading(false, false, step_text);
    assert(h == p + step_text + "-Second Intervals)"@);
    assert(h.take(p.len() as int) =~= p);
    assert(h.subrange(p.len() as int, (p.len() + step_text.len()) as int) =~= step_text);
}

/// The table row of one segment.
pub open spec fn segment_row(s: LabelsModel) -> Seq<char> {
    "| **"@ + s.time_range + "** | `"@ + s.chord + "` | "@ + s.dynamic_level + " | "@
        + s.timbre_brightness + " | "@ + s.rhythm_activity + " |"@
}

/// The single-track report: the header lines, then one row per segment, one
/// line each.
pub open spec fn spec_lrmd_report(
    m: SummaryModel,
    segs: Seq<LabelsModel>,
    onset_mode: bool,
    beat_mode: bool,
    step_text: Seq<char>,
) -> Seq<char> {
    join(
        report_header(m, interval_heading(onset_mode, beat_mode, step_text)) + segs.map_values(
            |s: LabelsModel| segment_row(s),
        ),
        "\n"@,
    )
}

/// The tempo line of a summary.
fn tempo_line_text(m: &TrackSummary) -> (r: String)
    ensures
        r@ == tempo_line(m@),
{
    match &m.bpm_text {
        None => String::from_str("- **Tempo (BPM)**: `Unknown (Ambient / Free Rhythm)` (").concat(
            m.tempo_feeling.as_str(),
        ).concat(")"),
        Some(b) => String::from_str("- **Tempo (BPM)**: `").concat(b.as_str()).concat(" BPM` (").concat(
            m.tempo_feeling.as_str(),
        ).concat(")"),
    }
}

/// The table row of a segment.
fn segment_row_text(s: &SegmentLabels) -> (r: String)
    ensures
        r@ == segment_row(s@),
{
    String::from_str("| **").concat(s.time_range.as_str()).concat("** | `").concat(
        s.chord.as_str(),
    ).concat("` | ").concat(s.dynamic_level.as_str()).concat(" | ").concat(
        s.timbre_brightness.as_str(),
    ).concat(" | ").concat(s.rhythm_activity.as_str()).concat(" |")
}

impl SonicPipeline {
    /// Writes the single-track report (LRMD): the global metadata, then a
    /// table with one row per segment. The table heading says how the track
    /// was cut: at onsets, at beats, or every `step_text` seconds.
    pub fn generate_lrmd_report(
        meta: &TrackSummary,
        segs: &Vec<SegmentLabels>,
        onset_mode: bool,
        beat_mode: bool,
        step_text: &str,
    ) -> (report: String)
        ensures
            report@ == spec_lrmd_report(meta@, label_models(segs@), onset_mode, beat_mode, step_text@),
    {
        let heading = if onset_mode {
            String::from_str("## 2. Spatiotemporal Track Analysis (Adaptive Onset Intervals)")
        } else if beat_mode {
            String::from_str("## 2. Spatiotemporal Track Analysis (Beat-Synchronous Resampling)")
        } else {
            String::from_str("## 2. Spatiotemporal Track Analysis (").concat(step_text).concat(
                "-Second Intervals)",
            )
        };
        let ghost heading_view = heading@;
        assert(heading_view == interval_heading(onset_mode, beat_mode, step_text@));
        let mut lines: Vec<String> = Vec::new();
        lines.push(String::from_str("# SonicBridge: LLM-Readable Music Descriptor (LRMD)\n"));
        lines.push(String::from_str("> [!NOTE]"));
        lines.push(String::from_str("> This is a physical-to-semantic acoustic report generated by SonicBridge. Pure-text LLMs can 'listen to' and 'appreciate' this track via this spatiotemporal matrix.\n"));
        lines.push(String::from_str("## 1. Global Acoustic & Musicological Metadata"));
        lines.push(String::from_str("- **Filename**: `").concat(meta.filename.as_str()).concat("`"));
        lines.push(String::from_str("- **Duration**: `").concat(meta.duration_text.as_str()).concat(" seconds`"));
        lines.push(tempo_line_text(meta));
        lines.push(String::from_str("- **Estimated Key**: `").concat(meta.estimated_global_key.as_str()).concat("`"));
        lines.push(String::from_str("- **Primary Style**: `").concat(meta.primary_style.as_str()).concat("`"));
        lines.push(String::from_str("- **Analysis Confidence**: `").concat(meta.confidence_text.as_str()).concat("`\n"));
        lines.push(heading);
        lines.push(String::from_str("| Timeline | Chord | Dynamic Intensity | Timbral Brightness | Rhythmic & Transient Activity |"));
        lines.push(String::from_str("| :--- | :--- | :--- | :--- | :--- |"));
        let ghost header = report_header(meta@, heading_view);
        let ghost rows = label_models(segs@).map_values(|s: LabelsModel| segment_row(s));
        assert(string_views(lines@) =~= header);
        let mut k: usize = 0;
        while k < segs.len()
            invariant
                k <= segs.len(),
                rows == label_models(segs@).map_values(|s: LabelsModel| segment_row(s)),
                string_views(lines@) == header + rows.take(k as int),
            decreases segs.len() - k,
        {
            let row = segment_row_text(&segs[k]);
            assert(row@ == rows[k as int]);
            let ghost old_lines = lines@;
            let ghost row_view = row@;
            lines.push(row);
            assert(string_views(lines@) =~= string_views(old_lines).push(row_view));
            assert(header + rows.take(k + 1) =~= (header + rows.take(k as int)).push(rows[k as int]));
            k = k + 1;
        }
        assert(rows.take(segs.len() as int) =~= rows);
        join_lines(&lines, "\n")
    }
}

} // verus!
