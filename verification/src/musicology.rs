//! The symbolic vocabulary of the harmonic analysis: pitch-class names, the
//! chord templates the chord classifier matches against (which pitch classes
//! each chord sounds), and the names of keys and Chinese pentatonic modes.
//!
//! Pitch classes are numbered from C = 0 to B = 11. The similarity scores that
//! pick a chord or a key are real-valued and are computed by the caller over
//! these templates.
use vstd::prelude::*;

verus! {

// ---------------------------------------------------------------------------
// Pitch classes
// ---------------------------------------------------------------------------

/// The names of the twelve pitch classes, sharps for the black keys.
pub open spec fn pitch_names() -> Seq<Seq<char>> {
    seq![
        "C"@,
        "C#"@,
        "D"@,
        "D#"@,
        "E"@,
        "F"@,
        "F#"@,
        "G"@,
        "G#"@,
        "A"@,
        "A#"@,
        "B"@,
    ]
}

/// The name of pitch class `pc`.
pub fn pitch_name(pc: usize) -> (r: &'static str)
    requires
        pc < 12,
    ensures
        r@ == pitch_names()[pc as int],
{
    match pc {
        0 => "C",
        1 => "C#",
        2 => "D",
        3 => "D#",
        4 => "E",
        5 => "F",
        6 => "F#",
        7 => "G",
        8 => "G#",
        9 => "A",
        10 => "A#",
        _ => "B",
    }
}

// ---------------------------------------------------------------------------
// Chord templates
// ---------------------------------------------------------------------------

/// The chord qualities the classifier knows, in the order in which the
/// templates of one root are listed.
#[derive(Clone, Copy, PartialEq, Eq, Debug)]
pub enum ChordQuality {
    Major,
    Minor,
    Major7,
    Minor7,
    Dominant7,
    Sus2,
    Sus4,
}

/// The quality at position `k` (`0..7`) of the listing order.
pub open spec fn quality_at(k: int) -> ChordQuality {
    if k == 0 {
        ChordQuality::Major
    } else if k == 1 {
        ChordQuality::Minor
    } else if k == 2 {
        ChordQuality::Major7
    } else if k == 3 {
        ChordQuality::Minor7
    } else if k == 4 {
        ChordQuality::Dominant7
    } else if k == 5 {
        ChordQuality::Sus2
    } else {
        ChordQuality::Sus4
    }
}

/// What follows the root in a chord symbol of quality `q` (`"Am7"`).
pub open spec fn chord_suffix(q: ChordQuality) -> Seq<char> {
    match q {
        ChordQuality::Major => ""@,
        ChordQuality::Minor => "m"@,
        ChordQuality::Major7 => "maj7"@,
        ChordQuality::Minor7 => "m7"@,
        ChordQuality::Dominant7 => "7"@,
        ChordQuality::Sus2 => "sus2"@,
        ChordQuality::Sus4 => "sus4"@,
    }
}

/// The semitones above the root that a chord of quality `q` sounds.
pub open spec fn chord_intervals(q: ChordQuality) -> Seq<usize> {
    match q {
        ChordQuality::Major => seq![0, 4, 7],
        ChordQuality::Minor => seq![0, 3, 7],
        ChordQuality::Major7 => seq![0, 4, 7, 11],
        ChordQuality::Minor7 => seq![0, 3, 7, 10],
        ChordQuality::Dominant7 => seq![0, 4, 7, 10],
        ChordQuality::Sus2 => seq![0, 2, 7],
        ChordQuality::Sus4 => seq![0, 5, 7],
    }
}

/// One chord template: the chord symbol and the pitch classes it sounds.
pub struct ChordTemplate {
    pub name: String,
    pub pitch_classes: Vec<usize>,
}

/// Mathematical model of a [`ChordTemplate`].
pub struct TemplateModel {
    pub name: Seq<char>,
    pub pitch_classes: Seq<usize>,
}

impl View for ChordTemplate {
    type V = TemplateModel;

    open spec fn view(&self) -> TemplateModel {
        TemplateModel { name: self.name@, pitch_classes: self.pitch_classes@ }
    }
}

/// The template of the chord of quality `q` on root `root`.
pub open spec fn spec_chord_template(root: int, q: ChordQuality) -> TemplateModel {
    TemplateModel {
        name: pitch_names()[root] + chord_suffix(q),
        pitch_classes: chord_intervals(q).map_values(|d: usize| ((root + d) % 12) as usize),
    }
}

/// Number of chord templates: seven qualities on each of twelve roots.
pub open spec fn template_count() -> int {
    84
}

/// The chord suffix of quality `q`.
fn suffix_of(q: ChordQuality) -> (r: &'static str)
    ensures
        r@ == chord_suffix(q),
{
    match q {
        ChordQuality::Major => "",
        ChordQuality::Minor => "m",
        ChordQuality::Major7 => "maj7",
        ChordQuality::Minor7 => "m7",
        ChordQuality::Dominant7 => "7",
        ChordQuality::Sus2 => "sus2",
        ChordQuality::Sus4 => "sus4",
    }
}

/// The intervals of quality `q`.
fn intervals_of(q: ChordQuality) -> (r: Vec<usize>)
    ensures
        r@ == chord_intervals(q),
{
    let mut r: Vec<usize> = Vec::new();
    r.push(0);
    match q {
        ChordQuality::Major => {
            r.push(4);
            r.push(7);
        },
        ChordQuality::Minor => {
            r.push(3);
            r.push(7);
        },
        ChordQuality::Major7 => {
            r.push(4);
            r.push(7);
            r.push(11);
        },
        ChordQuality::Minor7 => {
            r.push(3);
            r.push(7);
            r.push(10);
        },
        ChordQuality::Dominant7 => {
            r.push(4);
            r.push(7);
            r.push(10);
        },
        ChordQuality::Sus2 => {
            r.push(2);
            r.push(7);
        },
        ChordQuality::Sus4 => {
            r.push(5);
            r.push(7);
        },
    }
    assert(r@ =~= chord_intervals(q));
    r
}

/// The quality at position `k` of the listing order.
fn quality_of_index(k: usize) -> (q: ChordQuality)
    requires
        k < 7,
    ensures
        q == quality_at(k as int),
{
    if k == 0 {
        ChordQuality::Major
    } else if k == 1 {
        ChordQuality::Minor
    } else if k == 2 {
        ChordQuality::Major7
    } else if k == 3 {
        ChordQuality::Minor7
    } else if k == 4 {
        ChordQuality::Dominant7
    } else if k == 5 {
        ChordQuality::Sus2
    } else {
        ChordQuality::Sus4
    }
}

/// The template of the chord of quality `q` on root `root`.
pub fn chord_template(root: usize, q: ChordQuality) -> (t: ChordTemplate)
    requires
        root < 12,
    ensures
        t@ == spec_chord_template(root as int, q),
{
    let name = String::from_str(pitch_name(root)).concat(suffix_of(q));
    let steps = intervals_of(q);
    let ghost target = spec_chord_template(root as int, q).pitch_classes;
    let mut classes: Vec<usize> = Vec::new();
    let mut i: usize = 0;
    while i < steps.len()
        invariant
            i <= steps.len(),
            root < 12,
            steps@ == chord_intervals(q),
            steps@.len() <= 4,
            forall|j: int| 0 <= j < steps@.len() ==> #[trigger] steps@[j] < 12,
            target == spec_chord_template(root as int, q).pitch_classes,
            classes@ == target.take(i as int),
        decreases steps.len() - i,
    {
        let pc = (root + steps[i]) % 12;
        classes.push(pc);
        assert(classes@ =~= target.take(i + 1));
        i = i + 1;
    }
    assert(classes@ =~= target);
    ChordTemplate { name, pitch_classes: classes }
}

/// All chord templates, root by root from C to B, and for each root the
/// qualities in the order major, minor, major seventh, minor seventh,
/// dominant seventh, sus2, sus4.
pub fn chord_templates() -> (r: Vec<ChordTemplate>)
    ensures
        r@.len() == template_count(),
        forall|k: int| 0 <= k < template_count() ==> #[trigger] r@[k]@ == spec_chord_template(
            k / 7,
            quality_at(k % 7),
        ),
{
    let mut r: Vec<ChordTemplate> = Vec::new();
    let mut root: usize = 0;
    while root < 12
        invariant
            root <= 12,
            r@.len() == root * 7,
            forall|k: int| 0 <= k < r@.len() ==> #[trigger] r@[k]@ == spec_chord_template(
                k / 7,
                quality_at(k % 7),
            ),
        decreases 12 - root,
    {
        let mut k: usize = 0;
        while k < 7
            invariant
                root < 12,
                k <= 7,
                r@.len() == root * 7 + k,
                forall|m: int| 0 <= m < r@.len() ==> #[trigger] r@[m]@ == spec_chord_template(
                    m / 7,
                    quality_at(m % 7),
                ),
            decreases 7 - k,
        {
            let q = quality_of_index(k);
            let t = chord_template(root, q);
            let ghost pos = root * 7 + k;
            assert(pos / 7 == root && pos % 7 == k) by (nonlinear_arith)
                requires
                    pos == root * 7 + k,
                    k < 7,
            ;
            r.push(t);
            k = k + 1;
        }
        root = root + 1;
    }
    r
}

// ---------------------------------------------------------------------------
// Keys and modes
// ---------------------------------------------------------------------------

/// Every chord sounds its root and its fifth; its symbol says which third or
/// suspension and which seventh it adds: a minor third (3 semitones) exactly
/// when the suffix is `m` or `m7`, a major third (4) exactly when the suffix
/// is empty, `maj7` or `7`, a major second (2) for `sus2`, a fourth (5) for
/// `sus4`, a major seventh (11) for `maj7` and a minor seventh (10) for `m7`
/// and `7`.
pub proof fn lemma_chord_symbols_name_their_notes(q: ChordQuality)
    ensures
        chord_intervals(q).contains(0),
        chord_intervals(q).contains(7),
        chord_intervals(q).contains(3) <==> (chord_suffix(q) == "m"@ || chord_suffix(q) == "m7"@),
        chord_intervals(q).contains(4) <==> (chord_suffix(q) == ""@ || chord_suffix(q) == "maj7"@
            || chord_suffix(q) == "7"@),
        chord_intervals(q).contains(2) <==> chord_suffix(q) == "sus2"@,
        chord_intervals(q).contains(5) <==> chord_suffix(q) == "sus4"@,
        chord_intervals(q).contains(11) <==> chord_suffix(q) == "maj7"@,
        chord_intervals(q).contains(10) <==> (chord_suffix(q) == "m7"@ || chord_suffix(q) == "7"@),
{
    reveal_strlit("");
    reveal_strlit("m");
    reveal_strlit("maj7");
    reveal_strlit("m7");
    reveal_strlit("7");
    reveal_strlit("sus2");
    reveal_strlit("sus4");
    assert(""@.len() == 0 && "m"@.len() == 1 && "7"@.len() == 1 && "m7"@.len() == 2);
    assert("maj7"@.len() == 4 && "sus2"@.len() == 4 && "sus4"@.len() == 4);
    assert("m"@[0] == 'm' && "7"@[0] == '7');
    assert("maj7"@[0] == 'm' && "sus2"@[0] == 's' && "sus4"@[0] == 's');
    assert("sus2"@[3] == '2' && "sus4"@[3] == '4');
    let iv = chord_intervals(q);
    let (x, y, z): (usize, usize, usize) = match q {
        ChordQuality::Major => (4, 7, 7),
        ChordQuality::Minor => (3, 7, 7),
        ChordQuality::Major7 => (4, 7, 11),
        ChordQuality::Minor7 => (3, 7, 10),
        ChordQuality::Dominant7 => (4, 7, 10),
        ChordQuality::Sus2 => (2, 7, 7),
        ChordQuality::Sus4 => (5, 7, 7),
    };
    assert(iv[0] == 0 && iv[1] == x && iv[2] == y);
    assert(iv.len() == 3 || (iv.len() == 4 && iv[3] == z));
    assert(iv.len() == 3 ==> z == 7);
    assert forall|d: usize| iv.contains(d) <==> (d == 0 || d == x || d == y || d == z) by {
        if d == 0 {
            assert(iv[0] == d);
        }
        if d == x {
            assert(iv[1] == d);
        }
        if d == y {
            assert(iv[2] == d);
        }
        if d == z && iv.len() == 4 {
            assert(iv[3] == d);
        }
    }
}

/// Pitch classes are named in rising order of the white keys C D E F G A B,
/// a black key taking the name of the white key below it with `#`: the five
/// black keys (1, 3, 6, 8, 10) and only they have two-character names.
pub proof fn lemma_pitch_names_rise(pc: int)
    requires
        0 <= pc < 12,
    ensures
        pitch_names().len() == 12,
        pitch_names()[pc].len() == 2 <==> (pc == 1 || pc == 3 || pc == 6 || pc == 8 || pc == 10),
        pitch_names()[pc].len() == 2 ==> pitch_names()[pc] == pitch_names()[pc - 1] + "#"@,
        pitch_names()[pc].len() == 1 || pitch_names()[pc].len() == 2,
        pitch_names()[0] == "C"@ && pitch_names()[2] == "D"@ && pitch_names()[4] == "E"@
            && pitch_names()[5] == "F"@ && pitch_names()[7] == "G"@ && pitch_names()[9] == "A"@
            && pitch_names()[11] == "B"@,
{
    reveal_strlit("C");
    reveal_strlit("C#");
    reveal_strlit("D");
    reveal_strlit("D#");
    reveal_strlit("E");
    reveal_strlit("F");
    reveal_strlit("F#");
    reveal_strlit("G");
    reveal_strlit("G#");
    reveal_strlit("A");
    reveal_strlit("A#");
    reveal_strlit("B");
    reveal_strlit("#");
    assert("C"@ + "#"@ =~= "C#"@);
    assert("D"@ + "#"@ =~= "D#"@);
    assert("F"@ + "#"@ =~= "F#"@);
    assert("G"@ + "#"@ =~= "G#"@);
    assert("A"@ + "#"@ =~= "A#"@);
}

/// A key's name is its tonic's name followed by ` Major` for a major key and
/// ` Minor` for a minor one, so the two keys on one tonic never share a name.
pub proof fn lemma_key_labels_tell_mode(root: int)
    requires
        0 <= root < 12,
    ensures
        spec_key_label(root, true).subrange(pitch_names()[root].len() as int, spec_key_label(root, true).len() as int)
            == " Major"@,
        spec_key_label(root, false).subrange(pitch_names()[root].len() as int, spec_key_label(root, false).len() as int)
            == " Minor"@,
        has_name_prefix(spec_key_label(root, true), pitch_names()[root]),
        spec_key_label(root, true) != spec_key_label(root, false),
{
    reveal_strlit(" Major");
    reveal_strlit(" Minor");
    let n = pitch_names()[root];
    assert(spec_key_label(root, true).subrange(n.len() as int, spec_key_label(root, true).len() as int) =~= " Major"@);
    assert(spec_key_label(root, false).subrange(n.len() as int, spec_key_label(root, false).len() as int) =~= " Minor"@);
    assert(spec_key_label(root, true).take(n.len() as int) =~= n);
    assert(spec_key_label(root, true)[n.len() as int + 2] != spec_key_label(root, false)[n.len() as int + 2]);
}

/// `p` is a prefix of `s`.
pub open spec fn has_name_prefix(s: Seq<char>, p: Seq<char>) -> bool {
    p.len() <= s.len() && s.take(p.len() as int) == p
}

/// The name of the major or minor key on `root` (`"A Minor"`).
pub open spec fn spec_key_label(root: int, major: bool) -> Seq<char> {
    pitch_names()[root] + if major {
        " Major"@
    } else {
        " Minor"@
    }
}

/// The name of the major (or minor) key on pitch class `root`.
pub fn key_label(root: usize, major: bool) -> (r: String)
    requires
        root < 12,
    ensures
        r@ == spec_key_label(root as int, major),
{
    let base = String::from_str(pitch_name(root));
    if major {
        base.concat(" Major")
    } else {
        base.concat(" Minor")
    }
}

/// The five modes of the Chinese pentatonic scale, named by their final:
/// gong, shang, jiao, zhi and yu.
#[derive(Clone, Copy, PartialEq, Eq, Debug)]
pub enum PentatonicMode {
    Gong,
    Shang,
    Jiao,
    Zhi,
    Yu,
}

/// The name of a mode (`"宫调式"` for gong).
pub open spec fn mode_name(m: PentatonicMode) -> Seq<char> {
    match m {
        PentatonicMode::Gong => "宫调式"@,
        PentatonicMode::Shang => "商调式"@,
        PentatonicMode::Jiao => "角调式"@,
        PentatonicMode::Zhi => "徵调式"@,
        PentatonicMode::Yu => "羽调式"@,
    }
}

/// The two semitone steps above the final that the mode leaves out, and
/// whose absence identifies it.
pub open spec fn mode_gaps(m: PentatonicMode) -> (int, int) {
    match m {
        PentatonicMode::Gong => (5, 11),
        PentatonicMode::Shang => (3, 9),
        PentatonicMode::Jiao => (1, 7),
        PentatonicMode::Zhi => (4, 10),
        PentatonicMode::Yu => (2, 8),
    }
}

/// The name of the mode `m` on `root` (`"D 宫调式"`).
pub open spec fn spec_mode_label(root: int, m: PentatonicMode) -> Seq<char> {
    pitch_names()[root] + " "@ + mode_name(m)
}

/// Each mode is named after the degree that is its final, which the gaps of
/// the mode determine: leaving out 5 and 11 semitones above the final gives
/// gong (宫), 3 and 9 shang (商), 1 and 7 jiao (角), 4 and 10 zhi (徵), 2 and 8
/// yu (羽); and no two modes share a name.
pub proof fn lemma_mode_names_follow_gaps(m: PentatonicMode, n: PentatonicMode)
    ensures
        mode_gaps(m) == (5int, 11int) ==> mode_name(m) == "宫调式"@,
        mode_gaps(m) == (3int, 9int) ==> mode_name(m) == "商调式"@,
        mode_gaps(m) == (1int, 7int) ==> mode_name(m) == "角调式"@,
        mode_gaps(m) == (4int, 10int) ==> mode_name(m) == "徵调式"@,
        mode_gaps(m) == (2int, 8int) ==> mode_name(m) == "羽调式"@,
        m != n ==> mode_name(m) != mode_name(n),
        forall|root: int| #[trigger] spec_mode_label(root, m) == pitch_names()[root] + " "@ + mode_name(m),
{
    reveal_strlit("宫调式");
    reveal_strlit("商调式");
    reveal_strlit("角调式");
    reveal_strlit("徵调式");
    reveal_strlit("羽调式");
    if m != n {
        assert(mode_name(m)[0] != mode_name(n)[0]);
    }
}

/// The name of pentatonic mode `m` with final `root`.
pub fn mode_label(root: usize, m: PentatonicMode) -> (r: String)
    requires
        root < 12,
    ensures
        r@ == spec_mode_label(root as int, m),
{
    let name = match m {
        PentatonicMode::Gong => "宫调式",
        PentatonicMode::Shang => "商调式",
        PentatonicMode::Jiao => "角调式",
        PentatonicMode::Zhi => "徵调式",
        PentatonicMode::Yu => "羽调式",
    };
    String::from_str(pitch_name(root)).concat(" ").concat(name)
}

/// The pitch classes that mode `m` with final `root` leaves out.
pub fn missing_degrees(root: usize, m: PentatonicMode) -> (r: (usize, usize))
    requires
        root < 12,
    ensures
        r.0 == (root + mode_gaps(m).0) % 12,
        r.1 == (root + mode_gaps(m).1) % 12,
{
    let (a, b): (usize, usize) = match m {
        PentatonicMode::Gong => (5, 11),
        PentatonicMode::Shang => (3, 9),
        PentatonicMode::Jiao => (1, 7),
        PentatonicMode::Zhi => (4, 10),
        PentatonicMode::Yu => (2, 8),
    };
    ((root + a) % 12, (root + b) % 12)
}

} // verus!
