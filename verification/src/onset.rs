//! Which spectral-flux peaks become onsets.
//!
//! Whether a frame is a candidate (its flux is a local peak above the
//! adaptive median threshold) is decided on real-valued flux by the caller;
//! here the candidates are thinned so that onsets keep a minimum distance,
//! which suppresses bursts of micro-transients.
use vstd::prelude::*;

verus! {

/// The least number of frames between two onsets (4 hops of 512 samples at
/// 22050 Hz, about 93 ms), short enough to keep beats above 170 BPM and their
/// subdivisions.
pub open spec fn min_onset_gap() -> int {
    4
}

/// The onsets among the candidate frames `1..k`, scanning forward: a
/// candidate becomes an onset when it is the first one or lies at least
/// [`min_onset_gap`] frames after the previous onset. Also returns the last
/// onset (0 while there is none).
pub open spec fn debounce_prefix(candidates: Seq<bool>, k: nat) -> (Seq<usize>, int)
    decreases k,
{
    if k <= 1 {
        (seq![], 0)
    } else {
        let (found, last) = debounce_prefix(candidates, (k - 1) as nat);
        let i = k - 1;
        if candidates[i] && (last == 0 || i - last >= min_onset_gap()) {
            (found.push(i as usize), i)
        } else {
            (found, last)
        }
    }
}

/// The onsets chosen among all candidate frames (frame 0 is never one).
pub open spec fn spec_onsets(candidates: Seq<bool>) -> Seq<usize> {
    debounce_prefix(candidates, candidates.len()).0
}

/// `s` is what debouncing can produce from `candidates`: increasing frames
/// after frame 0, each a candidate, at least [`min_onset_gap`] apart.
pub open spec fn well_spaced(s: Seq<usize>, candidates: Seq<bool>) -> bool {
    &&& forall|i: int| 0 <= i < s.len() ==> 1 <= #[trigger] s[i] < candidates.len() && candidates[s[i] as int]
    &&& forall|i: int| 0 <= i < s.len() - 1 ==> #[trigger] s[i] + min_onset_gap() <= s[i + 1]
}

proof fn lemma_debounce_prefix(candidates: Seq<bool>, k: nat)
    requires
        k <= candidates.len() <= usize::MAX,
    ensures
        ({
            let (found, last) = debounce_prefix(candidates, k);
            &&& well_spaced(found, candidates)
            &&& forall|i: int| 0 <= i < found.len() ==> #[trigger] found[i] < k
            &&& (found.len() == 0 ==> last == 0)
            &&& (found.len() > 0 ==> last == found.last())
        }),
    decreases k,
{
    if k > 1 {
        lemma_debounce_prefix(candidates, (k - 1) as nat);
        let (found, last) = debounce_prefix(candidates, (k - 1) as nat);
        let i = k - 1;
        if candidates[i] && (last == 0 || i - last >= min_onset_gap()) {
            assert((i as usize) as int == i);
            let grown = found.push(i as usize);
            if found.len() > 0 {
                assert(found[found.len() - 1] >= 1);
                assert(last != 0);
            }
            assert forall|q: int| 0 <= q < grown.len() implies 1 <= #[trigger] grown[q]
                < candidates.len() && candidates[grown[q] as int] by {
                if q < found.len() {
                    assert(grown[q] == found[q]);
                }
            }
            assert forall|q: int| 0 <= q < grown.len() - 1 implies #[trigger] grown[q]
                + min_onset_gap() <= grown[q + 1] by {
                if q < found.len() - 1 {
                    assert(grown[q] == found[q] && grown[q + 1] == found[q + 1]);
                } else {
                    assert(grown[q] == found.last());
                }
            }
            assert forall|q: int| 0 <= q < grown.len() implies #[trigger] grown[q] < k by {
                if q < found.len() {
                    assert(grown[q] == found[q]);
                }
            }
        }
    }
}

/// Debouncing keeps only candidate frames, in increasing order, any two at
/// least [`min_onset_gap`] frames apart; and every candidate that is not
/// kept lies within that distance after a kept one.
pub proof fn lemma_onsets_well_spaced(candidates: Seq<bool>)
    requires
        candidates.len() <= usize::MAX,
    ensures
        well_spaced(spec_onsets(candidates), candidates),
        forall|f: int|
            1 <= f < candidates.len() && #[trigger] candidates[f] && !spec_onsets(candidates).contains(
                f as usize,
            ) ==> exists|j: int|
                0 <= j < spec_onsets(candidates).len() && spec_onsets(candidates)[j] < f
                    && f < spec_onsets(candidates)[j] + min_onset_gap(),
{
    lemma_debounce_prefix(candidates, candidates.len());
    lemma_skipped_candidates(candidates, candidates.len());
}

proof fn lemma_skipped_candidates(candidates: Seq<bool>, k: nat)
    requires
        k <= candidates.len() <= usize::MAX,
    ensures
        forall|f: int|
            1 <= f < k && #[trigger] candidates[f] && !debounce_prefix(candidates, k).0.contains(
                f as usize,
            ) ==> exists|j: int|
                0 <= j < debounce_prefix(candidates, k).0.len() && debounce_prefix(candidates, k).0[j]
                    < f && f < debounce_prefix(candidates, k).0[j] + min_onset_gap(),
    decreases k,
{
    if k > 1 {
        let prev = debounce_prefix(candidates, (k - 1) as nat);
        let cur = debounce_prefix(candidates, k);
        lemma_skipped_candidates(candidates, (k - 1) as nat);
        lemma_debounce_prefix(candidates, (k - 1) as nat);
        assert forall|f: int|
            1 <= f < k && #[trigger] candidates[f] && !cur.0.contains(f as usize) implies exists|j: int|
                0 <= j < cur.0.len() && cur.0[j] < f && f < cur.0[j] + min_onset_gap() by {
            if f < k - 1 {
                if prev.0.contains(f as usize) {
                    let w = choose|w: int| 0 <= w < prev.0.len() && prev.0[w] == f as usize;
                    assert(cur.0[w] == prev.0[w]);
                    assert(cur.0.contains(f as usize));
                } else {
                    let j = choose|j: int|
                        0 <= j < prev.0.len() && prev.0[j] < f && f < prev.0[j] + min_onset_gap();
                    assert(cur.0[j] == prev.0[j]);
                }
            } else {
                if prev.1 == 0 || f - prev.1 >= min_onset_gap() {
                    assert(cur.0.last() == f as usize);
                    assert(cur.0.contains(f as usize));
                } else {
                    assert(prev.0.len() > 0);
                    let j = prev.0.len() - 1;
                    assert(cur.0[j] == prev.0[j]);
                }
            }
        }
    }
}

/// The onsets among `candidates` (`candidates[f]`: frame `f` is a flux peak
/// above the threshold): scanning forward, a candidate is kept when it is
/// the first one kept or lies at least [`min_onset_gap`] frames after the
/// last one kept. Frame 0 is never an onset.
pub fn debounce_onsets(candidates: &Vec<bool>) -> (r: Vec<usize>)
    ensures
        r@ == spec_onsets(candidates@),
{
    let n = candidates.len();
    let mut found: Vec<usize> = Vec::new();
    let mut last: usize = 0;
    if n < 2 {
        return found;
    }
    let mut i: usize = 1;
    while i < n
        invariant
            1 <= i <= n == candidates@.len(),
            last < i,
            (found@, last as int) == debounce_prefix(candidates@, i as nat),
        decreases n - i,
    {
        if candidates[i] && (last == 0 || i - last >= 4) {
            found.push(i);
            last = i;
        }
        i = i + 1;
    }
    found
}

} // verus!
