//! Dynamic Time Warping: the warping path through a cumulative cost matrix.
//!
//! The cumulative costs themselves are real-valued; what this module decides
//! is, for each cell, which neighbour the path came from (given how the three
//! neighbouring costs compare), and the path that these choices trace back
//! from the last cell to the first.
use vstd::prelude::*;

verus! {

/// Dynamic Time Warping aligner for two sequences.
pub struct DtwAligner;

/// The neighbour a warping path arrives from.
#[derive(Clone, Copy, Debug, PartialEq, Eq)]
pub enum DtwStep {
    /// From `(i - 1, j - 1)`.
    Diagonal,
    /// From `(i, j - 1)`.
    Left,
    /// From `(i - 1, j)`.
    Up,
}

/// The step taken back from a cell whose three predecessors compare as
/// given: diagonal when its cost is no greater than both others, otherwise
/// left when its cost is no greater than the upper one, otherwise up.
pub open spec fn spec_choose_step(diag_le_left: bool, diag_le_up: bool, left_le_up: bool) -> DtwStep {
    if diag_le_left && diag_le_up {
        DtwStep::Diagonal
    } else if left_le_up {
        DtwStep::Left
    } else {
        DtwStep::Up
    }
}

/// The cumulative cost of the predecessor that `step` leads back to, given
/// the costs of the diagonal, left and upper predecessors.
pub open spec fn step_cost(step: DtwStep, diag: int, left: int, up: int) -> int {
    match step {
        DtwStep::Diagonal => diag,
        DtwStep::Left => left,
        DtwStep::Up => up,
    }
}

/// The step chosen from how three cumulative costs compare leads back to a
/// predecessor of least cost; among equally cheap ones it prefers the
/// diagonal, then the left one.
pub proof fn lemma_choose_step_is_cheapest(diag: int, left: int, up: int)
    ensures
        ({
            let s = spec_choose_step(diag <= left, diag <= up, left <= up);
            &&& step_cost(s, diag, left, up) <= diag
            &&& step_cost(s, diag, left, up) <= left
            &&& step_cost(s, diag, left, up) <= up
            &&& (diag <= left && diag <= up ==> s == DtwStep::Diagonal)
            &&& (left < diag && left <= up ==> s == DtwStep::Left)
            &&& (up < diag && up < left ==> s == DtwStep::Up)
        }),
{
}

/// The table of steps covers an `n` by `m` grid.
pub open spec fn steps_cover(steps: Seq<Vec<DtwStep>>, n: int, m: int) -> bool {
    &&& steps.len() == n
    &&& forall|i: int| 0 <= i < n ==> #[trigger] steps[i]@.len() == m
}

/// The warping path from `(0, 0)` to `(i, j)` that the steps trace: along the
/// first row or column the path can only come from the left or from above;
/// inside the grid it follows the recorded step.
pub open spec fn warp_path(steps: Seq<Vec<DtwStep>>, i: usize, j: usize) -> Seq<(usize, usize)>
    decreases i + j,
{
    if i == 0 && j == 0 {
        seq![(0usize, 0usize)]
    } else if i == 0 {
        warp_path(steps, 0, (j - 1) as usize).push((i, j))
    } else if j == 0 {
        warp_path(steps, (i - 1) as usize, 0).push((i, j))
    } else {
        match steps[i as int]@[j as int] {
            DtwStep::Diagonal => warp_path(steps, (i - 1) as usize, (j - 1) as usize).push((i, j)),
            DtwStep::Left => warp_path(steps, i, (j - 1) as usize).push((i, j)),
            DtwStep::Up => warp_path(steps, (i - 1) as usize, j).push((i, j)),
        }
    }
}

/// One move of a warping path: one cell right, down, or diagonally.
pub open spec fn unit_move(a: (usize, usize), b: (usize, usize)) -> bool {
    ||| (b.0 == a.0 && b.1 == a.1 + 1)
    ||| (b.0 == a.0 + 1 && b.1 == a.1)
    ||| (b.0 == a.0 + 1 && b.1 == a.1 + 1)
}

/// The shape every warping path has: it starts at `(0, 0)`, ends at `(i, j)`,
/// moves one unit step at a time, stays within the grid up to `(i, j)`, and has between `max(i, j) + 1` and
/// `i + j + 1` cells.
pub open spec fn is_warping_path(p: Seq<(usize, usize)>, i: usize, j: usize) -> bool {
    &&& p.len() >= 1
    &&& p[0] == (0usize, 0usize)
    &&& p.last() == (i, j)
    &&& forall|k: int| 0 <= k < p.len() - 1 ==> #[trigger] unit_move(p[k], p[k + 1])
    &&& forall|k: int| 0 <= k < p.len() ==> #[trigger] p[k].0 <= i && p[k].1 <= j
    &&& p.len() <= i + j + 1
    &&& p.len() >= i + 1
    &&& p.len() >= j + 1
}

/// Every path traced back through a table of steps is a warping path from
/// `(0, 0)` to its end cell: monotone, continuous, anchored at both corners.
pub proof fn lemma_warp_path_is_warping(steps: Seq<Vec<DtwStep>>, i: usize, j: usize)
    ensures
        is_warping_path(warp_path(steps, i, j), i, j),
    decreases i + j,
{
    let p = warp_path(steps, i, j);
    if i == 0 && j == 0 {
    } else {
        let (pi, pj): (usize, usize) = if i == 0 {
            (0, (j - 1) as usize)
        } else if j == 0 {
            ((i - 1) as usize, 0)
        } else {
            match steps[i as int]@[j as int] {
                DtwStep::Diagonal => ((i - 1) as usize, (j - 1) as usize),
                DtwStep::Left => (i, (j - 1) as usize),
                DtwStep::Up => ((i - 1) as usize, j),
            }
        };
        lemma_warp_path_is_warping(steps, pi, pj);
        let q = warp_path(steps, pi, pj);
        assert(p == q.push((i, j)));
        assert forall|k: int| 0 <= k < p.len() - 1 implies #[trigger] unit_move(p[k], p[k + 1]) by {
            if k < q.len() - 1 {
                assert(p[k] == q[k] && p[k + 1] == q[k + 1]);
            } else {
                assert(p[k] == q.last() && p[k + 1] == (i, j));
            }
        }
        assert forall|k: int| 0 <= k < p.len() implies #[trigger] p[k].0 <= i && p[k].1 <= j by {
            if k < q.len() {
                assert(p[k] == q[k]);
            }
        }
    }
}

impl DtwAligner {
    /// Creates a new `DtwAligner`.
    pub fn new() -> (r: Self)
        ensures
            r == DtwAligner,
    {
        DtwAligner
    }

    /// The step back from a cell, given how its diagonal, left and upper
    /// predecessors' cumulative costs compare. Ties favour the diagonal, so
    /// that the alignment moves forward in both sequences at once.
    pub fn choose_step(diag_le_left: bool, diag_le_up: bool, left_le_up: bool) -> (r: DtwStep)
        ensures
            r == spec_choose_step(diag_le_left, diag_le_up, left_le_up),
    {
        if diag_le_left && diag_le_up {
            DtwStep::Diagonal
        } else if left_le_up {
            DtwStep::Left
        } else {
            DtwStep::Up
        }
    }

    /// Traces the warping path back from `(n - 1, m - 1)` to `(0, 0)` through
    /// the recorded steps, and returns it from `(0, 0)` on. Empty when either
    /// sequence is.
    pub fn backtrack(&self, n: usize, m: usize, steps: &Vec<Vec<DtwStep>>) -> (path: Vec<(usize, usize)>)
        requires
            n > 0 && m > 0 ==> steps_cover(steps@, n as int, m as int),
        ensures
            n == 0 || m == 0 ==> path@.len() == 0,
            n > 0 && m > 0 ==> path@ == warp_path(steps@, (n - 1) as usize, (m - 1) as usize),
    {
        if n == 0 || m == 0 {
            return Vec::new();
        }
        let ghost full = warp_path(steps@, (n - 1) as usize, (m - 1) as usize);
        proof {
            lemma_warp_path_is_warping(steps@, (n - 1) as usize, (m - 1) as usize);
        }
        let mut i = n - 1;
        let mut j = m - 1;
        let mut rev: Vec<(usize, usize)> = Vec::new();
        rev.push((i, j));
        assert(full.take(full.len() as int) =~= full);
        while i > 0 || j > 0
            invariant
                i < n,
                j < m,
                steps_cover(steps@, n as int, m as int),
                full == warp_path(steps@, (n - 1) as usize, (m - 1) as usize),
                full.take(warp_path(steps@, i, j).len() as int) == warp_path(steps@, i, j),
                warp_path(steps@, i, j).len() <= full.len(),
                rev@.len() == full.len() - warp_path(steps@, i, j).len() + 1,
                forall|k: int| 0 <= k < rev@.len() ==> #[trigger] rev@[k] == full[full.len() - 1 - k],
            decreases i + j,
        {
            let ghost cur = warp_path(steps@, i, j);
            proof {
                lemma_warp_path_is_warping(steps@, i, j);
            }
            if i == 0 {
                j = j - 1;
            } else if j == 0 {
                i = i - 1;
            } else {
                match steps[i][j] {
                    DtwStep::Diagonal => {
                        i = i - 1;
                        j = j - 1;
                    },
                    DtwStep::Left => {
                        j = j - 1;
                    },
                    DtwStep::Up => {
                        i = i - 1;
                    },
                }
            }
            let ghost prev = warp_path(steps@, i, j);
            proof {
                lemma_warp_path_is_warping(steps@, i, j);
                assert(cur == prev.push(cur.last()));
                assert(full.take(prev.len() as int) =~= cur.take(prev.len() as int));
                assert(cur.take(prev.len() as int) =~= prev);
                assert(full[prev.len() - 1] == prev.last());
            }
            rev.push((i, j));
        }
        proof {
            assert(warp_path(steps@, 0, 0).len() == 1);
        }
        let len = rev.len();
        let mut path: Vec<(usize, usize)> = Vec::new();
        let mut k: usize = 0;
        while k < len
            invariant
                len == rev@.len() == full.len(),
                k <= len,
                path@.len() == k,
                forall|q: int| 0 <= q < rev@.len() ==> #[trigger] rev@[q] == full[full.len() - 1 - q],
                forall|q: int| 0 <= q < k ==> #[trigger] path@[q] == full[q],
            decreases len - k,
        {
            path.push(rev[len - 1 - k]);
            k = k + 1;
        }
        assert(path@ =~= full);
        path
    }
}

impl Default for DtwAligner {
    fn default() -> (r: Self)
        ensures
            r == DtwAligner,
    {
        Self::new()
    }
}

} // verus!
