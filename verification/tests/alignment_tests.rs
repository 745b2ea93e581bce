use sonic_bridge::alignment::dtw::{DtwAligner, DtwStep};

/// Builds the table of steps back through the cumulative cost matrix of two
/// energy sequences (absolute difference as local distance).
fn steps_for(seq_a: &[f32], seq_b: &[f32]) -> Vec<Vec<DtwStep>> {
    let n = seq_a.len();
    let m = seq_b.len();
    let mut cost = vec![vec![0.0f32; m]; n];
    cost[0][0] = (seq_a[0] - seq_b[0]).abs();
    for i in 1..n {
        cost[i][0] = cost[i - 1][0] + (seq_a[i] - seq_b[0]).abs();
    }
    for j in 1..m {
        cost[0][j] = cost[0][j - 1] + (seq_a[0] - seq_b[j]).abs();
    }
    for i in 1..n {
        for j in 1..m {
            let diff = (seq_a[i] - seq_b[j]).abs();
            let min_prev = cost[i - 1][j].min(cost[i][j - 1]).min(cost[i - 1][j - 1]);
            cost[i][j] = diff + min_prev;
        }
    }
    let mut steps = vec![vec![DtwStep::Diagonal; m]; n];
    for i in 1..n {
        for j in 1..m {
            let diag = cost[i - 1][j - 1];
            let left = cost[i][j - 1];
            let up = cost[i - 1][j];
            steps[i][j] = DtwAligner::choose_step(diag <= left, diag <= up, left <= up);
        }
    }
    steps
}

#[test]
fn test_dtw_alignment() {
    // Two simple 1D sequences representing slightly warped energy lines
    let seq_a = vec![1.0, 2.0, 3.0, 4.0, 3.0, 2.0];
    let seq_b = vec![1.0, 1.5, 2.0, 3.0, 4.0, 3.5, 2.0];

    let aligner = DtwAligner::new();
    let steps = steps_for(&seq_a, &seq_b);
    let path = aligner.backtrack(seq_a.len(), seq_b.len(), &steps);

    assert_eq!(path.first().unwrap(), &(0, 0), "The path must start at (0, 0)");
    assert_eq!(path.last().unwrap(), &(5, 6), "The path must end at (n-1, m-1)");

    for w in path.windows(2) {
        let (i1, j1) = w[0];
        let (i2, j2) = w[1];
        let diff_i = i2 as isize - i1 as isize;
        let diff_j = j2 as isize - j1 as isize;
        assert!(
            diff_i >= 0 && diff_j >= 0,
            "Path must be non-decreasing: ({}, {}) -> ({}, {})",
            i1,
            j1,
            i2,
            j2
        );
        assert!(
            (diff_i == 0 && diff_j == 1)
                || (diff_i == 1 && diff_j == 0)
                || (diff_i == 1 && diff_j == 1),
            "Path step must be within step size 1: ({}, {}) -> ({}, {})",
            i1,
            j1,
            i2,
            j2
        );
    }

    assert!(
        path.contains(&(3, 4)),
        "Peak alignment failed: the path {:?} should align peak indices (3, 4)",
        path
    );
}

#[test]
fn dtw_empty_sequences_give_empty_path() {
    let aligner = DtwAligner::new();
    assert!(aligner.backtrack(0, 3, &Vec::new()).is_empty());
    assert!(aligner.backtrack(3, 0, &vec![Vec::new(), Vec::new(), Vec::new()]).is_empty());
}

#[test]
fn dtw_single_cell() {
    let aligner = DtwAligner::new();
    let steps = vec![vec![DtwStep::Up]];
    assert_eq!(aligner.backtrack(1, 1, &steps), vec![(0, 0)]);
}

#[test]
fn dtw_all_diagonal_square() {
    let aligner = DtwAligner::default();
    let steps = vec![vec![DtwStep::Diagonal; 3]; 3];
    assert_eq!(aligner.backtrack(3, 3, &steps), vec![(0, 0), (1, 1), (2, 2)]);
}

#[test]
fn dtw_edges_follow_first_row_and_column() {
    let aligner = DtwAligner::new();
    // One row: only moves to the right are possible.
    assert_eq!(aligner.backtrack(1, 3, &vec![vec![DtwStep::Up; 3]]), vec![(0, 0), (0, 1), (0, 2)]);
    // One column: only moves down are possible.
    let col = vec![vec![DtwStep::Left]; 3];
    assert_eq!(aligner.backtrack(3, 1, &col), vec![(0, 0), (1, 0), (2, 0)]);
}

#[test]
fn dtw_left_and_up_steps() {
    let aligner = DtwAligner::new();
    // From (1, 2): Left to (1, 1), Up to (0, 1), then along the first row.
    let steps = vec![
        vec![DtwStep::Diagonal, DtwStep::Diagonal, DtwStep::Diagonal],
        vec![DtwStep::Diagonal, DtwStep::Up, DtwStep::Left],
    ];
    assert_eq!(aligner.backtrack(2, 3, &steps), vec![(0, 0), (0, 1), (1, 1), (1, 2)]);
}

#[test]
fn dtw_step_choice_prefers_diagonal() {
    assert_eq!(DtwAligner::choose_step(true, true, true), DtwStep::Diagonal);
    assert_eq!(DtwAligner::choose_step(true, true, false), DtwStep::Diagonal);
    assert_eq!(DtwAligner::choose_step(false, true, true), DtwStep::Left);
    assert_eq!(DtwAligner::choose_step(true, false, true), DtwStep::Left);
    assert_eq!(DtwAligner::choose_step(true, false, false), DtwStep::Up);
    assert_eq!(DtwAligner::choose_step(false, false, false), DtwStep::Up);
}
