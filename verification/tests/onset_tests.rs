use sonic_bridge::onset::debounce_onsets;

fn flags(n: usize, on: &[usize]) -> Vec<bool> {
    (0..n).map(|i| on.contains(&i)).collect()
}

#[test]
fn onsets_keep_four_frames_apart() {
    assert_eq!(debounce_onsets(&flags(60, &[3, 5, 6, 7, 11, 13, 14, 30])), vec![3, 7, 11, 30]);
}

#[test]
fn transients_six_frames_apart_are_both_onsets() {
    assert_eq!(debounce_onsets(&flags(20, &[5, 11])), vec![5, 11]);
}

#[test]
fn frame_zero_is_never_an_onset() {
    assert_eq!(debounce_onsets(&flags(20, &[0, 1])), vec![1]);
    assert_eq!(debounce_onsets(&flags(1, &[0])), Vec::<usize>::new());
    assert_eq!(debounce_onsets(&Vec::new()), Vec::<usize>::new());
}

#[test]
fn exact_gap_is_allowed() {
    assert_eq!(debounce_onsets(&flags(40, &[5, 9, 12, 13])), vec![5, 9, 13]);
}
