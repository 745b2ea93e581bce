use sonic_bridge::batch::{
    get_target_report_path, matches_extension, progress, select_pending, split_extensions,
    BatchSummary,
};

#[test]
fn report_path_next_to_audio() {
    assert_eq!(get_target_report_path("music/a.mp3", "music", None), "music/a.mp3.lrmd.md");
}

#[test]
fn report_path_under_output_directory() {
    let mapped = get_target_report_path(
        "tests/fixtures/temp_batch_test/subdir/track3.flac",
        "tests/fixtures/temp_batch_test",
        Some("tests/fixtures/out"),
    );
    assert_eq!(mapped, "tests/fixtures/out/subdir/track3.flac.lrmd.md");
    assert!(mapped.contains("tests/fixtures/out"));
    assert!(mapped.ends_with(".lrmd.md"));
}

#[test]
fn report_path_outside_batch_directory() {
    let mapped = get_target_report_path("other/x.wav", "music", Some("out"));
    assert_eq!(mapped, "out/other/x.wav.lrmd.md");
    // Components are compared whole: "mus" is not a prefix of "music".
    let mapped = get_target_report_path("music/x.wav", "mus", Some("out"));
    assert_eq!(mapped, "out/music/x.wav.lrmd.md");
}

#[test]
fn summary_tally() {
    let mut s = BatchSummary::start(5, 2);
    s.record("a".to_string(), Ok(()));
    s.record("b".to_string(), Err("boom".to_string()));
    s.record("c".to_string(), Ok(()));
    assert_eq!(s.total, 5);
    assert_eq!(s.skipped, 2);
    assert_eq!(s.processed, 3);
    assert_eq!(s.failed, 1);
    assert_eq!(s.succeeded(), 2);
    assert_eq!(s.errors, vec![("b".to_string(), "boom".to_string())]);
}

#[test]
fn progress_bar_cells() {
    let (pct, bar) = progress(1, 3);
    assert_eq!(pct, 33);
    assert_eq!(bar, "██████░░░░░░░░░░░░░░");
    let (pct, bar) = progress(3, 3);
    assert_eq!(pct, 100);
    assert_eq!(bar, "████████████████████");
    let (pct, bar) = progress(0, 7);
    assert_eq!(pct, 0);
    assert_eq!(bar.chars().count(), 20);
    assert!(bar.chars().all(|c| c == '░'));
}

#[test]
fn extension_filter_and_path_mapping() {
    let temp_dir = "tests/fixtures/temp_batch_test";
    let candidates = vec![
        ("tests/fixtures/temp_batch_test/track1.mp3", "mp3"),
        ("tests/fixtures/temp_batch_test/track2.wav", "wav"),
        ("tests/fixtures/temp_batch_test/subdir/track3.flac", "flac"),
        ("tests/fixtures/temp_batch_test/readme.txt", "txt"),
    ];
    let extensions = vec!["mp3".to_string(), "flac".to_string(), "wav".to_string()];
    let mut files: Vec<&str> = candidates
        .iter()
        .filter(|(_, ext)| matches_extension(&extensions, ext))
        .map(|(path, _)| *path)
        .collect();
    files.sort();

    assert_eq!(files.len(), 3);

    let mapped = get_target_report_path(files[0], temp_dir, Some("tests/fixtures/out"));
    assert!(mapped.contains("tests/fixtures/out"));
    assert!(mapped.ends_with(".lrmd.md"));
}

#[test]
fn extension_matching_ignores_ascii_case_only() {
    let extensions = vec!["mp3".to_string(), "FLAC".to_string()];
    assert!(matches_extension(&extensions, "mp3"));
    assert!(matches_extension(&extensions, "MP3"));
    assert!(matches_extension(&extensions, "flac"));
    assert!(matches_extension(&extensions, "Flac"));
    assert!(!matches_extension(&extensions, "mp"));
    assert!(!matches_extension(&extensions, "mp3 "));
    assert!(!matches_extension(&extensions, "wav"));
    assert!(!matches_extension(&Vec::new(), "mp3"));
    let accented = vec!["é".to_string()];
    assert!(matches_extension(&accented, "é"));
    assert!(!matches_extension(&accented, "É"));
}

#[test]
fn extension_lists_split_at_commas_and_trim() {
    assert_eq!(split_extensions("mp3, flac ,wav"), vec!["mp3", "flac", "wav"]);
    assert_eq!(split_extensions("mp3"), vec!["mp3"]);
    assert_eq!(split_extensions(""), vec![""]);
    assert_eq!(split_extensions("mp3,,ogg,"), vec!["mp3", "", "ogg", ""]);
    assert_eq!(split_extensions(" \tm4a\u{3000}"), vec!["m4a"]);
}

#[test]
fn pending_files_skip_existing_reports() {
    let exists = vec![true, false, true, false];
    assert_eq!(select_pending(&exists, true), (vec![1, 3], 2));
    assert_eq!(select_pending(&exists, false), (vec![0, 1, 2, 3], 0));
    assert_eq!(select_pending(&Vec::new(), true), (Vec::new(), 0));
}
