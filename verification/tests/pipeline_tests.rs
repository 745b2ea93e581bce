use sonic_bridge::alignment::dtw::DtwStep;
use sonic_bridge::pipeline::{
    SegmentLabels, SliceMode, SonicPipeline, TrackDescription, TrackSummary,
};

fn labels(range: &str, chord: &str, dynamic: &str, timbre: &str, rhythm: &str) -> SegmentLabels {
    SegmentLabels {
        time_range: range.to_string(),
        chord: chord.to_string(),
        dynamic_level: dynamic.to_string(),
        timbre_brightness: timbre.to_string(),
        rhythm_activity: rhythm.to_string(),
    }
}

#[test]
fn chord_roots() {
    assert_eq!(SonicPipeline::get_chord_root("C#m7"), "C#");
    assert_eq!(SonicPipeline::get_chord_root("Bbmaj7"), "Bb");
    assert_eq!(SonicPipeline::get_chord_root("Am"), "A");
    assert_eq!(SonicPipeline::get_chord_root("G"), "G");
    assert_eq!(SonicPipeline::get_chord_root("Silent"), "Silent");
    assert_eq!(SonicPipeline::get_chord_root("Unknown"), "Unknown");
    assert_eq!(SonicPipeline::get_chord_root(""), "");
    assert_eq!(SonicPipeline::get_chord_root("H7"), "H7");
    assert_eq!(SonicPipeline::get_chord_root("E宫"), "E");
}

#[test]
fn merging_joins_runs_that_read_alike() {
    let segs = vec![
        labels("0.0s - 5.0s", "C", "Soft", "Warm", "Flowing"),
        labels("5.0s - 10.0s", "Cmaj7", "Soft", "Warm", "Flowing"),
        labels("10.0s - 15.0s", "C7", "Soft", "Warm", "Flowing"),
        labels("15.0s - 20.0s", "Am", "Soft", "Warm", "Flowing"),
        labels("20.0s - 25.0s", "A", "Loud", "Warm", "Flowing"),
    ];
    let runs = SonicPipeline::merge_segments(&segs);
    assert_eq!(runs.len(), 3);
    assert_eq!((runs[0].start, runs[0].end), (0, 3));
    assert_eq!(runs[0].labels.time_range, "0.0s - 15.0s");
    assert_eq!(runs[0].labels.chord, "C");
    assert_eq!((runs[1].start, runs[1].end), (3, 4));
    assert_eq!(runs[1].labels.time_range, "15.0s - 20.0s");
    assert_eq!((runs[2].start, runs[2].end), (4, 5));
    assert_eq!(runs[2].labels.dynamic_level, "Loud");
}

#[test]
fn merging_keeps_range_when_it_is_not_two_ended() {
    let segs = vec![
        labels("start", "D", "x", "y", "z"),
        labels("5.0s - 10.0s", "D", "x", "y", "z"),
        labels("10.0s - 15.0s - extra", "D", "x", "y", "z"),
    ];
    let runs = SonicPipeline::merge_segments(&segs);
    assert_eq!(runs.len(), 1);
    assert_eq!(runs[0].labels.time_range, "start");

    let segs = vec![
        labels("0.0s - 5.0s", "D", "x", "y", "z"),
        labels("5.0s - 10.0s - 1", "D", "x", "y", "z"),
        labels("10.0s - 15.0s", "D", "x", "y", "z"),
    ];
    let runs = SonicPipeline::merge_segments(&segs);
    assert_eq!(runs[0].labels.time_range, "0.0s - 15.0s");
    assert!(SonicPipeline::merge_segments(&Vec::new()).is_empty());
}

#[test]
fn merged_neighbours_never_read_alike() {
    let segs = vec![
        labels("0s - 1s", "C", "a", "b", "c"),
        labels("1s - 2s", "C#", "a", "b", "c"),
        labels("2s - 3s", "C#m", "a", "b", "c"),
        labels("3s - 4s", "C", "a", "b", "c"),
        labels("4s - 5s", "C", "a", "b", "d"),
    ];
    let runs = SonicPipeline::merge_segments(&segs);
    for w in runs.windows(2) {
        let (a, b) = (&w[0].labels, &w[1].labels);
        let identical = a.chord == b.chord
            && a.dynamic_level == b.dynamic_level
            && a.timbre_brightness == b.timbre_brightness
            && a.rhythm_activity == b.rhythm_activity;
        assert!(!identical);
        assert_eq!(w[0].end, w[1].start);
    }
    assert_eq!(runs.len(), 4);
}

#[test]
fn fixed_step_plan() {
    let plan = SonicPipeline::plan_segments(10, &SliceMode::FixedStep { frames_per_step: 4 });
    assert_eq!(plan, vec![(0, 4), (4, 8), (8, 10)]);
    let plan = SonicPipeline::plan_segments(10, &SliceMode::FixedStep { frames_per_step: 0 });
    assert!(plan.is_empty());
    let plan = SonicPipeline::plan_segments(3, &SliceMode::FixedStep { frames_per_step: usize::MAX });
    assert_eq!(plan, vec![(0, 3)]);
    assert!(SonicPipeline::plan_segments(0, &SliceMode::FixedStep { frames_per_step: 4 }).is_empty());
}

#[test]
fn onset_plan() {
    let mode = SliceMode::Onset { boundaries: vec![7, 3, 0, 3, 12, 10] };
    assert_eq!(SonicPipeline::onset_split_points(&vec![7, 3, 0, 3, 12, 10], 10), vec![0, 3, 7, 10]);
    let plan = SonicPipeline::plan_segments(10, &mode);
    assert_eq!(plan, vec![(0, 3), (3, 7), (7, 10)]);
    let plan = SonicPipeline::plan_segments(5, &SliceMode::Onset { boundaries: Vec::new() });
    assert_eq!(plan, vec![(0, 5)]);
}

#[test]
fn beat_plan() {
    assert_eq!(SonicPipeline::beat_split_points(4, 10), vec![0, 4, 8, 10]);
    assert_eq!(SonicPipeline::beat_split_points(5, 10), vec![0, 5, 10]);
    assert_eq!(SonicPipeline::beat_split_points(20, 10), vec![0, 10]);
    assert_eq!(SonicPipeline::beat_split_points(3, 0), vec![0, 0]);
    let plan = SonicPipeline::plan_segments(10, &SliceMode::Beat { frames_per_beat: 4 });
    assert_eq!(plan, vec![(0, 4), (4, 8), (8, 10)]);
    assert!(SonicPipeline::plan_segments(0, &SliceMode::Beat { frames_per_beat: 0 }).is_empty());
}

#[test]
fn splits_plan_uses_first_later_point_in_list_order() {
    let plan = SonicPipeline::plan_from_splits(&vec![0, 6, 3, 9], 9);
    assert_eq!(plan, vec![(0, 6), (6, 9)]);
}

#[test]
fn comparative_report_rows_follow_alignment() {
    let a = TrackDescription {
        filename: "a.mp3".to_string(),
        estimated_global_key: "C Major".to_string(),
        segments: vec![labels("0.0s - 5.0s", "C", "Soft", "Warm", "Flow"), labels("5.0s - 9.0s", "G", "Loud", "Bright", "Beat")],
    };
    let b = TrackDescription {
        filename: "b.mp3".to_string(),
        estimated_global_key: "D Major".to_string(),
        segments: vec![labels("0.0s - 6.0s", "D", "Soft", "Dark", "Flow")],
    };
    let steps = vec![vec![DtwStep::Diagonal], vec![DtwStep::Diagonal]];
    let report = SonicPipeline::process_comparative(&a, &b, &steps);
    let lines: Vec<&str> = report.split('\n').collect();
    assert_eq!(lines[0], "# SonicBridge: LLM-Readable Music Comparative Report (LRMD)");
    assert!(report.contains("- **Track A (Original)**: `a.mp3` | Estimated Key: `C Major`"));
    assert!(report.contains("- **Track B (Cover)**: `b.mp3` | Estimated Key: `D Major`"));
    assert!(report.contains(
        "| **Step 1** | 0.0s - 5.0s | 0.0s - 6.0s | Chord `C` <br> Dynamic: Soft <br> Timbre: Warm | Chord `D` <br> Dynamic: Soft <br> Timbre: Dark |"
    ));
    assert!(report.ends_with(
        "| **Step 2** | 5.0s - 9.0s | 0.0s - 6.0s | Chord `G` <br> Dynamic: Loud <br> Timbre: Bright | Chord `D` <br> Dynamic: Soft <br> Timbre: Dark |"
    ));

    let empty = TrackDescription {
        filename: "e.mp3".to_string(),
        estimated_global_key: "Silent".to_string(),
        segments: Vec::new(),
    };
    let report = SonicPipeline::process_comparative(&a, &empty, &Vec::new());
    assert!(report.ends_with("| :--- | :--- | :--- | :--- | :--- |"));
    assert!(!report.contains("**Step"));
}

#[test]
fn comparative_step_numbers_are_decimal() {
    let seg = labels("r", "C", "d", "t", "x");
    let a = TrackDescription {
        filename: "a".to_string(),
        estimated_global_key: "k".to_string(),
        segments: (0..12).map(|_| labels("r", "C", "d", "t", "x")).collect(),
    };
    let b = TrackDescription {
        filename: "b".to_string(),
        estimated_global_key: "k".to_string(),
        segments: vec![seg],
    };
    let steps = vec![vec![DtwStep::Diagonal]; 12];
    let report = SonicPipeline::process_comparative(&a, &b, &steps);
    assert!(report.contains("| **Step 12** |"));
    assert!(report.contains("| **Step 10** |"));
}

fn summary(bpm: Option<&str>) -> TrackSummary {
    TrackSummary {
        filename: "song.mp3".to_string(),
        duration_text: "12.34".to_string(),
        bpm_text: bpm.map(|b| b.to_string()),
        tempo_feeling: "Moderate & Flowing (Moderato)".to_string(),
        estimated_global_key: "A Minor".to_string(),
        primary_style: "Pop/Rock/Electronic".to_string(),
        confidence_text: "0.72".to_string(),
    }
}

#[test]
fn single_track_report_layout() {
    let segs = vec![
        labels("0.0s - 5.0s", "Am", "Soft & Intimate (Piano)", "Warm & Smooth (Mellow mid-range)", "Steady Beat (Clear rhythmic dynamic)"),
        labels("5.0s - 9.0s", "F", "Loud & Energetic (Forte)", "Bright & Crisp (Sharp transients)", "Steady Beat (Clear rhythmic dynamic)"),
    ];
    let report = SonicPipeline::generate_lrmd_report(&summary(Some("120.0")), &segs, false, false, "5.0");
    let expected = [
        "# SonicBridge: LLM-Readable Music Descriptor (LRMD)",
        "",
        "> [!NOTE]",
        "> This is a physical-to-semantic acoustic report generated by SonicBridge. Pure-text LLMs can 'listen to' and 'appreciate' this track via this spatiotemporal matrix.",
        "",
        "## 1. Global Acoustic & Musicological Metadata",
        "- **Filename**: `song.mp3`",
        "- **Duration**: `12.34 seconds`",
        "- **Tempo (BPM)**: `120.0 BPM` (Moderate & Flowing (Moderato))",
        "- **Estimated Key**: `A Minor`",
        "- **Primary Style**: `Pop/Rock/Electronic`",
        "- **Analysis Confidence**: `0.72`",
        "",
        "## 2. Spatiotemporal Track Analysis (5.0-Second Intervals)",
        "| Timeline | Chord | Dynamic Intensity | Timbral Brightness | Rhythmic & Transient Activity |",
        "| :--- | :--- | :--- | :--- | :--- |",
        "| **0.0s - 5.0s** | `Am` | Soft & Intimate (Piano) | Warm & Smooth (Mellow mid-range) | Steady Beat (Clear rhythmic dynamic) |",
        "| **5.0s - 9.0s** | `F` | Loud & Energetic (Forte) | Bright & Crisp (Sharp transients) | Steady Beat (Clear rhythmic dynamic) |",
    ]
    .join("\n");
    assert_eq!(report, expected);
}

#[test]
fn single_track_report_tempo_and_headings() {
    let free = SonicPipeline::generate_lrmd_report(&summary(None), &Vec::new(), true, true, "5.0");
    assert!(free.contains("- **Tempo (BPM)**: `Unknown (Ambient / Free Rhythm)` (Moderate & Flowing (Moderato))"));
    assert!(free.contains("## 2. Spatiotemporal Track Analysis (Adaptive Onset Intervals)"));
    assert!(free.ends_with("| :--- | :--- | :--- | :--- | :--- |"));
    let beat = SonicPipeline::generate_lrmd_report(&summary(Some("98.5")), &Vec::new(), false, true, "5.0");
    assert!(beat.contains("## 2. Spatiotemporal Track Analysis (Beat-Synchronous Resampling)"));
    assert!(beat.contains("`98.5 BPM`"));
}
