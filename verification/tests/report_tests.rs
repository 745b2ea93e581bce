use sonic_bridge::pipeline::{SegmentLabels, SonicPipeline, TrackSummary};
use sonic_bridge::renderer::{covering_row, AlrcDoc};
use sonic_bridge::report::{parse_report, ReportInfo, ReportRow};

fn seg(range: &str, chord: &str, dynamic: &str, timbre: &str) -> SegmentLabels {
    SegmentLabels {
        time_range: range.to_string(),
        chord: chord.to_string(),
        dynamic_level: dynamic.to_string(),
        timbre_brightness: timbre.to_string(),
        rhythm_activity: "Steady Beat (Clear rhythmic dynamic)".to_string(),
    }
}

fn sample_report() -> String {
    let meta = TrackSummary {
        filename: "song.mp3".to_string(),
        duration_text: "12.34".to_string(),
        bpm_text: Some("120.0".to_string()),
        tempo_feeling: "Moderate & Flowing (Moderato)".to_string(),
        estimated_global_key: "A Minor".to_string(),
        primary_style: "Pop/Rock/Electronic".to_string(),
        confidence_text: "0.72".to_string(),
    };
    let segs = vec![
        seg("0.0s - 5.0s", "Am", "Soft & Intimate (Piano)", "Warm & Smooth (Mellow mid-range)"),
        seg("5.0s - 12.3s", "F", "Loud & Energetic (Forte)", "Bright & Crisp (Sharp transients)"),
    ];
    SonicPipeline::generate_lrmd_report(&meta, &segs, false, false, "5.0")
}

#[test]
fn a_written_report_reads_back() {
    let info = parse_report(&sample_report());
    assert_eq!(info.filename.as_deref(), Some("song.mp3"));
    assert_eq!(info.duration_ms, Some(12_340));
    assert_eq!(info.rows.len(), 2);
    assert_eq!((info.rows[0].start_ms, info.rows[0].end_ms), (0, 5_000));
    assert_eq!(info.rows[0].chord, "Am");
    assert_eq!(info.rows[0].dynamic, "Soft & Intimate (Piano)");
    assert_eq!(info.rows[0].timbre, "Warm & Smooth (Mellow mid-range)");
    assert_eq!((info.rows[1].start_ms, info.rows[1].end_ms), (5_000, 12_300));
    assert_eq!(info.rows[1].chord, "F");
}

#[test]
fn report_lines_that_do_not_parse_are_skipped() {
    let text = "- **Duration**: `abc seconds`\r\n| **1.2.3s - 4s** | `C` | a | b | c |\n| Timeline | Chord | x | y | z |\n| **1s - 2.5s** | `G` | loud | dark | beat |\n- **Filename**: `x.wav`\n- **Filename**: `y.wav`\n";
    let info = parse_report(text);
    assert_eq!(info.filename.as_deref(), Some("y.wav"));
    assert_eq!(info.duration_ms, None);
    assert_eq!(info.rows.len(), 1);
    assert_eq!((info.rows[0].start_ms, info.rows[0].end_ms), (1_000, 2_500));
    assert_eq!(parse_report("").rows.len(), 0);
}

#[test]
fn missing_metadata_comes_from_the_report() {
    let report = parse_report(&sample_report());
    let alrc = "[00:01.00] [和弦:Unknown | 动态:Soft | 音色:Warm] Hello\n[00:06.00] [和弦:C | 动态:Loud | 音色:Unknown] More\n[00:08.00] [和弦:D | 动态:Loud | 音色:Dark] Last\n";
    let doc = AlrcDoc::parse_with_report(alrc, &report);
    assert_eq!(doc.title, "song.mp3");
    assert_eq!(doc.artist, "Unknown Artist");
    assert_eq!(doc.total_duration_ms, 12_340);

    let tagged = "[ti:Own Title]\n[length:01:00]\n[00:01.00] Hi\n";
    let doc = AlrcDoc::parse_with_report(tagged, &report);
    assert_eq!(doc.title, "Own Title");
    assert_eq!(doc.total_duration_ms, 60_000);

    let doc = AlrcDoc::parse_with_report(alrc, &ReportInfo::empty());
    assert_eq!(doc.title, "Unknown Title");
    assert_eq!(doc.total_duration_ms, 13_000);
}

#[test]
fn unknown_labels_come_from_the_covering_row() {
    let report = parse_report(&sample_report());
    let alrc = "[00:01.00] [和弦:Unknown | 动态:Soft | 音色:Warm] Hello\n[00:06.00] [和弦:C | 动态:Loud | 音色:Unknown] More\n[00:08.00] [和弦:D | 动态:Loud | 音色:Dark] Last\n";
    let doc = AlrcDoc::parse_with_report(alrc, &report);
    let first = doc.shown_labels(0, &report, 2_000);
    assert_eq!((first.chord.as_str(), first.dynamic.as_str()), ("Am", "Soft & Intimate (Piano)"));
    let second = doc.shown_labels(1, &report, 6_500);
    assert_eq!(second.chord, "F");
    assert_eq!(second.timbre, "Bright & Crisp (Sharp transients)");
    let third = doc.shown_labels(2, &report, 8_500);
    assert_eq!((third.chord.as_str(), third.timbre.as_str()), ("D", "Dark"));
    let past_end = doc.shown_labels(1, &report, 20_000);
    assert_eq!((past_end.chord.as_str(), past_end.timbre.as_str()), ("C", "Unknown"));
}

#[test]
fn covering_row_is_the_first_spanning_one() {
    let row = |a: u128, b: u128, chord: &str| ReportRow {
        start_ms: a,
        end_ms: b,
        chord: chord.to_string(),
        dynamic: String::new(),
        timbre: String::new(),
    };
    let rows = vec![row(0, 1000, "A"), row(500, 2000, "B"), row(2000, 3000, "C")];
    assert_eq!(covering_row(&rows, 700), Some(0));
    assert_eq!(covering_row(&rows, 1000), Some(1));
    assert_eq!(covering_row(&rows, 2000), Some(2));
    assert_eq!(covering_row(&rows, 3000), None);
}
