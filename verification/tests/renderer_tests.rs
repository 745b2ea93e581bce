use sonic_bridge::renderer::{
    clock_text, parse_line, parse_time, playback_bar, AlrcDoc, RenderFrame,
};

const SAMPLE: &str = r#"[ti:Synesthetic Odyssey]
[ar:Acoustic Agent]
[al:Synesthesia Core]
[length:03:45]
[@alrc_version:v1.0]

[00:00.00] [和弦:Silent | 动态:Quiet | 音色:Muffled] [Synesthesia: A soft mist fills the dark corridor.] Warmup sequence.
[00:10.50] [和弦:C | 动态:Mezzo | 音色:Bright] [Synesthesia: A golden beam piercing through clouds.] The journey begins with pure energy.
[00:30.00] [和弦:Am | 动态:Forte | 音色:Warm] [Synesthesia: Velvet indigo drapes falling on concrete.] Intense melodic shadows scraping the field.
"#;

#[test]
fn test_alrc_parsing_and_document_structure() {
    let doc = AlrcDoc::parse(SAMPLE);

    assert_eq!(doc.title, "Synesthetic Odyssey");
    assert_eq!(doc.artist, "Acoustic Agent");
    assert_eq!(doc.total_duration_ms, (3 * 60 + 45) * 1000);

    assert_eq!(doc.segments.len(), 3);

    assert_eq!(doc.segments[0].time_offset_ms, 0);
    assert_eq!(doc.segments[0].chord, "Silent");
    assert_eq!(doc.segments[0].dynamic, "Quiet");
    assert_eq!(doc.segments[0].timbre, "Muffled");
    assert_eq!(doc.segments[0].synesthesia, "A soft mist fills the dark corridor.");
    assert_eq!(doc.segments[0].critique, "Warmup sequence.");

    assert_eq!(doc.segments[1].time_offset_ms, 10_500);
    assert_eq!(doc.segments[1].chord, "C");
    assert_eq!(doc.segments[1].dynamic, "Mezzo");
    assert_eq!(doc.segments[1].timbre, "Bright");
    assert_eq!(doc.segments[1].synesthesia, "A golden beam piercing through clouds.");
    assert_eq!(doc.segments[1].critique, "The journey begins with pure energy.");

    assert_eq!(doc.segments[2].time_offset_ms, 30_000);
    assert_eq!(doc.segments[2].chord, "Am");
    assert_eq!(doc.segments[2].dynamic, "Forte");
    assert_eq!(doc.segments[2].timbre, "Warm");
    assert_eq!(doc.segments[2].synesthesia, "Velvet indigo drapes falling on concrete.");
    assert_eq!(doc.segments[2].critique, "Intense melodic shadows scraping the field.");
}

#[test]
fn time_stamps_in_milliseconds() {
    assert_eq!(parse_time("00:10.50"), Some(10_500));
    assert_eq!(parse_time("01:02.345"), Some(62_345));
    assert_eq!(parse_time("2:03"), Some(123_000));
    assert_eq!(parse_time("00:05.1"), Some(5_000));
    assert_eq!(parse_time("00:05.1234"), Some(5_000));
    assert_eq!(parse_time("+1:+2.+5"), Some(62_050));
    assert_eq!(parse_time("00:05.12.99"), Some(5_120));
}

#[test]
fn malformed_time_stamps_are_rejected() {
    assert_eq!(parse_time("0010"), None);
    assert_eq!(parse_time("00:10:20"), None);
    assert_eq!(parse_time("aa:10"), None);
    assert_eq!(parse_time(":10"), None);
    assert_eq!(parse_time("00:"), None);
    assert_eq!(parse_time("00:10.x"), None);
    assert_eq!(parse_time("-1:10"), None);
    assert_eq!(parse_time(" 1:10"), None);
    assert_eq!(parse_time("18446744073709551616:00"), None);
}

#[test]
fn large_time_stamps_do_not_wrap() {
    let mins: u128 = 18446744073709551615;
    assert_eq!(parse_time("18446744073709551615:00"), Some(mins * 60_000));
}

#[test]
fn line_defaults_and_missing_blocks() {
    let seg = parse_line("[01:00.00] just words").unwrap();
    assert_eq!(seg.time_offset_ms, 60_000);
    assert_eq!(seg.chord, "Unknown");
    assert_eq!(seg.dynamic, "Medium");
    assert_eq!(seg.timbre, "Warm");
    assert_eq!(seg.synesthesia, "");
    assert_eq!(seg.critique, "just words");

    let seg = parse_line("[00:01] [Synesthesia:  blue  ]   tail  ").unwrap();
    // The first block is taken as the attribute block, so the synesthesia
    // note is not read from it.
    assert_eq!(seg.synesthesia, "");
    assert_eq!(seg.chord, "Unknown");
    assert_eq!(seg.critique, "tail");

    let seg = parse_line("[00:01] [] [Synesthesia:  blue  ]   tail  ").unwrap();
    assert_eq!(seg.synesthesia, "blue");
    assert_eq!(seg.critique, "tail");
}

#[test]
fn attribute_parsing_rules() {
    // Later attributes win, pieces without exactly one ':' are ignored,
    // keys and values are trimmed, unknown keys are ignored.
    let seg = parse_line("[00:02] [ 和弦 : G | 和弦:D | 动态:a:b | 音色 | foo:bar ] rest").unwrap();
    assert_eq!(seg.chord, "D");
    assert_eq!(seg.dynamic, "Medium");
    assert_eq!(seg.timbre, "Warm");
    assert_eq!(seg.critique, "rest");
}

#[test]
fn unclosed_blocks_leave_text_to_the_critique() {
    let seg = parse_line("[00:02] [和弦:G no close").unwrap();
    assert_eq!(seg.chord, "Unknown");
    assert_eq!(seg.critique, "[和弦:G no close");
}

#[test]
fn non_segment_lines() {
    assert!(parse_line("no bracket").is_none());
    assert!(parse_line("[00:02 missing close").is_none());
    assert!(parse_line("[al:Album]").is_none());
    assert!(parse_line(" [00:02] leading space").is_none());
}

#[test]
fn segments_are_stably_sorted_by_time() {
    let doc = AlrcDoc::parse("[00:05] b\n[00:01] a\n[00:05] c\n[00:00.50] z\n");
    let offsets: Vec<u128> = doc.segments.iter().map(|s| s.time_offset_ms).collect();
    assert_eq!(offsets, vec![500, 1_000, 5_000, 5_000]);
    let critiques: Vec<&str> = doc.segments.iter().map(|s| s.critique.as_str()).collect();
    assert_eq!(critiques, vec!["z", "a", "b", "c"]);
}

#[test]
fn missing_length_defaults_to_last_offset_plus_five_seconds() {
    let doc = AlrcDoc::parse("[00:10] x\r\n[00:02] y\r\n");
    assert_eq!(doc.title, "Unknown Title");
    assert_eq!(doc.artist, "Unknown Artist");
    assert_eq!(doc.total_duration_ms, 15_000);

    let empty = AlrcDoc::parse("");
    assert_eq!(empty.total_duration_ms, 0);
    assert!(empty.segments.is_empty());
}

#[test]
fn header_tags() {
    let doc = AlrcDoc::parse("  [ti:]  \n[ar:Someone] trailing\n[length:1:x]\n[ti:no close\n");
    assert_eq!(doc.title, "");
    assert_eq!(doc.artist, "Someone");
    // A non-number counts as zero.
    assert_eq!(doc.total_duration_ms, 60_000);

    let doc = AlrcDoc::parse("[length:1:2:3]\n[00:01] a\n");
    // A length with more than two fields is ignored.
    assert_eq!(doc.total_duration_ms, 6_000);
}

#[test]
fn active_segment_and_frames() {
    let doc = AlrcDoc::parse(SAMPLE);
    assert_eq!(doc.active_segment(0), Some(0));
    assert_eq!(doc.active_segment(10_499), Some(0));
    assert_eq!(doc.active_segment(10_500), Some(1));
    assert_eq!(doc.active_segment(200_000), Some(2));

    let late = AlrcDoc::parse("[00:05] x\n");
    assert_eq!(late.active_segment(4_999), None);
    assert!(matches!(late.render_frame(4_999), RenderFrame::Playing { active: None }));
    assert!(matches!(late.render_frame(9_999), RenderFrame::Playing { active: Some(0) }));
    assert!(matches!(late.render_frame(10_000), RenderFrame::Finished));
}

#[test]
fn unicode_white_space_is_trimmed() {
    let seg = parse_line("[00:01]\u{3000}[和弦:\u{a0}F\u{2003}]\u{85}crit\u{205f}").unwrap();
    assert_eq!(seg.chord, "F");
    assert_eq!(seg.critique, "crit");
    assert_eq!("\u{a0}x\u{3000}".trim(), "x");
}

#[test]
fn preview_clock_is_zero_padded() {
    assert_eq!(clock_text(0, 225_000), "00:00.00 / 03:45.00");
    assert_eq!(clock_text(65_209, 225_000), "01:05.20 / 03:45.00");
    assert_eq!(clock_text(6_000_999, 6_005_000), "100:00.99 / 100:05.00");
}

#[test]
fn preview_playback_bar() {
    let start = playback_bar(0);
    assert_eq!(start.chars().count(), 40);
    assert!(start.starts_with('●'));
    assert_eq!(start.chars().filter(|c| *c == '─').count(), 39);
    let mid = playback_bar(10);
    assert_eq!(mid.chars().count(), 40);
    assert_eq!(mid.chars().nth(10), Some('●'));
    assert_eq!(mid.chars().filter(|c| *c == '━').count(), 10);
    let end = playback_bar(40);
    assert_eq!(end.chars().count(), 41);
    assert!(end.chars().all(|c| c == '━'));
}
