use sonic_bridge::musicology::{
    chord_template, chord_templates, key_label, missing_degrees, mode_label, pitch_name,
    ChordQuality, PentatonicMode,
};

#[test]
fn pitch_class_names() {
    let names: Vec<&str> = (0..12).map(pitch_name).collect();
    assert_eq!(names, vec!["C", "C#", "D", "D#", "E", "F", "F#", "G", "G#", "A", "A#", "B"]);
}

#[test]
fn chord_templates_cover_every_root_and_quality() {
    let all = chord_templates();
    assert_eq!(all.len(), 84);
    assert_eq!(all[0].name, "C");
    assert_eq!(all[0].pitch_classes, vec![0, 4, 7]);
    assert_eq!(all[1].name, "Cm");
    assert_eq!(all[1].pitch_classes, vec![0, 3, 7]);
    assert_eq!(all[2].name, "Cmaj7");
    assert_eq!(all[2].pitch_classes, vec![0, 4, 7, 11]);
    assert_eq!(all[6].name, "Csus4");
    assert_eq!(all[6].pitch_classes, vec![0, 5, 7]);
    let am7 = &all[9 * 7 + 3];
    assert_eq!(am7.name, "Am7");
    assert_eq!(am7.pitch_classes, vec![9, 0, 4, 7]);
    let b7 = &all[83 - 2];
    assert_eq!(b7.name, "B7");
    assert_eq!(b7.pitch_classes, vec![11, 3, 6, 9]);
    let bsus4 = &all[83];
    assert_eq!(bsus4.name, "Bsus4");
    assert_eq!(bsus4.pitch_classes, vec![11, 4, 6]);
}

#[test]
fn single_chord_template() {
    let t = chord_template(2, ChordQuality::Sus2);
    assert_eq!(t.name, "Dsus2");
    assert_eq!(t.pitch_classes, vec![2, 4, 9]);
    let t = chord_template(10, ChordQuality::Dominant7);
    assert_eq!(t.name, "A#7");
    assert_eq!(t.pitch_classes, vec![10, 2, 5, 8]);
}

#[test]
fn key_and_mode_names() {
    assert_eq!(key_label(0, true), "C Major");
    assert_eq!(key_label(9, false), "A Minor");
    assert_eq!(mode_label(2, PentatonicMode::Gong), "D 宫调式");
    assert_eq!(mode_label(9, PentatonicMode::Yu), "A 羽调式");
    assert_eq!(mode_label(7, PentatonicMode::Zhi), "G 徵调式");
}

#[test]
fn pentatonic_gaps() {
    assert_eq!(missing_degrees(0, PentatonicMode::Gong), (5, 11));
    assert_eq!(missing_degrees(2, PentatonicMode::Gong), (7, 1));
    assert_eq!(missing_degrees(9, PentatonicMode::Shang), (0, 6));
    assert_eq!(missing_degrees(11, PentatonicMode::Jiao), (0, 6));
    assert_eq!(missing_degrees(4, PentatonicMode::Zhi), (8, 2));
    assert_eq!(missing_degrees(10, PentatonicMode::Yu), (0, 6));
}
