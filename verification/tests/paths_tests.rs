use sonic_bridge::paths::{path_spellings, pick_spelling};

#[test]
fn spellings_of_plain_text_are_all_alike() {
    assert_eq!(path_spellings("music/track.mp3"), vec!["music/track.mp3"; 3]);
}

#[test]
fn spellings_compose_and_decompose() {
    let decomposed = "cafe\u{301}.mp3";
    let spellings = path_spellings(decomposed);
    assert_eq!(spellings[0], decomposed);
    assert_eq!(spellings[1], "caf\u{e9}.mp3");
    assert_eq!(spellings[2], decomposed);
    let composed = path_spellings("caf\u{e9}.mp3");
    assert_eq!(composed[1], "caf\u{e9}.mp3");
    assert_eq!(composed[2], "cafe\u{301}.mp3");
    let kana = path_spellings("\u{30cf}\u{309a}");
    assert_eq!(kana[1], "\u{30d1}");
}

#[test]
fn first_existing_spelling_wins() {
    let spellings: Vec<String> = vec!["a".to_string(), "b".to_string(), "c".to_string()];
    assert_eq!(pick_spelling(&spellings, &vec![false, true, true]), "b");
    assert_eq!(pick_spelling(&spellings, &vec![true, true, false]), "a");
    assert_eq!(pick_spelling(&spellings, &vec![false, false, true]), "c");
    assert_eq!(pick_spelling(&spellings, &vec![false, false, false]), "a");
}
