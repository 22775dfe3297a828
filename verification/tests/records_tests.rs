use length_stats::records::{is_meta_key, keep_text, lengths_from_lines, pick_text};

#[test]
fn lengths_from_mixed_lines() {
    let lines: Vec<String> = vec![
        "{\"text\": \"hello\"}".to_string(),          // 5 bytes
        "not json at all".to_string(),                 // skipped: invalid
        "{\"other\": \"x\"}".to_string(),             // skipped: no text field
        "{\"text\": 7}".to_string(),                   // skipped: not a string
        "   ".to_string(),                             // skipped: blank
        "".to_string(),                                // skipped: blank
        "  {\"text\": \"ab\"}  ".to_string(),         // trimmed, 2 bytes
    ];
    let lens = lengths_from_lines(&lines);
    assert_eq!(lens, vec![5, 2]);
}

#[test]
fn lengths_are_byte_lengths() {
    // A two-byte character counts as two bytes.
    let lines: Vec<String> = vec!["{\"text\": \"h\u{00e9}llo\"}".to_string()];
    let lens = lengths_from_lines(&lines);
    assert_eq!(lens, vec![6]);
}

#[test]
fn lengths_from_no_lines() {
    let lines: Vec<String> = vec![];
    let lens = lengths_from_lines(&lines);
    assert!(lens.is_empty());
}

#[test]
fn keep_text_respects_the_cutoff() {
    let short = "a".repeat(1000);
    assert!(keep_text(&short));
    let long = "a".repeat(1001);
    assert!(!keep_text(&long));
    // Surrounding whitespace does not count toward the cutoff.
    let padded = format!("   {}   ", "a".repeat(1000));
    assert!(keep_text(&padded));
}

#[test]
fn keep_text_counts_characters_not_bytes() {
    // 600 two-byte characters: 1200 bytes but only 600 characters.
    let s = "\u{00e9}".repeat(600);
    assert!(keep_text(&s));
}

#[test]
fn pick_text_prefers_scenario_then_question() {
    assert_eq!(pick_text("s", "q", "o"), "s".to_string());
    assert_eq!(pick_text("", "q", "o"), "q".to_string());
    assert_eq!(pick_text("", "", "o"), "o".to_string());
    assert_eq!(pick_text("", "", ""), "".to_string());
}

#[test]
fn meta_keys_are_the_five_known_names() {
    assert!(is_meta_key("rationale"));
    assert!(is_meta_key("action"));
    assert!(is_meta_key("answer"));
    assert!(is_meta_key("input"));
    assert!(is_meta_key("output"));
    assert!(!is_meta_key("text"));
    assert!(!is_meta_key(""));
    assert!(!is_meta_key("Rationale"));
}
