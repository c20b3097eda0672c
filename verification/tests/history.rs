use roary_mic::history::{apply_corrections, extract_correction_pair, Correction};

fn correction(id: i64, original: &str, corrected: &str) -> Correction {
    Correction {
        id,
        original_text: original.to_string(),
        corrected_text: corrected.to_string(),
        history_id: None,
        created_at: 0,
        enabled: true,
        kind: "correction".to_string(),
    }
}

#[test]
fn extract_correction_pair_identical_returns_none() {
    assert_eq!(extract_correction_pair("hello world", "hello world"), None);
}

#[test]
fn extract_correction_pair_single_word_change() {
    assert_eq!(
        extract_correction_pair("halo world", "hello world"),
        Some(("halo".to_string(), "hello".to_string()))
    );
}

#[test]
fn extract_correction_pair_change_in_middle() {
    assert_eq!(
        extract_correction_pair(
            "I will see you halo there friend",
            "I will see you hello there friend"
        ),
        Some(("halo".to_string(), "hello".to_string()))
    );
}

#[test]
fn extract_correction_pair_multi_word_span() {
    assert_eq!(
        extract_correction_pair("omw soon", "on my way soon"),
        Some(("omw".to_string(), "on my way".to_string()))
    );
}

#[test]
fn extract_correction_pair_pure_insertion_falls_back_to_full_pair() {
    assert_eq!(
        extract_correction_pair("hello", "hello world"),
        Some(("hello".to_string(), "hello world".to_string()))
    );
}

#[test]
fn extract_correction_pair_pure_deletion_falls_back_to_full_pair() {
    assert_eq!(
        extract_correction_pair("hello world", "hello"),
        Some(("hello world".to_string(), "hello".to_string()))
    );
}

#[test]
fn extract_correction_pair_identical_after_trim_returns_none() {
    assert_eq!(extract_correction_pair("  hello  ", "hello"), None);
}

#[test]
fn apply_corrections_empty_rules_passthrough() {
    let out = apply_corrections("hello world", &[]);
    assert_eq!(out, "hello world");
}

#[test]
fn apply_corrections_word_boundary_prevents_partial_match() {
    let rules = vec![correction(1, "halo", "hello")];
    assert_eq!(apply_corrections("halos halo", &rules), "halos hello");
}

#[test]
fn apply_corrections_is_case_insensitive() {
    let rules = vec![correction(1, "halo", "hello")];
    assert_eq!(apply_corrections("Halo halo", &rules), "hello hello");
}

#[test]
fn apply_corrections_multi_word_phrase() {
    let rules = vec![correction(1, "omw", "on my way")];
    assert_eq!(apply_corrections("omw to the store", &rules), "on my way to the store");
}

#[test]
fn apply_corrections_disabled_rule_skipped() {
    let mut rules = vec![correction(1, "halo", "hello")];
    rules[0].enabled = false;
    assert_eq!(apply_corrections("halo world", &rules), "halo world");
}

#[test]
fn apply_corrections_ordered_application() {
    let rules = vec![correction(1, "halo", "hello"), correction(2, "hello", "hi")];
    assert_eq!(apply_corrections("halo there", &rules), "hi there");
}

#[test]
fn apply_corrections_empty_pattern_skipped() {
    let rules = vec![correction(1, "", "anything")];
    assert_eq!(apply_corrections("halo", &rules), "halo");
}

#[test]
fn apply_corrections_replacement_dollar_is_literal() {
    let rules = vec![
        correction(1, "price", "$100"),
        correction(2, "home", "$HOME"),
        correction(3, "name", "${user_name}"),
    ];
    assert_eq!(
        apply_corrections("price at home, name me", &rules),
        "$100 at $HOME, ${user_name} me"
    );
}
