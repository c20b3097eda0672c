use roary_mic::capture::{CommitReason, Watcher, WatcherAction, WatcherEvent};
use roary_mic::history::{apply_corrections, extract_correction_pair, Correction};
use roary_mic::text::split_words;
use roary_mic::word_diff::{word_diff, DiffOp};

fn rule(id: i64, original: &str, corrected: &str, enabled: bool) -> Correction {
    Correction {
        id,
        original_text: original.to_string(),
        corrected_text: corrected.to_string(),
        history_id: None,
        created_at: 0,
        enabled,
        kind: "correction".to_string(),
    }
}

fn sides(old: &[String], new: &[String], ops: &[DiffOp]) -> (Vec<String>, Vec<String>, usize) {
    let mut o = Vec::new();
    let mut n = Vec::new();
    let mut kept = 0;
    for op in ops {
        match *op {
            DiffOp::Equal(i) => {
                o.push(old[i].clone());
                n.push(old[i].clone());
                kept += 1;
            }
            DiffOp::Delete(i) => o.push(old[i].clone()),
            DiffOp::Insert(j) => n.push(new[j].clone()),
        }
    }
    (o, n, kept)
}

#[test]
fn word_diff_reproduces_both_sides_and_keeps_the_lcs() {
    let old = split_words("the quick brown fox jumps over the lazy dog");
    let new = split_words("the slow brown cat jumps over a lazy dog today");
    let ops = word_diff(&old, &new);
    let (o, n, kept) = sides(&old, &new, &ops);
    assert_eq!(o, old);
    assert_eq!(n, new);
    // "the brown jumps over lazy dog" is a longest common subsequence.
    assert_eq!(kept, 6);
}

#[test]
fn word_diff_prefers_deletion_on_ties() {
    // Walking back from the end, deletions are taken first on ties, so the
    // insertion ends up at the front of the forward script.
    let old = split_words("a b");
    let new = split_words("c");
    let ops = word_diff(&old, &new);
    assert_eq!(ops, vec![DiffOp::Insert(0), DiffOp::Delete(0), DiffOp::Delete(1)]);
}

#[test]
fn split_words_handles_tabs_newlines_and_runs_of_spaces() {
    let w = split_words("  one\ttwo\n\nthree   four \u{a0}five ");
    assert_eq!(w, vec!["one", "two", "three", "four", "five"]);
}

#[test]
fn apply_corrections_in_sequence_equals_one_pass() {
    let first = vec![rule(1, "halo", "hello", true)];
    let second = vec![rule(2, "hello", "hi", true), rule(3, "there", "here", true)];
    let mut both = first.clone();
    both.extend(second.clone());
    let text = "halo there, hello";
    assert_eq!(
        apply_corrections(text, &both),
        apply_corrections(&apply_corrections(text, &first), &second)
    );
    assert_eq!(apply_corrections(text, &both), "hi here, hi");
}

#[test]
fn apply_corrections_ignores_inactive_rules() {
    let rules = vec![
        rule(1, "halo", "hello", false),
        rule(2, "", "x", true),
        rule(3, "omw", "on my way", true),
    ];
    let active = vec![rule(3, "omw", "on my way", true)];
    let text = "halo omw";
    assert_eq!(apply_corrections(text, &rules), apply_corrections(text, &active));
    assert_eq!(apply_corrections(text, &rules), "halo on my way");
}

#[test]
fn apply_corrections_escapes_meta_characters_and_skips_boundaries_at_symbols() {
    // "a.b" must match literally (escaped dot), not "axb".
    let rules = vec![rule(1, "a.b", "ab", true)];
    assert_eq!(apply_corrections("axb a.b", &rules), "axb ab");
    // A pattern of symbols has no word boundary, so it matches inside text.
    let rules = vec![rule(1, "!!!", "!", true)];
    assert_eq!(apply_corrections("wow!!! ok", &rules), "wow! ok");
}

#[test]
fn extract_correction_pair_span_is_between_shared_prefix_and_suffix() {
    let (o, c) = extract_correction_pair(
        "please send the rport by friday",
        "please send the report by friday",
    )
    .unwrap();
    assert_eq!(o, "rport");
    assert_eq!(c, "report");
    assert_eq!(extract_correction_pair("", "something"), None);
    assert_eq!(extract_correction_pair("something", "   "), None);
}

#[test]
fn watcher_commits_only_once() {
    let mut w = Watcher::new(Some("x".into()), 1, 10, 5);
    let a = w.step(WatcherEvent::Woke { elapsed_ms: 5 });
    match a {
        WatcherAction::Commit { reason, final_value } => {
            assert_eq!(reason, CommitReason::Timeout);
            assert_eq!(final_value.as_deref(), Some("x"));
        }
        _ => panic!("expected a commit"),
    }
    for e in vec![
        WatcherEvent::Woke { elapsed_ms: 1 },
        WatcherEvent::Focus { still_here: false },
        WatcherEvent::Value { value: None, now_ms: 9 },
    ] {
        match w.step(e) {
            WatcherAction::Commit { reason, final_value } => {
                assert_eq!(reason, CommitReason::Timeout);
                assert_eq!(final_value.as_deref(), Some("x"));
            }
            _ => panic!("a finished watcher keeps its commit"),
        }
    }
}

#[test]
fn watcher_never_reports_an_empty_value() {
    let mut w = Watcher::new(Some("".into()), 1, 100, 1000);
    assert!(matches!(w.step(WatcherEvent::Woke { elapsed_ms: 1 }), WatcherAction::CheckFocus));
    assert!(matches!(w.step(WatcherEvent::Focus { still_here: true }), WatcherAction::ReadValue));
    // Empty again: keep waiting, nothing remembered.
    assert!(matches!(
        w.step(WatcherEvent::Value { value: Some("".into()), now_ms: 1 }),
        WatcherAction::Sleep { ms: 1 }
    ));
    assert!(matches!(w.step(WatcherEvent::Woke { elapsed_ms: 2 }), WatcherAction::CheckFocus));
    match w.step(WatcherEvent::Focus { still_here: false }) {
        WatcherAction::Commit { reason, final_value } => {
            assert_eq!(reason, CommitReason::FocusChanged);
            assert_eq!(final_value, None);
        }
        _ => panic!("expected a commit"),
    }
}

#[test]
fn watcher_ignores_events_it_did_not_ask_for() {
    let mut w = Watcher::new(None, 7, 100, 1000);
    assert!(matches!(
        w.step(WatcherEvent::Value { value: None, now_ms: 3 }),
        WatcherAction::Sleep { ms: 7 }
    ));
    assert!(matches!(w.step(WatcherEvent::Woke { elapsed_ms: 7 }), WatcherAction::CheckFocus));
    assert!(matches!(w.step(WatcherEvent::Woke { elapsed_ms: 8 }), WatcherAction::CheckFocus));
}
