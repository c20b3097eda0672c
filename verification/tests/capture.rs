use std::collections::VecDeque;
use std::sync::atomic::{AtomicUsize, Ordering as AtomicOrdering};
use std::sync::Mutex as StdMutex;
use std::time::Instant;

use roary_mic::capture::{
    extract_correction_pairs, record_capture, take_current, CaptureElement, CapturedPaste,
    CommitReason, Watcher, WatcherAction, WatcherEvent,
};

struct FakeElement {
    password: bool,
    responses: StdMutex<VecDeque<Option<String>>>,
}

impl FakeElement {
    fn scripted(values: Vec<Option<String>>) -> Self {
        FakeElement {
            password: false,
            responses: StdMutex::new(values.into()),
        }
    }
}

impl CaptureElement for FakeElement {
    fn read_value(&self) -> Option<String> {
        self.responses.lock().unwrap().pop_front().unwrap_or(None)
    }
    fn is_password_field(&self) -> bool {
        self.password
    }
    fn is_same_ref(&self, _other: &Self) -> bool {
        false
    }
}

fn make_capture(text: &str, password: bool) -> CapturedPaste {
    let fake = FakeElement {
        password,
        responses: StdMutex::new(VecDeque::new()),
    };
    CapturedPaste {
        pasted_text: text.to_string(),
        element: Box::new(fake),
        pasted_at: Instant::now(),
        watcher_spawned: false,
    }
}

/// Drives a watcher the way the app does, with a clock that advances by the
/// requested sleep on every poll.
fn run_watcher(
    element: &dyn CaptureElement,
    focus_still_here: &mut dyn FnMut() -> bool,
    initial_value: Option<String>,
    poll_interval_ms: u64,
    quiet_period_ms: u64,
    hard_timeout_ms: u64,
) -> (CommitReason, Option<String>) {
    let mut watcher = Watcher::new(initial_value, poll_interval_ms, quiet_period_ms, hard_timeout_ms);
    let mut now: u64 = 0;
    let mut action = watcher.next_action();
    loop {
        action = match action {
            WatcherAction::Sleep { ms } => {
                now += ms;
                watcher.step(WatcherEvent::Woke { elapsed_ms: now })
            }
            WatcherAction::CheckFocus => watcher.step(WatcherEvent::Focus {
                still_here: focus_still_here(),
            }),
            WatcherAction::ReadValue => watcher.step(WatcherEvent::Value {
                value: element.read_value(),
                now_ms: now,
            }),
            WatcherAction::Commit { reason, final_value } => return (reason, final_value),
        };
    }
}

fn run(
    element: &dyn CaptureElement,
    initial: Option<String>,
    quiet_ms: u64,
    timeout_ms: u64,
) -> (CommitReason, Option<String>) {
    run_watcher(element, &mut || true, initial, 1, quiet_ms, timeout_ms)
}

#[test]
fn take_current_returns_none_when_empty() {
    let mut slot: Option<CapturedPaste> = None;
    let _ = take_current(&mut slot);
    assert!(take_current(&mut slot).is_none());
}

#[test]
fn state_supersedes_previous_capture() {
    let mut slot: Option<CapturedPaste> = None;
    let _ = take_current(&mut slot);
    slot = Some(make_capture("first paste", false));
    slot = Some(make_capture("second paste", false));
    let taken = take_current(&mut slot).expect("should have a capture");
    assert_eq!(taken.pasted_text, "second paste");
    assert!(take_current(&mut slot).is_none(), "take should clear the slot");
}

#[test]
fn password_field_capture_is_flagged() {
    let pw = make_capture("secret", true);
    assert!(pw.element.is_password_field());
    let not_pw = make_capture("hello", false);
    assert!(!not_pw.element.is_password_field());
}

#[test]
fn captured_paste_stores_original_text() {
    let c = make_capture("pasted text", false);
    assert_eq!(c.pasted_text, "pasted text");
    assert!(!c.watcher_spawned);
}

#[test]
fn watcher_fires_on_field_cleared() {
    let element = FakeElement::scripted(vec![
        Some("pasted".into()),
        Some("pasted!".into()),
        Some("".into()),
    ]);
    let (reason, final_value) = run(&element, Some("pasted".into()), 500, 500);
    assert_eq!(reason, CommitReason::FieldCleared);
    assert_eq!(final_value.as_deref(), Some("pasted!"));
}

#[test]
fn watcher_fires_on_quiet_period() {
    let element = FakeElement::scripted(vec![
        Some("edited".into()),
        Some("edited".into()),
        Some("edited".into()),
        Some("edited".into()),
        Some("edited".into()),
    ]);
    let (reason, final_value) = run(&element, Some("before edit".into()), 0, 500);
    assert_eq!(reason, CommitReason::QuietPeriod);
    assert_eq!(final_value.as_deref(), Some("edited"));
}

#[test]
fn watcher_fires_on_element_gone() {
    let element = FakeElement::scripted(vec![None]);
    let (reason, final_value) = run(&element, Some("before".into()), 500, 500);
    assert_eq!(reason, CommitReason::ElementGone);
    assert_eq!(final_value.as_deref(), Some("before"));
}

struct CounterElement {
    counter: AtomicUsize,
}

impl CaptureElement for CounterElement {
    fn read_value(&self) -> Option<String> {
        let n = self.counter.fetch_add(1, AtomicOrdering::SeqCst);
        Some(format!("text {}", n))
    }
    fn is_password_field(&self) -> bool {
        false
    }
    fn is_same_ref(&self, _other: &Self) -> bool {
        false
    }
}

#[test]
fn watcher_fires_on_timeout_when_values_keep_changing() {
    let element = CounterElement {
        counter: AtomicUsize::new(0),
    };
    let (reason, final_value) =
        run_watcher(&element, &mut || true, Some("pasted".into()), 1, 30_000, 20);
    assert_eq!(reason, CommitReason::Timeout);
    assert!(final_value.is_some());
}

#[test]
fn watcher_fires_on_focus_change() {
    let element = FakeElement::scripted(vec![Some("anything".into())]);
    let (reason, final_value) =
        run_watcher(&element, &mut || false, Some("pasted".into()), 1, 500, 500);
    assert_eq!(reason, CommitReason::FocusChanged);
    assert_eq!(final_value.as_deref(), Some("pasted"));
}

#[test]
fn diff_identical_returns_empty() {
    let out = extract_correction_pairs("hello world", "hello world");
    assert!(out.is_empty());
}

#[test]
fn diff_punctuation_added_captures_with_context() {
    let out = extract_correction_pairs("hello world", "hello, world");
    assert_eq!(out.len(), 1);
    assert_eq!(out[0].original, "hello world");
    assert_eq!(out[0].corrected, "hello, world");
}

#[test]
fn diff_homophone_captures_with_context() {
    let out = extract_correction_pairs("going to their car", "going to there car");
    assert_eq!(out.len(), 1);
    assert_eq!(out[0].original, "to their car");
    assert_eq!(out[0].corrected, "to there car");
}

#[test]
fn diff_proper_noun_case_captures() {
    let out = extract_correction_pairs("meeting with rory tomorrow", "meeting with Roary tomorrow");
    assert_eq!(out.len(), 1);
    assert_eq!(out[0].original, "with rory tomorrow");
    assert_eq!(out[0].corrected, "with Roary tomorrow");
}

#[test]
fn diff_full_rewrite_rejected_by_ratio() {
    let out = extract_correction_pairs(
        "hi",
        "this is a completely different much longer message than what was pasted",
    );
    assert!(out.is_empty());
}

#[test]
fn diff_large_word_delta_rejected() {
    let pasted = (0..15).map(|i| format!("a{}", i)).collect::<Vec<_>>().join(" ");
    let final_text = (0..15).map(|i| format!("b{}", i)).collect::<Vec<_>>().join(" ");
    let out = extract_correction_pairs(&pasted, &final_text);
    assert!(out.is_empty());
}

#[test]
fn diff_pure_insertion_rejected() {
    let out = extract_correction_pairs("hello world", "hello beautiful world");
    assert!(out.is_empty());
}

#[test]
fn diff_multiple_candidates_in_one_message() {
    let out = extract_correction_pairs(
        "their going to the shops with rory",
        "they're going to the shops with Roary",
    );
    assert_eq!(out.len(), 2);
    assert_eq!(out[0].original, "their going");
    assert_eq!(out[0].corrected, "they're going");
    assert_eq!(out[1].original, "with rory");
    assert_eq!(out[1].corrected, "with Roary");
}

#[test]
fn record_capture_supersedes_and_skips_password_fields() {
    let mut slot: Option<CapturedPaste> = None;
    let first = FakeElement::scripted(vec![]);
    assert!(record_capture(&mut slot, true, "first".into(), Some(Box::new(first)), false, Instant::now()));
    let second = FakeElement::scripted(vec![]);
    assert!(record_capture(&mut slot, true, "second".into(), Some(Box::new(second)), false, Instant::now()));
    let pw = FakeElement { password: true, responses: StdMutex::new(VecDeque::new()) };
    let is_password = pw.is_password_field();
    assert!(!record_capture(&mut slot, true, "secret".into(), Some(Box::new(pw)), is_password, Instant::now()));
    assert!(!record_capture(&mut slot, false, "off".into(), Some(Box::new(FakeElement::scripted(vec![]))), false, Instant::now()));
    assert!(!record_capture(&mut slot, true, "no element".into(), None, false, Instant::now()));
    let taken = take_current(&mut slot).expect("a capture is pending");
    assert_eq!(taken.pasted_text, "second");
    assert!(!taken.watcher_spawned);
    assert!(slot.is_none());
}

#[test]
fn diff_rejects_texts_more_than_three_times_apart() {
    let short = "a".repeat(33);
    let long = "b".repeat(100);
    assert!(extract_correction_pairs(&short, &long).is_empty());
    assert!(extract_correction_pairs(&long, &short).is_empty());
}

#[test]
fn diff_accepts_texts_exactly_three_times_apart() {
    let short = "a".repeat(33);
    let long = "b".repeat(99);
    assert_eq!(extract_correction_pairs(&short, &long).len(), 1);
}
