use vstd::prelude::*;
use vstd::utf8::encode_utf8;

use crate::text::{joined, lemma_joined_push, split_words, views, words};
use crate::word_diff::{
    kept_count, lemma_count_step, lemma_kept_count_bounded, lemma_word_diff_in_range,
    lemma_word_diff_positions, new_count, old_count, op_at_position, ops_in_range, positions_ok,
    spec_word_diff, word_diff, DiffOp,
};

verus! {

/// A candidate correction pair: `original` as it was pasted, `corrected` as
/// the user left it, each padded with one word of unchanged context per side.
#[derive(Clone, Debug, PartialEq, Eq)]
pub struct CorrectionCandidate {
    pub original: String,
    pub corrected: String,
}

impl View for CorrectionCandidate {
    type V = (Seq<char>, Seq<char>);

    open spec fn view(&self) -> (Seq<char>, Seq<char>) {
        (self.original@, self.corrected@)
    }
}

/// The views of a list of candidates.
pub open spec fn candidate_views(v: Seq<CorrectionCandidate>) -> Seq<(Seq<char>, Seq<char>)> {
    v.map_values(|c: CorrectionCandidate| c@)
}

/// The largest number of changed tokens a diff may have and still be read as
/// a set of corrections rather than a rewrite.
pub const MAX_WORD_DELTA: usize = 20;

/// The length ratio test: with `p` and `f` the UTF-8 lengths of the pasted and
/// final text (each at least 1), neither is more than three times the other.
pub open spec fn length_ratio_acceptable(pasted_bytes: nat, final_bytes: nat) -> bool {
    let p: int = if pasted_bytes == 0 { 1 } else { pasted_bytes as int };
    let f: int = if final_bytes == 0 { 1 } else { final_bytes as int };
    3 * p >= f && p <= 3 * f
}

/// The token an operation of a diff between `a` and `b` refers to.
pub open spec fn op_token(op: DiffOp, a: Seq<Seq<char>>, b: Seq<Seq<char>>) -> Seq<char> {
    match op {
        DiffOp::Equal(i) => a[i as int],
        DiffOp::Delete(i) => a[i as int],
        DiffOp::Insert(j) => b[j as int],
    }
}

/// The end (exclusive) of the run of non-`Equal` operations that starts at `pos`.
pub open spec fn run_end(ops: Seq<DiffOp>, pos: int) -> int
    decreases ops.len() - pos,
{
    if pos >= ops.len() || ops[pos] is Equal {
        pos
    } else {
        run_end(ops, pos + 1)
    }
}

/// The deleted tokens among `ops[lo..hi]`, in order.
pub open spec fn deleted_in(ops: Seq<DiffOp>, a: Seq<Seq<char>>, lo: int, hi: int) -> Seq<Seq<char>>
    decreases hi - lo,
{
    if hi <= lo {
        Seq::empty()
    } else {
        let rest = deleted_in(ops, a, lo, hi - 1);
        match ops[hi - 1] {
            DiffOp::Delete(i) => rest.push(a[i as int]),
            _ => rest,
        }
    }
}

/// The inserted tokens among `ops[lo..hi]`, in order.
pub open spec fn inserted_in(ops: Seq<DiffOp>, b: Seq<Seq<char>>, lo: int, hi: int) -> Seq<Seq<char>>
    decreases hi - lo,
{
    if hi <= lo {
        Seq::empty()
    } else {
        let rest = inserted_in(ops, b, lo, hi - 1);
        match ops[hi - 1] {
            DiffOp::Insert(j) => rest.push(b[j as int]),
            _ => rest,
        }
    }
}

/// The unchanged word just before position `start`, if there is one.
pub open spec fn context_before(ops: Seq<DiffOp>, a: Seq<Seq<char>>, start: int) -> Option<Seq<char>> {
    if start > 0 && ops[start - 1] is Equal {
        Some(a[ops[start - 1]->Equal_0 as int])
    } else {
        None
    }
}

/// The unchanged word at position `end`, if there is one.
pub open spec fn context_after(ops: Seq<DiffOp>, a: Seq<Seq<char>>, end: int) -> Option<Seq<char>> {
    if 0 <= end < ops.len() && ops[end] is Equal {
        Some(a[ops[end]->Equal_0 as int])
    } else {
        None
    }
}

/// The candidate built from the change run `ops[start..end]`.
pub open spec fn run_candidate(
    ops: Seq<DiffOp>,
    a: Seq<Seq<char>>,
    b: Seq<Seq<char>>,
    start: int,
    end: int,
) -> (Seq<char>, Seq<char>) {
    let removed = deleted_in(ops, a, start, end);
    let added = inserted_in(ops, b, start, end);
    let before: Seq<char> = match context_before(ops, a, start) {
        Some(c) => c + seq![' '],
        None => Seq::empty(),
    };
    let original = before + joined(removed, seq![' ']) + match context_after(ops, a, end) {
        Some(c) => seq![' '] + c,
        None => Seq::empty(),
    };
    let corrected = before + joined(added, seq![' ']) + match context_after(ops, a, end) {
        Some(c) => if added.len() > 0 {
            seq![' '] + c
        } else {
            c
        },
        None => Seq::empty(),
    };
    (original, corrected)
}

pub proof fn lemma_run_end_bounds(ops: Seq<DiffOp>, pos: int)
    requires
        0 <= pos,
    ensures
        pos <= run_end(ops, pos),
        pos < ops.len() ==> run_end(ops, pos) <= ops.len(),
        pos < ops.len() && !(ops[pos] is Equal) ==> pos < run_end(ops, pos),
        run_end(ops, pos) < ops.len() ==> ops[run_end(ops, pos)] is Equal,
    decreases ops.len() - pos,
{
    if pos < ops.len() && !(ops[pos] is Equal) {
        lemma_run_end_bounds(ops, pos + 1);
    }
}

/// The candidates of the change runs at or after `pos`: each maximal run of
/// non-`Equal` operations with at least one deletion gives one candidate.
pub open spec fn candidates_from(ops: Seq<DiffOp>, a: Seq<Seq<char>>, b: Seq<Seq<char>>, pos: int) -> Seq<(Seq<char>, Seq<char>)>
    decreases ops.len() - pos,
{
    if pos < 0 || pos >= ops.len() {
        Seq::empty()
    } else if ops[pos] is Equal {
        candidates_from(ops, a, b, pos + 1)
    } else {
        let end = run_end(ops, pos);
        proof {
            lemma_run_end_bounds(ops, pos);
        }
        let rest = candidates_from(ops, a, b, end);
        if deleted_in(ops, a, pos, end).len() > 0 {
            seq![run_candidate(ops, a, b, pos, end)] + rest
        } else {
            rest
        }
    }
}

/// The correction candidates between a pasted and a final text.
pub open spec fn spec_extract_correction_pairs(pasted: Seq<char>, final_text: Seq<char>) -> Seq<(Seq<char>, Seq<char>)> {
    if pasted == final_text {
        Seq::empty()
    } else if !length_ratio_acceptable(encode_utf8(pasted).len(), encode_utf8(final_text).len()) {
        Seq::empty()
    } else {
        let a = words(pasted);
        let b = words(final_text);
        let ops = spec_word_diff(a, b);
        if ops.len() - kept_count(ops) > MAX_WORD_DELTA {
            Seq::empty()
        } else {
            candidates_from(ops, a, b, 0)
        }
    }
}

/// Calls `str`'s `==`: true iff the two strings hold the same characters.
#[verifier::external_body]
pub(crate) fn str_equal(x: &str, y: &str) -> (r: bool)
    ensures
        r == (x@ == y@),
{
    x == y
}

/// Diffs `pasted` against `final_text` word by word and returns one candidate
/// per change run that deletes at least one word, padded with one word of
/// unchanged context per side. Returns nothing when the texts are identical,
/// when one UTF-8 length is more than three times the other, or
/// when more than twenty tokens changed.
pub fn extract_correction_pairs(pasted: &str, final_text: &str) -> (out: Vec<CorrectionCandidate>)
    ensures
        candidate_views(out@) == spec_extract_correction_pairs(pasted@, final_text@),
{
    if str_equal(pasted, final_text) {
        return Vec::new();
    }
    let pasted_len = pasted.as_bytes().len();
    let final_len = final_text.as_bytes().len();
    let p: usize = if pasted_len == 0 { 1 } else { pasted_len };
    let f: usize = if final_len == 0 { 1 } else { final_len };
    if !(3 * (p as u128) >= f as u128 && (p as u128) <= 3 * (f as u128)) {
        return Vec::new();
    }
    let old_tokens = split_words(pasted);
    let new_tokens = split_words(final_text);
    let diff = word_diff(&old_tokens, &new_tokens);
    let ghost a = views(old_tokens@);
    let ghost b = views(new_tokens@);
    let ghost ops = diff@;
    assert(a.len() == old_tokens.len() && b.len() == new_tokens.len());
    proof {
        lemma_word_diff_in_range(a, b);
        lemma_kept_count_bounded(ops);
    }
    let len = diff.len();
    let mut delta: usize = 0;
    let mut k: usize = 0;
    while k < len
        invariant
            len == diff.len(),
            k <= len,
            ops == diff@,
            kept_count(ops.take(k as int)) <= k,
            delta == k - kept_count(ops.take(k as int)),
        decreases len - k,
    {
        assert(ops.take(k + 1).drop_last() =~= ops.take(k as int));
        if !matches!(diff[k], DiffOp::Equal(_)) {
            delta = delta + 1;
        }
        k = k + 1;
    }
    assert(ops.take(len as int) =~= ops);
    if delta > MAX_WORD_DELTA {
        return Vec::new();
    }
    let mut out: Vec<CorrectionCandidate> = Vec::new();
    let mut i: usize = 0;
    while i < len
        invariant
            len == diff.len(),
            i <= len,
            ops == diff@,
            a == views(old_tokens@),
            b == views(new_tokens@),
            ops_in_range(ops, a.len() as int, b.len() as int),
            candidate_views(out@) + candidates_from(ops, a, b, i as int) == candidates_from(ops, a, b, 0),
        decreases len - i,
    {
        if matches!(diff[i], DiffOp::Equal(_)) {
            i = i + 1;
        } else {
            let start = i;
            proof {
                lemma_run_end_bounds(ops, start as int);
            }
            while i < len && !matches!(diff[i], DiffOp::Equal(_))
                invariant
                    len == diff.len(),
                    ops == diff@,
                    start <= i <= len,
                    start < len,
                    run_end(ops, start as int) == run_end(ops, i as int),
                decreases len - i,
            {
                i = i + 1;
            }
            let end = i;
            assert(run_end(ops, start as int) == end);
            let mut removed = String::new();
            let mut added = String::new();
            let mut has_removed = false;
            let mut has_added = false;
            let mut k: usize = start;
            while k < end
                invariant
                    len == diff.len(),
                    ops == diff@,
                    start <= k <= end <= len,
                    a == views(old_tokens@),
                    b == views(new_tokens@),
                    ops_in_range(ops, a.len() as int, b.len() as int),
                    removed@ == joined(deleted_in(ops, a, start as int, k as int), seq![' ']),
                    added@ == joined(inserted_in(ops, b, start as int, k as int), seq![' ']),
                    has_removed == (deleted_in(ops, a, start as int, k as int).len() > 0),
                    has_added == (inserted_in(ops, b, start as int, k as int).len() > 0),
                decreases end - k,
            {
                let ghost dprev = deleted_in(ops, a, start as int, k as int);
                let ghost iprev = inserted_in(ops, b, start as int, k as int);
                assert(0 <= k < ops.len());
                match diff[k] {
                    DiffOp::Delete(t) => {
                        proof {
                            lemma_joined_push(dprev, seq![' '], a[t as int]);
                        }
                        if has_removed {
                            crate::text::push_char(&mut removed, ' ');
                        }
                        removed.append(old_tokens[t].as_str());
                        has_removed = true;
                    },
                    DiffOp::Insert(t) => {
                        proof {
                            lemma_joined_push(iprev, seq![' '], b[t as int]);
                        }
                        if has_added {
                            crate::text::push_char(&mut added, ' ');
                        }
                        added.append(new_tokens[t].as_str());
                        has_added = true;
                    },
                    DiffOp::Equal(_) => {},
                }
                k = k + 1;
            }
            if has_removed {
                let mut original = String::new();
                let mut corrected = String::new();
                if start > 0 {
                    if let DiffOp::Equal(t) = diff[start - 1] {
                        original.append(old_tokens[t].as_str());
                        crate::text::push_char(&mut original, ' ');
                        corrected.append(old_tokens[t].as_str());
                        crate::text::push_char(&mut corrected, ' ');
                    }
                }
                original.append(removed.as_str());
                corrected.append(added.as_str());
                if end < len {
                    if let DiffOp::Equal(t) = diff[end] {
                        crate::text::push_char(&mut original, ' ');
                        original.append(old_tokens[t].as_str());
                        if has_added {
                            crate::text::push_char(&mut corrected, ' ');
                        }
                        corrected.append(old_tokens[t].as_str());
                    }
                }
                let ghost cand = run_candidate(ops, a, b, start as int, end as int);
                assert(original@ =~= cand.0);
                assert(corrected@ =~= cand.1);
                let ghost prev = out@;
                out.push(CorrectionCandidate { original, corrected });
                assert(candidate_views(out@) =~= candidate_views(prev).push(cand));
            }
            assert(candidate_views(out@) + candidates_from(ops, a, b, i as int) =~= candidates_from(ops, a, b, 0));
        }
    }
    assert(candidates_from(ops, a, b, len as int) =~= Seq::<(Seq<char>, Seq<char>)>::empty());
    assert(candidate_views(out@) =~= candidates_from(ops, a, b, 0));
    assert(a == words(pasted@) && b == words(final_text@));
    out
}

/// What the app reads through: the text field that received a paste.
pub trait CaptureElement: Send + Sync {
    fn read_value(&self) -> Option<String>;

    fn is_password_field(&self) -> bool;

    fn is_same_ref(&self, other: &Self) -> bool where Self: Sized;
}

#[verifier::external_type_specification]
#[verifier::external_body]
pub struct ExInstant(std::time::Instant);

/// The most recent paste that is being watched for edits.
pub struct CapturedPaste {
    pub pasted_text: String,
    pub element: Box<dyn CaptureElement>,
    pub pasted_at: std::time::Instant,
    /// Whether a watcher has already been dispatched for this capture.
    pub watcher_spawned: bool,
}

/// Takes the pending capture out of `slot`, leaving it empty.
pub fn take_current(slot: &mut Option<CapturedPaste>) -> (r: Option<CapturedPaste>)
    ensures
        r == *old(slot),
        (*final(slot)) is None,
{
    slot.take()
}

/// Stores a fresh paste for watching when capture is `enabled`, an `element`
/// is focused and it is not a password field (`is_password_field`, as read
/// from the element); the new capture supersedes any pending one. Returns
/// whether it was stored.
pub fn record_capture(
    slot: &mut Option<CapturedPaste>,
    enabled: bool,
    pasted_text: String,
    element: Option<Box<dyn CaptureElement>>,
    is_password_field: bool,
    pasted_at: std::time::Instant,
) -> (recorded: bool)
    ensures
        recorded == (enabled && element is Some && !is_password_field),
        recorded ==> *final(slot) == Some(
            CapturedPaste { pasted_text, element: element->0, pasted_at, watcher_spawned: false },
        ),
        !recorded ==> *final(slot) == *old(slot),
{
    if !enabled || is_password_field {
        return false;
    }
    match element {
        None => false,
        Some(e) => {
            *slot = Some(CapturedPaste { pasted_text, element: e, pasted_at, watcher_spawned: false });
            true
        },
    }
}

/// Why the watcher stopped.
#[derive(Clone, Copy, Debug, PartialEq, Eq, Structural)]
pub enum CommitReason {
    /// Field contents went from non-empty to empty: a chat "send".
    FieldCleared,
    /// Value unchanged for the quiet period.
    QuietPeriod,
    /// Focus moved to a different field.
    FocusChanged,
    /// The hard cutoff passed.
    Timeout,
    /// The element could no longer be read.
    ElementGone,
}

/// Which outside observation the watcher waits for next.
#[derive(Clone, Copy, Debug, PartialEq, Eq, Structural)]
pub enum WatcherPhase {
    Sleeping,
    AwaitingFocus,
    AwaitingValue,
    Finished,
}

/// What the watcher has seen so far. Times are milliseconds since the watcher started.
pub struct Watcher {
    pub last_nonempty: Option<String>,
    pub previous_value: Option<String>,
    pub quiet_since_ms: u64,
    pub phase: WatcherPhase,
    pub result: Option<(CommitReason, Option<String>)>,
    pub poll_interval_ms: u64,
    pub quiet_period_ms: u64,
    pub hard_timeout_ms: u64,
}

/// What the app reports back to the watcher.
pub enum WatcherEvent {
    /// The poll interval has passed; `elapsed_ms` since the watcher started.
    Woke { elapsed_ms: u64 },
    /// Whether the watched element still has focus.
    Focus { still_here: bool },
    /// The element's value (`None`: it could not be read), read at `now_ms`.
    Value { value: Option<String>, now_ms: u64 },
}

/// What the app is to do next for the watcher.
pub enum WatcherAction {
    Sleep { ms: u64 },
    CheckFocus,
    ReadValue,
    Commit { reason: CommitReason, final_value: Option<String> },
}

/// The view of an optional string.
pub open spec fn opt_view(o: Option<String>) -> Option<Seq<char>> {
    match o {
        Some(s) => Some(s@),
        None => None,
    }
}

/// The abstract state of a watcher.
pub struct WatcherView {
    pub last_nonempty: Option<Seq<char>>,
    pub previous_value: Option<Seq<char>>,
    pub quiet_since_ms: u64,
    pub phase: WatcherPhase,
    pub result: Option<(CommitReason, Option<Seq<char>>)>,
    pub poll_interval_ms: u64,
    pub quiet_period_ms: u64,
    pub hard_timeout_ms: u64,
}

/// The abstract form of an event.
pub enum WatcherEventView {
    Woke { elapsed_ms: u64 },
    Focus { still_here: bool },
    Value { value: Option<Seq<char>>, now_ms: u64 },
}

/// The abstract form of an action.
pub enum WatcherActionView {
    Sleep { ms: u64 },
    CheckFocus,
    ReadValue,
    Commit { reason: CommitReason, final_value: Option<Seq<char>> },
}

impl View for Watcher {
    type V = WatcherView;

    open spec fn view(&self) -> WatcherView {
        WatcherView {
            last_nonempty: opt_view(self.last_nonempty),
            previous_value: opt_view(self.previous_value),
            quiet_since_ms: self.quiet_since_ms,
            phase: self.phase,
            result: match self.result {
                Some((r, v)) => Some((r, opt_view(v))),
                None => None,
            },
            poll_interval_ms: self.poll_interval_ms,
            quiet_period_ms: self.quiet_period_ms,
            hard_timeout_ms: self.hard_timeout_ms,
        }
    }
}

impl View for WatcherEvent {
    type V = WatcherEventView;

    open spec fn view(&self) -> WatcherEventView {
        match self {
            WatcherEvent::Woke { elapsed_ms } => WatcherEventView::Woke { elapsed_ms: *elapsed_ms },
            WatcherEvent::Focus { still_here } => WatcherEventView::Focus { still_here: *still_here },
            WatcherEvent::Value { value, now_ms } => WatcherEventView::Value {
                value: opt_view(*value),
                now_ms: *now_ms,
            },
        }
    }
}

impl View for WatcherAction {
    type V = WatcherActionView;

    open spec fn view(&self) -> WatcherActionView {
        match self {
            WatcherAction::Sleep { ms } => WatcherActionView::Sleep { ms: *ms },
            WatcherAction::CheckFocus => WatcherActionView::CheckFocus,
            WatcherAction::ReadValue => WatcherActionView::ReadValue,
            WatcherAction::Commit { reason, final_value } => WatcherActionView::Commit {
                reason: *reason,
                final_value: opt_view(*final_value),
            },
        }
    }
}

/// Milliseconds from `since` to `now`, or zero when `now` is earlier.
pub open spec fn elapsed_since(since: u64, now: u64) -> int {
    if now >= since {
        now - since
    } else {
        0
    }
}

/// The watcher after stopping with `reason`, and the commit action.
pub open spec fn finish(w: WatcherView, reason: CommitReason) -> (WatcherView, WatcherActionView) {
    (
        WatcherView { phase: WatcherPhase::Finished, result: Some((reason, w.last_nonempty)), ..w },
        WatcherActionView::Commit { reason, final_value: w.last_nonempty },
    )
}

/// The action a watcher in phase `w.phase` asks for.
pub open spec fn awaited_action(w: WatcherView) -> WatcherActionView {
    match w.phase {
        WatcherPhase::Sleeping => WatcherActionView::Sleep { ms: w.poll_interval_ms },
        WatcherPhase::AwaitingFocus => WatcherActionView::CheckFocus,
        WatcherPhase::AwaitingValue => WatcherActionView::ReadValue,
        WatcherPhase::Finished => match w.result {
            Some((r, v)) => WatcherActionView::Commit { reason: r, final_value: v },
            None => WatcherActionView::Commit { reason: CommitReason::ElementGone, final_value: None },
        },
    }
}

/// One step of the watcher: after each poll interval the hard timeout is
/// checked, then focus, then the element's value. An empty value after a
/// non-empty one commits as a cleared field; a value that stays the same for
/// the quiet period commits as quiet; an unreadable element commits as gone.
/// An event that does not answer what the watcher asked for changes nothing.
pub open spec fn spec_watcher_step(w: WatcherView, e: WatcherEventView) -> (WatcherView, WatcherActionView) {
    match (w.phase, e) {
        (WatcherPhase::Sleeping, WatcherEventView::Woke { elapsed_ms }) => {
            if elapsed_ms >= w.hard_timeout_ms {
                finish(w, CommitReason::Timeout)
            } else {
                (WatcherView { phase: WatcherPhase::AwaitingFocus, ..w }, WatcherActionView::CheckFocus)
            }
        },
        (WatcherPhase::AwaitingFocus, WatcherEventView::Focus { still_here }) => {
            if !still_here {
                finish(w, CommitReason::FocusChanged)
            } else {
                (WatcherView { phase: WatcherPhase::AwaitingValue, ..w }, WatcherActionView::ReadValue)
            }
        },
        (WatcherPhase::AwaitingValue, WatcherEventView::Value { value, now_ms }) => {
            match value {
                None => finish(w, CommitReason::ElementGone),
                Some(v) => {
                    if v.len() == 0 {
                        if w.last_nonempty is Some {
                            finish(w, CommitReason::FieldCleared)
                        } else {
                            let next = WatcherView {
                                phase: WatcherPhase::Sleeping,
                                previous_value: Some(v),
                                quiet_since_ms: now_ms,
                                ..w
                            };
                            (next, WatcherActionView::Sleep { ms: w.poll_interval_ms })
                        }
                    } else {
                        let seen = WatcherView { last_nonempty: Some(v), ..w };
                        if w.previous_value == Some(v) {
                            if elapsed_since(w.quiet_since_ms, now_ms) >= w.quiet_period_ms {
                                finish(seen, CommitReason::QuietPeriod)
                            } else {
                                (
                                    WatcherView { phase: WatcherPhase::Sleeping, ..seen },
                                    WatcherActionView::Sleep { ms: w.poll_interval_ms },
                                )
                            }
                        } else {
                            let next = WatcherView {
                                phase: WatcherPhase::Sleeping,
                                previous_value: Some(v),
                                quiet_since_ms: now_ms,
                                ..seen
                            };
                            (next, WatcherActionView::Sleep { ms: w.poll_interval_ms })
                        }
                    }
                },
            }
        },
        _ => (w, awaited_action(w)),
    }
}

/// The watcher's own invariant: a remembered value is never empty, and a
/// finished watcher holds its result.
pub open spec fn watcher_wf(w: WatcherView) -> bool {
    &&& (w.last_nonempty matches Some(v) ==> v.len() > 0)
    &&& (w.phase == WatcherPhase::Finished <==> w.result is Some)
    &&& (w.result matches Some((_, Some(v))) ==> v.len() > 0)
}

fn clone_opt(o: &Option<String>) -> (r: Option<String>)
    ensures
        opt_view(r) == opt_view(*o),
{
    match o {
        Some(s) => Some(s.clone()),
        None => None,
    }
}

impl Watcher {
    /// A watcher that starts with the element's current value `initial_value`.
    pub fn new(initial_value: Option<String>, poll_interval_ms: u64, quiet_period_ms: u64, hard_timeout_ms: u64) -> (w: Watcher)
        ensures
            w@.last_nonempty == (match opt_view(initial_value) {
                Some(v) => if v.len() > 0 {
                    Some(v)
                } else {
                    None
                },
                None => None,
            }),
            w@.previous_value == opt_view(initial_value),
            w@.quiet_since_ms == 0,
            w@.phase == WatcherPhase::Sleeping,
            w@.result is None,
            w@.poll_interval_ms == poll_interval_ms,
            w@.quiet_period_ms == quiet_period_ms,
            w@.hard_timeout_ms == hard_timeout_ms,
            watcher_wf(w@),
    {
        let last_nonempty = match &initial_value {
            Some(s) => if s.as_str().is_empty() {
                None
            } else {
                Some(s.clone())
            },
            None => None,
        };
        Watcher {
            last_nonempty,
            previous_value: initial_value,
            quiet_since_ms: 0,
            phase: WatcherPhase::Sleeping,
            result: None,
            poll_interval_ms,
            quiet_period_ms,
            hard_timeout_ms,
        }
    }

    /// The first action of a fresh watcher, and the one it keeps asking for.
    pub fn next_action(&self) -> (a: WatcherAction)
        ensures
            a@ == awaited_action(self@),
    {
        match self.phase {
            WatcherPhase::Sleeping => WatcherAction::Sleep { ms: self.poll_interval_ms },
            WatcherPhase::AwaitingFocus => WatcherAction::CheckFocus,
            WatcherPhase::AwaitingValue => WatcherAction::ReadValue,
            WatcherPhase::Finished => match &self.result {
                Some((r, v)) => WatcherAction::Commit { reason: *r, final_value: clone_opt(v) },
                None => WatcherAction::Commit { reason: CommitReason::ElementGone, final_value: None },
            },
        }
    }

    fn finish(&mut self, reason: CommitReason) -> (a: WatcherAction)
        ensures
            (final(self)@, a@) == finish(old(self)@, reason),
    {
        self.phase = WatcherPhase::Finished;
        self.result = Some((reason, clone_opt(&self.last_nonempty)));
        WatcherAction::Commit { reason, final_value: clone_opt(&self.last_nonempty) }
    }

    /// Feeds one observation to the watcher and returns what to do next.
    pub fn step(&mut self, event: WatcherEvent) -> (a: WatcherAction)
        ensures
            (final(self)@, a@) == spec_watcher_step(old(self)@, event@),
    {
        match (self.phase, event) {
            (WatcherPhase::Sleeping, WatcherEvent::Woke { elapsed_ms }) => {
                if elapsed_ms >= self.hard_timeout_ms {
                    self.finish(CommitReason::Timeout)
                } else {
                    self.phase = WatcherPhase::AwaitingFocus;
                    WatcherAction::CheckFocus
                }
            },
            (WatcherPhase::AwaitingFocus, WatcherEvent::Focus { still_here }) => {
                if !still_here {
                    self.finish(CommitReason::FocusChanged)
                } else {
                    self.phase = WatcherPhase::AwaitingValue;
                    WatcherAction::ReadValue
                }
            },
            (WatcherPhase::AwaitingValue, WatcherEvent::Value { value, now_ms }) => {
                match value {
                    None => self.finish(CommitReason::ElementGone),
                    Some(v) => {
                        if v.as_str().is_empty() {
                            if self.last_nonempty.is_some() {
                                self.finish(CommitReason::FieldCleared)
                            } else {
                                self.phase = WatcherPhase::Sleeping;
                                self.previous_value = Some(v);
                                self.quiet_since_ms = now_ms;
                                WatcherAction::Sleep { ms: self.poll_interval_ms }
                            }
                        } else {
                            let same = match &self.previous_value {
                                Some(p) => *p == v,
                                None => false,
                            };
                            self.last_nonempty = Some(v.clone());
                            if same {
                                let quiet_for = if now_ms >= self.quiet_since_ms {
                                    now_ms - self.quiet_since_ms
                                } else {
                                    0
                                };
                                if quiet_for >= self.quiet_period_ms {
                                    self.finish(CommitReason::QuietPeriod)
                                } else {
                                    self.phase = WatcherPhase::Sleeping;
                                    WatcherAction::Sleep { ms: self.poll_interval_ms }
                                }
                            } else {
                                self.phase = WatcherPhase::Sleeping;
                                self.previous_value = Some(v);
                                self.quiet_since_ms = now_ms;
                                WatcherAction::Sleep { ms: self.poll_interval_ms }
                            }
                        }
                    },
                }
            },
            (_, e) => {
                proof {
                    assert(event@ == e@);
                }
                self.next_action()
            },
        }
    }
}

/// The watcher stops at most once: after it commits, every further event
/// leaves it as it is and repeats the same commit.
pub proof fn lemma_watcher_commits_once(w: WatcherView, e: WatcherEventView)
    requires
        watcher_wf(w),
        w.phase == WatcherPhase::Finished,
    ensures
        spec_watcher_step(w, e).0 == w,
        spec_watcher_step(w, e).1 == awaited_action(w),
        awaited_action(w) is Commit,
{
}

/// Every step keeps the watcher's invariant, and a commit never reports an
/// empty final value: it reports the last non-empty value seen, or none.
pub proof fn lemma_watcher_step_wf(w: WatcherView, e: WatcherEventView)
    requires
        watcher_wf(w),
    ensures
        watcher_wf(spec_watcher_step(w, e).0),
        spec_watcher_step(w, e).1 matches WatcherActionView::Commit { final_value: Some(v), .. } ==> v.len() > 0,
{
}

/// Identical texts give no candidates.
pub proof fn lemma_identical_texts_give_no_candidates(text: Seq<char>)
    ensures
        spec_extract_correction_pairs(text, text).len() == 0,
{
}

proof fn lemma_joined_nonempty(parts: Seq<Seq<char>>, sep: Seq<char>)
    requires
        parts.len() > 0,
        parts.last().len() > 0,
    ensures
        joined(parts, sep).len() > 0,
{
}

proof fn lemma_deleted_in_nonempty_words(ops: Seq<DiffOp>, a: Seq<Seq<char>>, lo: int, hi: int)
    requires
        ops_in_range(ops, a.len() as int, usize::MAX as int),
        0 <= lo,
        hi <= ops.len(),
        forall|k: int| 0 <= k < a.len() ==> #[trigger] a[k].len() > 0,
    ensures
        forall|k: int| 0 <= k < deleted_in(ops, a, lo, hi).len() ==> #[trigger] deleted_in(ops, a, lo, hi)[k].len() > 0,
    decreases hi - lo,
{
    if hi > lo {
        lemma_deleted_in_nonempty_words(ops, a, lo, hi - 1);
        let rest = deleted_in(ops, a, lo, hi - 1);
        assert(match ops[hi - 1] {
            DiffOp::Equal(i) => i < a.len(),
            DiffOp::Delete(i) => i < a.len(),
            DiffOp::Insert(j) => j < usize::MAX,
        });
        match ops[hi - 1] {
            DiffOp::Delete(i) => {
                assert(deleted_in(ops, a, lo, hi) == rest.push(a[i as int]));
                assert forall|k: int| 0 <= k < deleted_in(ops, a, lo, hi).len() implies #[trigger] deleted_in(ops, a, lo, hi)[k].len() > 0 by {
                    if k < rest.len() {
                        assert(deleted_in(ops, a, lo, hi)[k] == rest[k]);
                    }
                }
            },
            _ => {
                assert(deleted_in(ops, a, lo, hi) == rest);
            },
        }
    }
}

proof fn lemma_candidates_have_originals(ops: Seq<DiffOp>, a: Seq<Seq<char>>, b: Seq<Seq<char>>, pos: int)
    requires
        ops_in_range(ops, a.len() as int, usize::MAX as int),
        forall|k: int| 0 <= k < a.len() ==> #[trigger] a[k].len() > 0,
    ensures
        forall|k: int| 0 <= k < candidates_from(ops, a, b, pos).len() ==> #[trigger] candidates_from(ops, a, b, pos)[k].0.len() > 0,
    decreases ops.len() - pos,
{
    if pos < 0 || pos >= ops.len() {
    } else if ops[pos] is Equal {
        lemma_candidates_have_originals(ops, a, b, pos + 1);
        assert(candidates_from(ops, a, b, pos) == candidates_from(ops, a, b, pos + 1));
    } else {
        let end = run_end(ops, pos);
        lemma_run_end_bounds(ops, pos);
        lemma_candidates_have_originals(ops, a, b, end);
        let removed = deleted_in(ops, a, pos, end);
        if removed.len() > 0 {
            lemma_deleted_in_nonempty_words(ops, a, pos, end);
            assert(removed.last().len() > 0);
            lemma_joined_nonempty(removed, seq![' ']);
            let c = run_candidate(ops, a, b, pos, end);
            assert(c.0.len() >= joined(removed, seq![' ']).len());
            let rest = candidates_from(ops, a, b, end);
            assert(candidates_from(ops, a, b, pos) == seq![c] + rest);
            assert forall|k: int| 0 <= k < candidates_from(ops, a, b, pos).len() implies #[trigger] candidates_from(ops, a, b, pos)[k].0.len() > 0 by {
                if k > 0 {
                    assert(candidates_from(ops, a, b, pos)[k] == rest[k - 1]);
                }
            }
        } else {
            assert(candidates_from(ops, a, b, pos) == candidates_from(ops, a, b, end));
        }
    }
}

/// A pure insertion yields no candidate: every candidate has a non-empty
/// `original` (it holds at least one word the user removed or replaced).
pub proof fn lemma_candidates_have_originals_in_text(pasted: Seq<char>, final_text: Seq<char>)
    requires
        words(pasted).len() <= usize::MAX,
        words(final_text).len() <= usize::MAX,
    ensures
        forall|k: int| 0 <= k < spec_extract_correction_pairs(pasted, final_text).len()
            ==> #[trigger] spec_extract_correction_pairs(pasted, final_text)[k].0.len() > 0,
{
    let a = words(pasted);
    let b = words(final_text);
    crate::text::lemma_words_well_formed(pasted);
    lemma_word_diff_in_range(a, b);
    let ops = spec_word_diff(a, b);
    assert(ops_in_range(ops, a.len() as int, usize::MAX as int)) by {
        assert forall|k: int| 0 <= k < ops.len() implies match #[trigger] ops[k] {
            DiffOp::Equal(i) => i < a.len(),
            DiffOp::Delete(i) => i < a.len(),
            DiffOp::Insert(j) => j < usize::MAX,
        } by {
            assert(match ops[k] {
                DiffOp::Equal(i) => i < a.len(),
                DiffOp::Delete(i) => i < a.len(),
                DiffOp::Insert(j) => j < b.len(),
            });
        }
    }
    lemma_candidates_have_originals(ops, a, b, 0);
}

/// One stored pending correction, as the frontend is told about it.
#[derive(Clone, Debug)]
pub struct PendingCorrectionRow {
    pub id: i64,
    pub original: String,
    pub corrected: String,
}

/// All pending corrections of one commit, sent as a single event.
#[derive(Clone, Debug)]
pub struct PendingCorrectionEvent {
    pub candidates: Vec<PendingCorrectionRow>,
}

/// The event announcing the rules that were stored for one commit, in order;
/// none when nothing was stored.
pub fn pending_correction_event(stored: Vec<crate::history::Correction>) -> (e: Option<PendingCorrectionEvent>)
    ensures
        stored@.len() == 0 ==> e is None,
        stored@.len() > 0 ==> (e matches Some(ev) && ev.candidates@.len() == stored@.len() && forall|k: int|
            0 <= k < stored@.len() ==> {
                &&& (#[trigger] ev.candidates@[k]).id == stored@[k].id
                &&& ev.candidates@[k].original == stored@[k].original_text
                &&& ev.candidates@[k].corrected == stored@[k].corrected_text
            }),
{
    let mut rows: Vec<PendingCorrectionRow> = Vec::new();
    let mut k: usize = 0;
    while k < stored.len()
        invariant
            k <= stored.len(),
            rows@.len() == k,
            forall|j: int|
                0 <= j < k ==> {
                    &&& (#[trigger] rows@[j]).id == stored@[j].id
                    &&& rows@[j].original == stored@[j].original_text
                    &&& rows@[j].corrected == stored@[j].corrected_text
                },
        decreases stored.len() - k,
    {
        let c = &stored[k];
        rows.push(PendingCorrectionRow { id: c.id, original: c.original_text.clone(), corrected: c.corrected_text.clone() });
        k = k + 1;
    }
    if rows.len() == 0 {
        None
    } else {
        Some(PendingCorrectionEvent { candidates: rows })
    }
}

/// The quiet period counts from the last change: reading a non-empty value
/// that differs from the previous read restarts it at that read and never
/// commits, and a read that repeats the previous value keeps its start.
pub proof fn lemma_watcher_change_restarts_quiet_period(w: WatcherView, v: Seq<char>, now_ms: u64)
    requires
        w.phase == WatcherPhase::AwaitingValue,
        v.len() > 0,
    ensures
        ({
            let (n, act) = spec_watcher_step(w, WatcherEventView::Value { value: Some(v), now_ms });
            &&& w.previous_value != Some(v) ==> {
                &&& n.quiet_since_ms == now_ms
                &&& n.previous_value == Some(v)
                &&& !(act is Commit)
            }
            &&& w.previous_value == Some(v) ==> n.quiet_since_ms == w.quiet_since_ms
            &&& n.last_nonempty == Some(v)
        }),
{
}

/// A quiet-period commit happens only on a read of the same non-empty value
/// as the previous read, at least the quiet period after the value was first
/// read unchanged, and it reports that value.
pub proof fn lemma_watcher_quiet_commit(w: WatcherView, e: WatcherEventView)
    requires
        w.phase != WatcherPhase::Finished,
        spec_watcher_step(w, e).1 matches WatcherActionView::Commit { reason: CommitReason::QuietPeriod, .. },
    ensures
        e matches WatcherEventView::Value { value: Some(v), now_ms } && {
            &&& v.len() > 0
            &&& w.previous_value == Some(v)
            &&& elapsed_since(w.quiet_since_ms, now_ms) >= w.quiet_period_ms
            &&& spec_watcher_step(w, e).1 == (WatcherActionView::Commit {
                reason: CommitReason::QuietPeriod,
                final_value: Some(v),
            })
        },
{
}

/// Events other than a value read leave the previous value and the start of
/// the quiet period as they were.
pub proof fn lemma_watcher_only_reads_touch_quiet_period(w: WatcherView, e: WatcherEventView)
    requires
        !(e is Value),
    ensures
        spec_watcher_step(w, e).0.quiet_since_ms == w.quiet_since_ms,
        spec_watcher_step(w, e).0.previous_value == w.previous_value,
{
}

proof fn lemma_run_all_changes(ops: Seq<DiffOp>, pos: int)
    requires
        0 <= pos,
    ensures
        forall|k: int| pos <= k < run_end(ops, pos) ==> !(#[trigger] ops[k] is Equal),
    decreases ops.len() - pos,
{
    if pos < ops.len() && !(ops[pos] is Equal) {
        lemma_run_all_changes(ops, pos + 1);
    }
}

proof fn lemma_count_prefix(ops: Seq<DiffOp>, k: int)
    requires
        0 <= k <= ops.len(),
    ensures
        old_count(ops.take(k)) <= old_count(ops),
        new_count(ops.take(k)) <= new_count(ops),
    decreases ops.len(),
{
    if k == ops.len() {
        assert(ops.take(k) =~= ops);
    } else {
        lemma_count_prefix(ops.drop_last(), k);
        assert(ops.drop_last().take(k) =~= ops.take(k));
    }
}

/// The deleted and inserted tokens of a stretch of changes are the old and new
/// tokens between the positions that its ends stand at.
proof fn lemma_run_tokens(ops: Seq<DiffOp>, a: Seq<Seq<char>>, b: Seq<Seq<char>>, lo: int, hi: int)
    requires
        positions_ok(ops, a, b),
        0 <= lo <= hi <= ops.len(),
        forall|k: int| lo <= k < hi ==> !(#[trigger] ops[k] is Equal),
    ensures
        old_count(ops.take(lo)) <= old_count(ops.take(hi)) <= a.len(),
        new_count(ops.take(lo)) <= new_count(ops.take(hi)) <= b.len(),
        deleted_in(ops, a, lo, hi) == a.subrange(old_count(ops.take(lo)) as int, old_count(ops.take(hi)) as int),
        inserted_in(ops, b, lo, hi) == b.subrange(new_count(ops.take(lo)) as int, new_count(ops.take(hi)) as int),
    decreases hi - lo,
{
    lemma_count_prefix(ops, hi);
    if hi == lo {
        assert(a.subrange(old_count(ops.take(lo)) as int, old_count(ops.take(lo)) as int) =~= Seq::<Seq<char>>::empty());
        assert(b.subrange(new_count(ops.take(lo)) as int, new_count(ops.take(lo)) as int) =~= Seq::<Seq<char>>::empty());
    } else {
        lemma_run_tokens(ops, a, b, lo, hi - 1);
        lemma_count_step(ops, hi - 1);
        assert(op_at_position(ops, a, b, hi - 1));
        assert(!(ops[hi - 1] is Equal));
        let o0 = old_count(ops.take(lo)) as int;
        let o1 = old_count(ops.take(hi - 1)) as int;
        let n0 = new_count(ops.take(lo)) as int;
        let n1 = new_count(ops.take(hi - 1)) as int;
        match ops[hi - 1] {
            DiffOp::Delete(x) => {
                assert(a.subrange(o0, o1 + 1) =~= a.subrange(o0, o1).push(a[o1]));
            },
            DiffOp::Insert(y) => {
                assert(b.subrange(n0, n1 + 1) =~= b.subrange(n0, n1).push(b[n1]));
            },
            DiffOp::Equal(_) => {},
        }
    }
}

/// The single word `c`, or nothing.
pub open spec fn opt_word(c: Option<Seq<char>>) -> Seq<Seq<char>> {
    match c {
        Some(w) => seq![w],
        None => Seq::empty(),
    }
}

/// Splitting a candidate side: a context word and a space, the words of the
/// run joined by spaces, and a space (when `spaced`) and a context word.
proof fn lemma_words_framed(before: Option<Seq<char>>, mid: Seq<Seq<char>>, after: Option<Seq<char>>, spaced: bool)
    requires
        before matches Some(w) ==> crate::text::is_word(w),
        after matches Some(w) ==> crate::text::is_word(w),
        forall|k: int| 0 <= k < mid.len() ==> crate::text::is_word(#[trigger] mid[k]),
        mid.len() > 0 ==> spaced,
    ensures
        words((match before {
            Some(c) => c + seq![' '],
            None => Seq::empty(),
        }) + joined(mid, seq![' ']) + (match after {
            Some(c) => if spaced {
                seq![' '] + c
            } else {
                c
            },
            None => Seq::empty(),
        })) == opt_word(before) + mid + opt_word(after),
{
    let j = joined(mid, seq![' ']);
    crate::text::lemma_words_of_joined(mid);
    let pre: Seq<char> = match before {
        Some(c) => c + seq![' '],
        None => Seq::empty(),
    };
    let x = pre + j;
    match before {
        Some(c) => {
            crate::text::lemma_words_of_word(c);
            crate::text::lemma_words_space_concat(c, j);
            assert(x =~= c + seq![' '] + j);
        },
        None => {
            assert(x =~= j);
        },
    }
    assert(words(x) =~= opt_word(before) + mid);
    match after {
        Some(c) => {
            crate::text::lemma_words_of_word(c);
            if spaced {
                crate::text::lemma_words_space_concat(x, c);
                assert(x + (seq![' '] + c) =~= x + seq![' '] + c);
            } else {
                assert(mid.len() == 0);
                assert(j =~= Seq::<char>::empty());
                match before {
                    Some(b0) => {
                        crate::text::lemma_words_of_word(b0);
                        crate::text::lemma_words_space_concat(b0, c);
                        assert(x + c =~= b0 + seq![' '] + c);
                    },
                    None => {
                        assert(x + c =~= c);
                    },
                }
            }
        },
        None => {
            assert(x + Seq::<char>::empty() =~= x);
        },
    }
}

/// `o` splits into the old tokens `a[i0..i1]` and `c` into the new tokens
/// `b[j0..j1]`, and the two blocks start on the same word unless both start
/// at the front, and end on the same word unless both end at the back.
pub open spec fn blocks_at(
    o: Seq<char>,
    c: Seq<char>,
    a: Seq<Seq<char>>,
    b: Seq<Seq<char>>,
    i0: int,
    i1: int,
    j0: int,
    j1: int,
) -> bool {
    &&& 0 <= i0 <= i1 <= a.len()
    &&& 0 <= j0 <= j1 <= b.len()
    &&& words(o) == a.subrange(i0, i1)
    &&& words(c) == b.subrange(j0, j1)
    &&& (i0 > 0 || j0 > 0) ==> i0 < i1 && j0 < j1 && a[i0] == b[j0]
    &&& (i1 < a.len() || j1 < b.len()) ==> i0 < i1 && j0 < j1 && a[i1 - 1] == b[j1 - 1]
}

/// `o` and `c` are aligned blocks of consecutive words of `a` and `b`.
pub open spec fn aligned_blocks(o: Seq<char>, c: Seq<char>, a: Seq<Seq<char>>, b: Seq<Seq<char>>) -> bool {
    exists|i0: int, i1: int, j0: int, j1: int| #[trigger] blocks_at(o, c, a, b, i0, i1, j0, j1)
}

proof fn lemma_run_candidate_block(ops: Seq<DiffOp>, a: Seq<Seq<char>>, b: Seq<Seq<char>>, start: int, end: int)
    requires
        positions_ok(ops, a, b),
        forall|k: int| 0 <= k < a.len() ==> crate::text::is_word(#[trigger] a[k]),
        forall|k: int| 0 <= k < b.len() ==> crate::text::is_word(#[trigger] b[k]),
        0 <= start < end <= ops.len(),
        forall|k: int| start <= k < end ==> !(#[trigger] ops[k] is Equal),
        end == ops.len() || ops[end] is Equal,
        start == 0 || ops[start - 1] is Equal,
    ensures
        aligned_blocks(run_candidate(ops, a, b, start, end).0, run_candidate(ops, a, b, start, end).1, a, b),
{
    lemma_run_tokens(ops, a, b, start, end);
    let o0 = old_count(ops.take(start)) as int;
    let o1 = old_count(ops.take(end)) as int;
    let n0 = new_count(ops.take(start)) as int;
    let n1 = new_count(ops.take(end)) as int;
    let removed = deleted_in(ops, a, start, end);
    let added = inserted_in(ops, b, start, end);
    if start > 0 {
        lemma_count_step(ops, start - 1);
        assert(op_at_position(ops, a, b, start - 1));
        assert(start - 1 + 1 == start);
    } else {
        assert(ops.take(0) =~= Seq::<DiffOp>::empty());
    }
    if end < ops.len() {
        assert(op_at_position(ops, a, b, end));
    } else {
        assert(ops.take(end) =~= ops);
    }
    let cb = context_before(ops, a, start);
    let ca = context_after(ops, a, end);
    assert(cb == if start > 0 { Some(a[o0 - 1]) } else { None::<Seq<char>> });
    assert(ca == if end < ops.len() { Some(a[o1]) } else { None::<Seq<char>> });
    assert forall|k: int| 0 <= k < removed.len() implies crate::text::is_word(#[trigger] removed[k]) by {
        assert(removed[k] == a[o0 + k]);
    }
    assert forall|k: int| 0 <= k < added.len() implies crate::text::is_word(#[trigger] added[k]) by {
        assert(added[k] == b[n0 + k]);
    }
    lemma_words_framed(cb, removed, ca, true);
    lemma_words_framed(cb, added, ca, added.len() > 0);
    let cand = run_candidate(ops, a, b, start, end);
    let i0 = if start > 0 { o0 - 1 } else { 0 };
    let i1 = if end < ops.len() { o1 + 1 } else { o1 };
    let j0 = if start > 0 { n0 - 1 } else { 0 };
    let j1 = if end < ops.len() { n1 + 1 } else { n1 };
    assert(opt_word(cb) + removed + opt_word(ca) =~= a.subrange(i0, i1));
    assert(opt_word(cb) + added + opt_word(ca) =~= b.subrange(j0, j1));
    assert(blocks_at(cand.0, cand.1, a, b, i0, i1, j0, j1));
}

proof fn lemma_candidates_are_blocks(ops: Seq<DiffOp>, a: Seq<Seq<char>>, b: Seq<Seq<char>>, pos: int)
    requires
        positions_ok(ops, a, b),
        forall|k: int| 0 <= k < a.len() ==> crate::text::is_word(#[trigger] a[k]),
        forall|k: int| 0 <= k < b.len() ==> crate::text::is_word(#[trigger] b[k]),
        pos <= 0 || pos >= ops.len() || ops[pos - 1] is Equal || ops[pos] is Equal,
    ensures
        forall|k: int| 0 <= k < candidates_from(ops, a, b, pos).len() ==> aligned_blocks(
            (#[trigger] candidates_from(ops, a, b, pos)[k]).0,
            candidates_from(ops, a, b, pos)[k].1,
            a,
            b,
        ),
    decreases ops.len() - pos,
{
    if pos < 0 || pos >= ops.len() {
    } else if ops[pos] is Equal {
        lemma_candidates_are_blocks(ops, a, b, pos + 1);
        assert(candidates_from(ops, a, b, pos) == candidates_from(ops, a, b, pos + 1));
    } else {
        let end = run_end(ops, pos);
        lemma_run_end_bounds(ops, pos);
        lemma_run_all_changes(ops, pos);
        lemma_candidates_are_blocks(ops, a, b, end);
        let rest = candidates_from(ops, a, b, end);
        if deleted_in(ops, a, pos, end).len() > 0 {
            lemma_run_candidate_block(ops, a, b, pos, end);
            let c = run_candidate(ops, a, b, pos, end);
            assert(candidates_from(ops, a, b, pos) == seq![c] + rest);
            assert forall|k: int| 0 <= k < candidates_from(ops, a, b, pos).len() implies aligned_blocks(
                (#[trigger] candidates_from(ops, a, b, pos)[k]).0,
                candidates_from(ops, a, b, pos)[k].1,
                a,
                b,
            ) by {
                if k > 0 {
                    assert(candidates_from(ops, a, b, pos)[k] == rest[k - 1]);
                }
            }
        } else {
            assert(candidates_from(ops, a, b, pos) == rest);
        }
    }
}

/// Every candidate is a pair of aligned word blocks: its original splits into
/// consecutive words of the pasted text and its corrected side into
/// consecutive words of the final text (the inserted words separated, never
/// glued), and the two blocks start on a shared context word unless both
/// start at the front, and end on one unless both end at the back.
pub proof fn lemma_candidates_are_word_blocks(pasted: Seq<char>, final_text: Seq<char>)
    requires
        words(pasted).len() <= usize::MAX,
        words(final_text).len() <= usize::MAX,
    ensures
        forall|k: int| 0 <= k < spec_extract_correction_pairs(pasted, final_text).len() ==> aligned_blocks(
            (#[trigger] spec_extract_correction_pairs(pasted, final_text)[k]).0,
            spec_extract_correction_pairs(pasted, final_text)[k].1,
            words(pasted),
            words(final_text),
        ),
{
    let a = words(pasted);
    let b = words(final_text);
    crate::text::lemma_words_are_words(pasted);
    crate::text::lemma_words_are_words(final_text);
    lemma_word_diff_positions(a, b);
    lemma_candidates_are_blocks(spec_word_diff(a, b), a, b, 0);
}

} // verus!
