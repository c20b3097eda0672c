use vstd::prelude::*;

use crate::text::{chars_of, joined, join_words, split_words, trim, trimmed, views, words};

verus! {

/// Number of leading tokens that `x` and `y` share.
pub open spec fn common_prefix_len(x: Seq<Seq<char>>, y: Seq<Seq<char>>) -> nat
    decreases x.len(),
{
    if x.len() == 0 || y.len() == 0 || x[0] != y[0] {
        0
    } else {
        1 + common_prefix_len(x.drop_first(), y.drop_first())
    }
}

/// Number of trailing tokens that `x` and `y` share.
pub open spec fn common_suffix_len(x: Seq<Seq<char>>, y: Seq<Seq<char>>) -> nat
    decreases x.len(),
{
    if x.len() == 0 || y.len() == 0 || x.last() != y.last() {
        0
    } else {
        1 + common_suffix_len(x.drop_last(), y.drop_last())
    }
}

/// The correction rule that an edit from `original` to `corrected` yields:
/// none when the trimmed texts agree or one of them is empty; otherwise the
/// words between the common word prefix and the common word suffix, or the
/// two whole trimmed texts when one of those middles is empty.
pub open spec fn spec_extract_correction_pair(original: Seq<char>, corrected: Seq<char>) -> Option<(Seq<char>, Seq<char>)> {
    let o = trimmed(original);
    let c = trimmed(corrected);
    if o == c || o.len() == 0 || c.len() == 0 {
        None
    } else {
        let ow = words(o);
        let cw = words(c);
        let p = common_prefix_len(ow, cw);
        let s = common_suffix_len(ow.skip(p as int), cw.skip(p as int));
        let om = ow.subrange(p as int, ow.len() - s);
        let cm = cw.subrange(p as int, cw.len() - s);
        if om.len() > 0 && cm.len() > 0 {
            Some((joined(om, seq![' ']), joined(cm, seq![' '])))
        } else {
            Some((o, c))
        }
    }
}

/// The view of an optional pair of strings.
pub open spec fn pair_view(r: Option<(String, String)>) -> Option<(Seq<char>, Seq<char>)> {
    match r {
        Some((x, y)) => Some((x@, y@)),
        None => None,
    }
}

proof fn lemma_common_prefix_step(x: Seq<Seq<char>>, y: Seq<Seq<char>>, k: int)
    requires
        0 <= k,
        k <= x.len(),
        k <= y.len(),
        x.take(k) == y.take(k),
    ensures
        common_prefix_len(x, y) == k + common_prefix_len(x.skip(k), y.skip(k)),
    decreases k,
{
    if k > 0 {
        assert(x[0] == x.take(k)[0]);
        assert(y[0] == y.take(k)[0]);
        assert(x.drop_first().take(k - 1) =~= x.take(k).drop_first());
        assert(y.drop_first().take(k - 1) =~= y.take(k).drop_first());
        lemma_common_prefix_step(x.drop_first(), y.drop_first(), k - 1);
        assert(x.drop_first().skip(k - 1) =~= x.skip(k));
        assert(y.drop_first().skip(k - 1) =~= y.skip(k));
    } else {
        assert(x.skip(0) =~= x);
        assert(y.skip(0) =~= y);
    }
}

proof fn lemma_common_suffix_step(x: Seq<Seq<char>>, y: Seq<Seq<char>>, k: int)
    requires
        0 <= k,
        k <= x.len(),
        k <= y.len(),
        x.skip(x.len() - k) == y.skip(y.len() - k),
    ensures
        common_suffix_len(x, y) == k + common_suffix_len(x.take(x.len() - k), y.take(y.len() - k)),
    decreases k,
{
    if k > 0 {
        assert(x.last() == x.skip(x.len() - k)[k - 1]);
        assert(y.last() == y.skip(y.len() - k)[k - 1]);
        assert(x.drop_last().skip(x.len() - k) =~= x.skip(x.len() - k).drop_last());
        assert(y.drop_last().skip(y.len() - k) =~= y.skip(y.len() - k).drop_last());
        lemma_common_suffix_step(x.drop_last(), y.drop_last(), k - 1);
        assert(x.drop_last().take(x.len() - k) =~= x.take(x.len() - k));
        assert(y.drop_last().take(y.len() - k) =~= y.take(y.len() - k));
    } else {
        assert(x.take(x.len() as int) =~= x);
        assert(y.take(y.len() as int) =~= y);
    }
}

/// Reduces a before/after pair to its minimal differing word span by
/// stripping the common word prefix and suffix of the trimmed texts, falling
/// back to the whole trimmed texts for a pure insertion or deletion.
pub fn extract_correction_pair(original: &str, corrected: &str) -> (r: Option<(String, String)>)
    ensures
        pair_view(r) == spec_extract_correction_pair(original@, corrected@),
{
    let o = trim(original);
    let c = trim(corrected);
    if o == c || o.as_str().is_empty() || c.as_str().is_empty() {
        return None;
    }
    let orig = split_words(o.as_str());
    let corr = split_words(c.as_str());
    let ghost ow = views(orig@);
    let ghost cw = views(corr@);
    let mut prefix: usize = 0;
    while prefix < orig.len() && prefix < corr.len() && orig[prefix] == corr[prefix]
        invariant
            prefix <= orig.len(),
            prefix <= corr.len(),
            ow == views(orig@),
            cw == views(corr@),
            ow.take(prefix as int) == cw.take(prefix as int),
        decreases orig.len() - prefix,
    {
        assert(ow.take(prefix + 1) =~= ow.take(prefix as int).push(ow[prefix as int]));
        assert(cw.take(prefix + 1) =~= cw.take(prefix as int).push(cw[prefix as int]));
        prefix = prefix + 1;
    }
    proof {
        lemma_common_prefix_step(ow, cw, prefix as int);
        assert(common_prefix_len(ow.skip(prefix as int), cw.skip(prefix as int)) == 0);
    }
    let ghost orest = ow.skip(prefix as int);
    let ghost crest = cw.skip(prefix as int);
    let mut suffix: usize = 0;
    while suffix < orig.len() - prefix && suffix < corr.len() - prefix
        && orig[orig.len() - 1 - suffix] == corr[corr.len() - 1 - suffix]
        invariant
            prefix <= orig.len(),
            prefix <= corr.len(),
            suffix <= orig.len() - prefix,
            suffix <= corr.len() - prefix,
            ow == views(orig@),
            cw == views(corr@),
            orest == ow.skip(prefix as int),
            crest == cw.skip(prefix as int),
            orest.skip(orest.len() - suffix) == crest.skip(crest.len() - suffix),
        decreases orig.len() - suffix,
    {
        assert(orest[orest.len() - 1 - suffix] == ow[orig.len() - 1 - suffix]);
        assert(crest[crest.len() - 1 - suffix] == cw[corr.len() - 1 - suffix]);
        assert(orest.skip(orest.len() - (suffix + 1)) =~= seq![orest[orest.len() - 1 - suffix]]
            + orest.skip(orest.len() - suffix));
        assert(crest.skip(crest.len() - (suffix + 1)) =~= seq![crest[crest.len() - 1 - suffix]]
            + crest.skip(crest.len() - suffix));
        suffix = suffix + 1;
    }
    proof {
        lemma_common_suffix_step(orest, crest, suffix as int);
        let ot = orest.take(orest.len() - suffix);
        let ct = crest.take(crest.len() - suffix);
        if ot.len() > 0 && ct.len() > 0 {
            assert(ot.last() == ow[orig.len() - 1 - suffix]);
            assert(ct.last() == cw[corr.len() - 1 - suffix]);
        }
        assert(common_suffix_len(ot, ct) == 0);
        assert(o@ == trimmed(original@) && c@ == trimmed(corrected@));
        assert(ow == words(o@) && cw == words(c@));
    }
    let o_hi = orig.len() - suffix;
    let c_hi = corr.len() - suffix;
    if prefix < o_hi && prefix < c_hi {
        Some((join_words(&orig, prefix, o_hi), join_words(&corr, prefix, c_hi)))
    } else {
        Some((o, c))
    }
}

/// A correction rule: `original_text` in a later transcription is replaced by
/// `corrected_text`. `kind` is `"correction"` for fixes of recognition
/// mistakes and `"reference"` for phrase expansions.
#[derive(Clone, Debug)]
pub struct Correction {
    pub id: i64,
    pub original_text: String,
    pub corrected_text: String,
    pub history_id: Option<i64>,
    pub created_at: i64,
    pub enabled: bool,
    pub kind: String,
}

/// Whether `c` is alphabetic or numeric, as `char::is_alphanumeric` reports it.
pub uninterp spec fn unicode_alphanumeric(c: char) -> bool;

/// Calls `char::is_alphanumeric`; its result is named `unicode_alphanumeric`.
#[verifier::external_body]
fn is_alphanumeric(c: char) -> (r: bool)
    ensures
        r == unicode_alphanumeric(c),
{
    c.is_alphanumeric()
}

/// A character counted as part of a word when deciding whether a rule's
/// pattern gets a `\b` word boundary at that end: alphanumeric or `_`.
pub open spec fn is_word_char(c: char) -> bool {
    unicode_alphanumeric(c) || c == '_'
}

/// The characters that `regex::escape` prefixes with a backslash.
pub open spec fn regex_meta_character(c: char) -> bool {
    c == '\\' || c == '.' || c == '+' || c == '*' || c == '?' || c == '(' || c == ')' || c == '|'
        || c == '[' || c == ']' || c == '{' || c == '}' || c == '^' || c == '$' || c == '#'
        || c == '&' || c == '-' || c == '~'
}

/// `s` with every regex meta character preceded by a backslash.
pub open spec fn regex_escaped(s: Seq<char>) -> Seq<char>
    decreases s.len(),
{
    if s.len() == 0 {
        Seq::empty()
    } else {
        let prev = regex_escaped(s.drop_last());
        if regex_meta_character(s.last()) {
            prev.push('\\').push(s.last())
        } else {
            prev.push(s.last())
        }
    }
}

/// Calls `regex::escape`, which (through `regex_syntax::escape_into`) copies
/// each character and puts a backslash before each regex meta character.
#[verifier::external_body]
fn escape_regex(s: &str) -> (r: String)
    ensures
        r@ == regex_escaped(s@),
{
    regex::escape(s)
}

/// What replacing every match of the regex `pattern` in `haystack` by the
/// literal `replacement` gives, or `None` when `pattern` does not compile.
pub uninterp spec fn regex_replace_all_literal(
    pattern: Seq<char>,
    haystack: Seq<char>,
    replacement: Seq<char>,
) -> Option<Seq<char>>;

/// Compiles `pattern` with `regex::Regex::new` and, when that succeeds, calls
/// `Regex::replace_all` with the replacement wrapped in `regex::NoExpand`, so
/// it is inserted literally. The result is named `regex_replace_all_literal`;
/// which text matches is left to the regex crate and not stated here.
#[verifier::external_body]
fn replace_all_literal(pattern: &str, haystack: &str, replacement: &str) -> (r: Option<String>)
    ensures
        match r {
            Some(out) => regex_replace_all_literal(pattern@, haystack@, replacement@) == Some(out@),
            None => regex_replace_all_literal(pattern@, haystack@, replacement@) is None,
        },
{
    match regex::Regex::new(pattern) {
        Ok(re) => Some(re.replace_all(haystack, regex::NoExpand(replacement)).into_owned()),
        Err(_) => None,
    }
}

/// Whether a rule takes part in rewriting: it is enabled and its pattern is not empty.
pub open spec fn rule_applies(c: Correction) -> bool {
    c.enabled && c.original_text@.len() > 0
}

/// The case-insensitive regex for a rule's `original_text`: the text escaped,
/// with a `\b` word boundary at each end that is a word character.
pub open spec fn rule_pattern(original: Seq<char>) -> Seq<char> {
    let boundary = seq!['\\', 'b'];
    let starts_word = original.len() > 0 && is_word_char(original[0]);
    let ends_word = original.len() > 0 && is_word_char(original.last());
    seq!['(', '?', 'i', ')'] + (if starts_word {
        boundary
    } else {
        Seq::empty()
    }) + regex_escaped(original) + (if ends_word {
        boundary
    } else {
        Seq::empty()
    })
}

/// `text` after one rule: every match of its pattern replaced by its
/// `corrected_text`; unchanged when the pattern does not compile.
pub open spec fn apply_rule(text: Seq<char>, c: Correction) -> Seq<char> {
    match regex_replace_all_literal(rule_pattern(c.original_text@), text, c.corrected_text@) {
        Some(t) => t,
        None => text,
    }
}

/// `text` after each applying rule in order, each seeing the output of the previous ones.
pub open spec fn spec_apply_corrections(text: Seq<char>, rules: Seq<Correction>) -> Seq<char>
    decreases rules.len(),
{
    if rules.len() == 0 {
        text
    } else {
        let prev = spec_apply_corrections(text, rules.drop_last());
        if rule_applies(rules.last()) {
            apply_rule(prev, rules.last())
        } else {
            prev
        }
    }
}

/// The regex pattern for one rule.
fn build_rule_pattern(original: &str) -> (p: String)
    ensures
        p@ == rule_pattern(original@),
{
    let cs = chars_of(original);
    let starts_word = cs.len() > 0 && (is_alphanumeric(cs[0]) || cs[0] == '_');
    let ends_word = cs.len() > 0 && (is_alphanumeric(cs[cs.len() - 1]) || cs[cs.len() - 1] == '_');
    let mut p = String::new();
    crate::text::push_char(&mut p, '(');
    crate::text::push_char(&mut p, '?');
    crate::text::push_char(&mut p, 'i');
    crate::text::push_char(&mut p, ')');
    if starts_word {
        crate::text::push_char(&mut p, '\\');
        crate::text::push_char(&mut p, 'b');
    }
    let escaped = escape_regex(original);
    p.append(escaped.as_str());
    if ends_word {
        crate::text::push_char(&mut p, '\\');
        crate::text::push_char(&mut p, 'b');
    }
    assert(p@ =~= rule_pattern(original@));
    p
}

/// Applies the enabled, non-empty rules to `text` in the order given.
/// Matching is case-insensitive, word boundaries are required at the ends of
/// a pattern that are word characters, and replacements are literal.
pub fn apply_corrections(text: &str, corrections: &[Correction]) -> (out: String)
    ensures
        out@ == spec_apply_corrections(text@, corrections@),
{
    let mut result = String::from_str(text);
    let mut k: usize = 0;
    while k < corrections.len()
        invariant
            k <= corrections.len(),
            result@ == spec_apply_corrections(text@, corrections@.take(k as int)),
        decreases corrections.len() - k,
    {
        let c = &corrections[k];
        assert(corrections@.take(k + 1).drop_last() =~= corrections@.take(k as int));
        assert(corrections@.take(k + 1).last() == corrections@[k as int]);
        if c.enabled && !c.original_text.as_str().is_empty() {
            let pattern = build_rule_pattern(c.original_text.as_str());
            match replace_all_literal(pattern.as_str(), result.as_str(), c.corrected_text.as_str()) {
                Some(replaced) => {
                    result = replaced;
                },
                None => {},
            }
        }
        k = k + 1;
    }
    assert(corrections@.take(corrections.len() as int) =~= corrections@);
    result
}

/// Applying a list of rules is applying its first part and then its second
/// part to the result: later rules see the output of earlier ones.
pub proof fn lemma_apply_corrections_in_sequence(text: Seq<char>, first: Seq<Correction>, second: Seq<Correction>)
    ensures
        spec_apply_corrections(text, first + second) == spec_apply_corrections(
            spec_apply_corrections(text, first),
            second,
        ),
    decreases second.len(),
{
    if second.len() == 0 {
        assert(first + second =~= first);
    } else {
        lemma_apply_corrections_in_sequence(text, first, second.drop_last());
        assert((first + second).drop_last() =~= first + second.drop_last());
        assert((first + second).last() == second.last());
    }
}

/// Disabled rules and rules with an empty pattern change nothing: applying a
/// list is applying just its enabled, non-empty rules.
pub proof fn lemma_apply_corrections_skips_inactive(text: Seq<char>, rules: Seq<Correction>)
    ensures
        spec_apply_corrections(text, rules) == spec_apply_corrections(
            text,
            rules.filter(|c: Correction| rule_applies(c)),
        ),
    decreases rules.len(),
{
    reveal(Seq::filter);
    if rules.len() > 0 {
        lemma_apply_corrections_skips_inactive(text, rules.drop_last());
        let f = rules.filter(|c: Correction| rule_applies(c));
        let g = rules.drop_last().filter(|c: Correction| rule_applies(c));
        if rule_applies(rules.last()) {
            assert(f == g.push(rules.last()));
            assert(f.drop_last() =~= g);
        } else {
            assert(f == g);
        }
    }
}

/// With no rules the text comes back unchanged.
pub proof fn lemma_apply_no_corrections(text: Seq<char>)
    ensures
        spec_apply_corrections(text, Seq::empty()) == text,
{
}

/// When an edit narrows to a span, the words of each trimmed text are the
/// shared word prefix, that text's own middle, and the shared word suffix; the
/// prefix is as long as possible, and so is the suffix after it.
#[verifier::spinoff_prover]
#[verifier::rlimit(50)]
pub proof fn lemma_correction_pair_is_minimal_span(original: Seq<char>, corrected: Seq<char>)
    ensures
        ({
            let ow = words(trimmed(original));
            let cw = words(trimmed(corrected));
            let p = common_prefix_len(ow, cw) as int;
            let s = common_suffix_len(ow.skip(p), cw.skip(p)) as int;
            &&& p + s <= ow.len()
            &&& p + s <= cw.len()
            &&& ow.take(p) == cw.take(p)
            &&& ow.skip(ow.len() - s) == cw.skip(cw.len() - s)
            &&& ow == ow.take(p) + ow.subrange(p, ow.len() - s) + ow.skip(ow.len() - s)
            &&& cw == cw.take(p) + cw.subrange(p, cw.len() - s) + cw.skip(cw.len() - s)
            &&& (p < ow.len() && p < cw.len() ==> ow[p] != cw[p])
            &&& (p + s < ow.len() && p + s < cw.len() ==> ow[ow.len() - s - 1] != cw[cw.len() - s - 1])
        }),
{
    let ow = words(trimmed(original));
    let cw = words(trimmed(corrected));
    lemma_prefix_facts(ow, cw);
    let p = common_prefix_len(ow, cw) as int;
    lemma_suffix_facts(ow.skip(p), cw.skip(p));
    let s = common_suffix_len(ow.skip(p), cw.skip(p)) as int;
    assert(ow.skip(p).skip(ow.skip(p).len() - s) =~= ow.skip(ow.len() - s));
    assert(cw.skip(p).skip(cw.skip(p).len() - s) =~= cw.skip(cw.len() - s));
    assert(ow =~= ow.take(p) + ow.subrange(p, ow.len() - s) + ow.skip(ow.len() - s));
    assert(cw =~= cw.take(p) + cw.subrange(p, cw.len() - s) + cw.skip(cw.len() - s));
    if p + s < ow.len() && p + s < cw.len() {
        assert(ow.skip(p).take(ow.skip(p).len() - s).last() == ow[ow.len() - s - 1]);
        assert(cw.skip(p).take(cw.skip(p).len() - s).last() == cw[cw.len() - s - 1]);
    }
}

proof fn lemma_prefix_facts(x: Seq<Seq<char>>, y: Seq<Seq<char>>)
    ensures
        common_prefix_len(x, y) <= x.len(),
        common_prefix_len(x, y) <= y.len(),
        x.take(common_prefix_len(x, y) as int) == y.take(common_prefix_len(x, y) as int),
        common_prefix_len(x, y) < x.len() && common_prefix_len(x, y) < y.len() ==> x[common_prefix_len(x, y) as int] != y[common_prefix_len(x, y) as int],
    decreases x.len(),
{
    if !(x.len() == 0 || y.len() == 0 || x[0] != y[0]) {
        lemma_prefix_facts(x.drop_first(), y.drop_first());
        let p = common_prefix_len(x, y) as int;
        assert(x.take(p) =~= seq![x[0]] + x.drop_first().take(p - 1));
        assert(y.take(p) =~= seq![y[0]] + y.drop_first().take(p - 1));
    } else {
        assert(x.take(0) =~= y.take(0));
    }
}

proof fn lemma_suffix_facts(x: Seq<Seq<char>>, y: Seq<Seq<char>>)
    ensures
        common_suffix_len(x, y) <= x.len(),
        common_suffix_len(x, y) <= y.len(),
        x.skip(x.len() - common_suffix_len(x, y)) == y.skip(y.len() - common_suffix_len(x, y)),
        common_suffix_len(x, y) < x.len() && common_suffix_len(x, y) < y.len() ==> x[x.len() - common_suffix_len(x, y) - 1] != y[y.len() - common_suffix_len(x, y) - 1],
    decreases x.len(),
{
    if !(x.len() == 0 || y.len() == 0 || x.last() != y.last()) {
        lemma_suffix_facts(x.drop_last(), y.drop_last());
        let s = common_suffix_len(x, y) as int;
        assert(x.skip(x.len() - s) =~= x.drop_last().skip(x.len() - s) + seq![x.last()]);
        assert(y.skip(y.len() - s) =~= y.drop_last().skip(y.len() - s) + seq![y.last()]);
    } else {
        assert(x.skip(x.len() as int) =~= y.skip(y.len() as int));
    }
}

/// One transcription in the history.
#[derive(Clone, Debug)]
pub struct HistoryEntry {
    pub id: i64,
    pub file_name: String,
    pub timestamp: i64,
    pub saved: bool,
    pub title: String,
    pub transcription_text: String,
    pub post_processed_text: Option<String>,
    pub post_process_prompt: Option<String>,
    pub post_process_requested: bool,
}

/// One page of history entries, newest first.
#[derive(Clone, Debug)]
pub struct PaginatedHistory {
    pub entries: Vec<HistoryEntry>,
    pub has_more: bool,
}

/// A change to the history that the frontend is told about.
#[derive(Clone, Debug)]
pub enum HistoryUpdatePayload {
    Added { entry: HistoryEntry },
    Updated { entry: HistoryEntry },
    Deleted { id: i64 },
    Toggled { id: i64 },
}

/// The largest page of history entries served at once.
pub const MAX_PAGE_SIZE: usize = 100;

/// The page size actually used for a requested `limit`: capped at `MAX_PAGE_SIZE`.
pub fn page_limit(limit: Option<usize>) -> (r: Option<usize>)
    ensures
        r == (match limit {
            Some(l) => Some(if l <= MAX_PAGE_SIZE { l } else { MAX_PAGE_SIZE }),
            None => None,
        }),
{
    match limit {
        Some(l) => Some(if l <= MAX_PAGE_SIZE { l } else { MAX_PAGE_SIZE }),
        None => None,
    }
}

/// Turns the rows fetched for a page (one more than `limit` asked for) into
/// the page: when more rows came than `limit`, there is more, and the extra
/// last row is dropped.
pub fn paginate(entries: Vec<HistoryEntry>, limit: Option<usize>) -> (page: PaginatedHistory)
    ensures
        page.has_more == (match limit {
            Some(l) => entries@.len() > l,
            None => false,
        }),
        page.entries@ == if page.has_more {
            entries@.drop_last()
        } else {
            entries@
        },
{
    let mut entries = entries;
    let has_more = match limit {
        Some(l) => entries.len() > l,
        None => false,
    };
    if has_more {
        entries.pop();
    }
    PaginatedHistory { entries, has_more }
}

/// Why a new correction rule is refused, if it is: given the trimmed texts.
pub open spec fn spec_correction_error(original: Seq<char>, corrected: Seq<char>, kind: Seq<char>) -> Option<Seq<char>> {
    if original.len() == 0 {
        Some("Original text must not be empty"@)
    } else if original == corrected {
        Some("Original and corrected text must differ"@)
    } else if kind != "correction"@ && kind != "reference"@ {
        Some("Unknown correction kind: "@ + kind)
    } else {
        None
    }
}

/// Checks and normalizes a user-authored rule before it is stored: both
/// texts trimmed, the kind defaulting to `"correction"`. Returns the trimmed
/// texts and the kind, or the reason for refusing them.
pub fn prepare_correction(original_text: &str, corrected_text: &str, kind: Option<String>) -> (r: Result<(String, String, String), String>)
    ensures
        ({
            let o = trimmed(original_text@);
            let c = trimmed(corrected_text@);
            let k = match kind {
                Some(k) => k@,
                None => "correction"@,
            };
            match r {
                Ok((ro, rc, rk)) => spec_correction_error(o, c, k) is None && ro@ == o && rc@ == c && rk@ == k,
                Err(e) => spec_correction_error(o, c, k) == Some(e@),
            }
        }),
{
    let original = trim(original_text);
    let corrected = trim(corrected_text);
    let kind = match kind {
        Some(k) => k,
        None => String::from_str("correction"),
    };
    if original.as_str().is_empty() {
        return Err(String::from_str("Original text must not be empty"));
    }
    if original == corrected {
        return Err(String::from_str("Original and corrected text must differ"));
    }
    if !crate::capture::str_equal(kind.as_str(), "correction") && !crate::capture::str_equal(kind.as_str(), "reference") {
        let mut msg = String::from_str("Unknown correction kind: ");
        msg.append(kind.as_str());
        return Err(msg);
    }
    Ok((original, corrected, kind))
}

/// Which column of a history entry holds the text the user edits.
#[derive(Clone, Copy, Debug, PartialEq, Eq, Structural)]
pub enum TextColumn {
    TranscriptionText,
    PostProcessedText,
}

/// What editing an entry's text amounts to.
#[derive(Debug)]
pub enum EntryTextUpdate {
    /// The new text is what the entry already says.
    Unchanged,
    /// Write the new text to `column`, and store `correction` as a rule when there is one.
    Write { column: TextColumn, correction: Option<(String, String)> },
}

/// The text an entry currently means: the post-processed text when set, else the transcription.
pub open spec fn effective_text(transcription_text: Seq<char>, post_processed_text: Option<Seq<char>>) -> Seq<char> {
    match post_processed_text {
        Some(p) => p,
        None => transcription_text,
    }
}

/// Decides how to apply an edit of an entry's effective text to `new_text`:
/// nothing when unchanged; otherwise write to the post-processed column when
/// the entry has or requested post-processing, else to the transcription,
/// and derive a correction rule from the prior text and the new one.
pub fn plan_entry_text_update(
    transcription_text: &str,
    post_processed_text: &Option<String>,
    post_process_requested: bool,
    new_text: &str,
) -> (u: EntryTextUpdate)
    ensures
        ({
            let prior = effective_text(transcription_text@, crate::capture::opt_view(*post_processed_text));
            match u {
                EntryTextUpdate::Unchanged => prior == new_text@,
                EntryTextUpdate::Write { column, correction } => {
                    &&& prior != new_text@
                    &&& column == (if post_processed_text is Some || post_process_requested {
                        TextColumn::PostProcessedText
                    } else {
                        TextColumn::TranscriptionText
                    })
                    &&& pair_view(correction) == spec_extract_correction_pair(prior, new_text@)
                },
            }
        }),
{
    let prior: &str = match post_processed_text {
        Some(p) => p.as_str(),
        None => transcription_text,
    };
    if crate::capture::str_equal(prior, new_text) {
        return EntryTextUpdate::Unchanged;
    }
    let column = if post_processed_text.is_some() || post_process_requested {
        TextColumn::PostProcessedText
    } else {
        TextColumn::TranscriptionText
    };
    EntryTextUpdate::Write { column, correction: extract_correction_pair(prior, new_text) }
}

/// How long unsaved recordings are kept.
#[derive(Clone, Copy, Debug, PartialEq, Eq, Structural)]
pub enum RecordingRetentionPeriod {
    Never,
    PreserveLimit,
    Days3,
    Weeks2,
    Months3,
}

/// How old-entry cleanup proceeds for a retention setting.
#[derive(Clone, Copy, Debug, PartialEq, Eq, Structural)]
pub enum CleanupPlan {
    /// Delete nothing.
    KeepAll,
    /// Keep only the newest `history_limit` unsaved entries.
    ByCount,
    /// Delete unsaved entries older than the cutoff timestamp.
    OlderThan(i64),
}

/// The age in seconds beyond which entries go, for a time-based period.
pub open spec fn retention_seconds(period: RecordingRetentionPeriod) -> int {
    match period {
        RecordingRetentionPeriod::Days3 => 3 * 24 * 60 * 60int,
        RecordingRetentionPeriod::Weeks2 => 2 * 7 * 24 * 60 * 60int,
        RecordingRetentionPeriod::Months3 => 3 * 30 * 24 * 60 * 60int,
        _ => 0int,
    }
}

/// The cleanup for `period` at time `now` (seconds since the epoch).
pub fn cleanup_plan(period: RecordingRetentionPeriod, now: i64) -> (p: CleanupPlan)
    requires
        now >= i64::MIN + 3 * 30 * 24 * 60 * 60,
    ensures
        p == (match period {
            RecordingRetentionPeriod::Never => CleanupPlan::KeepAll,
            RecordingRetentionPeriod::PreserveLimit => CleanupPlan::ByCount,
            _ => CleanupPlan::OlderThan((now - retention_seconds(period)) as i64),
        }),
{
    match period {
        RecordingRetentionPeriod::Never => CleanupPlan::KeepAll,
        RecordingRetentionPeriod::PreserveLimit => CleanupPlan::ByCount,
        RecordingRetentionPeriod::Days3 => CleanupPlan::OlderThan(now - 3 * 24 * 60 * 60),
        RecordingRetentionPeriod::Weeks2 => CleanupPlan::OlderThan(now - 2 * 7 * 24 * 60 * 60),
        RecordingRetentionPeriod::Months3 => CleanupPlan::OlderThan(now - 3 * 30 * 24 * 60 * 60),
    }
}

/// The unsaved entries (newest first) that fall beyond the newest `limit`.
pub fn entries_beyond_limit(entries: Vec<(i64, String)>, limit: usize) -> (r: Vec<(i64, String)>)
    ensures
        r@ == if entries@.len() > limit {
            entries@.skip(limit as int)
        } else {
            Seq::empty()
        },
{
    let mut r: Vec<(i64, String)> = Vec::new();
    if entries.len() > limit {
        let mut entries = entries;
        let ghost all = entries@;
        let mut k = entries.len();
        let mut tail: Vec<(i64, String)> = Vec::new();
        while k > limit
            invariant
                limit <= k <= all.len(),
                entries@ == all.take(k as int),
                tail@ == all.subrange(k as int, all.len() as int).reverse(),
            decreases k,
        {
            let e = entries.pop().unwrap();
            let ghost prev = tail@;
            tail.push(e);
            k = k - 1;
            assert(entries@ =~= all.take(k as int));
            assert(tail@ =~= all.subrange(k as int, all.len() as int).reverse());
        }
        while tail.len() > 0
            invariant
                r@ + tail@.reverse() == all.skip(limit as int),
            decreases tail.len(),
        {
            let ghost prev_t = tail@;
            let e = tail.pop().unwrap();
            r.push(e);
            assert(prev_t.reverse() =~= seq![e] + tail@.reverse());
        }
        assert(tail@.reverse() =~= Seq::<(i64, String)>::empty());
        assert(r@ =~= all.skip(limit as int));
    }
    r
}

/// A correction rule from the columns of its stored row: a non-zero `enabled`
/// column means enabled, and a missing `kind` means `"correction"`.
pub fn correction_from_row(
    id: i64,
    original_text: String,
    corrected_text: String,
    history_id: Option<i64>,
    created_at: i64,
    enabled: i64,
    kind: Option<String>,
) -> (c: Correction)
    ensures
        c.id == id,
        c.original_text == original_text,
        c.corrected_text == corrected_text,
        c.history_id == history_id,
        c.created_at == created_at,
        c.enabled == (enabled != 0),
        c.kind@ == (match kind {
            Some(k) => k@,
            None => "correction"@,
        }),
{
    let kind = match kind {
        Some(k) => k,
        None => String::from_str("correction"),
    };
    Correction { id, original_text, corrected_text, history_id, created_at, enabled: enabled != 0, kind }
}

/// The schema version to record when a database still carries the legacy
/// migration table: the highest version it applied, when the database has no
/// version of its own yet and the legacy table applied some.
pub fn legacy_schema_version(has_legacy_table: bool, current_version: i32, legacy_version: i32) -> (v: Option<i32>)
    ensures
        v == (if has_legacy_table && current_version <= 0 && legacy_version > 0 {
            Some(legacy_version)
        } else {
            None
        }),
{
    if !has_legacy_table {
        return None;
    }
    if current_version > 0 {
        return None;
    }
    if legacy_version > 0 {
        Some(legacy_version)
    } else {
        None
    }
}

/// Whether a stored rule is in force: enabled, and not a pending candidate
/// still waiting for the user's approval.
pub open spec fn is_active_rule(c: Correction) -> bool {
    c.enabled && c.kind@ != "pending_auto"@
}

/// The rules in force among `rows`, in their order.
pub open spec fn active_rules(rows: Seq<Correction>) -> Seq<Correction> {
    rows.filter(|c: Correction| is_active_rule(c))
}

/// The rules in force among the stored ones, in their order: pending
/// candidates never rewrite a transcription.
pub fn active_corrections(rows: Vec<Correction>) -> (active: Vec<Correction>)
    ensures
        active@ == active_rules(rows@),
{
    let mut active: Vec<Correction> = Vec::new();
    let mut rows = rows;
    let ghost all = rows@;
    let mut rev: Vec<Correction> = Vec::new();
    while rows.len() > 0
        invariant
            all == rows@ + rev@.reverse(),
        decreases rows.len(),
    {
        let ghost prev_rows = rows@;
        let ghost prev_rev = rev@;
        let c = rows.pop().unwrap();
        rev.push(c);
        assert(rev@.reverse() =~= seq![rev@.last()] + prev_rev.reverse());
        assert(prev_rows =~= rows@.push(rev@.last()));
    }
    assert(rev@.reverse() =~= all);
    let ghost taken: Seq<Correction> = Seq::empty();
    while rev.len() > 0
        invariant
            all == taken + rev@.reverse(),
            active@ == taken.filter(|c: Correction| is_active_rule(c)),
        decreases rev.len(),
    {
        let c = rev.pop().unwrap();
        proof {
            reveal(Seq::filter);
            assert((taken.push(c)).drop_last() =~= taken);
        }
        let keep = c.enabled && !crate::capture::str_equal(c.kind.as_str(), "pending_auto");
        proof {
            taken = taken.push(c);
        }
        if keep {
            active.push(c);
        }
        assert(all =~= taken + rev@.reverse());
    }
    assert(taken =~= all);
    active
}

/// Pending candidates never apply: every rule in force is enabled and is not
/// a pending candidate.
pub proof fn lemma_pending_rules_never_apply(rows: Seq<Correction>)
    ensures
        forall|k: int| 0 <= k < active_rules(rows).len() ==> {
            &&& (#[trigger] active_rules(rows)[k]).kind@ != "pending_auto"@
            &&& active_rules(rows)[k].enabled
        },
{
    assert forall|k: int| 0 <= k < active_rules(rows).len() implies {
        &&& (#[trigger] active_rules(rows)[k]).kind@ != "pending_auto"@
        &&& active_rules(rows)[k].enabled
    } by {
        rows.lemma_filter_pred(|c: Correction| is_active_rule(c), k);
    }
}

/// No edit is lost: whenever the trimmed texts differ and neither is empty,
/// the edit yields a rule, and no rule comes from an unchanged text.
pub proof fn lemma_every_edit_yields_a_rule(original: Seq<char>, corrected: Seq<char>)
    ensures
        spec_extract_correction_pair(original, corrected) is Some <==> (trimmed(original) != trimmed(corrected)
            && trimmed(original).len() > 0 && trimmed(corrected).len() > 0),
{
}

/// A rule's pattern is case-insensitive, and it has a `\b` word boundary at an
/// end exactly where its text has a word character there: a rule whose text
/// starts (ends) with a word character matches no occurrence directly preceded
/// (followed) by one; otherwise the escaped text itself opens (closes) the
/// pattern.
pub proof fn lemma_rule_pattern_boundaries(original: Seq<char>)
    requires
        original.len() > 0,
    ensures
        ({
            let p = rule_pattern(original);
            let e = regex_escaped(original);
            &&& p.len() >= 4 + e.len()
            &&& p.subrange(0, 4) == seq!['(', '?', 'i', ')']
            &&& is_word_char(original[0]) ==> p.len() >= 6 && p.subrange(4, 6) == seq!['\\', 'b']
                && p.subrange(6, 6 + e.len() as int) == e
            &&& !is_word_char(original[0]) ==> p.subrange(4, 4 + e.len() as int) == e
            &&& is_word_char(original.last()) ==> p.subrange(p.len() - 2, p.len() as int) == seq!['\\', 'b']
                && p.subrange(p.len() - 2 - e.len(), p.len() - 2) == e
            &&& !is_word_char(original.last()) ==> p.subrange(p.len() - e.len(), p.len() as int) == e
        }),
{
    let p = rule_pattern(original);
    let e = regex_escaped(original);
    let b = seq!['\\', 'b'];
    let head: Seq<char> = seq!['(', '?', 'i', ')'];
    let pre: Seq<char> = if is_word_char(original[0]) { b } else { Seq::empty() };
    let post: Seq<char> = if is_word_char(original.last()) { b } else { Seq::empty() };
    assert(p == head + pre + e + post);
    assert(p.subrange(0, 4) =~= head);
    assert(p.subrange(4 + pre.len() as int, 4 + pre.len() as int + e.len() as int) =~= e);
    assert(p.subrange(p.len() - post.len(), p.len() as int) =~= post);
    if is_word_char(original[0]) {
        assert(p.subrange(4, 6) =~= b);
    }
    if is_word_char(original.last()) {
        assert(p.subrange(p.len() - 2 - e.len(), p.len() - 2) =~= e);
    }
}

/// The rule an edit yields rebuilds both texts: there is none exactly when
/// the trimmed texts agree or one is empty; when the edit narrows to a span,
/// each trimmed text's words are the shared word prefix, the words of that
/// side of the rule, and the shared word suffix (so rewriting the span turns
/// the original's words into the corrected's); otherwise the rule is the two
/// whole trimmed texts.
#[verifier::spinoff_prover]
pub proof fn lemma_correction_pair_rebuilds_texts(original: Seq<char>, corrected: Seq<char>)
    ensures
        ({
            let o = trimmed(original);
            let c = trimmed(corrected);
            let ow = words(o);
            let cw = words(c);
            let p = common_prefix_len(ow, cw) as int;
            let s = common_suffix_len(ow.skip(p), cw.skip(p)) as int;
            match spec_extract_correction_pair(original, corrected) {
                None => o == c || o.len() == 0 || c.len() == 0,
                Some((x, y)) => {
                    &&& o != c && o.len() > 0 && c.len() > 0
                    &&& if p + s < ow.len() && p + s < cw.len() {
                        &&& words(x).len() > 0
                        &&& words(y).len() > 0
                        &&& ow == ow.take(p) + words(x) + ow.skip(ow.len() - s)
                        &&& cw == cw.take(p) + words(y) + cw.skip(cw.len() - s)
                        &&& ow.take(p) == cw.take(p)
                        &&& ow.skip(ow.len() - s) == cw.skip(cw.len() - s)
                    } else {
                        x == o && y == c
                    }
                },
            }
        }),
{
    let o = trimmed(original);
    let c = trimmed(corrected);
    let ow = words(o);
    let cw = words(c);
    lemma_correction_pair_is_minimal_span(original, corrected);
    let p = common_prefix_len(ow, cw) as int;
    let s = common_suffix_len(ow.skip(p), cw.skip(p)) as int;
    if !(o == c || o.len() == 0 || c.len() == 0) && p + s < ow.len() && p + s < cw.len() {
        let om = ow.subrange(p, ow.len() - s);
        let cm = cw.subrange(p, cw.len() - s);
        crate::text::lemma_words_are_words(o);
        crate::text::lemma_words_are_words(c);
        assert forall|k: int| 0 <= k < om.len() implies crate::text::is_word(#[trigger] om[k]) by {
            assert(om[k] == ow[p + k]);
        }
        assert forall|k: int| 0 <= k < cm.len() implies crate::text::is_word(#[trigger] cm[k]) by {
            assert(cm[k] == cw[p + k]);
        }
        crate::text::lemma_words_of_joined(om);
        crate::text::lemma_words_of_joined(cm);
    }
}

} // verus!
