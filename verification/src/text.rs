use vstd::prelude::*;

verus! {

/// Whether `c` carries the Unicode `White_Space` property (PropList.txt):
/// U+0009 to U+000D, U+0020, U+0085, U+00A0, U+1680, U+2000 to U+200A,
/// U+2028, U+2029, U+202F, U+205F and U+3000.
pub open spec fn unicode_whitespace(c: char) -> bool {
    let u = c as u32;
    ||| 0x9 <= u <= 0xD
    ||| u == 0x20
    ||| u == 0x85
    ||| u == 0xA0
    ||| u == 0x1680
    ||| 0x2000 <= u <= 0x200A
    ||| u == 0x2028
    ||| u == 0x2029
    ||| u == 0x202F
    ||| u == 0x205F
    ||| u == 0x3000
}

/// Calls `char::is_whitespace`, which its documentation describes as the
/// Unicode `White_Space` property.
#[verifier::external_body]
pub(crate) fn is_whitespace(c: char) -> (r: bool)
    ensures
        r == unicode_whitespace(c),
{
    c.is_whitespace()
}

/// Calls `String::push`: appends one character.
#[verifier::external_body]
pub(crate) fn push_char(s: &mut String, c: char)
    ensures
        final(s)@ == old(s)@.push(c),
{
    s.push(c);
}

/// The maximal runs of non-whitespace characters of `s`, in order
/// (what `str::split_whitespace` yields).
pub open spec fn words(s: Seq<char>) -> Seq<Seq<char>>
    decreases s.len(),
{
    if s.len() == 0 {
        Seq::empty()
    } else {
        let prev = words(s.drop_last());
        let c = s.last();
        if unicode_whitespace(c) {
            prev
        } else if s.len() >= 2 && !unicode_whitespace(s[s.len() - 2]) {
            prev.update(prev.len() - 1, prev.last().push(c))
        } else {
            prev.push(seq![c])
        }
    }
}

/// `s` with leading and trailing whitespace removed (what `str::trim` yields).
pub open spec fn trimmed(s: Seq<char>) -> Seq<char>
    decreases s.len(),
{
    if s.len() == 0 {
        s
    } else if unicode_whitespace(s[0]) {
        trimmed(s.drop_first())
    } else if unicode_whitespace(s.last()) {
        trimmed(s.drop_last())
    } else {
        s
    }
}

/// The pieces of `parts` joined with `sep` between neighbours.
pub open spec fn joined(parts: Seq<Seq<char>>, sep: Seq<char>) -> Seq<char>
    decreases parts.len(),
{
    if parts.len() == 0 {
        Seq::empty()
    } else if parts.len() == 1 {
        parts[0]
    } else {
        joined(parts.drop_last(), sep) + sep + parts.last()
    }
}

/// The views of a vector of strings.
pub open spec fn views(v: Seq<String>) -> Seq<Seq<char>> {
    v.map_values(|s: String| s@)
}

proof fn lemma_words_last_nonempty(s: Seq<char>)
    requires
        s.len() >= 1,
        !unicode_whitespace(s.last()),
    ensures
        words(s).len() >= 1,
    decreases s.len(),
{
    if s.len() >= 2 && !unicode_whitespace(s[s.len() - 2]) {
        assert(s.drop_last().last() == s[s.len() - 2]);
        lemma_words_last_nonempty(s.drop_last());
    }
}

/// Every word is non-empty and holds no whitespace.
pub proof fn lemma_words_well_formed(s: Seq<char>)
    ensures
        forall|k: int| 0 <= k < words(s).len() ==> #[trigger] words(s)[k].len() > 0,
        forall|k: int, m: int|
            0 <= k < words(s).len() && 0 <= m < words(s)[k].len() ==> !unicode_whitespace(
                #[trigger] words(s)[k][m],
            ),
    decreases s.len(),
{
    if s.len() > 0 {
        lemma_words_well_formed(s.drop_last());
        let prev = words(s.drop_last());
        let c = s.last();
        if !unicode_whitespace(c) && s.len() >= 2 && !unicode_whitespace(s[s.len() - 2]) {
            assert(s.drop_last().last() == s[s.len() - 2]);
            lemma_words_last_nonempty(s.drop_last());
        }
    }
}

/// Whether `w` is one word: non-empty and free of whitespace.
pub open spec fn is_word(w: Seq<char>) -> bool {
    w.len() > 0 && forall|m: int| 0 <= m < w.len() ==> !unicode_whitespace(#[trigger] w[m])
}

/// Splitting two texts joined by a space gives the words of the first, then
/// those of the second.
pub proof fn lemma_words_space_concat(x: Seq<char>, y: Seq<char>)
    ensures
        words(x + seq![' '] + y) == words(x) + words(y),
    decreases y.len(),
{
    let s = x + seq![' '] + y;
    if y.len() == 0 {
        assert(s.drop_last() =~= x);
        assert(words(x) + words(y) =~= words(x));
    } else {
        let y0 = y.drop_last();
        lemma_words_space_concat(x, y0);
        assert(s.drop_last() =~= x + seq![' '] + y0);
        let c = y.last();
        assert(s.last() == c);
        let wx = words(x);
        let w0 = words(y0);
        if unicode_whitespace(c) {
        } else if y0.len() > 0 && !unicode_whitespace(y0.last()) {
            assert(s[s.len() - 2] == y0.last());
            assert(y[y.len() - 2] == y0.last());
            lemma_words_last_nonempty(y0);
            assert((wx + w0).update((wx + w0).len() - 1, (wx + w0).last().push(c)) =~= wx + w0.update(
                w0.len() - 1,
                w0.last().push(c),
            ));
        } else {
            if y0.len() == 0 {
                assert(s[s.len() - 2] == ' ');
            } else {
                assert(s[s.len() - 2] == y0.last());
                assert(y[y.len() - 2] == y0.last());
            }
            assert((wx + w0).push(seq![c]) =~= wx + w0.push(seq![c]));
        }
    }
}

/// A single word splits into itself.
pub proof fn lemma_words_of_word(w: Seq<char>)
    requires
        is_word(w),
    ensures
        words(w) == seq![w],
    decreases w.len(),
{
    assert(!unicode_whitespace(w[w.len() - 1]));
    if w.len() == 1 {
        assert(w.drop_last() =~= Seq::<char>::empty());
        assert(words(w.drop_last()) == Seq::<Seq<char>>::empty());
        assert(seq![w.last()] =~= w);
        assert(Seq::<Seq<char>>::empty().push(seq![w.last()]) =~= seq![w]);
    } else {
        let w0 = w.drop_last();
        assert(is_word(w0)) by {
            assert forall|m: int| 0 <= m < w0.len() implies !unicode_whitespace(#[trigger] w0[m]) by {
                assert(w0[m] == w[m]);
            }
        }
        lemma_words_of_word(w0);
        assert(w[w.len() - 2] == w0.last());
        assert(!unicode_whitespace(w[w.len() - 1]));
        assert(w0.push(w.last()) =~= w);
        assert(seq![w0].update(0, w0.push(w.last())) =~= seq![w]);
    }
}

/// Words joined with single spaces split back into those words.
pub proof fn lemma_words_of_joined(ws: Seq<Seq<char>>)
    requires
        forall|k: int| 0 <= k < ws.len() ==> is_word(#[trigger] ws[k]),
    ensures
        words(joined(ws, seq![' '])) == ws,
    decreases ws.len(),
{
    if ws.len() == 0 {
    } else if ws.len() == 1 {
        lemma_words_of_word(ws[0]);
        assert(seq![ws[0]] =~= ws);
    } else {
        let w0 = ws.drop_last();
        assert forall|k: int| 0 <= k < w0.len() implies is_word(#[trigger] w0[k]) by {
            assert(w0[k] == ws[k]);
        }
        lemma_words_of_joined(w0);
        assert(is_word(ws[ws.len() - 1]));
        lemma_words_of_word(ws.last());
        lemma_words_space_concat(joined(w0, seq![' ']), ws.last());
        assert(w0 + seq![ws.last()] =~= ws);
    }
}

/// The words of a text are words.
pub proof fn lemma_words_are_words(s: Seq<char>)
    ensures
        forall|k: int| 0 <= k < words(s).len() ==> is_word(#[trigger] words(s)[k]),
{
    lemma_words_well_formed(s);
    assert forall|k: int| 0 <= k < words(s).len() implies is_word(#[trigger] words(s)[k]) by {
        assert forall|m: int| 0 <= m < words(s)[k].len() implies !unicode_whitespace(#[trigger] words(s)[k][m]) by {
        }
    }
}

/// The characters of `s`, in order.
pub fn chars_of(s: &str) -> (v: Vec<char>)
    ensures
        v@ == s@,
{
    let mut v: Vec<char> = Vec::new();
    for c in it: s.chars()
        invariant
            v@ == it.seq().take(it.index()),
    {
        v.push(c);
    }
    v
}

/// Splits `s` into its whitespace-separated words.
pub fn split_words(s: &str) -> (out: Vec<String>)
    ensures
        views(out@) == words(s@),
{
    let cs = chars_of(s);
    let mut out: Vec<String> = Vec::new();
    let mut i: usize = 0;
    while i < cs.len()
        invariant
            0 <= i <= cs.len(),
            cs@ == s@,
            views(out@) == words(cs@.take(i as int)),
        decreases cs.len() - i,
    {
        let c = cs[i];
        let ghost pre = cs@.take(i as int);
        assert(cs@.take(i + 1).drop_last() == pre);
        if is_whitespace(c) {
        } else if i >= 1 && !is_whitespace(cs[i - 1]) {
            assert(pre.last() == cs@[i - 1]);
            proof { lemma_words_last_nonempty(pre); }
            let last = out.len() - 1;
            let mut w = out.pop().unwrap();
            push_char(&mut w, c);
            out.push(w);
            assert(views(out@) =~= words(pre).update(last as int, words(pre).last().push(c)));
        } else {
            let mut w = String::new();
            push_char(&mut w, c);
            out.push(w);
            assert(views(out@) =~= words(pre).push(seq![c]));
        }
        i = i + 1;
    }
    assert(cs@.take(cs.len() as int) =~= cs@);
    out
}

/// Builds a string from its characters.
pub fn string_from_chars(cs: &Vec<char>, lo: usize, hi: usize) -> (s: String)
    requires
        lo <= hi <= cs.len(),
    ensures
        s@ == cs@.subrange(lo as int, hi as int),
{
    let mut s = String::new();
    let mut k = lo;
    while k < hi
        invariant
            lo <= k <= hi <= cs.len(),
            s@ == cs@.subrange(lo as int, k as int),
        decreases hi - k,
    {
        push_char(&mut s, cs[k]);
        k = k + 1;
        assert(s@ =~= cs@.subrange(lo as int, k as int));
    }
    s
}

/// `s` with leading and trailing whitespace removed.
pub fn trim(s: &str) -> (t: String)
    ensures
        t@ == trimmed(s@),
{
    let cs = chars_of(s);
    let n = cs.len();
    let mut lo: usize = 0;
    assert(cs@.subrange(0, n as int) =~= cs@);
    while lo < n && is_whitespace(cs[lo])
        invariant
            lo <= n,
            n == cs.len(),
            cs@ == s@,
            trimmed(s@) == trimmed(cs@.subrange(lo as int, n as int)),
        decreases n - lo,
    {
        assert(cs@.subrange(lo as int, n as int).drop_first() =~= cs@.subrange(lo + 1, n as int));
        lo = lo + 1;
    }
    let mut hi: usize = n;
    while hi > lo && is_whitespace(cs[hi - 1])
        invariant
            lo <= hi <= n,
            n == cs.len(),
            cs@ == s@,
            trimmed(s@) == trimmed(cs@.subrange(lo as int, hi as int)),
            lo < n ==> !unicode_whitespace(cs@[lo as int]),
        decreases hi - lo,
    {
        assert(cs@.subrange(lo as int, hi as int).drop_last() =~= cs@.subrange(lo as int, hi - 1));
        hi = hi - 1;
    }
    string_from_chars(&cs, lo, hi)
}

pub proof fn lemma_joined_push(parts: Seq<Seq<char>>, sep: Seq<char>, x: Seq<char>)
    ensures
        joined(parts.push(x), sep) == if parts.len() == 0 {
            x
        } else {
            joined(parts, sep) + sep + x
        },
{
    assert(parts.push(x).drop_last() =~= parts);
}

/// Joins `parts[lo..hi]` with single spaces.
pub fn join_words(parts: &Vec<String>, lo: usize, hi: usize) -> (s: String)
    requires
        lo <= hi <= parts.len(),
    ensures
        s@ == joined(views(parts@).subrange(lo as int, hi as int), seq![' ']),
{
    let mut s = String::new();
    let mut k = lo;
    while k < hi
        invariant
            lo <= k <= hi <= parts.len(),
            s@ == joined(views(parts@).subrange(lo as int, k as int), seq![' ']),
        decreases hi - k,
    {
        let ghost prev = views(parts@).subrange(lo as int, k as int);
        proof {
            lemma_joined_push(prev, seq![' '], parts@[k as int]@);
        }
        assert(views(parts@).subrange(lo as int, k + 1) =~= prev.push(parts@[k as int]@));
        if k > lo {
            push_char(&mut s, ' ');
        }
        s.append(parts[k].as_str());
        k = k + 1;
    }
    s
}

/// Whether `s` begins with `prefix`.
pub open spec fn has_prefix(s: Seq<char>, prefix: Seq<char>) -> bool {
    prefix.len() <= s.len() && s.take(prefix.len() as int) == prefix
}

/// Whether `s` begins with `prefix`.
pub fn starts_with(s: &str, prefix: &str) -> (r: bool)
    ensures
        r == has_prefix(s@, prefix@),
{
    let cs = chars_of(s);
    let ps = chars_of(prefix);
    if ps.len() > cs.len() {
        return false;
    }
    let mut k: usize = 0;
    while k < ps.len()
        invariant
            k <= ps.len() <= cs.len(),
            cs@ == s@,
            ps@ == prefix@,
            cs@.take(k as int) == ps@.take(k as int),
        decreases ps.len() - k,
    {
        if cs[k] != ps[k] {
            assert(cs@.take(ps.len() as int)[k as int] != ps@[k as int]);
            return false;
        }
        assert(cs@.take(k + 1) =~= cs@.take(k as int).push(cs@[k as int]));
        assert(ps@.take(k + 1) =~= ps@.take(k as int).push(ps@[k as int]));
        k = k + 1;
    }
    assert(ps@.take(ps.len() as int) =~= ps@);
    true
}

/// `s` without its trailing `'/'` characters.
pub open spec fn without_trailing_slashes(s: Seq<char>) -> Seq<char>
    decreases s.len(),
{
    if s.len() > 0 && s.last() == '/' {
        without_trailing_slashes(s.drop_last())
    } else {
        s
    }
}

/// `s` without its trailing `'/'` characters (what `trim_end_matches('/')` gives).
pub fn trim_trailing_slashes(s: &str) -> (t: String)
    ensures
        t@ == without_trailing_slashes(s@),
{
    let cs = chars_of(s);
    let mut hi = cs.len();
    assert(cs@.subrange(0, hi as int) =~= cs@);
    while hi > 0 && cs[hi - 1] == '/'
        invariant
            hi <= cs.len(),
            cs@ == s@,
            without_trailing_slashes(s@) == without_trailing_slashes(cs@.subrange(0, hi as int)),
        decreases hi,
    {
        assert(cs@.subrange(0, hi as int).drop_last() =~= cs@.subrange(0, hi - 1));
        hi = hi - 1;
    }
    string_from_chars(&cs, 0, hi)
}

/// The pieces of `s` between `'\n'` characters (the last piece may be empty).
pub open spec fn newline_pieces(s: Seq<char>) -> Seq<Seq<char>>
    decreases s.len(),
{
    if s.len() == 0 {
        seq![Seq::empty()]
    } else {
        let prev = newline_pieces(s.drop_last());
        if s.last() == '\n' {
            prev.push(Seq::empty())
        } else {
            prev.update(prev.len() - 1, prev.last().push(s.last()))
        }
    }
}

pub proof fn lemma_newline_pieces_nonempty(s: Seq<char>)
    ensures
        newline_pieces(s).len() >= 1,
    decreases s.len(),
{
    if s.len() > 0 {
        lemma_newline_pieces_nonempty(s.drop_last());
    }
}

/// Splits `s` at each `'\n'`.
pub fn split_newlines(s: &str) -> (out: Vec<String>)
    ensures
        views(out@) == newline_pieces(s@),
{
    let cs = chars_of(s);
    let mut out: Vec<String> = Vec::new();
    out.push(String::new());
    assert(views(out@) =~= newline_pieces(cs@.take(0)));
    let mut i: usize = 0;
    while i < cs.len()
        invariant
            i <= cs.len(),
            cs@ == s@,
            views(out@) == newline_pieces(cs@.take(i as int)),
        decreases cs.len() - i,
    {
        let ghost pre = cs@.take(i as int);
        assert(cs@.take(i + 1).drop_last() == pre);
        proof {
            lemma_newline_pieces_nonempty(pre);
        }
        if cs[i] == '\n' {
            out.push(String::new());
            assert(views(out@) =~= newline_pieces(pre).push(Seq::empty()));
        } else {
            let last = out.len() - 1;
            let mut w = out.pop().unwrap();
            push_char(&mut w, cs[i]);
            out.push(w);
            assert(views(out@) =~= newline_pieces(pre).update(last as int, newline_pieces(pre).last().push(cs@[i as int])));
        }
        i = i + 1;
    }
    assert(cs@.take(cs.len() as int) =~= cs@);
    out
}

/// `s` with every `from` character replaced by `to`.
pub open spec fn replaced(s: Seq<char>, from: char, to: char) -> Seq<char> {
    s.map_values(|c: char| if c == from { to } else { c })
}

/// `s` with every `from` character replaced by `to`.
pub fn replace_char(s: &str, from: char, to: char) -> (r: String)
    ensures
        r@ == replaced(s@, from, to),
{
    let cs = chars_of(s);
    let mut r = String::new();
    let mut k: usize = 0;
    while k < cs.len()
        invariant
            k <= cs.len(),
            cs@ == s@,
            r@ == replaced(cs@.take(k as int), from, to),
        decreases cs.len() - k,
    {
        let c = cs[k];
        push_char(&mut r, if c == from { to } else { c });
        k = k + 1;
        assert(r@ =~= replaced(cs@.take(k as int), from, to));
    }
    assert(cs@.take(cs.len() as int) =~= cs@);
    r
}

/// The characters of `s` before its first `sep` (all of `s` when it has none).
pub open spec fn segment_before(s: Seq<char>, sep: char) -> Seq<char>
    decreases s.len(),
{
    if s.len() == 0 || s[0] == sep {
        Seq::empty()
    } else {
        seq![s[0]] + segment_before(s.drop_first(), sep)
    }
}

/// The characters of `s` before its first `sep`.
pub fn first_segment(s: &str, sep: char) -> (r: String)
    ensures
        r@ == segment_before(s@, sep),
{
    let cs = chars_of(s);
    let mut k: usize = 0;
    assert(cs@.skip(0) =~= cs@);
    assert(cs@.take(0) + segment_before(cs@, sep) =~= segment_before(cs@, sep));
    while k < cs.len() && cs[k] != sep
        invariant
            k <= cs.len(),
            cs@ == s@,
            segment_before(s@, sep) == cs@.take(k as int) + segment_before(cs@.skip(k as int), sep),
        decreases cs.len() - k,
    {
        assert(cs@.skip(k as int).drop_first() =~= cs@.skip(k + 1));
        assert(cs@.take(k + 1) =~= cs@.take(k as int) + seq![cs@[k as int]]);
        k = k + 1;
    }
    assert(segment_before(cs@.skip(k as int), sep) =~= Seq::<char>::empty()) by {
        if k < cs.len() {
            assert(cs@.skip(k as int)[0] == cs@[k as int]);
        }
    }
    assert(cs@.take(k as int) + Seq::<char>::empty() =~= cs@.take(k as int));
    string_from_chars(&cs, 0, k)
}

/// `c` in upper case when it is an ASCII lower-case letter.
pub open spec fn ascii_upper(c: char) -> char {
    if 'a' <= c <= 'z' {
        ((c as u32) - 32) as char
    } else {
        c
    }
}

/// `s` with its first character in upper case when that is an ASCII letter.
pub open spec fn capitalized(s: Seq<char>) -> Seq<char> {
    if s.len() == 0 {
        s
    } else {
        s.update(0, ascii_upper(s[0]))
    }
}

/// `s` with its first character in upper case when that is an ASCII letter.
pub fn capitalize_ascii(s: &str) -> (r: String)
    ensures
        r@ == capitalized(s@),
{
    let cs = chars_of(s);
    let mut r = String::new();
    let mut k: usize = 0;
    while k < cs.len()
        invariant
            k <= cs.len(),
            cs@ == s@,
            r@ == capitalized(cs@).take(k as int),
        decreases cs.len() - k,
    {
        let c = cs[k];
        let d = if k == 0 && 'a' <= c && c <= 'z' {
            let u: u32 = (c as u32) - 32;
            assert(u < 0xD800);
            char_from_u32(u)
        } else {
            c
        };
        push_char(&mut r, d);
        k = k + 1;
        assert(r@ =~= capitalized(cs@).take(k as int));
    }
    assert(capitalized(cs@).take(cs.len() as int) =~= capitalized(cs@));
    r
}

/// The decimal digit character for `d` (0 to 9).
pub open spec fn digit_char(d: int) -> char {
    (('0' as u32) + d) as char
}

/// The decimal digits of `n`, most significant first, without leading zeros.
pub open spec fn decimal(n: nat) -> Seq<char>
    decreases n,
{
    if n < 10 {
        seq![digit_char(n as int)]
    } else {
        decimal(n / 10).push(digit_char((n % 10) as int))
    }
}

/// The decimal text of an integer, a minus sign before a negative one.
pub open spec fn signed_decimal(i: int) -> Seq<char> {
    if i < 0 {
        seq!['-'] + decimal((-i) as nat)
    } else {
        decimal(i as nat)
    }
}

/// Appends the decimal digits of `n`.
fn push_decimal(out: &mut String, n: u32)
    ensures
        final(out)@ == old(out)@ + decimal(n as nat),
    decreases n,
{
    if n >= 10 {
        push_decimal(out, n / 10);
    }
    let c = char_from_u32(48 + n % 10);
    push_char(out, c);
    assert(out@ =~= old(out)@ + decimal(n as nat));
}

/// The decimal text of `i`, as `Display` and `Debug` write an `i32`.
pub fn signed_decimal_text(i: i32) -> (s: String)
    ensures
        s@ == signed_decimal(i as int),
{
    let mut s = String::new();
    if i < 0 {
        push_char(&mut s, '-');
        let m: u32 = (-(i as i64)) as u32;
        push_decimal(&mut s, m);
    } else {
        push_decimal(&mut s, i as u32);
    }
    assert(s@ =~= signed_decimal(i as int));
    s
}

/// Calls `char::from_u32` on a value that is a Unicode scalar value, so the
/// call cannot fail.
#[verifier::external_body]
fn char_from_u32(u: u32) -> (c: char)
    requires
        u < 0xD800,
    ensures
        c == u as char,
{
    char::from_u32(u).unwrap()
}

} // verus!
