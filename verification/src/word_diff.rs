use vstd::prelude::*;

use crate::text::views;

verus! {

/// One step of a word-level edit script between an old and a new token list.
/// `Equal(i)` keeps old token `i` (equal to the matching new token), `Delete(i)`
/// drops old token `i`, `Insert(j)` adds new token `j`.
#[derive(Clone, Copy, Debug, PartialEq, Eq, Structural)]
pub enum DiffOp {
    Equal(usize),
    Delete(usize),
    Insert(usize),
}

/// Length of a longest common subsequence of `a.take(i)` and `b.take(j)`.
pub open spec fn lcs_len(a: Seq<Seq<char>>, b: Seq<Seq<char>>, i: nat, j: nat) -> nat
    decreases i + j,
{
    if i == 0 || j == 0 {
        0
    } else if a[i - 1] == b[j - 1] {
        lcs_len(a, b, (i - 1) as nat, (j - 1) as nat) + 1
    } else {
        let up = lcs_len(a, b, (i - 1) as nat, j);
        let left = lcs_len(a, b, i, (j - 1) as nat);
        if up >= left {
            up
        } else {
            left
        }
    }
}

/// The edit script that walking the LCS table back from `(i, j)` produces:
/// a match is taken whenever the two tokens agree, otherwise a deletion is
/// preferred over an insertion on ties.
pub open spec fn diff_script(a: Seq<Seq<char>>, b: Seq<Seq<char>>, i: nat, j: nat) -> Seq<DiffOp>
    decreases i + j,
{
    if i == 0 && j == 0 {
        Seq::empty()
    } else if i == 0 {
        diff_script(a, b, i, (j - 1) as nat).push(DiffOp::Insert((j - 1) as usize))
    } else if j == 0 {
        diff_script(a, b, (i - 1) as nat, j).push(DiffOp::Delete((i - 1) as usize))
    } else if a[i - 1] == b[j - 1] {
        diff_script(a, b, (i - 1) as nat, (j - 1) as nat).push(DiffOp::Equal((i - 1) as usize))
    } else if lcs_len(a, b, (i - 1) as nat, j) >= lcs_len(a, b, i, (j - 1) as nat) {
        diff_script(a, b, (i - 1) as nat, j).push(DiffOp::Delete((i - 1) as usize))
    } else {
        diff_script(a, b, i, (j - 1) as nat).push(DiffOp::Insert((j - 1) as usize))
    }
}

/// The word-level diff of two token lists.
pub open spec fn spec_word_diff(a: Seq<Seq<char>>, b: Seq<Seq<char>>) -> Seq<DiffOp> {
    diff_script(a, b, a.len(), b.len())
}

pub proof fn lemma_lcs_bounded(a: Seq<Seq<char>>, b: Seq<Seq<char>>, i: nat, j: nat)
    ensures
        lcs_len(a, b, i, j) <= i,
        lcs_len(a, b, i, j) <= j,
    decreases i + j,
{
    if i > 0 && j > 0 {
        lemma_lcs_bounded(a, b, (i - 1) as nat, (j - 1) as nat);
        lemma_lcs_bounded(a, b, (i - 1) as nat, j);
        lemma_lcs_bounded(a, b, i, (j - 1) as nat);
    }
}

/// The old-side tokens that an edit script walks over (kept and deleted ones), in order.
pub open spec fn old_side(ops: Seq<DiffOp>, a: Seq<Seq<char>>) -> Seq<Seq<char>>
    decreases ops.len(),
{
    if ops.len() == 0 {
        Seq::empty()
    } else {
        let rest = old_side(ops.drop_last(), a);
        match ops.last() {
            DiffOp::Equal(i) => rest.push(a[i as int]),
            DiffOp::Delete(i) => rest.push(a[i as int]),
            DiffOp::Insert(_) => rest,
        }
    }
}

/// The new-side tokens that an edit script produces (kept and inserted ones), in order.
pub open spec fn new_side(ops: Seq<DiffOp>, a: Seq<Seq<char>>, b: Seq<Seq<char>>) -> Seq<Seq<char>>
    decreases ops.len(),
{
    if ops.len() == 0 {
        Seq::empty()
    } else {
        let rest = new_side(ops.drop_last(), a, b);
        match ops.last() {
            DiffOp::Equal(i) => rest.push(a[i as int]),
            DiffOp::Delete(_) => rest,
            DiffOp::Insert(j) => rest.push(b[j as int]),
        }
    }
}

/// How many tokens an edit script keeps.
pub open spec fn kept_count(ops: Seq<DiffOp>) -> nat
    decreases ops.len(),
{
    if ops.len() == 0 {
        0
    } else {
        kept_count(ops.drop_last()) + if ops.last() is Equal {
            1nat
        } else {
            0nat
        }
    }
}

proof fn lemma_script_sides(a: Seq<Seq<char>>, b: Seq<Seq<char>>, i: nat, j: nat)
    requires
        i <= a.len(),
        j <= b.len(),
        a.len() <= usize::MAX,
        b.len() <= usize::MAX,
    ensures
        old_side(diff_script(a, b, i, j), a) == a.take(i as int),
        new_side(diff_script(a, b, i, j), a, b) == b.take(j as int),
        kept_count(diff_script(a, b, i, j)) == lcs_len(a, b, i, j),
    decreases i + j,
{
    let s = diff_script(a, b, i, j);
    if i == 0 && j == 0 {
        assert(a.take(0) =~= Seq::<Seq<char>>::empty());
        assert(b.take(0) =~= Seq::<Seq<char>>::empty());
    } else if i == 0 {
        lemma_script_sides(a, b, i, (j - 1) as nat);
        assert(s.drop_last() == diff_script(a, b, i, (j - 1) as nat));
        assert(b.take(j as int) =~= b.take(j - 1).push(b[j - 1]));
    } else if j == 0 {
        lemma_script_sides(a, b, (i - 1) as nat, j);
        assert(s.drop_last() == diff_script(a, b, (i - 1) as nat, j));
        assert(a.take(i as int) =~= a.take(i - 1).push(a[i - 1]));
    } else if a[i - 1] == b[j - 1] {
        lemma_script_sides(a, b, (i - 1) as nat, (j - 1) as nat);
        assert(s.drop_last() == diff_script(a, b, (i - 1) as nat, (j - 1) as nat));
        assert(a.take(i as int) =~= a.take(i - 1).push(a[i - 1]));
        assert(b.take(j as int) =~= b.take(j - 1).push(b[j - 1]));
    } else if lcs_len(a, b, (i - 1) as nat, j) >= lcs_len(a, b, i, (j - 1) as nat) {
        lemma_script_sides(a, b, (i - 1) as nat, j);
        assert(s.drop_last() == diff_script(a, b, (i - 1) as nat, j));
        assert(a.take(i as int) =~= a.take(i - 1).push(a[i - 1]));
    } else {
        lemma_script_sides(a, b, i, (j - 1) as nat);
        assert(s.drop_last() == diff_script(a, b, i, (j - 1) as nat));
        assert(b.take(j as int) =~= b.take(j - 1).push(b[j - 1]));
    }
}

/// The diff is an edit script between the two token lists: walking it over the
/// old side gives back the old tokens, over the new side the new tokens, and it
/// keeps exactly as many tokens as a longest common subsequence has.
pub proof fn lemma_word_diff_is_edit_script(a: Seq<Seq<char>>, b: Seq<Seq<char>>)
    requires
        a.len() <= usize::MAX,
        b.len() <= usize::MAX,
    ensures
        old_side(spec_word_diff(a, b), a) == a,
        new_side(spec_word_diff(a, b), a, b) == b,
        kept_count(spec_word_diff(a, b)) == lcs_len(a, b, a.len(), b.len()),
{
    lemma_script_sides(a, b, a.len(), b.len());
    assert(a.take(a.len() as int) =~= a);
    assert(b.take(b.len() as int) =~= b);
}

/// How many operations of `ops` step over an old token (all but insertions).
pub open spec fn old_count(ops: Seq<DiffOp>) -> nat
    decreases ops.len(),
{
    if ops.len() == 0 {
        0
    } else {
        old_count(ops.drop_last()) + if ops.last() is Insert {
            0nat
        } else {
            1nat
        }
    }
}

/// How many operations of `ops` step over a new token (all but deletions).
pub open spec fn new_count(ops: Seq<DiffOp>) -> nat
    decreases ops.len(),
{
    if ops.len() == 0 {
        0
    } else {
        new_count(ops.drop_last()) + if ops.last() is Delete {
            0nat
        } else {
            1nat
        }
    }
}

/// Operation `p` of `ops` refers to the next old token (a keep or a deletion)
/// or the next new token (an insertion) after those the earlier operations
/// stepped over, and a kept old token equals the new token it stands for.
pub open spec fn op_at_position(ops: Seq<DiffOp>, a: Seq<Seq<char>>, b: Seq<Seq<char>>, p: int) -> bool {
    let i = old_count(ops.take(p)) as int;
    let j = new_count(ops.take(p)) as int;
    match ops[p] {
        DiffOp::Equal(x) => x == i && i < a.len() && j < b.len() && a[i] == b[j],
        DiffOp::Delete(x) => x == i && i < a.len(),
        DiffOp::Insert(y) => y == j && j < b.len(),
    }
}

/// `ops` walks `a` and `b` front to back, each operation at its position.
pub open spec fn positions_ok(ops: Seq<DiffOp>, a: Seq<Seq<char>>, b: Seq<Seq<char>>) -> bool {
    &&& old_count(ops) == a.len()
    &&& new_count(ops) == b.len()
    &&& forall|p: int| 0 <= p < ops.len() ==> #[trigger] op_at_position(ops, a, b, p)
}

proof fn lemma_script_positions(a: Seq<Seq<char>>, b: Seq<Seq<char>>, i: nat, j: nat)
    requires
        i <= a.len(),
        j <= b.len(),
        a.len() <= usize::MAX,
        b.len() <= usize::MAX,
    ensures
        old_count(diff_script(a, b, i, j)) == i,
        new_count(diff_script(a, b, i, j)) == j,
        forall|p: int| 0 <= p < diff_script(a, b, i, j).len() ==> #[trigger] op_at_position(diff_script(a, b, i, j), a, b, p),
    decreases i + j,
{
    let s = diff_script(a, b, i, j);
    if i == 0 && j == 0 {
    } else {
        let pi: nat = if i == 0 {
            i
        } else if j == 0 {
            (i - 1) as nat
        } else if a[i - 1] == b[j - 1] {
            (i - 1) as nat
        } else if lcs_len(a, b, (i - 1) as nat, j) >= lcs_len(a, b, i, (j - 1) as nat) {
            (i - 1) as nat
        } else {
            i
        };
        let pj: nat = if i == 0 {
            (j - 1) as nat
        } else if j == 0 {
            j
        } else if a[i - 1] == b[j - 1] {
            (j - 1) as nat
        } else if lcs_len(a, b, (i - 1) as nat, j) >= lcs_len(a, b, i, (j - 1) as nat) {
            j
        } else {
            (j - 1) as nat
        };
        lemma_script_positions(a, b, pi, pj);
        let prev = diff_script(a, b, pi, pj);
        assert(s.drop_last() == prev);
        assert forall|p: int| 0 <= p < s.len() implies #[trigger] op_at_position(s, a, b, p) by {
            if p < prev.len() {
                assert(s.take(p) =~= prev.take(p));
                assert(op_at_position(prev, a, b, p));
                assert(s[p] == prev[p]);
            } else {
                assert(s.take(p) =~= prev);
            }
        }
    }
}

/// The word diff walks both token lists front to back: each operation refers
/// to the next old or new token, and a kept token is the same on both sides.
pub proof fn lemma_word_diff_positions(a: Seq<Seq<char>>, b: Seq<Seq<char>>)
    requires
        a.len() <= usize::MAX,
        b.len() <= usize::MAX,
    ensures
        positions_ok(spec_word_diff(a, b), a, b),
{
    lemma_script_positions(a, b, a.len(), b.len());
}

/// One more operation steps over one more old token unless it inserts, and
/// over one more new token unless it deletes.
pub proof fn lemma_count_step(ops: Seq<DiffOp>, k: int)
    requires
        0 <= k < ops.len(),
    ensures
        old_count(ops.take(k + 1)) == old_count(ops.take(k)) + if ops[k] is Insert { 0int } else { 1int },
        new_count(ops.take(k + 1)) == new_count(ops.take(k)) + if ops[k] is Delete { 0int } else { 1int },
{
    assert(ops.take(k + 1).drop_last() =~= ops.take(k));
    assert(ops.take(k + 1).last() == ops[k]);
}

/// Every operation of a diff between `a` and `b` points inside the token list it refers to.
pub open spec fn ops_in_range(ops: Seq<DiffOp>, m: int, n: int) -> bool {
    forall|k: int|
        0 <= k < ops.len() ==> match #[trigger] ops[k] {
            DiffOp::Equal(i) => i < m,
            DiffOp::Delete(i) => i < m,
            DiffOp::Insert(j) => j < n,
        }
}

proof fn lemma_script_in_range(a: Seq<Seq<char>>, b: Seq<Seq<char>>, i: nat, j: nat)
    requires
        i <= a.len(),
        j <= b.len(),
        a.len() <= usize::MAX,
        b.len() <= usize::MAX,
    ensures
        ops_in_range(diff_script(a, b, i, j), i as int, j as int),
    decreases i + j,
{
    let s = diff_script(a, b, i, j);
    if i == 0 && j == 0 {
    } else if i == 0 {
        lemma_script_in_range(a, b, i, (j - 1) as nat);
        assert(s.drop_last() == diff_script(a, b, i, (j - 1) as nat));
        assert(forall|k: int| 0 <= k < s.len() - 1 ==> s[k] == s.drop_last()[k]);
    } else if j == 0 {
        lemma_script_in_range(a, b, (i - 1) as nat, j);
        assert(s.drop_last() == diff_script(a, b, (i - 1) as nat, j));
        assert(forall|k: int| 0 <= k < s.len() - 1 ==> s[k] == s.drop_last()[k]);
    } else if a[i - 1] == b[j - 1] {
        lemma_script_in_range(a, b, (i - 1) as nat, (j - 1) as nat);
        assert(s.drop_last() == diff_script(a, b, (i - 1) as nat, (j - 1) as nat));
        assert(forall|k: int| 0 <= k < s.len() - 1 ==> s[k] == s.drop_last()[k]);
    } else if lcs_len(a, b, (i - 1) as nat, j) >= lcs_len(a, b, i, (j - 1) as nat) {
        lemma_script_in_range(a, b, (i - 1) as nat, j);
        assert(s.drop_last() == diff_script(a, b, (i - 1) as nat, j));
        assert(forall|k: int| 0 <= k < s.len() - 1 ==> s[k] == s.drop_last()[k]);
    } else {
        lemma_script_in_range(a, b, i, (j - 1) as nat);
        assert(s.drop_last() == diff_script(a, b, i, (j - 1) as nat));
        assert(forall|k: int| 0 <= k < s.len() - 1 ==> s[k] == s.drop_last()[k]);
    }
}

/// The operations of the word diff index into the two token lists.
pub proof fn lemma_word_diff_in_range(a: Seq<Seq<char>>, b: Seq<Seq<char>>)
    requires
        a.len() <= usize::MAX,
        b.len() <= usize::MAX,
    ensures
        ops_in_range(spec_word_diff(a, b), a.len() as int, b.len() as int),
{
    lemma_script_in_range(a, b, a.len(), b.len());
}

/// An edit script keeps at most as many tokens as it has operations.
pub proof fn lemma_kept_count_bounded(ops: Seq<DiffOp>)
    ensures
        kept_count(ops) <= ops.len(),
    decreases ops.len(),
{
    if ops.len() > 0 {
        lemma_kept_count_bounded(ops.drop_last());
    }
}

/// `ia` and `ib` pick a common subsequence of `a.take(i)` and `b.take(j)`:
/// strictly increasing positions below `i` and below `j` holding equal tokens.
pub open spec fn is_common_subsequence(
    a: Seq<Seq<char>>,
    b: Seq<Seq<char>>,
    i: nat,
    j: nat,
    ia: Seq<int>,
    ib: Seq<int>,
) -> bool {
    &&& ia.len() == ib.len()
    &&& forall|t: int|
        0 <= t < ia.len() ==> 0 <= #[trigger] ia[t] < i && 0 <= ib[t] < j && a[ia[t]] == b[ib[t]]
    &&& forall|s: int, t: int| 0 <= s < t < ia.len() ==> ia[s] < ia[t] && ib[s] < ib[t]
}

proof fn lemma_lcs_steps(a: Seq<Seq<char>>, b: Seq<Seq<char>>, i: nat, j: nat)
    ensures
        i >= 1 ==> lcs_len(a, b, (i - 1) as nat, j) <= lcs_len(a, b, i, j) <= lcs_len(a, b, (i - 1) as nat, j) + 1,
        j >= 1 ==> lcs_len(a, b, i, (j - 1) as nat) <= lcs_len(a, b, i, j) <= lcs_len(a, b, i, (j - 1) as nat) + 1,
    decreases i + j,
{
    if i >= 1 && j >= 1 {
        lemma_lcs_steps(a, b, (i - 1) as nat, j);
        lemma_lcs_steps(a, b, i, (j - 1) as nat);
    }
}

proof fn lemma_lcs_bounds_common_subsequences(
    a: Seq<Seq<char>>,
    b: Seq<Seq<char>>,
    i: nat,
    j: nat,
    ia: Seq<int>,
    ib: Seq<int>,
)
    requires
        is_common_subsequence(a, b, i, j, ia, ib),
    ensures
        ia.len() <= lcs_len(a, b, i, j),
    decreases i + j,
{
    if ia.len() > 0 {
        let last = ia.len() - 1;
        assert(0 <= ia[last] < i && 0 <= ib[last] < j);
        lemma_lcs_steps(a, b, i, j);
        if ia[last] < i - 1 {
            assert(is_common_subsequence(a, b, (i - 1) as nat, j, ia, ib)) by {
                assert forall|t: int| 0 <= t < ia.len() implies 0 <= #[trigger] ia[t] < i - 1 by {
                    if t < last {
                        assert(ia[t] < ia[last]);
                    }
                }
            }
            lemma_lcs_bounds_common_subsequences(a, b, (i - 1) as nat, j, ia, ib);
        } else if ib[last] < j - 1 {
            assert(is_common_subsequence(a, b, i, (j - 1) as nat, ia, ib)) by {
                assert forall|t: int| 0 <= t < ia.len() implies #[trigger] ia[t] < i && 0 <= ib[t] < j - 1 by {
                    if t < last {
                        assert(ib[t] < ib[last]);
                    }
                }
            }
            lemma_lcs_bounds_common_subsequences(a, b, i, (j - 1) as nat, ia, ib);
        } else {
            assert(a[i - 1] == b[j - 1]);
            let ia2 = ia.drop_last();
            let ib2 = ib.drop_last();
            assert(is_common_subsequence(a, b, (i - 1) as nat, (j - 1) as nat, ia2, ib2)) by {
                assert forall|t: int| 0 <= t < ia2.len() implies 0 <= #[trigger] ia2[t] < i - 1 && 0 <= ib2[t] < j - 1
                    && a[ia2[t]] == b[ib2[t]] by {
                    assert(ia[t] < ia[last] && ib[t] < ib[last]);
                    assert(0 <= ia[t]);
                }
            }
            lemma_lcs_bounds_common_subsequences(a, b, (i - 1) as nat, (j - 1) as nat, ia2, ib2);
        }
    }
}

/// The diff keeps as many tokens as possible: no common subsequence of the
/// two token lists is longer than the tokens it keeps.
pub proof fn lemma_word_diff_is_minimal(a: Seq<Seq<char>>, b: Seq<Seq<char>>, ia: Seq<int>, ib: Seq<int>)
    requires
        a.len() <= usize::MAX,
        b.len() <= usize::MAX,
        is_common_subsequence(a, b, a.len(), b.len(), ia, ib),
    ensures
        ia.len() <= kept_count(spec_word_diff(a, b)),
{
    lemma_word_diff_is_edit_script(a, b);
    lemma_lcs_bounds_common_subsequences(a, b, a.len(), b.len(), ia, ib);
}

/// Word-level diff by longest common subsequence.
pub fn word_diff(old: &Vec<String>, new: &Vec<String>) -> (ops: Vec<DiffOp>)
    ensures
        ops@ == spec_word_diff(views(old@), views(new@)),
{
    let ghost a = views(old@);
    let ghost b = views(new@);
    let m = old.len();
    let n = new.len();
    let mut table: Vec<Vec<usize>> = Vec::new();
    let mut row0: Vec<usize> = Vec::new();
    row0.push(0);
    let mut j: usize = 0;
    while j < n
        invariant
            j <= n,
            n == new.len(),
            row0.len() == j + 1,
            forall|c: int| 0 <= c <= j ==> row0@[c] == 0,
        decreases n - j,
    {
        row0.push(0);
        j = j + 1;
    }
    table.push(row0);
    let mut i: usize = 0;
    while i < m
        invariant
            i <= m,
            m == old.len(),
            n == new.len(),
            a == views(old@),
            b == views(new@),
            table.len() == i + 1,
            forall|r: int| 0 <= r <= i ==> (#[trigger] table@[r]).len() == n + 1,
            forall|r: int, c: int|
                0 <= r <= i && 0 <= c <= n ==> table@[r]@[c] == lcs_len(a, b, r as nat, c as nat),
        decreases m - i,
    {
        let mut row: Vec<usize> = Vec::new();
        row.push(0);
        let mut j: usize = 0;
        while j < n
            invariant
                i < m,
                j <= n,
                m == old.len(),
                n == new.len(),
                a == views(old@),
                b == views(new@),
                table.len() == i + 1,
                row.len() == j + 1,
                forall|r: int| 0 <= r <= i ==> (#[trigger] table@[r]).len() == n + 1,
                forall|r: int, c: int|
                    0 <= r <= i && 0 <= c <= n ==> table@[r]@[c] == lcs_len(a, b, r as nat, c as nat),
                forall|c: int| 0 <= c <= j ==> row@[c] == lcs_len(a, b, (i + 1) as nat, c as nat),
            decreases n - j,
        {
            assert(a[i as int] == old@[i as int]@ && b[j as int] == new@[j as int]@);
            let val = if old[i] == new[j] {
                proof {
                    lemma_lcs_bounded(a, b, i as nat, j as nat);
                }
                table[i][j] + 1
            } else {
                let up = table[i][j + 1];
                let left = row[j];
                if up >= left {
                    up
                } else {
                    left
                }
            };
            row.push(val);
            j = j + 1;
        }
        table.push(row);
        i = i + 1;
    }
    let mut rev: Vec<DiffOp> = Vec::new();
    let mut i: usize = m;
    let mut j: usize = n;
    while i > 0 && j > 0
        invariant
            i <= m,
            j <= n,
            m == old.len(),
            n == new.len(),
            a == views(old@),
            b == views(new@),
            table.len() == m + 1,
            forall|r: int| 0 <= r <= m ==> (#[trigger] table@[r]).len() == n + 1,
            forall|r: int, c: int|
                0 <= r <= m && 0 <= c <= n ==> table@[r]@[c] == lcs_len(a, b, r as nat, c as nat),
            spec_word_diff(a, b) == diff_script(a, b, i as nat, j as nat) + rev@.reverse(),
        decreases i + j,
    {
        assert(a[i - 1] == old@[i - 1]@ && b[j - 1] == new@[j - 1]@);
        let ghost prev = rev@;
        if old[i - 1] == new[j - 1] {
            rev.push(DiffOp::Equal(i - 1));
            i = i - 1;
            j = j - 1;
        } else if table[i - 1][j] >= table[i][j - 1] {
            rev.push(DiffOp::Delete(i - 1));
            i = i - 1;
        } else {
            rev.push(DiffOp::Insert(j - 1));
            j = j - 1;
        }
        assert(rev@.reverse() =~= seq![rev@.last()] + prev.reverse());
    }
    while i > 0
        invariant
            i == 0 || j == 0,
            i <= m,
            spec_word_diff(a, b) == diff_script(a, b, i as nat, j as nat) + rev@.reverse(),
        decreases i,
    {
        let ghost prev = rev@;
        rev.push(DiffOp::Delete(i - 1));
        i = i - 1;
        assert(rev@.reverse() =~= seq![rev@.last()] + prev.reverse());
    }
    while j > 0
        invariant
            i == 0 || j == 0,
            i == 0,
            j <= n,
            spec_word_diff(a, b) == diff_script(a, b, i as nat, j as nat) + rev@.reverse(),
        decreases j,
    {
        let ghost prev = rev@;
        rev.push(DiffOp::Insert(j - 1));
        j = j - 1;
        assert(rev@.reverse() =~= seq![rev@.last()] + prev.reverse());
    }
    assert(diff_script(a, b, 0, 0) =~= Seq::<DiffOp>::empty());
    let mut ops: Vec<DiffOp> = Vec::new();
    let len = rev.len();
    let mut k: usize = 0;
    while k < len
        invariant
            len == rev.len(),
            k <= len,
            ops@ =~= rev@.reverse().take(k as int),
        decreases len - k,
    {
        ops.push(rev[len - 1 - k]);
        k = k + 1;
    }
    assert(rev@.reverse().take(len as int) =~= rev@.reverse());
    ops
}

} // verus!
