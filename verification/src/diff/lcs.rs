//! Alignment by longest common subsequence: the quadratic table, walked from
//! the front.

use crate::diff::editops::{
    aligns_range, count_kind, lemma_aligns_deletes, lemma_aligns_inserts, lemma_count_concat,
    lemma_count_one, lemma_count_repeat, repeat, EditKind, MAX_TOKENS,
};
use vstd::prelude::*;

verus! {

/// The length of a longest common subsequence of `a[i..]` and `b[j..]`.
pub open spec fn lcs_len<T>(a: Seq<T>, i: int, b: Seq<T>, j: int) -> nat
    decreases a.len() - i + b.len() - j,
{
    if i < 0 || j < 0 || i >= a.len() || j >= b.len() {
        0
    } else if a[i] == b[j] {
        1 + lcs_len(a, i + 1, b, j + 1)
    } else if lcs_len(a, i + 1, b, j) > lcs_len(a, i, b, j + 1) {
        lcs_len(a, i + 1, b, j)
    } else {
        lcs_len(a, i, b, j + 1)
    }
}

/// The script that the longest-common-subsequence alignment gives for
/// `a[i..]` and `b[j..]`. Equal tokens at the front are matched. Otherwise the
/// left token is deleted where that alone keeps the most matches possible, and
/// the right token is inserted in every other case, so that among the longest
/// common subsequences the one through the earliest left tokens is taken.
pub open spec fn lcs_ops<T>(a: Seq<T>, i: int, b: Seq<T>, j: int) -> Seq<EditKind>
    decreases a.len() - i + b.len() - j,
{
    if i < 0 || j < 0 || i > a.len() || j > b.len() {
        Seq::empty()
    } else if i == a.len() {
        repeat(EditKind::Insert, (b.len() - j) as nat)
    } else if j == b.len() {
        repeat(EditKind::Delete, (a.len() - i) as nat)
    } else if a[i] == b[j] {
        seq![EditKind::Match] + lcs_ops(a, i + 1, b, j + 1)
    } else if lcs_len(a, i + 1, b, j) > lcs_len(a, i, b, j + 1) {
        seq![EditKind::Delete] + lcs_ops(a, i + 1, b, j)
    } else {
        seq![EditKind::Insert] + lcs_ops(a, i, b, j + 1)
    }
}

/// A common subsequence is no longer than either sequence.
pub proof fn lemma_lcs_bound<T>(a: Seq<T>, i: int, b: Seq<T>, j: int)
    requires
        0 <= i <= a.len(),
        0 <= j <= b.len(),
    ensures
        lcs_len(a, i, b, j) <= a.len() - i,
        lcs_len(a, i, b, j) <= b.len() - j,
    decreases a.len() - i + b.len() - j,
{
    if i < a.len() && j < b.len() {
        lemma_lcs_bound(a, i + 1, b, j + 1);
        lemma_lcs_bound(a, i + 1, b, j);
        lemma_lcs_bound(a, i, b, j + 1);
    }
}

/// Dropping the first token of either sequence loses at most one common
/// token and gains none.
pub proof fn lemma_lcs_step<T>(a: Seq<T>, i: int, b: Seq<T>, j: int)
    requires
        0 <= i <= a.len(),
        0 <= j <= b.len(),
    ensures
        lcs_len(a, i + 1, b, j) <= lcs_len(a, i, b, j) <= lcs_len(a, i + 1, b, j) + 1,
        lcs_len(a, i, b, j + 1) <= lcs_len(a, i, b, j) <= lcs_len(a, i, b, j + 1) + 1,
    decreases a.len() - i + b.len() - j,
{
    if i < a.len() && j < b.len() {
        lemma_lcs_step(a, i + 1, b, j);
        lemma_lcs_step(a, i, b, j + 1);
    }
}

/// The script of the longest-common-subsequence alignment is an edit script.
pub proof fn lemma_lcs_ops_aligns<T>(a: Seq<T>, i: int, b: Seq<T>, j: int)
    requires
        0 <= i <= a.len(),
        0 <= j <= b.len(),
    ensures
        aligns_range(lcs_ops(a, i, b, j), a, i, a.len() as int, b, j, b.len() as int),
    decreases a.len() - i + b.len() - j,
{
    let m = a.len() as int;
    let n = b.len() as int;
    if i == m {
        lemma_aligns_inserts(a, i, b, j, n);
    } else if j == n {
        lemma_aligns_deletes(a, i, m, b, j);
    } else {
        let ops = lcs_ops(a, i, b, j);
        if a[i] == b[j] {
            lemma_lcs_ops_aligns(a, i + 1, b, j + 1);
            assert(ops.drop_first() =~= lcs_ops(a, i + 1, b, j + 1));
        } else if lcs_len(a, i + 1, b, j) > lcs_len(a, i, b, j + 1) {
            lemma_lcs_ops_aligns(a, i + 1, b, j);
            assert(ops.drop_first() =~= lcs_ops(a, i + 1, b, j));
        } else {
            lemma_lcs_ops_aligns(a, i, b, j + 1);
            assert(ops.drop_first() =~= lcs_ops(a, i, b, j + 1));
        }
    }
}

/// The script of the longest-common-subsequence alignment matches as many
/// tokens as a longest common subsequence has, and replaces none.
pub proof fn lemma_lcs_ops_count<T>(a: Seq<T>, i: int, b: Seq<T>, j: int)
    requires
        0 <= i <= a.len(),
        0 <= j <= b.len(),
    ensures
        count_kind(lcs_ops(a, i, b, j), EditKind::Match) == lcs_len(a, i, b, j),
        count_kind(lcs_ops(a, i, b, j), EditKind::Replace) == 0,
    decreases a.len() - i + b.len() - j,
{
    let m = a.len() as int;
    let n = b.len() as int;
    if i == m {
        lemma_count_repeat(EditKind::Insert, (n - j) as nat, EditKind::Match);
        lemma_count_repeat(EditKind::Insert, (n - j) as nat, EditKind::Replace);
    } else if j == n {
        lemma_count_repeat(EditKind::Delete, (m - i) as nat, EditKind::Match);
        lemma_count_repeat(EditKind::Delete, (m - i) as nat, EditKind::Replace);
    } else {
        let (op, ni, nj) = if a[i] == b[j] {
            (EditKind::Match, i + 1, j + 1)
        } else if lcs_len(a, i + 1, b, j) > lcs_len(a, i, b, j + 1) {
            (EditKind::Delete, i + 1, j)
        } else {
            (EditKind::Insert, i, j + 1)
        };
        lemma_lcs_ops_count(a, ni, b, nj);
        lemma_count_concat(seq![op], lcs_ops(a, ni, b, nj), EditKind::Match);
        lemma_count_concat(seq![op], lcs_ops(a, ni, b, nj), EditKind::Replace);
        lemma_count_one(op, EditKind::Match);
        lemma_count_one(op, EditKind::Replace);
    }
}

/// No edit script between `a[i..]` and `b[j..]` matches more tokens than a
/// longest common subsequence has.
pub proof fn lemma_lcs_most_matches<T>(ops: Seq<EditKind>, a: Seq<T>, i: int, b: Seq<T>, j: int)
    requires
        aligns_range(ops, a, i, a.len() as int, b, j, b.len() as int),
    ensures
        count_kind(ops, EditKind::Match) <= lcs_len(a, i, b, j),
    decreases ops.len(),
{
    if ops.len() > 0 {
        let rest = ops.drop_first();
        lemma_lcs_step(a, i, b, j);
        match ops[0] {
            EditKind::Match => {
                lemma_lcs_most_matches(rest, a, i + 1, b, j + 1);
            },
            EditKind::Replace => {
                lemma_lcs_most_matches(rest, a, i + 1, b, j + 1);
                lemma_lcs_step(a, i + 1, b, j);
            },
            EditKind::Delete => {
                lemma_lcs_most_matches(rest, a, i + 1, b, j);
            },
            EditKind::Insert => {
                lemma_lcs_most_matches(rest, a, i, b, j + 1);
            },
        }
    }
}

/// Row `i` of the table, from the row below it.
fn lcs_row(a: &[u8], b: &[u8], i: usize, below: &Vec<u32>) -> (row: Vec<u32>)
    requires
        a.len() <= MAX_TOKENS,
        b.len() <= MAX_TOKENS,
        i < a.len(),
        below.len() == b.len() + 1,
        forall|j: int| 0 <= j <= b.len() ==> below[j] == lcs_len(a@, i + 1, b@, j),
    ensures
        row.len() == b.len() + 1,
        forall|j: int| 0 <= j <= b.len() ==> row[j] == lcs_len(a@, i as int, b@, j),
{
    let n = b.len();
    let mut row: Vec<u32> = vec![0u32; n + 1];
    let mut j = n;
    while j > 0
        invariant
            j <= n,
            n == b.len(),
            n <= MAX_TOKENS,
            a.len() <= MAX_TOKENS,
            i < a.len(),
            row.len() == n + 1,
            below.len() == n + 1,
            forall|t: int| 0 <= t <= n ==> below[t] == lcs_len(a@, i + 1, b@, t),
            forall|t: int| j <= t <= n ==> row[t] == lcs_len(a@, i as int, b@, t),
        decreases j,
    {
        j = j - 1;
        proof {
            lemma_lcs_bound(a@, i + 1, b@, j + 1);
        }
        let value = if a[i] == b[j] {
            below[j + 1] + 1
        } else if below[j] > row[j + 1] {
            below[j]
        } else {
            row[j + 1]
        };
        row.set(j, value);
    }
    row
}

/// The table of the lengths of the longest common subsequences of all pairs
/// of suffixes.
fn lcs_table(a: &[u8], b: &[u8]) -> (table: Vec<Vec<u32>>)
    requires
        a.len() <= MAX_TOKENS,
        b.len() <= MAX_TOKENS,
    ensures
        table.len() == a.len() + 1,
        forall|i: int| 0 <= i <= a.len() ==> (#[trigger] table[i]).len() == b.len() + 1,
        forall|i: int, j: int|
            0 <= i <= a.len() && 0 <= j <= b.len() ==> #[trigger] table[i][j] == lcs_len(
                a@,
                i,
                b@,
                j,
            ),
{
    let m = a.len();
    let n = b.len();
    let mut table: Vec<Vec<u32>> = Vec::new();
    let mut k: usize = 0;
    while k <= m
        invariant
            k <= m + 1,
            m <= MAX_TOKENS,
            n <= MAX_TOKENS,
            table.len() == k,
            forall|i: int| 0 <= i < k ==> (#[trigger] table[i]).len() == n + 1,
            forall|i: int, j: int| 0 <= i < k && 0 <= j <= n ==> #[trigger] table[i][j] == 0,
        decreases m + 1 - k,
    {
        table.push(vec![0u32; n + 1]);
        k = k + 1;
    }
    let mut i = m;
    while i > 0
        invariant
            i <= m,
            m == a.len(),
            n == b.len(),
            m <= MAX_TOKENS,
            n <= MAX_TOKENS,
            table.len() == m + 1,
            forall|r: int| 0 <= r <= m ==> (#[trigger] table[r]).len() == n + 1,
            forall|r: int, j: int|
                i <= r <= m && 0 <= j <= n ==> #[trigger] table[r][j] == lcs_len(a@, r, b@, j),
        decreases i,
    {
        i = i - 1;
        let row = lcs_row(a, b, i, &table[i + 1]);
        table.set(i, row);
    }
    table
}

/// Aligns `a` with `b` by a longest common subsequence. The result is the
/// script that `lcs_ops` defines: an edit script of matches, insertions and
/// deletions with the most matches that any edit script has.
pub fn lcs_script(a: &[u8], b: &[u8]) -> (ops: Vec<EditKind>)
    requires
        a.len() <= MAX_TOKENS,
        b.len() <= MAX_TOKENS,
    ensures
        ops@ == lcs_ops(a@, 0, b@, 0),
{
    let m = a.len();
    let n = b.len();
    let table = lcs_table(a, b);
    let mut ops: Vec<EditKind> = Vec::new();
    let mut i: usize = 0;
    let mut j: usize = 0;
    while i < m && j < n
        invariant
            i <= m,
            j <= n,
            m == a.len(),
            n == b.len(),
            m <= MAX_TOKENS,
            n <= MAX_TOKENS,
            table.len() == m + 1,
            forall|r: int| 0 <= r <= m ==> (#[trigger] table[r]).len() == n + 1,
            forall|r: int, c: int|
                0 <= r <= m && 0 <= c <= n ==> #[trigger] table[r][c] == lcs_len(a@, r, b@, c),
            ops@ + lcs_ops(a@, i as int, b@, j as int) == lcs_ops(a@, 0, b@, 0),
        decreases m - i + n - j,
    {
        let ghost before = ops@;
        let ghost tail = lcs_ops(a@, i as int, b@, j as int);
        if a[i] == b[j] {
            ops.push(EditKind::Match);
            i = i + 1;
            j = j + 1;
        } else if table[i + 1][j] > table[i][j + 1] {
            ops.push(EditKind::Delete);
            i = i + 1;
        } else {
            ops.push(EditKind::Insert);
            j = j + 1;
        }
        proof {
            assert(ops@ + lcs_ops(a@, i as int, b@, j as int) =~= before + tail);
        }
    }
    while i < m
        invariant
            i <= m,
            j <= n,
            i == m || j == n,
            m == a.len(),
            n == b.len(),
            ops@ + lcs_ops(a@, i as int, b@, j as int) == lcs_ops(a@, 0, b@, 0),
        decreases m - i,
    {
        let ghost before = ops@;
        let ghost tail = lcs_ops(a@, i as int, b@, j as int);
        ops.push(EditKind::Delete);
        i = i + 1;
        proof {
            assert(j == n);
            assert(ops@ + lcs_ops(a@, i as int, b@, j as int) =~= before + tail);
        }
    }
    while j < n
        invariant
            i == m,
            j <= n,
            m == a.len(),
            n == b.len(),
            ops@ + lcs_ops(a@, i as int, b@, j as int) == lcs_ops(a@, 0, b@, 0),
        decreases n - j,
    {
        let ghost before = ops@;
        let ghost tail = lcs_ops(a@, i as int, b@, j as int);
        ops.push(EditKind::Insert);
        j = j + 1;
        proof {
            assert(ops@ + lcs_ops(a@, i as int, b@, j as int) =~= before + tail);
        }
    }
    proof {
        assert(lcs_ops(a@, i as int, b@, j as int) =~= Seq::<EditKind>::empty());
        assert(ops@ + Seq::<EditKind>::empty() =~= ops@);
    }
    ops
}

} // verus!
