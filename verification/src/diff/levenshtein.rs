//! Alignment by edit distance with substitutions: the quadratic table,
//! walked from the front.

use crate::diff::editops::{
    aligns_range, edit_cost, lemma_aligns_deletes, lemma_aligns_inserts, lemma_count_concat,
    lemma_count_one, lemma_count_repeat, repeat, EditKind, MAX_TOKENS,
};
use vstd::prelude::*;

verus! {

/// The least number of insertions, deletions and replacements that turn
/// `a[i..]` into `b[j..]`.
pub open spec fn lev_dist<T>(a: Seq<T>, i: int, b: Seq<T>, j: int) -> nat
    decreases a.len() - i + b.len() - j,
{
    if i < 0 || j < 0 || i > a.len() || j > b.len() {
        0
    } else if i == a.len() {
        (b.len() - j) as nat
    } else if j == b.len() {
        (a.len() - i) as nat
    } else if a[i] == b[j] {
        lev_dist(a, i + 1, b, j + 1)
    } else {
        1 + lev_least(lev_dist(a, i + 1, b, j + 1), lev_dist(a, i + 1, b, j), lev_dist(a, i, b, j + 1))
    }
}

/// The least of the three costs that follow a replacement, a deletion and an
/// insertion.
pub open spec fn lev_least(replace: nat, delete: nat, insert: nat) -> nat {
    if replace <= delete && replace <= insert {
        replace
    } else if delete < insert {
        delete
    } else {
        insert
    }
}

/// The script that the edit-distance alignment gives for `a[i..]` and
/// `b[j..]`. Equal tokens at the front are matched. On different tokens the
/// cheapest continuation is taken: a replacement wherever it is as cheap as
/// any other step, else a deletion where it is cheaper than an insertion,
/// else an insertion.
pub open spec fn lev_ops<T>(a: Seq<T>, i: int, b: Seq<T>, j: int) -> Seq<EditKind>
    decreases a.len() - i + b.len() - j,
{
    if i < 0 || j < 0 || i > a.len() || j > b.len() {
        Seq::empty()
    } else if i == a.len() {
        repeat(EditKind::Insert, (b.len() - j) as nat)
    } else if j == b.len() {
        repeat(EditKind::Delete, (a.len() - i) as nat)
    } else if a[i] == b[j] {
        seq![EditKind::Match] + lev_ops(a, i + 1, b, j + 1)
    } else {
        let replace = lev_dist(a, i + 1, b, j + 1);
        let delete = lev_dist(a, i + 1, b, j);
        let insert = lev_dist(a, i, b, j + 1);
        if replace <= delete && replace <= insert {
            seq![EditKind::Replace] + lev_ops(a, i + 1, b, j + 1)
        } else if delete < insert {
            seq![EditKind::Delete] + lev_ops(a, i + 1, b, j)
        } else {
            seq![EditKind::Insert] + lev_ops(a, i, b, j + 1)
        }
    }
}

/// The distance is no more than the tokens that both sequences have.
pub proof fn lemma_lev_bound<T>(a: Seq<T>, i: int, b: Seq<T>, j: int)
    requires
        0 <= i <= a.len(),
        0 <= j <= b.len(),
    ensures
        lev_dist(a, i, b, j) <= a.len() - i + b.len() - j,
    decreases a.len() - i + b.len() - j,
{
    if i < a.len() && j < b.len() {
        lemma_lev_bound(a, i + 1, b, j + 1);
        lemma_lev_bound(a, i + 1, b, j);
        lemma_lev_bound(a, i, b, j + 1);
    }
}

/// Dropping the first token of either sequence changes the distance by at
/// most one.
pub proof fn lemma_lev_step<T>(a: Seq<T>, i: int, b: Seq<T>, j: int)
    requires
        0 <= i <= a.len(),
        0 <= j <= b.len(),
    ensures
        j < b.len() ==> lev_dist(a, i, b, j) <= 1 + lev_dist(a, i, b, j + 1) && lev_dist(
            a,
            i,
            b,
            j + 1,
        ) <= 1 + lev_dist(a, i, b, j),
        i < a.len() ==> lev_dist(a, i, b, j) <= 1 + lev_dist(a, i + 1, b, j) && lev_dist(
            a,
            i + 1,
            b,
            j,
        ) <= 1 + lev_dist(a, i, b, j),
    decreases a.len() - i + b.len() - j,
{
    if i < a.len() && j < b.len() {
        lemma_lev_step(a, i + 1, b, j);
        lemma_lev_step(a, i, b, j + 1);
    }
}

/// The script of the edit-distance alignment is an edit script.
pub proof fn lemma_lev_ops_aligns<T>(a: Seq<T>, i: int, b: Seq<T>, j: int)
    requires
        0 <= i <= a.len(),
        0 <= j <= b.len(),
    ensures
        aligns_range(lev_ops(a, i, b, j), a, i, a.len() as int, b, j, b.len() as int),
    decreases a.len() - i + b.len() - j,
{
    let m = a.len() as int;
    let n = b.len() as int;
    if i == m {
        lemma_aligns_inserts(a, i, b, j, n);
    } else if j == n {
        lemma_aligns_deletes(a, i, m, b, j);
    } else {
        let ops = lev_ops(a, i, b, j);
        let replace = lev_dist(a, i + 1, b, j + 1);
        let delete = lev_dist(a, i + 1, b, j);
        let insert = lev_dist(a, i, b, j + 1);
        if a[i] == b[j] || (replace <= delete && replace <= insert) {
            lemma_lev_ops_aligns(a, i + 1, b, j + 1);
            assert(ops.drop_first() =~= lev_ops(a, i + 1, b, j + 1));
        } else if delete < insert {
            lemma_lev_ops_aligns(a, i + 1, b, j);
            assert(ops.drop_first() =~= lev_ops(a, i + 1, b, j));
        } else {
            lemma_lev_ops_aligns(a, i, b, j + 1);
            assert(ops.drop_first() =~= lev_ops(a, i, b, j + 1));
        }
    }
}

/// The script of the edit-distance alignment costs exactly the distance.
pub proof fn lemma_lev_ops_cost<T>(a: Seq<T>, i: int, b: Seq<T>, j: int)
    requires
        0 <= i <= a.len(),
        0 <= j <= b.len(),
    ensures
        edit_cost(lev_ops(a, i, b, j)) == lev_dist(a, i, b, j),
    decreases a.len() - i + b.len() - j,
{
    let m = a.len() as int;
    let n = b.len() as int;
    if i == m {
        lemma_count_repeat(EditKind::Insert, (n - j) as nat, EditKind::Insert);
        lemma_count_repeat(EditKind::Insert, (n - j) as nat, EditKind::Delete);
        lemma_count_repeat(EditKind::Insert, (n - j) as nat, EditKind::Replace);
    } else if j == n {
        lemma_count_repeat(EditKind::Delete, (m - i) as nat, EditKind::Insert);
        lemma_count_repeat(EditKind::Delete, (m - i) as nat, EditKind::Delete);
        lemma_count_repeat(EditKind::Delete, (m - i) as nat, EditKind::Replace);
    } else {
        let replace = lev_dist(a, i + 1, b, j + 1);
        let delete = lev_dist(a, i + 1, b, j);
        let insert = lev_dist(a, i, b, j + 1);
        let (op, ni, nj) = if a[i] == b[j] {
            (EditKind::Match, i + 1, j + 1)
        } else if replace <= delete && replace <= insert {
            (EditKind::Replace, i + 1, j + 1)
        } else if delete < insert {
            (EditKind::Delete, i + 1, j)
        } else {
            (EditKind::Insert, i, j + 1)
        };
        lemma_lev_ops_cost(a, ni, b, nj);
        let rest = lev_ops(a, ni, b, nj);
        lemma_count_concat(seq![op], rest, EditKind::Insert);
        lemma_count_concat(seq![op], rest, EditKind::Delete);
        lemma_count_concat(seq![op], rest, EditKind::Replace);
        lemma_count_one(op, EditKind::Insert);
        lemma_count_one(op, EditKind::Delete);
        lemma_count_one(op, EditKind::Replace);
    }
}

/// No edit script between `a[i..]` and `b[j..]` costs less than the distance.
pub proof fn lemma_lev_least_cost<T>(ops: Seq<EditKind>, a: Seq<T>, i: int, b: Seq<T>, j: int)
    requires
        aligns_range(ops, a, i, a.len() as int, b, j, b.len() as int),
    ensures
        edit_cost(ops) >= lev_dist(a, i, b, j),
    decreases ops.len(),
{
    if ops.len() > 0 {
        let rest = ops.drop_first();
        lemma_lev_step(a, i, b, j);
        match ops[0] {
            EditKind::Match => {
                lemma_lev_least_cost(rest, a, i + 1, b, j + 1);
            },
            EditKind::Replace => {
                lemma_lev_least_cost(rest, a, i + 1, b, j + 1);
            },
            EditKind::Delete => {
                lemma_lev_least_cost(rest, a, i + 1, b, j);
                if j < b.len() {
                    lemma_lev_step(a, i + 1, b, j);
                }
            },
            EditKind::Insert => {
                lemma_lev_least_cost(rest, a, i, b, j + 1);
                if i < a.len() {
                    lemma_lev_step(a, i, b, j + 1);
                }
            },
        }
    }
}

/// Row `i` of the table, from the row below it.
fn lev_row(a: &[u8], b: &[u8], i: usize, below: &Vec<u32>) -> (row: Vec<u32>)
    requires
        a.len() <= MAX_TOKENS,
        b.len() <= MAX_TOKENS,
        i < a.len(),
        below.len() == b.len() + 1,
        forall|j: int| 0 <= j <= b.len() ==> below[j] == lev_dist(a@, i + 1, b@, j),
    ensures
        row.len() == b.len() + 1,
        forall|j: int| 0 <= j <= b.len() ==> row[j] == lev_dist(a@, i as int, b@, j),
{
    let m = a.len();
    let n = b.len();
    let mut row: Vec<u32> = vec![0u32; n + 1];
    row.set(n, (m - i) as u32);
    let mut j = n;
    while j > 0
        invariant
            j <= n,
            n == b.len(),
            m == a.len(),
            n <= MAX_TOKENS,
            m <= MAX_TOKENS,
            i < m,
            row.len() == n + 1,
            below.len() == n + 1,
            forall|t: int| 0 <= t <= n ==> below[t] == lev_dist(a@, i + 1, b@, t),
            forall|t: int| j <= t <= n ==> row[t] == lev_dist(a@, i as int, b@, t),
        decreases j,
    {
        j = j - 1;
        proof {
            lemma_lev_bound(a@, i + 1, b@, j + 1);
            lemma_lev_bound(a@, i + 1, b@, j as int);
            lemma_lev_bound(a@, i as int, b@, j + 1);
        }
        let value = if a[i] == b[j] {
            below[j + 1]
        } else {
            let replace = below[j + 1];
            let delete = below[j];
            let insert = row[j + 1];
            if replace <= delete && replace <= insert {
                replace + 1
            } else if delete < insert {
                delete + 1
            } else {
                insert + 1
            }
        };
        row.set(j, value);
    }
    row
}

/// The table of the distances between all pairs of suffixes.
fn lev_table(a: &[u8], b: &[u8]) -> (table: Vec<Vec<u32>>)
    requires
        a.len() <= MAX_TOKENS,
        b.len() <= MAX_TOKENS,
    ensures
        table.len() == a.len() + 1,
        forall|i: int| 0 <= i <= a.len() ==> (#[trigger] table[i]).len() == b.len() + 1,
        forall|i: int, j: int|
            0 <= i <= a.len() && 0 <= j <= b.len() ==> #[trigger] table[i][j] == lev_dist(
                a@,
                i,
                b@,
                j,
            ),
{
    let m = a.len();
    let n = b.len();
    let mut last: Vec<u32> = Vec::new();
    let mut c: usize = 0;
    while c <= n
        invariant
            c <= n + 1,
            n <= MAX_TOKENS,
            n == b.len(),
            m == a.len(),
            last.len() == c,
            forall|j: int| 0 <= j < c ==> last[j] == n - j,
        decreases n + 1 - c,
    {
        last.push((n - c) as u32);
        c = c + 1;
    }
    let mut table: Vec<Vec<u32>> = Vec::new();
    let mut k: usize = 0;
    while k < m
        invariant
            k <= m,
            m <= MAX_TOKENS,
            n <= MAX_TOKENS,
            table.len() == k,
            forall|i: int| 0 <= i < k ==> (#[trigger] table[i]).len() == n + 1,
        decreases m - k,
    {
        table.push(vec![0u32; n + 1]);
        k = k + 1;
    }
    table.push(last);
    let mut i = m;
    while i > 0
        invariant
            i <= m,
            m == a.len(),
            n == b.len(),
            m <= MAX_TOKENS,
            n <= MAX_TOKENS,
            table.len() == m + 1,
            forall|r: int| 0 <= r <= m ==> (#[trigger] table[r]).len() == n + 1,
            forall|r: int, j: int|
                i <= r <= m && 0 <= j <= n ==> #[trigger] table[r][j] == lev_dist(a@, r, b@, j),
        decreases i,
    {
        i = i - 1;
        let row = lev_row(a, b, i, &table[i + 1]);
        table.set(i, row);
    }
    table
}

/// Aligns `a` with `b` at the least cost in insertions, deletions and
/// replacements. The result is the script that `lev_ops` defines: an edit
/// script that no other edit script undercuts, with a replacement wherever
/// one is as cheap as a deletion or an insertion.
pub fn levenshtein_script(a: &[u8], b: &[u8]) -> (ops: Vec<EditKind>)
    requires
        a.len() <= MAX_TOKENS,
        b.len() <= MAX_TOKENS,
    ensures
        ops@ == lev_ops(a@, 0, b@, 0),
{
    let m = a.len();
    let n = b.len();
    let table = lev_table(a, b);
    let mut ops: Vec<EditKind> = Vec::new();
    let mut i: usize = 0;
    let mut j: usize = 0;
    while i < m && j < n
        invariant
            i <= m,
            j <= n,
            m == a.len(),
            n == b.len(),
            m <= MAX_TOKENS,
            n <= MAX_TOKENS,
            table.len() == m + 1,
            forall|r: int| 0 <= r <= m ==> (#[trigger] table[r]).len() == n + 1,
            forall|r: int, c: int|
                0 <= r <= m && 0 <= c <= n ==> #[trigger] table[r][c] == lev_dist(a@, r, b@, c),
            ops@ + lev_ops(a@, i as int, b@, j as int) == lev_ops(a@, 0, b@, 0),
        decreases m - i + n - j,
    {
        let ghost before = ops@;
        let ghost tail = lev_ops(a@, i as int, b@, j as int);
        if a[i] == b[j] {
            ops.push(EditKind::Match);
            i = i + 1;
            j = j + 1;
        } else {
            let replace = table[i + 1][j + 1];
            let delete = table[i + 1][j];
            let insert = table[i][j + 1];
            if replace <= delete && replace <= insert {
                ops.push(EditKind::Replace);
                i = i + 1;
                j = j + 1;
            } else if delete < insert {
                ops.push(EditKind::Delete);
                i = i + 1;
            } else {
                ops.push(EditKind::Insert);
                j = j + 1;
            }
        }
        proof {
            assert(ops@ + lev_ops(a@, i as int, b@, j as int) =~= before + tail);
        }
    }
    while i < m
        invariant
            i <= m,
            j <= n,
            i == m || j == n,
            m == a.len(),
            n == b.len(),
            ops@ + lev_ops(a@, i as int, b@, j as int) == lev_ops(a@, 0, b@, 0),
        decreases m - i,
    {
        let ghost before = ops@;
        let ghost tail = lev_ops(a@, i as int, b@, j as int);
        ops.push(EditKind::Delete);
        i = i + 1;
        proof {
            assert(ops@ + lev_ops(a@, i as int, b@, j as int) =~= before + tail);
        }
    }
    while j < n
        invariant
            i == m,
            j <= n,
            m == a.len(),
            n == b.len(),
            ops@ + lev_ops(a@, i as int, b@, j as int) == lev_ops(a@, 0, b@, 0),
        decreases n - j,
    {
        let ghost before = ops@;
        let ghost tail = lev_ops(a@, i as int, b@, j as int);
        ops.push(EditKind::Insert);
        j = j + 1;
        proof {
            assert(ops@ + lev_ops(a@, i as int, b@, j as int) =~= before + tail);
        }
    }
    proof {
        assert(lev_ops(a@, i as int, b@, j as int) =~= Seq::<EditKind>::empty());
        assert(ops@ + Seq::<EditKind>::empty() =~= ops@);
    }
    ops
}

} // verus!
