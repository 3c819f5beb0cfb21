//! Edit scripts: what they are, when one aligns two token sequences, and how
//! they are grouped into runs.

use vstd::bytes::{
    lemma_auto_spec_u64_to_from_le_bytes, spec_u64_from_le_bytes, spec_u64_to_le_bytes,
    u64_from_le_bytes, u64_to_le_bytes,
};
use vstd::prelude::*;
use vstd::slice::slice_subrange;

verus! {

/// The longest token sequence that the alignment algorithms accept. Two
/// sequences within it have a combined length that fits every index type.
pub const MAX_TOKENS: usize = 0x3fff_ffff;

/// One step of an edit script.
#[derive(Clone, Copy, Debug, PartialEq, Eq, Structural)]
pub enum EditKind {
    /// The left and the right token are paired and equal.
    Match,
    /// The right token has no left counterpart.
    Insert,
    /// The left token has no right counterpart.
    Delete,
    /// The left and the right token are paired and differ.
    Replace,
}

impl EditKind {
    /// Whether a step of this kind consumes a token of the left sequence.
    pub open spec fn takes_left(self) -> bool {
        self != EditKind::Insert
    }

    /// Whether a step of this kind consumes a token of the right sequence.
    pub open spec fn takes_right(self) -> bool {
        self != EditKind::Delete
    }

    /// Whether a step of this kind consumes a token of the left sequence.
    pub fn consumes_left(self) -> (r: bool)
        ensures
            r == self.takes_left(),
    {
        match self {
            EditKind::Insert => false,
            _ => true,
        }
    }

    /// Whether a step of this kind consumes a token of the right sequence.
    pub fn consumes_right(self) -> (r: bool)
        ensures
            r == self.takes_right(),
    {
        match self {
            EditKind::Delete => false,
            _ => true,
        }
    }
}

/// A maximal group of consecutive steps of one kind.
#[derive(Clone, Copy, Debug, PartialEq, Eq, Structural)]
pub struct EditRun {
    pub kind: EditKind,
    pub len: usize,
}

/// How many steps of `ops` are of kind `kind`.
pub open spec fn count_kind(ops: Seq<EditKind>, kind: EditKind) -> nat
    decreases ops.len(),
{
    if ops.len() == 0 {
        0
    } else {
        (if ops[0] == kind { 1nat } else { 0nat }) + count_kind(ops.drop_first(), kind)
    }
}

/// How many tokens of the left sequence `ops` consumes.
pub open spec fn left_len(ops: Seq<EditKind>) -> nat {
    count_kind(ops, EditKind::Match) + count_kind(ops, EditKind::Delete) + count_kind(
        ops,
        EditKind::Replace,
    )
}

/// How many tokens of the right sequence `ops` consumes.
pub open spec fn right_len(ops: Seq<EditKind>) -> nat {
    count_kind(ops, EditKind::Match) + count_kind(ops, EditKind::Insert) + count_kind(
        ops,
        EditKind::Replace,
    )
}

/// How many steps of `ops` are edits, that is anything but a match.
pub open spec fn edit_cost(ops: Seq<EditKind>) -> nat {
    count_kind(ops, EditKind::Insert) + count_kind(ops, EditKind::Delete) + count_kind(
        ops,
        EditKind::Replace,
    )
}

/// `ops` turns `a[i..i1]` into `b[j..j1]`: read from the front, each step
/// consumes the tokens its kind says, a match only on equal tokens and a
/// replacement only on different ones, and both ranges are used up together.
pub open spec fn aligns_range<T>(
    ops: Seq<EditKind>,
    a: Seq<T>,
    i: int,
    i1: int,
    b: Seq<T>,
    j: int,
    j1: int,
) -> bool
    decreases ops.len(),
{
    &&& 0 <= i <= i1 <= a.len()
    &&& 0 <= j <= j1 <= b.len()
    &&& if ops.len() == 0 {
        i == i1 && j == j1
    } else {
        let rest = ops.drop_first();
        match ops[0] {
            EditKind::Match => i < i1 && j < j1 && a[i] == b[j] && aligns_range(
                rest,
                a,
                i + 1,
                i1,
                b,
                j + 1,
                j1,
            ),
            EditKind::Replace => i < i1 && j < j1 && a[i] != b[j] && aligns_range(
                rest,
                a,
                i + 1,
                i1,
                b,
                j + 1,
                j1,
            ),
            EditKind::Delete => i < i1 && aligns_range(rest, a, i + 1, i1, b, j, j1),
            EditKind::Insert => j < j1 && aligns_range(rest, a, i, i1, b, j + 1, j1),
        }
    }
}

/// `ops` is an edit script from all of `a` to all of `b`.
pub open spec fn aligned<T>(ops: Seq<EditKind>, a: Seq<T>, b: Seq<T>) -> bool {
    aligns_range(ops, a, 0, a.len() as int, b, 0, b.len() as int)
}

/// `n` steps of kind `kind`.
pub open spec fn repeat(kind: EditKind, n: nat) -> Seq<EditKind> {
    Seq::new(n, |k: int| kind)
}

/// The left sequence as the script spells it out from position `(i, j)` on:
/// a match hands over the right token it is paired with, a deletion and a
/// replacement the left token they consume.
pub open spec fn left_rebuilt<T>(ops: Seq<EditKind>, a: Seq<T>, i: int, b: Seq<T>, j: int) -> Seq<T>
    decreases ops.len(),
{
    if ops.len() == 0 {
        Seq::empty()
    } else {
        let rest = ops.drop_first();
        match ops[0] {
            EditKind::Match => seq![b[j]] + left_rebuilt(rest, a, i + 1, b, j + 1),
            EditKind::Replace => seq![a[i]] + left_rebuilt(rest, a, i + 1, b, j + 1),
            EditKind::Delete => seq![a[i]] + left_rebuilt(rest, a, i + 1, b, j),
            EditKind::Insert => left_rebuilt(rest, a, i, b, j + 1),
        }
    }
}

/// The right sequence as the script spells it out from position `(i, j)` on:
/// a match hands over the left token it is paired with, an insertion and a
/// replacement the right token they consume.
pub open spec fn right_rebuilt<T>(ops: Seq<EditKind>, a: Seq<T>, i: int, b: Seq<T>, j: int) -> Seq<
    T,
>
    decreases ops.len(),
{
    if ops.len() == 0 {
        Seq::empty()
    } else {
        let rest = ops.drop_first();
        match ops[0] {
            EditKind::Match => seq![a[i]] + right_rebuilt(rest, a, i + 1, b, j + 1),
            EditKind::Replace => seq![b[j]] + right_rebuilt(rest, a, i + 1, b, j + 1),
            EditKind::Insert => seq![b[j]] + right_rebuilt(rest, a, i, b, j + 1),
            EditKind::Delete => right_rebuilt(rest, a, i + 1, b, j),
        }
    }
}

/// The steps of a kind in two scripts, one behind the other, add up.
pub proof fn lemma_count_concat(p: Seq<EditKind>, q: Seq<EditKind>, kind: EditKind)
    ensures
        count_kind(p + q, kind) == count_kind(p, kind) + count_kind(q, kind),
    decreases p.len(),
{
    if p.len() == 0 {
        assert(p + q =~= q);
    } else {
        assert((p + q).drop_first() =~= p.drop_first() + q);
        lemma_count_concat(p.drop_first(), q, kind);
    }
}

/// A script of one step has one step of that kind and none of any other.
pub proof fn lemma_count_one(op: EditKind, kind: EditKind)
    ensures
        count_kind(seq![op], kind) == if op == kind { 1nat } else { 0nat },
{
    assert(seq![op].drop_first() =~= Seq::<EditKind>::empty());
    assert(count_kind(Seq::<EditKind>::empty(), kind) == 0);
    assert(seq![op][0] == op);
}

/// A step more at the end counts for its own kind alone.
pub proof fn lemma_count_push(p: Seq<EditKind>, op: EditKind, kind: EditKind)
    ensures
        count_kind(p.push(op), kind) == count_kind(p, kind) + if op == kind { 1nat } else { 0nat },
{
    assert(p.push(op) =~= p + seq![op]);
    lemma_count_concat(p, seq![op], kind);
    lemma_count_one(op, kind);
}

/// A script has no more steps of a kind than it has steps.
pub proof fn lemma_count_bound(p: Seq<EditKind>, kind: EditKind)
    ensures
        count_kind(p, kind) <= p.len(),
    decreases p.len(),
{
    if p.len() > 0 {
        lemma_count_bound(p.drop_first(), kind);
    }
}

/// Every step is of exactly one kind.
pub proof fn lemma_count_total(p: Seq<EditKind>)
    ensures
        count_kind(p, EditKind::Match) + count_kind(p, EditKind::Insert) + count_kind(
            p,
            EditKind::Delete,
        ) + count_kind(p, EditKind::Replace) == p.len(),
    decreases p.len(),
{
    if p.len() > 0 {
        lemma_count_total(p.drop_first());
    }
}

/// A repeated step counts for its own kind alone.
pub proof fn lemma_count_repeat(kind: EditKind, n: nat, other: EditKind)
    ensures
        count_kind(repeat(kind, n), other) == if kind == other { n } else { 0 },
    decreases n,
{
    if n > 0 {
        assert(repeat(kind, n).drop_first() =~= repeat(kind, (n - 1) as nat));
        lemma_count_repeat(kind, (n - 1) as nat, other);
    }
}

/// A script that has no step of a kind other than `kind` is `kind` repeated.
pub proof fn lemma_only_kind(p: Seq<EditKind>, kind: EditKind)
    requires
        count_kind(p, kind) == p.len(),
    ensures
        p == repeat(kind, p.len()),
    decreases p.len(),
{
    if p.len() > 0 {
        lemma_count_bound(p.drop_first(), kind);
        lemma_only_kind(p.drop_first(), kind);
        assert forall|k: int| 0 <= k < p.len() implies p[k] == kind by {
            if k > 0 {
                assert(p[k] == p.drop_first()[k - 1]);
            }
        }
    }
    assert(p =~= repeat(kind, p.len()));
}

/// Two scripts that line up end to end make one script over the joined ranges.
pub proof fn lemma_aligns_concat<T>(
    p: Seq<EditKind>,
    q: Seq<EditKind>,
    a: Seq<T>,
    i: int,
    i1: int,
    i2: int,
    b: Seq<T>,
    j: int,
    j1: int,
    j2: int,
)
    requires
        aligns_range(p, a, i, i1, b, j, j1),
        aligns_range(q, a, i1, i2, b, j1, j2),
    ensures
        aligns_range(p + q, a, i, i2, b, j, j2),
    decreases p.len(),
{
    if p.len() == 0 {
        assert(p + q =~= q);
    } else {
        assert((p + q).drop_first() =~= p.drop_first() + q);
        assert((p + q)[0] == p[0]);
        match p[0] {
            EditKind::Match | EditKind::Replace => {
                lemma_aligns_concat(p.drop_first(), q, a, i + 1, i1, i2, b, j + 1, j1, j2);
            },
            EditKind::Delete => {
                lemma_aligns_concat(p.drop_first(), q, a, i + 1, i1, i2, b, j, j1, j2);
            },
            EditKind::Insert => {
                lemma_aligns_concat(p.drop_first(), q, a, i, i1, i2, b, j + 1, j1, j2);
            },
        }
    }
}

/// A script over a range consumes exactly that range on either side.
pub proof fn lemma_aligns_lengths<T>(
    ops: Seq<EditKind>,
    a: Seq<T>,
    i: int,
    i1: int,
    b: Seq<T>,
    j: int,
    j1: int,
)
    requires
        aligns_range(ops, a, i, i1, b, j, j1),
    ensures
        left_len(ops) == i1 - i,
        right_len(ops) == j1 - j,
    decreases ops.len(),
{
    if ops.len() > 0 {
        let rest = ops.drop_first();
        match ops[0] {
            EditKind::Match | EditKind::Replace => {
                lemma_aligns_lengths(rest, a, i + 1, i1, b, j + 1, j1);
            },
            EditKind::Delete => {
                lemma_aligns_lengths(rest, a, i + 1, i1, b, j, j1);
            },
            EditKind::Insert => {
                lemma_aligns_lengths(rest, a, i, i1, b, j + 1, j1);
            },
        }
    }
}

/// A run of deletions aligns a left range with an empty right range.
pub proof fn lemma_aligns_deletes<T>(a: Seq<T>, i: int, i1: int, b: Seq<T>, j: int)
    requires
        0 <= i <= i1 <= a.len(),
        0 <= j <= b.len(),
    ensures
        aligns_range(repeat(EditKind::Delete, (i1 - i) as nat), a, i, i1, b, j, j),
    decreases i1 - i,
{
    let ops = repeat(EditKind::Delete, (i1 - i) as nat);
    if i < i1 {
        assert(ops.drop_first() =~= repeat(EditKind::Delete, (i1 - i - 1) as nat));
        lemma_aligns_deletes(a, i + 1, i1, b, j);
    }
}

/// A run of insertions aligns an empty left range with a right range.
pub proof fn lemma_aligns_inserts<T>(a: Seq<T>, i: int, b: Seq<T>, j: int, j1: int)
    requires
        0 <= i <= a.len(),
        0 <= j <= j1 <= b.len(),
    ensures
        aligns_range(repeat(EditKind::Insert, (j1 - j) as nat), a, i, i, b, j, j1),
    decreases j1 - j,
{
    let ops = repeat(EditKind::Insert, (j1 - j) as nat);
    if j < j1 {
        assert(ops.drop_first() =~= repeat(EditKind::Insert, (j1 - j - 1) as nat));
        lemma_aligns_inserts(a, i, b, j + 1, j1);
    }
}

/// A run of matches aligns two ranges of equal length that agree token by token.
pub proof fn lemma_aligns_matches<T>(a: Seq<T>, i: int, b: Seq<T>, j: int, n: nat)
    requires
        0 <= i,
        i + n <= a.len(),
        0 <= j,
        j + n <= b.len(),
        forall|k: int| i <= k < i + n ==> (#[trigger] a[k]) == b[k - i + j],
    ensures
        aligns_range(repeat(EditKind::Match, n), a, i, i + n, b, j, j + n),
    decreases n,
{
    let ops = repeat(EditKind::Match, n);
    if n > 0 {
        assert(ops.drop_first() =~= repeat(EditKind::Match, (n - 1) as nat));
        assert(a[i] == b[i - i + j]);
        assert forall|k: int| i + 1 <= k < i + 1 + (n - 1) as nat implies (#[trigger] a[k]) == b[k
            - (i + 1) + (j + 1)] by {
            assert(a[k] == b[k - i + j]);
        }
        lemma_aligns_matches(a, i + 1, b, j + 1, (n - 1) as nat);
    }
}

/// Read off an aligning script, the matches with the deletions and
/// replacements give back the left range, and the matches with the
/// insertions and replacements give back the right range.
pub proof fn lemma_rebuilt_ranges<T>(
    ops: Seq<EditKind>,
    a: Seq<T>,
    i: int,
    i1: int,
    b: Seq<T>,
    j: int,
    j1: int,
)
    requires
        aligns_range(ops, a, i, i1, b, j, j1),
    ensures
        left_rebuilt(ops, a, i, b, j) == a.subrange(i, i1),
        right_rebuilt(ops, a, i, b, j) == b.subrange(j, j1),
    decreases ops.len(),
{
    if ops.len() == 0 {
        assert(a.subrange(i, i1) =~= Seq::<T>::empty());
        assert(b.subrange(j, j1) =~= Seq::<T>::empty());
    } else {
        let rest = ops.drop_first();
        match ops[0] {
            EditKind::Match | EditKind::Replace => {
                lemma_rebuilt_ranges(rest, a, i + 1, i1, b, j + 1, j1);
                assert(a.subrange(i, i1) =~= seq![a[i]] + a.subrange(i + 1, i1));
                assert(b.subrange(j, j1) =~= seq![b[j]] + b.subrange(j + 1, j1));
            },
            EditKind::Delete => {
                lemma_rebuilt_ranges(rest, a, i + 1, i1, b, j, j1);
                assert(a.subrange(i, i1) =~= seq![a[i]] + a.subrange(i + 1, i1));
            },
            EditKind::Insert => {
                lemma_rebuilt_ranges(rest, a, i, i1, b, j + 1, j1);
                assert(b.subrange(j, j1) =~= seq![b[j]] + b.subrange(j + 1, j1));
            },
        }
    }
}

/// The matches, deletions and replacements of an edit script from `a` to `b`
/// reconstruct `a` exactly, and its matches, insertions and replacements
/// reconstruct `b` exactly.
pub proof fn lemma_script_reconstructs<T>(ops: Seq<EditKind>, a: Seq<T>, b: Seq<T>)
    requires
        aligned(ops, a, b),
    ensures
        left_rebuilt(ops, a, 0, b, 0) == a,
        right_rebuilt(ops, a, 0, b, 0) == b,
        left_len(ops) == a.len(),
        right_len(ops) == b.len(),
{
    lemma_rebuilt_ranges(ops, a, 0, a.len() as int, b, 0, b.len() as int);
    lemma_aligns_lengths(ops, a, 0, a.len() as int, b, 0, b.len() as int);
    assert(a.subrange(0, a.len() as int) =~= a);
    assert(b.subrange(0, b.len() as int) =~= b);
}

/// The steps that a list of runs stands for.
pub open spec fn expand(runs: Seq<EditRun>) -> Seq<EditKind>
    decreases runs.len(),
{
    if runs.len() == 0 {
        Seq::empty()
    } else {
        expand(runs.drop_last()) + repeat(runs.last().kind, runs.last().len as nat)
    }
}

/// No run is empty and no two neighbours are of the same kind.
pub open spec fn normalized(runs: Seq<EditRun>) -> bool {
    &&& forall|k: int| 0 <= k < runs.len() ==> (#[trigger] runs[k]).len > 0
    &&& forall|k: int, l: int|
        0 <= k && l == k + 1 && l < runs.len() ==> (#[trigger] runs[k]).kind != (
        #[trigger] runs[l]).kind
}

/// A run more at the end stands for its steps at the end.
pub proof fn lemma_expand_push(runs: Seq<EditRun>, run: EditRun)
    ensures
        expand(runs.push(run)) == expand(runs) + repeat(run.kind, run.len as nat),
{
    assert(runs.push(run).drop_last() =~= runs);
}

/// The steps of a list of runs are those of its first run, then those of the
/// runs behind it.
pub proof fn lemma_expand_first(runs: Seq<EditRun>)
    requires
        runs.len() > 0,
    ensures
        expand(runs) == repeat(runs[0].kind, runs[0].len as nat) + expand(runs.drop_first()),
    decreases runs.len(),
{
    if runs.len() == 1 {
        assert(runs.drop_last() =~= Seq::<EditRun>::empty());
        assert(runs.drop_first() =~= Seq::<EditRun>::empty());
        assert(expand(runs.drop_last()) =~= Seq::<EditKind>::empty());
        assert(expand(runs.drop_first()) =~= Seq::<EditKind>::empty());
        assert(expand(runs) =~= repeat(runs[0].kind, runs[0].len as nat) + expand(
            runs.drop_first(),
        ));
    } else {
        lemma_expand_first(runs.drop_last());
        assert(runs.drop_last().drop_first() =~= runs.drop_first().drop_last());
        assert(runs.drop_first().last() == runs.last());
        assert(runs.drop_last()[0] == runs[0]);
        let head = repeat(runs[0].kind, runs[0].len as nat);
        let tail = repeat(runs.last().kind, runs.last().len as nat);
        assert(expand(runs) =~= head + (expand(runs.drop_first().drop_last()) + tail));
    }
}

/// A normalized list of runs whose steps are all of one kind is a single run.
pub proof fn lemma_single_run(runs: Seq<EditRun>, kind: EditKind)
    requires
        normalized(runs),
        expand(runs).len() > 0,
        count_kind(expand(runs), kind) == expand(runs).len(),
    ensures
        runs.len() == 1,
        runs[0].kind == kind,
        runs[0].len == expand(runs).len(),
{
    lemma_only_kind(expand(runs), kind);
    assert(runs.len() > 0);
    let front = runs.drop_last();
    let tail = repeat(runs.last().kind, runs.last().len as nat);
    assert(expand(runs) == expand(front) + tail);
    assert(runs[runs.len() - 1].len > 0);
    assert(expand(runs)[expand(front).len() as int] == tail[0]);
    assert(runs.last().kind == kind);
    if front.len() > 0 {
        let tail2 = repeat(front.last().kind, front.last().len as nat);
        assert(expand(front) == expand(front.drop_last()) + tail2);
        assert(runs[runs.len() - 2].len > 0);
        assert(front.last() == runs[runs.len() - 2]);
        assert(expand(front)[expand(front.drop_last()).len() as int] == tail2[0]);
        assert(expand(runs)[expand(front.drop_last()).len() as int] == expand(front)[expand(
            front.drop_last(),
        ).len() as int]);
        assert(runs[runs.len() - 2].kind != runs[runs.len() - 1].kind);
        assert(false);
    }
    assert(expand(front) =~= Seq::<EditKind>::empty());
}

/// Closing a run behind a normalized list keeps the list normalized.
pub proof fn lemma_normalized_push(runs: Seq<EditRun>, run: EditRun)
    requires
        normalized(runs),
        run.len > 0,
        runs.len() > 0 ==> runs.last().kind != run.kind,
    ensures
        normalized(runs.push(run)),
{
    let next = runs.push(run);
    assert forall|t: int| 0 <= t < next.len() implies (#[trigger] next[t]).len > 0 by {
        if t < runs.len() {
            assert(next[t] == runs[t]);
        }
    }
    assert forall|t: int, u: int| 0 <= t && u == t + 1 && u < next.len() implies (
    #[trigger] next[t]).kind != (#[trigger] next[u]).kind by {
        assert(next[t] == runs[t]);
        if u < runs.len() {
            assert(next[u] == runs[u]);
        }
    }
}

/// The runs of a script: every maximal group of consecutive steps of one
/// kind, in order.
pub open spec fn rle(ops: Seq<EditKind>) -> Seq<EditRun>
    decreases ops.len(),
{
    if ops.len() == 0 {
        Seq::empty()
    } else {
        let front = rle(ops.drop_last());
        let kind = ops.last();
        if front.len() > 0 && front.last().kind == kind {
            front.drop_last().push(EditRun { kind, len: (front.last().len + 1) as usize })
        } else {
            front.push(EditRun { kind, len: 1 })
        }
    }
}

/// The runs of a script stand for the script, none is empty, and neighbours
/// differ in kind.
pub proof fn lemma_rle(ops: Seq<EditKind>)
    requires
        ops.len() <= usize::MAX,
    ensures
        expand(rle(ops)) == ops,
        normalized(rle(ops)),
        ops.len() > 0 ==> rle(ops).len() > 0 && rle(ops).last().kind == ops.last(),
        ops.len() == 0 ==> rle(ops).len() == 0,
        forall|k: int| 0 <= k < rle(ops).len() ==> (#[trigger] rle(ops)[k]).len <= ops.len(),
    decreases ops.len(),
{
    if ops.len() > 0 {
        let before = ops.drop_last();
        let front = rle(before);
        let kind = ops.last();
        lemma_rle(before);
        assert(ops =~= before.push(kind));
        if front.len() > 0 && front.last().kind == kind {
            let grown = EditRun { kind, len: (front.last().len + 1) as usize };
            let next = front.drop_last().push(grown);
            assert(front.last() == front[front.len() - 1]);
            lemma_expand_push(front.drop_last(), grown);
            assert(expand(front) == expand(front.drop_last()) + repeat(
                kind,
                front.last().len as nat,
            ));
            assert(repeat(kind, grown.len as nat) =~= repeat(kind, front.last().len as nat).push(
                kind,
            ));
            assert(expand(next) =~= expand(front).push(kind));
            assert forall|t: int| 0 <= t < next.len() implies (#[trigger] next[t]).len > 0 && next[t].len
                <= ops.len() by {
                if t < next.len() - 1 {
                    assert(next[t] == front[t]);
                }
            }
            assert forall|t: int, u: int| 0 <= t && u == t + 1 && u < next.len() implies (
            #[trigger] next[t]).kind != (#[trigger] next[u]).kind by {
                assert(next[t] == front[t]);
                assert(next[u].kind == front[u].kind);
            }
        } else {
            let run = EditRun { kind, len: 1 };
            lemma_expand_push(front, run);
            lemma_normalized_push(front, run);
            assert(repeat(kind, 1) =~= seq![kind]);
            assert(expand(front.push(run)) =~= before.push(kind));
            let next = front.push(run);
            assert forall|t: int| 0 <= t < next.len() implies (#[trigger] next[t]).len <= ops.len() by {
                if t < front.len() {
                    assert(next[t] == front[t]);
                }
            }
        }
    }
}

/// Groups the steps of a script into runs.
pub fn group_runs(ops: &Vec<EditKind>) -> (runs: Vec<EditRun>)
    ensures
        runs@ == rle(ops@),
        expand(runs@) == ops@,
        normalized(runs@),
{
    let mut runs: Vec<EditRun> = Vec::new();
    let mut k: usize = 0;
    while k < ops.len()
        invariant
            k <= ops.len(),
            runs@ == rle(ops@.take(k as int)),
        decreases ops.len() - k,
    {
        let kind = ops[k];
        let count = runs.len();
        proof {
            lemma_rle(ops@.take(k as int));
            assert(ops@.take(k + 1).drop_last() =~= ops@.take(k as int));
            assert(ops@.take(k + 1).last() == kind);
        }
        if count > 0 && runs[count - 1].kind == kind {
            let grown = EditRun { kind, len: runs[count - 1].len + 1 };
            proof {
                assert(runs@.update(count - 1, grown) =~= runs@.drop_last().push(grown));
            }
            runs.set(count - 1, grown);
        } else {
            runs.push(EditRun { kind, len: 1 });
        }
        k = k + 1;
    }
    proof {
        assert(ops@.take(k as int) =~= ops@);
        lemma_rle(ops@);
    }
    runs
}

/// The byte that stands for a kind of step in an encoded script.
pub open spec fn kind_code(kind: EditKind) -> u8 {
    match kind {
        EditKind::Match => 0,
        EditKind::Insert => 1,
        EditKind::Delete => 2,
        EditKind::Replace => 3,
    }
}

/// The nine bytes of one run: its kind, then its length, low byte first.
pub open spec fn encode_run(run: EditRun) -> Seq<u8> {
    seq![kind_code(run.kind)] + spec_u64_to_le_bytes(run.len as u64)
}

/// The encoding of a list of runs: the encodings of its runs in order.
pub open spec fn encode_spec(runs: Seq<EditRun>) -> Seq<u8>
    decreases runs.len(),
{
    if runs.len() == 0 {
        Seq::empty()
    } else {
        encode_spec(runs.drop_last()) + encode_run(runs.last())
    }
}

/// An encoding has nine bytes for every run.
pub proof fn lemma_encode_len(runs: Seq<EditRun>)
    ensures
        encode_spec(runs).len() == 9 * runs.len(),
    decreases runs.len(),
{
    lemma_auto_spec_u64_to_from_le_bytes();
    if runs.len() > 0 {
        lemma_encode_len(runs.drop_last());
    }
}

/// The `k`-th block of nine bytes of an encoding is the encoding of the `k`-th run.
pub proof fn lemma_encode_block(runs: Seq<EditRun>, k: int)
    requires
        0 <= k < runs.len(),
    ensures
        encode_spec(runs).len() == 9 * runs.len(),
        encode_spec(runs).subrange(9 * k, 9 * k + 9) == encode_run(runs[k]),
    decreases runs.len(),
{
    lemma_auto_spec_u64_to_from_le_bytes();
    lemma_encode_len(runs);
    lemma_encode_len(runs.drop_last());
    if k == runs.len() - 1 {
        assert(encode_spec(runs).subrange(9 * k, 9 * k + 9) =~= encode_run(runs.last()));
    } else {
        lemma_encode_block(runs.drop_last(), k);
        assert(encode_spec(runs).subrange(9 * k, 9 * k + 9) =~= encode_spec(
            runs.drop_last(),
        ).subrange(9 * k, 9 * k + 9));
    }
}

/// A run is determined by its nine bytes.
pub proof fn lemma_encode_run_injective(r1: EditRun, r2: EditRun)
    requires
        encode_run(r1) == encode_run(r2),
    ensures
        r1 == r2,
{
    lemma_auto_spec_u64_to_from_le_bytes();
    let e1 = encode_run(r1);
    let e2 = encode_run(r2);
    assert(e1[0] == kind_code(r1.kind));
    assert(e2[0] == kind_code(r2.kind));
    assert(e1.subrange(1, 9) =~= spec_u64_to_le_bytes(r1.len as u64));
    assert(e2.subrange(1, 9) =~= spec_u64_to_le_bytes(r2.len as u64));
    assert(spec_u64_from_le_bytes(spec_u64_to_le_bytes(r1.len as u64)) == r1.len as u64);
    assert(spec_u64_from_le_bytes(spec_u64_to_le_bytes(r2.len as u64)) == r2.len as u64);
}

/// Encoding loses nothing: two lists of runs with the same encoding are the
/// same list, so decoding an encoded script gives the script back.
pub proof fn lemma_encode_injective(r1: Seq<EditRun>, r2: Seq<EditRun>)
    requires
        encode_spec(r1) == encode_spec(r2),
    ensures
        r1 == r2,
{
    lemma_encode_len(r1);
    lemma_encode_len(r2);
    assert(r1.len() == r2.len());
    assert forall|k: int| 0 <= k < r1.len() implies r1[k] == r2[k] by {
        lemma_encode_block(r1, k);
        lemma_encode_block(r2, k);
        lemma_encode_run_injective(r1[k], r2[k]);
    }
    assert(r1 =~= r2);
}

fn kind_to_code(kind: EditKind) -> (c: u8)
    ensures
        c == kind_code(kind),
{
    match kind {
        EditKind::Match => 0,
        EditKind::Insert => 1,
        EditKind::Delete => 2,
        EditKind::Replace => 3,
    }
}

fn kind_from_code(c: u8) -> (r: Option<EditKind>)
    ensures
        match r {
            Some(kind) => kind_code(kind) == c,
            None => forall|kind: EditKind| kind_code(kind) != c,
        },
{
    if c == 0 {
        Some(EditKind::Match)
    } else if c == 1 {
        Some(EditKind::Insert)
    } else if c == 2 {
        Some(EditKind::Delete)
    } else if c == 3 {
        Some(EditKind::Replace)
    } else {
        None
    }
}

/// Encodes a list of runs as bytes, nine for each run.
pub fn encode_script(runs: &Vec<EditRun>) -> (bytes: Vec<u8>)
    ensures
        bytes@ == encode_spec(runs@),
{
    let mut bytes: Vec<u8> = Vec::new();
    let mut k: usize = 0;
    while k < runs.len()
        invariant
            k <= runs.len(),
            bytes@ == encode_spec(runs@.take(k as int)),
        decreases runs.len() - k,
    {
        let run = runs[k];
        let mut len_bytes = u64_to_le_bytes(run.len as u64);
        proof {
            assert(runs@.take(k + 1).drop_last() =~= runs@.take(k as int));
            assert(runs@.take(k + 1).last() == run);
        }
        bytes.push(kind_to_code(run.kind));
        bytes.append(&mut len_bytes);
        proof {
            assert(bytes@ =~= encode_spec(runs@.take(k as int)) + encode_run(run));
        }
        k = k + 1;
    }
    proof {
        assert(runs@.take(k as int) =~= runs@);
    }
    bytes
}

/// Decodes a list of runs from bytes. It succeeds on exactly the byte strings
/// that are the encoding of some list of runs, and gives that list.
pub fn decode_script(bytes: &[u8]) -> (r: Option<Vec<EditRun>>)
    ensures
        match r {
            Some(runs) => encode_spec(runs@) == bytes@,
            None => forall|runs: Seq<EditRun>| encode_spec(runs) != bytes@,
        },
{
    let n = bytes.len();
    if n % 9 != 0 {
        proof {
            assert forall|runs: Seq<EditRun>| encode_spec(runs) != bytes@ by {
                lemma_encode_len(runs);
            }
        }
        return None;
    }
    let count = n / 9;
    let mut runs: Vec<EditRun> = Vec::new();
    let mut k: usize = 0;
    while k < count
        invariant
            k <= count,
            n == bytes@.len(),
            n == 9 * count,
            runs.len() == k,
            encode_spec(runs@) == bytes@.take(9 * k),
        decreases count - k,
    {
        let block = slice_subrange(bytes, 9 * k, 9 * k + 9);
        let len_bytes = slice_subrange(block, 1, 9);
        let len64 = u64_from_le_bytes(len_bytes);
        let kind = kind_from_code(block[0]);
        proof {
            lemma_auto_spec_u64_to_from_le_bytes();
            assert(spec_u64_to_le_bytes(spec_u64_from_le_bytes(len_bytes@)) == len_bytes@);
        }
        if kind.is_none() || len64 > usize::MAX as u64 {
            proof {
                assert forall|other: Seq<EditRun>| encode_spec(other) != bytes@ by {
                    lemma_encode_len(other);
                    if encode_spec(other) == bytes@ {
                        lemma_encode_block(other, k as int);
                        let e = encode_run(other[k as int]);
                        assert(e == block@);
                        assert(e[0] == kind_code(other[k as int].kind));
                        assert(e.subrange(1, 9) =~= spec_u64_to_le_bytes(
                            other[k as int].len as u64,
                        ));
                        assert(spec_u64_from_le_bytes(
                            spec_u64_to_le_bytes(other[k as int].len as u64),
                        ) == other[k as int].len as u64);
                    }
                }
            }
            return None;
        }
        let run = EditRun { kind: kind.unwrap(), len: len64 as usize };
        proof {
            lemma_expand_push(runs@, run);
            assert(runs@.push(run).drop_last() =~= runs@);
            assert(encode_run(run) =~= block@);
            assert(bytes@.take(9 * (k + 1)) =~= bytes@.take(9 * k) + block@);
        }
        runs.push(run);
        k = k + 1;
    }
    proof {
        assert(bytes@.take(9 * k) =~= bytes@);
    }
    Some(runs)
}

} // verus!
