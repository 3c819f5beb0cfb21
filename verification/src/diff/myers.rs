//! Alignment by the greedy search for a shortest edit script: round after
//! round the furthest point on every diagonal of the edit graph is pushed on
//! by one more edit, until the far corner is reached.

use crate::diff::editops::{
    aligned, aligns_range, count_kind, edit_cost, lemma_aligns_concat, lemma_aligns_deletes,
    lemma_aligns_inserts, lemma_count_concat, lemma_count_push, lemma_count_repeat, repeat,
    EditKind, MAX_TOKENS,
};
use vstd::prelude::*;

verus! {

/// Where the run of equal tokens that starts at `a[x]` and `b[y]` ends in `a`.
pub open spec fn snake_end<T>(a: Seq<T>, b: Seq<T>, x: int, y: int) -> int
    decreases a.len() - x,
{
    if 0 <= x < a.len() && 0 <= y < b.len() && a[x] == b[y] {
        snake_end(a, b, x + 1, y + 1)
    } else {
        x
    }
}

/// The furthest position in `a` that `d` edits, `t` of them deletions, can
/// reach when every edit is followed by the longest run of matches. The
/// position in `b` is then `frontier - t + (d - t)`.
pub open spec fn frontier<T>(a: Seq<T>, b: Seq<T>, d: int, t: int) -> int
    decreases d,
{
    if d <= 0 {
        snake_end(a, b, 0, 0)
    } else {
        let up = frontier(a, b, d - 1, t);
        let left = frontier(a, b, d - 1, t - 1);
        let x = if t <= 0 || (t < d && left < up) {
            up
        } else {
            left + 1
        };
        snake_end(a, b, x, x - (2 * t - d))
    }
}

/// Whether the last edit on the way to the frontier of `(d, t)` is an
/// insertion: it is where no deletion is possible, or where the insertion
/// starts further on than the deletion would.
pub open spec fn goes_down<T>(a: Seq<T>, b: Seq<T>, d: int, t: int) -> bool {
    t <= 0 || (t < d && frontier(a, b, d - 1, t - 1) < frontier(a, b, d - 1, t))
}

/// The position in `a` right behind the last edit on the way to the
/// frontier of `(d, t)`.
pub open spec fn frontier_start<T>(a: Seq<T>, b: Seq<T>, d: int, t: int) -> int {
    if goes_down(a, b, d, t) {
        frontier(a, b, d - 1, t)
    } else {
        frontier(a, b, d - 1, t - 1) + 1
    }
}

/// Whether `d` edits reach the end of both sequences.
pub open spec fn reaches<T>(a: Seq<T>, b: Seq<T>, d: int) -> bool {
    let twice = d + a.len() - b.len();
    twice >= 0 && twice % 2 == 0 && twice / 2 <= d && frontier(a, b, d, twice / 2) >= a.len()
}

/// The first number of edits from `d` on that reaches the end of both
/// sequences.
pub open spec fn first_reaching<T>(a: Seq<T>, b: Seq<T>, d: int) -> int
    decreases a.len() + b.len() - d,
{
    if d >= a.len() + b.len() || reaches(a, b, d) {
        d
    } else {
        first_reaching(a, b, d + 1)
    }
}

/// The least number of insertions and deletions that turn `a` into `b`.
pub open spec fn myers_distance<T>(a: Seq<T>, b: Seq<T>) -> int {
    first_reaching(a, b, 0)
}

/// The script that leads to the frontier of `(d, t)`.
pub open spec fn myers_path<T>(a: Seq<T>, b: Seq<T>, d: int, t: int) -> Seq<EditKind>
    decreases d,
{
    if d <= 0 {
        repeat(EditKind::Match, frontier(a, b, 0, 0) as nat)
    } else if goes_down(a, b, d, t) {
        myers_path(a, b, d - 1, t).push(EditKind::Insert) + repeat(
            EditKind::Match,
            (frontier(a, b, d, t) - frontier_start(a, b, d, t)) as nat,
        )
    } else {
        myers_path(a, b, d - 1, t - 1).push(EditKind::Delete) + repeat(
            EditKind::Match,
            (frontier(a, b, d, t) - frontier_start(a, b, d, t)) as nat,
        )
    }
}

/// The script of the greedy search: the way to the first frontier that
/// reaches the end of both sequences.
pub open spec fn myers_ops<T>(a: Seq<T>, b: Seq<T>) -> Seq<EditKind> {
    let d = myers_distance(a, b);
    myers_path(a, b, d, (d + a.len() - b.len()) / 2)
}

/// `ops` is a way through the edit graph from its corner to the point
/// `(x, y)`: a match steps over a pair of equal tokens, a deletion steps on
/// in `a` and an insertion in `b`, also beyond the end of the sequence.
pub open spec fn walks<T>(ops: Seq<EditKind>, a: Seq<T>, b: Seq<T>, x: int, y: int) -> bool
    decreases ops.len(),
{
    if ops.len() == 0 {
        x == 0 && y == 0
    } else {
        let rest = ops.drop_last();
        match ops.last() {
            EditKind::Match => 0 < x <= a.len() && 0 < y <= b.len() && a[x - 1] == b[y - 1]
                && walks(rest, a, b, x - 1, y - 1),
            EditKind::Delete => walks(rest, a, b, x - 1, y),
            EditKind::Insert => walks(rest, a, b, x, y - 1),
            EditKind::Replace => false,
        }
    }
}

/// The number of deletions of a script.
pub open spec fn deletions(ops: Seq<EditKind>) -> int {
    count_kind(ops, EditKind::Delete) as int
}

/// A run of equal tokens ends at or behind its start and within both
/// sequences, holds equal tokens throughout, and cannot be pushed on.
pub proof fn lemma_snake<T>(a: Seq<T>, b: Seq<T>, x: int, y: int)
    ensures
        snake_end(a, b, x, y) >= x,
        0 <= x <= a.len() ==> snake_end(a, b, x, y) <= a.len(),
        0 <= y <= b.len() ==> snake_end(a, b, x, y) - x + y <= b.len(),
        forall|i: int|
            x <= i < snake_end(a, b, x, y) ==> 0 <= i < a.len() && 0 <= i - x + y < b.len()
                && (#[trigger] a[i]) == b[i - x + y],
        !(0 <= snake_end(a, b, x, y) < a.len() && 0 <= snake_end(a, b, x, y) - x + y < b.len()
            && a[snake_end(a, b, x, y)] == b[snake_end(a, b, x, y) - x + y]),
    decreases a.len() - x,
{
    if 0 <= x < a.len() && 0 <= y < b.len() && a[x] == b[y] {
        lemma_snake(a, b, x + 1, y + 1);
        let e = snake_end(a, b, x, y);
        assert forall|i: int| x <= i < e implies 0 <= i < a.len() && 0 <= i - x + y < b.len() && (
        #[trigger] a[i]) == b[i - x + y] by {
            if i > x {
                assert(a[i] == b[i - (x + 1) + (y + 1)]);
            }
        }
    }
}

/// Every frontier lies in `a` or at most `d` positions behind its end, and
/// the position in `b` that goes with it is not negative.
pub proof fn lemma_frontier_bounds<T>(a: Seq<T>, b: Seq<T>, d: int, t: int)
    requires
        0 <= t <= d,
    ensures
        0 <= frontier(a, b, d, t) <= a.len() + d,
        0 <= frontier(a, b, d, t) - (2 * t - d) <= b.len() + d,
        d > 0 ==> 0 <= frontier_start(a, b, d, t) <= frontier(a, b, d, t),
        d > 0 ==> frontier_start(a, b, d, t) - (2 * t - d) >= 0,
        d > 0 ==> frontier_start(a, b, d, t) <= a.len() + d,
    decreases d,
{
    if d <= 0 {
        lemma_snake(a, b, 0, 0);
    } else {
        if t <= d - 1 {
            lemma_frontier_bounds(a, b, d - 1, t);
        }
        if t >= 1 {
            lemma_frontier_bounds(a, b, d - 1, t - 1);
        }
        let x = frontier_start(a, b, d, t);
        let y = x - (2 * t - d);
        lemma_snake(a, b, x, y);
        assert(frontier(a, b, d, t) == snake_end(a, b, x, y));
        if x > a.len() {
            assert(snake_end(a, b, x, y) == x);
        }
        if y > b.len() {
            assert(snake_end(a, b, x, y) == x);
        }
    }
}

/// A frontier cannot be pushed on by a match.
pub proof fn lemma_frontier_stuck<T>(a: Seq<T>, b: Seq<T>, d: int, t: int)
    requires
        0 <= t <= d,
    ensures
        ({
            let f = frontier(a, b, d, t);
            let y = f - (2 * t - d);
            !(0 <= f < a.len() && 0 <= y < b.len() && a[f] == b[y])
        }),
{
    if d <= 0 {
        lemma_snake(a, b, 0, 0);
    } else {
        let x = frontier_start(a, b, d, t);
        lemma_snake(a, b, x, x - (2 * t - d));
        assert(frontier(a, b, d, t) == snake_end(a, b, x, x - (2 * t - d)));
    }
}

/// The point that a way through the edit graph leads to is given by its
/// numbers of matches, deletions and insertions.
pub proof fn lemma_walk_counts<T>(ops: Seq<EditKind>, a: Seq<T>, b: Seq<T>, x: int, y: int)
    requires
        walks(ops, a, b, x, y),
    ensures
        x == count_kind(ops, EditKind::Match) + count_kind(ops, EditKind::Delete),
        y == count_kind(ops, EditKind::Match) + count_kind(ops, EditKind::Insert),
        count_kind(ops, EditKind::Replace) == 0,
        x - y == 2 * deletions(ops) - edit_cost(ops),
        0 <= deletions(ops) <= edit_cost(ops),
    decreases ops.len(),
{
    if ops.len() == 0 {
    } else {
        let rest = ops.drop_last();
        assert(ops =~= rest.push(ops.last()));
        lemma_count_push(rest, ops.last(), EditKind::Match);
        lemma_count_push(rest, ops.last(), EditKind::Delete);
        lemma_count_push(rest, ops.last(), EditKind::Insert);
        lemma_count_push(rest, ops.last(), EditKind::Replace);
        match ops.last() {
            EditKind::Match => lemma_walk_counts(rest, a, b, x - 1, y - 1),
            EditKind::Delete => lemma_walk_counts(rest, a, b, x - 1, y),
            EditKind::Insert => lemma_walk_counts(rest, a, b, x, y - 1),
            EditKind::Replace => {},
        }
    }
}

/// No way through the edit graph with `d` edits, `t` of them deletions,
/// leads further in `a` than the frontier of `(d, t)`.
pub proof fn lemma_frontier_dominates<T>(ops: Seq<EditKind>, a: Seq<T>, b: Seq<T>, x: int, y: int)
    requires
        walks(ops, a, b, x, y),
    ensures
        x <= frontier(a, b, edit_cost(ops) as int, deletions(ops)),
    decreases ops.len(),
{
    let d = edit_cost(ops) as int;
    let t = deletions(ops);
    lemma_walk_counts(ops, a, b, x, y);
    if ops.len() == 0 {
        lemma_snake(a, b, 0, 0);
    } else {
        let rest = ops.drop_last();
        assert(ops =~= rest.push(ops.last()));
        lemma_count_push(rest, ops.last(), EditKind::Match);
        lemma_count_push(rest, ops.last(), EditKind::Delete);
        lemma_count_push(rest, ops.last(), EditKind::Insert);
        lemma_count_push(rest, ops.last(), EditKind::Replace);
        match ops.last() {
            EditKind::Match => {
                lemma_frontier_dominates(rest, a, b, x - 1, y - 1);
                lemma_walk_counts(rest, a, b, x - 1, y - 1);
                lemma_frontier_stuck(a, b, d, t);
            },
            EditKind::Delete => {
                lemma_frontier_dominates(rest, a, b, x - 1, y);
                lemma_walk_counts(rest, a, b, x - 1, y);
                let s = frontier_start(a, b, d, t);
                lemma_snake(a, b, s, s - (2 * t - d));
                assert(frontier(a, b, d, t) == snake_end(a, b, s, s - (2 * t - d)));
            },
            EditKind::Insert => {
                lemma_frontier_dominates(rest, a, b, x, y - 1);
                lemma_walk_counts(rest, a, b, x, y - 1);
                let s = frontier_start(a, b, d, t);
                lemma_snake(a, b, s, s - (2 * t - d));
                assert(frontier(a, b, d, t) == snake_end(a, b, s, s - (2 * t - d)));
            },
            EditKind::Replace => {},
        }
    }
}

/// Every position of a run of equal tokens lies in both sequences and holds
/// equal tokens.
pub proof fn lemma_snake_at<T>(a: Seq<T>, b: Seq<T>, x: int, y: int, i: int)
    requires
        x <= i < snake_end(a, b, x, y),
    ensures
        0 <= i < a.len(),
        0 <= i - x + y < b.len(),
        a[i] == b[i - x + y],
    decreases a.len() - x,
{
    if 0 <= x < a.len() && 0 <= y < b.len() && a[x] == b[y] {
        if i > x {
            lemma_snake_at(a, b, x + 1, y + 1, i);
        }
    }
}

/// A way through the edit graph goes on along a run of equal tokens.
pub proof fn lemma_walk_matches<T>(ops: Seq<EditKind>, a: Seq<T>, b: Seq<T>, x: int, y: int, r: nat)
    requires
        walks(ops, a, b, x, y),
        x + r <= snake_end(a, b, x, y),
    ensures
        walks(ops + repeat(EditKind::Match, r), a, b, x + r, y + r),
        edit_cost(ops + repeat(EditKind::Match, r)) == edit_cost(ops),
        deletions(ops + repeat(EditKind::Match, r)) == deletions(ops),
    decreases r,
{
    let tail = repeat(EditKind::Match, r);
    if r == 0 {
        assert(ops + tail =~= ops);
    } else {
        let less = (r - 1) as nat;
        let shorter = repeat(EditKind::Match, less);
        lemma_walk_matches(ops, a, b, x, y, less);
        lemma_snake_at(a, b, x, y, x + r - 1);
        assert(ops + tail =~= (ops + shorter).push(EditKind::Match));
        assert((ops + tail).drop_last() =~= ops + shorter);
        lemma_count_push(ops + shorter, EditKind::Match, EditKind::Insert);
        lemma_count_push(ops + shorter, EditKind::Match, EditKind::Delete);
        lemma_count_push(ops + shorter, EditKind::Match, EditKind::Replace);
    }
}

/// The script that leads to a frontier is a way through the edit graph to
/// that frontier, with the edits and deletions that the frontier is named by.
pub proof fn lemma_path_walks<T>(a: Seq<T>, b: Seq<T>, d: int, t: int)
    requires
        0 <= t <= d,
    ensures
        walks(myers_path(a, b, d, t), a, b, frontier(a, b, d, t), frontier(a, b, d, t) - (2 * t - d)),
        edit_cost(myers_path(a, b, d, t)) == d,
        deletions(myers_path(a, b, d, t)) == t,
    decreases d,
{
    if d <= 0 {
        lemma_snake(a, b, 0, 0);
        let r = frontier(a, b, 0, 0) as nat;
        assert(walks(Seq::<EditKind>::empty(), a, b, 0, 0));
        lemma_walk_matches(Seq::<EditKind>::empty(), a, b, 0, 0, r);
        assert(Seq::<EditKind>::empty() + repeat(EditKind::Match, r) =~= repeat(
            EditKind::Match,
            r,
        ));
        assert(count_kind(Seq::<EditKind>::empty(), EditKind::Insert) == 0);
        assert(count_kind(Seq::<EditKind>::empty(), EditKind::Delete) == 0);
        assert(count_kind(Seq::<EditKind>::empty(), EditKind::Replace) == 0);
    } else {
        lemma_frontier_bounds(a, b, d, t);
        let down = goes_down(a, b, d, t);
        let pt = if down {
            t
        } else {
            t - 1
        };
        let op = if down {
            EditKind::Insert
        } else {
            EditKind::Delete
        };
        lemma_path_walks(a, b, d - 1, pt);
        lemma_frontier_bounds(a, b, d - 1, pt);
        let before = myers_path(a, b, d - 1, pt);
        let step = before.push(op);
        let s = frontier_start(a, b, d, t);
        let y = s - (2 * t - d);
        assert(step.drop_last() =~= before);
        assert(walks(step, a, b, s, y));
        lemma_count_push(before, op, EditKind::Insert);
        lemma_count_push(before, op, EditKind::Delete);
        lemma_count_push(before, op, EditKind::Replace);
        lemma_snake(a, b, s, y);
        assert(frontier(a, b, d, t) == snake_end(a, b, s, y));
        lemma_walk_matches(step, a, b, s, y, (frontier(a, b, d, t) - s) as nat);
    }
}

/// A way through the edit graph that ends within both sequences is an edit
/// script between the two prefixes that it ends at.
pub proof fn lemma_walk_aligns<T>(ops: Seq<EditKind>, a: Seq<T>, b: Seq<T>, x: int, y: int)
    requires
        walks(ops, a, b, x, y),
        x <= a.len(),
        y <= b.len(),
    ensures
        aligns_range(ops, a, 0, x, b, 0, y),
    decreases ops.len(),
{
    lemma_walk_counts(ops, a, b, x, y);
    if ops.len() > 0 {
        let rest = ops.drop_last();
        let op = ops.last();
        assert(ops =~= rest + seq![op]);
        assert(seq![op].drop_first() =~= Seq::<EditKind>::empty());
        assert(seq![op][0] == op);
        assert(aligns_range(Seq::<EditKind>::empty(), a, x, x, b, y, y));
        match op {
            EditKind::Match => {
                lemma_walk_aligns(rest, a, b, x - 1, y - 1);
                lemma_walk_counts(rest, a, b, x - 1, y - 1);
                assert(aligns_range(seq![op], a, x - 1, x, b, y - 1, y));
                lemma_aligns_concat(rest, seq![op], a, 0, x - 1, x, b, 0, y - 1, y);
            },
            EditKind::Delete => {
                lemma_walk_aligns(rest, a, b, x - 1, y);
                lemma_walk_counts(rest, a, b, x - 1, y);
                assert(aligns_range(seq![op], a, x - 1, x, b, y, y));
                lemma_aligns_concat(rest, seq![op], a, 0, x - 1, x, b, 0, y, y);
            },
            EditKind::Insert => {
                lemma_walk_aligns(rest, a, b, x, y - 1);
                lemma_walk_counts(rest, a, b, x, y - 1);
                assert(aligns_range(seq![op], a, x, x, b, y - 1, y));
                lemma_aligns_concat(rest, seq![op], a, 0, x, x, b, 0, y - 1, y);
            },
            EditKind::Replace => {},
        }
    }
}

/// An edit script without replacements, put behind a way to the point where
/// it starts, is a way through the edit graph to the point where it ends.
pub proof fn lemma_aligns_walks<T>(
    pre: Seq<EditKind>,
    ops: Seq<EditKind>,
    a: Seq<T>,
    b: Seq<T>,
    i: int,
    i1: int,
    j: int,
    j1: int,
)
    requires
        walks(pre, a, b, i, j),
        aligns_range(ops, a, i, i1, b, j, j1),
        count_kind(ops, EditKind::Replace) == 0,
    ensures
        walks(pre + ops, a, b, i1, j1),
    decreases ops.len(),
{
    if ops.len() == 0 {
        assert(pre + ops =~= pre);
    } else {
        let op = ops[0];
        let rest = ops.drop_first();
        let next = pre.push(op);
        assert(next.drop_last() =~= pre);
        assert(pre + ops =~= next + rest);
        match op {
            EditKind::Match => {
                lemma_aligns_walks(next, rest, a, b, i + 1, i1, j + 1, j1);
            },
            EditKind::Delete => {
                lemma_aligns_walks(next, rest, a, b, i + 1, i1, j, j1);
            },
            EditKind::Insert => {
                lemma_aligns_walks(next, rest, a, b, i, i1, j + 1, j1);
            },
            EditKind::Replace => {},
        }
    }
}

/// A way through the edit graph that ends beyond a sequence can be cut back
/// to the end of the sequence, and loses an edit for every position it is
/// cut back by.
pub proof fn lemma_clip<T>(ops: Seq<EditKind>, a: Seq<T>, b: Seq<T>, x: int, y: int) -> (cut: Seq<
    EditKind,
>)
    requires
        walks(ops, a, b, x, y),
    ensures
        walks(
            cut,
            a,
            b,
            if x <= a.len() {
                x
            } else {
                a.len() as int
            },
            if y <= b.len() {
                y
            } else {
                b.len() as int
            },
        ),
        edit_cost(cut) + (if x <= a.len() {
            0
        } else {
            x - a.len()
        }) + (if y <= b.len() {
            0
        } else {
            y - b.len()
        }) <= edit_cost(ops),
    decreases ops.len(),
{
    if ops.len() == 0 {
        ops
    } else {
        let rest = ops.drop_last();
        let op = ops.last();
        assert(ops =~= rest.push(op));
        lemma_count_push(rest, op, EditKind::Insert);
        lemma_count_push(rest, op, EditKind::Delete);
        lemma_count_push(rest, op, EditKind::Replace);
        match op {
            EditKind::Match => {
                let inner = lemma_clip(rest, a, b, x - 1, y - 1);
                let cut = inner.push(op);
                assert(cut.drop_last() =~= inner);
                lemma_count_push(inner, op, EditKind::Insert);
                lemma_count_push(inner, op, EditKind::Delete);
                lemma_count_push(inner, op, EditKind::Replace);
                cut
            },
            EditKind::Delete => {
                let inner = lemma_clip(rest, a, b, x - 1, y);
                if x - 1 >= a.len() {
                    inner
                } else {
                    let cut = inner.push(op);
                    assert(cut.drop_last() =~= inner);
                    lemma_count_push(inner, op, EditKind::Insert);
                    lemma_count_push(inner, op, EditKind::Delete);
                    lemma_count_push(inner, op, EditKind::Replace);
                    cut
                }
            },
            EditKind::Insert => {
                let inner = lemma_clip(rest, a, b, x, y - 1);
                if y - 1 >= b.len() {
                    inner
                } else {
                    let cut = inner.push(op);
                    assert(cut.drop_last() =~= inner);
                    lemma_count_push(inner, op, EditKind::Insert);
                    lemma_count_push(inner, op, EditKind::Delete);
                    lemma_count_push(inner, op, EditKind::Replace);
                    cut
                }
            },
            EditKind::Replace => ops,
        }
    }
}

/// An edit script of `d` insertions and deletions shows that `d` edits
/// reach the end of both sequences.
pub proof fn lemma_script_reaches<T>(ops: Seq<EditKind>, a: Seq<T>, b: Seq<T>)
    requires
        aligned(ops, a, b),
        count_kind(ops, EditKind::Replace) == 0,
    ensures
        reaches(a, b, edit_cost(ops) as int),
{
    let none = Seq::<EditKind>::empty();
    assert(walks(none, a, b, 0, 0));
    lemma_aligns_walks(none, ops, a, b, 0, a.len() as int, 0, b.len() as int);
    assert(none + ops =~= ops);
    lemma_walk_counts(ops, a, b, a.len() as int, b.len() as int);
    lemma_frontier_dominates(ops, a, b, a.len() as int, b.len() as int);
}

/// As many edits as both sequences have tokens always reach the end.
pub proof fn lemma_reaches_last<T>(a: Seq<T>, b: Seq<T>)
    ensures
        reaches(a, b, (a.len() + b.len()) as int),
{
    let m = a.len() as int;
    let n = b.len() as int;
    let dels = repeat(EditKind::Delete, a.len());
    let inss = repeat(EditKind::Insert, b.len());
    lemma_aligns_deletes(a, 0, m, b, 0);
    lemma_aligns_inserts(a, m, b, 0, n);
    lemma_aligns_concat(dels, inss, a, 0, m, m, b, 0, 0, n);
    lemma_count_concat(dels, inss, EditKind::Replace);
    lemma_count_concat(dels, inss, EditKind::Insert);
    lemma_count_concat(dels, inss, EditKind::Delete);
    lemma_count_repeat(EditKind::Delete, a.len(), EditKind::Replace);
    lemma_count_repeat(EditKind::Delete, a.len(), EditKind::Insert);
    lemma_count_repeat(EditKind::Delete, a.len(), EditKind::Delete);
    lemma_count_repeat(EditKind::Insert, b.len(), EditKind::Replace);
    lemma_count_repeat(EditKind::Insert, b.len(), EditKind::Insert);
    lemma_count_repeat(EditKind::Insert, b.len(), EditKind::Delete);
    lemma_script_reaches(dels + inss, a, b);
}

/// The search finds the first number of edits that reaches the end.
pub proof fn lemma_first_reaching<T>(a: Seq<T>, b: Seq<T>, d: int)
    requires
        0 <= d <= a.len() + b.len(),
    ensures
        d <= first_reaching(a, b, d) <= a.len() + b.len(),
        reaches(a, b, first_reaching(a, b, d)),
        forall|d2: int| d <= d2 < first_reaching(a, b, d) ==> !#[trigger] reaches(a, b, d2),
    decreases a.len() + b.len() - d,
{
    lemma_reaches_last(a, b);
    if !(d >= a.len() + b.len() || reaches(a, b, d)) {
        lemma_first_reaching(a, b, d + 1);
    }
}

/// The first frontier that reaches the end of `a` on the diagonal of the
/// far corner ends exactly in that corner.
pub proof fn lemma_reach_exact<T>(a: Seq<T>, b: Seq<T>, d: int)
    requires
        0 <= d,
        reaches(a, b, d),
        forall|d2: int| 0 <= d2 < d ==> !#[trigger] reaches(a, b, d2),
    ensures
        frontier(a, b, d, (d + a.len() - b.len()) / 2) == a.len(),
{
    let m = a.len() as int;
    let n = b.len() as int;
    let t = (d + m - n) / 2;
    let f = frontier(a, b, d, t);
    if f > m {
        lemma_path_walks(a, b, d, t);
        let path = myers_path(a, b, d, t);
        let y = f - (2 * t - d);
        let cut = lemma_clip(path, a, b, f, y);
        lemma_walk_aligns(cut, a, b, m, n);
        lemma_walk_counts(cut, a, b, m, n);
        lemma_script_reaches(cut, a, b);
        assert(edit_cost(cut) < d);
        assert(reaches(a, b, edit_cost(cut) as int));
    }
}

/// The script of the greedy search is an edit script of insertions and
/// deletions, as many as the distance says.
pub proof fn lemma_myers_ops<T>(a: Seq<T>, b: Seq<T>)
    ensures
        aligned(myers_ops(a, b), a, b),
        count_kind(myers_ops(a, b), EditKind::Replace) == 0,
        edit_cost(myers_ops(a, b)) == myers_distance(a, b),
        0 <= myers_distance(a, b) <= a.len() + b.len(),
{
    let m = a.len() as int;
    let n = b.len() as int;
    let d = myers_distance(a, b);
    let t = (d + m - n) / 2;
    lemma_first_reaching(a, b, 0);
    lemma_reach_exact(a, b, d);
    lemma_path_walks(a, b, d, t);
    lemma_walk_aligns(myers_path(a, b, d, t), a, b, m, n);
    lemma_walk_counts(myers_path(a, b, d, t), a, b, m, n);
}

/// No edit script of insertions and deletions between `a` and `b` has
/// fewer edits than the script of the greedy search.
pub proof fn lemma_myers_least<T>(ops: Seq<EditKind>, a: Seq<T>, b: Seq<T>)
    requires
        aligned(ops, a, b),
        count_kind(ops, EditKind::Replace) == 0,
    ensures
        edit_cost(ops) >= myers_distance(a, b),
        edit_cost(ops) >= edit_cost(myers_ops(a, b)),
{
    lemma_first_reaching(a, b, 0);
    lemma_script_reaches(ops, a, b);
    lemma_myers_ops(a, b);
}

/// A frontier lies behind at least as many tokens of `a` as its way has
/// deletions.
pub proof fn lemma_frontier_least<T>(a: Seq<T>, b: Seq<T>, d: int, t: int)
    requires
        0 <= t <= d,
    ensures
        frontier(a, b, d, t) >= t,
        d > 0 ==> frontier_start(a, b, d, t) >= t,
{
    lemma_path_walks(a, b, d, t);
    lemma_walk_counts(
        myers_path(a, b, d, t),
        a,
        b,
        frontier(a, b, d, t),
        frontier(a, b, d, t) - (2 * t - d),
    );
    if d > 0 {
        if goes_down(a, b, d, t) {
            lemma_path_walks(a, b, d - 1, t);
            lemma_walk_counts(
                myers_path(a, b, d - 1, t),
                a,
                b,
                frontier(a, b, d - 1, t),
                frontier(a, b, d - 1, t) - (2 * t - (d - 1)),
            );
        } else {
            lemma_path_walks(a, b, d - 1, t - 1);
            lemma_walk_counts(
                myers_path(a, b, d - 1, t - 1),
                a,
                b,
                frontier(a, b, d - 1, t - 1),
                frontier(a, b, d - 1, t - 1) - (2 * (t - 1) - (d - 1)),
            );
        }
    }
}

/// `rev` holds the steps of `tail` in reverse.
pub open spec fn mirrors(rev: Seq<EditKind>, tail: Seq<EditKind>) -> bool {
    &&& rev.len() == tail.len()
    &&& forall|i: int| 0 <= i < rev.len() ==> #[trigger] rev[i] == tail[tail.len() - 1 - i]
}

proof fn lemma_mirror_push(rev: Seq<EditKind>, tail: Seq<EditKind>, op: EditKind)
    requires
        mirrors(rev, tail),
    ensures
        mirrors(rev.push(op), seq![op] + tail),
{
    let next = rev.push(op);
    let grown = seq![op] + tail;
    assert forall|i: int| 0 <= i < next.len() implies #[trigger] next[i] == grown[grown.len() - 1
        - i] by {
        if i < rev.len() {
            assert(next[i] == rev[i]);
            assert(grown[grown.len() - 1 - i] == tail[tail.len() - 1 - i]);
        }
    }
}

/// Follows the run of equal tokens from `a[x]` and `b[y]` to its end.
pub(crate) fn follow_snake(a: &[u8], b: &[u8], x: usize, y: usize) -> (end: usize)
    ensures
        end == snake_end(a@, b@, x as int, y as int),
{
    let mut i = x;
    let mut j = y;
    while i < a.len() && j < b.len() && a[i] == b[j]
        invariant
            snake_end(a@, b@, i as int, j as int) == snake_end(a@, b@, x as int, y as int),
        decreases a.len() - i,
    {
        i = i + 1;
        j = j + 1;
    }
    i
}

/// The frontiers of round `d`, from those of the round before.
fn myers_round(a: &[u8], b: &[u8], d: usize, prev: &Vec<usize>) -> (row: Vec<usize>)
    requires
        a.len() <= MAX_TOKENS,
        b.len() <= MAX_TOKENS,
        1 <= d <= a.len() + b.len(),
        prev.len() == d,
        forall|t: int| 0 <= t < d ==> prev[t] == frontier(a@, b@, d - 1, t),
    ensures
        row.len() == d + 1,
        forall|t: int| 0 <= t <= d ==> row[t] == frontier(a@, b@, d as int, t),
{
    let mut row: Vec<usize> = Vec::new();
    let mut t: usize = 0;
    while t <= d
        invariant
            t <= d + 1,
            a.len() <= MAX_TOKENS,
            b.len() <= MAX_TOKENS,
            1 <= d <= a.len() + b.len(),
            prev.len() == d,
            forall|u: int| 0 <= u < d ==> prev[u] == frontier(a@, b@, d - 1, u),
            row.len() == t,
            forall|u: int| 0 <= u < t ==> row[u] == frontier(a@, b@, d as int, u),
        decreases d + 1 - t,
    {
        proof {
            lemma_frontier_bounds(a@, b@, d as int, t as int);
            lemma_frontier_least(a@, b@, d as int, t as int);
            if t >= 1 {
                lemma_frontier_bounds(a@, b@, d - 1, t - 1);
            }
            if t < d {
                lemma_frontier_bounds(a@, b@, d - 1, t as int);
            }
        }
        let x = if t == 0 || (t < d && prev[t - 1] < prev[t]) {
            prev[t]
        } else {
            prev[t - 1] + 1
        };
        assert(x == frontier_start(a@, b@, d as int, t as int));
        let y = (x - t) + (d - t);
        row.push(follow_snake(a, b, x, y));
        t = t + 1;
    }
    row
}

/// Whether the frontiers of round `d` reach the end of both sequences.
fn round_reaches(a: &[u8], b: &[u8], d: usize, row: &Vec<usize>) -> (r: bool)
    requires
        a.len() <= MAX_TOKENS,
        b.len() <= MAX_TOKENS,
        d <= a.len() + b.len(),
        row.len() == d + 1,
        forall|t: int| 0 <= t <= d ==> row[t] == frontier(a@, b@, d as int, t),
    ensures
        r == reaches(a@, b@, d as int),
{
    if d + a.len() < b.len() {
        false
    } else {
        let twice = d + a.len() - b.len();
        twice % 2 == 0 && twice / 2 <= d && row[twice / 2] >= a.len()
    }
}

/// Aligns `a` with `b` by the greedy search for a shortest edit script. The
/// result is the script that `myers_ops` defines: an edit script of matches,
/// insertions and deletions with the fewest edits that any such script has.
pub fn myers_script(a: &[u8], b: &[u8]) -> (ops: Vec<EditKind>)
    requires
        a.len() <= MAX_TOKENS,
        b.len() <= MAX_TOKENS,
    ensures
        ops@ == myers_ops(a@, b@),
{
    let m = a.len();
    let n = b.len();
    let mut trace: Vec<Vec<usize>> = Vec::new();
    let mut first: Vec<usize> = Vec::new();
    first.push(follow_snake(a, b, 0, 0));
    trace.push(first);
    let mut d: usize = 0;
    while !round_reaches(a, b, d, &trace[d])
        invariant
            m == a.len(),
            n == b.len(),
            m <= MAX_TOKENS,
            n <= MAX_TOKENS,
            d <= m + n,
            trace.len() == d + 1,
            forall|r: int| 0 <= r <= d ==> (#[trigger] trace[r]).len() == r + 1,
            forall|r: int, t: int|
                0 <= t <= r <= d ==> #[trigger] trace[r][t] == frontier(a@, b@, r, t),
            forall|r: int| 0 <= r < d ==> !#[trigger] reaches(a@, b@, r),
        decreases m + n - d,
    {
        proof {
            lemma_reaches_last(a@, b@);
        }
        d = d + 1;
        let row = myers_round(a, b, d, &trace[d - 1]);
        trace.push(row);
    }
    let ghost full = myers_path(a@, b@, d as int, (d + m - n) / 2);
    proof {
        lemma_first_reaching(a@, b@, 0);
        assert(myers_distance(a@, b@) == d) by {
            let found = first_reaching(a@, b@, 0);
            if found < d {
                assert(!reaches(a@, b@, found));
            }
            if found > d {
                assert(!reaches(a@, b@, d as int));
            }
        }
    }
    let mut rev: Vec<EditKind> = Vec::new();
    let ghost mut tail: Seq<EditKind> = Seq::empty();
    let mut t: usize = (d + m - n) / 2;
    let mut round = d;
    proof {
        assert(full + tail =~= full);
    }
    while round > 0
        invariant
            m == a.len(),
            n == b.len(),
            m <= MAX_TOKENS,
            n <= MAX_TOKENS,
            round <= d <= m + n,
            t <= round,
            trace.len() == d + 1,
            forall|r: int| 0 <= r <= d ==> (#[trigger] trace[r]).len() == r + 1,
            forall|r: int, u: int|
                0 <= u <= r <= d ==> #[trigger] trace[r][u] == frontier(a@, b@, r, u),
            mirrors(rev@, tail),
            myers_path(a@, b@, round as int, t as int) + tail == full,
        decreases round,
    {
        proof {
            lemma_frontier_bounds(a@, b@, round as int, t as int);
            if t >= 1 {
                lemma_frontier_bounds(a@, b@, round - 1, t - 1);
            }
            if t < round {
                lemma_frontier_bounds(a@, b@, round - 1, t as int);
            }
        }
        let end = trace[round][t];
        let down = t == 0 || (t < round && trace[round - 1][t - 1] < trace[round - 1][t]);
        let start = if down {
            trace[round - 1][t]
        } else {
            trace[round - 1][t - 1] + 1
        };
        assert(down == goes_down(a@, b@, round as int, t as int));
        assert(start == frontier_start(a@, b@, round as int, t as int));
        let ghost before = tail;
        let mut k: usize = 0;
        while k < end - start
            invariant
                start <= end,
                k <= end - start,
                mirrors(rev@, tail),
                tail == repeat(EditKind::Match, k as nat) + before,
            decreases end - start - k,
        {
            proof {
                lemma_mirror_push(rev@, tail, EditKind::Match);
                assert(seq![EditKind::Match] + tail =~= repeat(EditKind::Match, (k + 1) as nat)
                    + before);
                tail = seq![EditKind::Match] + tail;
            }
            rev.push(EditKind::Match);
            k = k + 1;
        }
        let op = if down {
            EditKind::Insert
        } else {
            EditKind::Delete
        };
        proof {
            lemma_mirror_push(rev@, tail, op);
            let prev_t = if down {
                t as int
            } else {
                t - 1
            };
            assert(myers_path(a@, b@, round - 1, prev_t) + (seq![op] + tail) =~= myers_path(
                a@,
                b@,
                round as int,
                t as int,
            ) + before);
            tail = seq![op] + tail;
        }
        rev.push(op);
        if !down {
            t = t - 1;
        }
        round = round - 1;
    }
    let lead = trace[0][0];
    let ghost before = tail;
    let mut k: usize = 0;
    proof {
        lemma_frontier_bounds(a@, b@, 0, 0);
    }
    while k < lead
        invariant
            k <= lead,
            mirrors(rev@, tail),
            tail == repeat(EditKind::Match, k as nat) + before,
        decreases lead - k,
    {
        proof {
            lemma_mirror_push(rev@, tail, EditKind::Match);
            assert(seq![EditKind::Match] + tail =~= repeat(EditKind::Match, (k + 1) as nat)
                + before);
            tail = seq![EditKind::Match] + tail;
        }
        rev.push(EditKind::Match);
        k = k + 1;
    }
    proof {
        assert(tail =~= full);
    }
    let count = rev.len();
    let mut ops: Vec<EditKind> = Vec::new();
    let mut i: usize = 0;
    while i < count
        invariant
            i <= count,
            count == rev.len(),
            mirrors(rev@, tail),
            ops.len() == i,
            forall|u: int| 0 <= u < i ==> ops[u] == tail[u],
        decreases count - i,
    {
        ops.push(rev[count - 1 - i]);
        i = i + 1;
    }
    proof {
        assert(ops@ =~= tail);
    }
    ops
}

} // verus!
