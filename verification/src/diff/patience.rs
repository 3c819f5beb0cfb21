//! Alignment by anchors: the tokens that occur exactly once in both
//! sequences are paired, the longest chain of pairs that do not cross is
//! kept, and the gaps between the pairs of the chain are aligned in the
//! same way.

use crate::diff::editops::{
    aligned, aligns_range, count_kind, lemma_aligns_concat, lemma_aligns_deletes,
    lemma_aligns_inserts, lemma_aligns_matches, lemma_count_concat, lemma_count_one,
    lemma_count_repeat, repeat, EditKind, MAX_TOKENS,
};
use crate::diff::myers::{
    follow_snake, lemma_myers_ops, lemma_snake, lemma_snake_at, myers_ops, myers_script, snake_end,
};
use vstd::prelude::*;
use vstd::slice::slice_subrange;

verus! {

/// How many tokens at the end of `a` and `b` agree.
pub open spec fn common_suffix<T>(a: Seq<T>, b: Seq<T>) -> nat
    decreases a.len(),
{
    if a.len() > 0 && b.len() > 0 && a.last() == b.last() {
        1 + common_suffix(a.drop_last(), b.drop_last())
    } else {
        0
    }
}

/// How often the token `x` occurs in `s`.
pub open spec fn occurrences<T>(s: Seq<T>, x: T) -> nat
    decreases s.len(),
{
    if s.len() == 0 {
        0
    } else {
        occurrences(s.drop_last(), x) + if s.last() == x {
            1nat
        } else {
            0nat
        }
    }
}

/// The first position at or after `from` at which `x` stands in `s`, and
/// the length of `s` where there is none.
pub open spec fn position<T>(s: Seq<T>, x: T, from: int) -> int
    decreases s.len() - from,
{
    if from < 0 || from >= s.len() {
        s.len() as int
    } else if s[from] == x {
        from
    } else {
        position(s, x, from + 1)
    }
}

/// The token at `a[i]` occurs exactly once in `a` and exactly once in `b`.
pub open spec fn is_anchor<T>(a: Seq<T>, b: Seq<T>, i: int) -> bool {
    occurrences(a, a[i]) == 1 && occurrences(b, a[i]) == 1
}

/// The anchors among the first `upto` tokens of `a`, in order: each with
/// its position in `a` and the position of the same token in `b`.
pub open spec fn anchors<T>(a: Seq<T>, b: Seq<T>, upto: int) -> Seq<(int, int)>
    decreases upto,
{
    if upto <= 0 || upto > a.len() {
        Seq::empty()
    } else if is_anchor(a, b, upto - 1) {
        anchors(a, b, upto - 1).push((upto - 1, position(b, a[upto - 1], 0)))
    } else {
        anchors(a, b, upto - 1)
    }
}

/// The length of the longest chain of pairs that starts with the pair `k`
/// and goes on through later pairs with ever greater right positions.
pub open spec fn chain_len_at(pairs: Seq<(int, int)>, k: int) -> nat
    decreases pairs.len() - k, 0nat,
{
    if k < 0 || k >= pairs.len() {
        0
    } else {
        1 + chain_len(pairs, pairs[k].1, k + 1)
    }
}

/// The length of the longest chain among the pairs from `c` on whose right
/// positions are greater than `floor`.
pub open spec fn chain_len(pairs: Seq<(int, int)>, floor: int, c: int) -> nat
    decreases pairs.len() - c, 1nat,
{
    if c < 0 || c >= pairs.len() {
        0
    } else {
        let later = chain_len(pairs, floor, c + 1);
        let here = if pairs[c].1 > floor {
            chain_len_at(pairs, c)
        } else {
            0
        };
        if here >= later {
            here
        } else {
            later
        }
    }
}

/// The longest chain among the pairs from `c` on whose right positions are
/// greater than `floor`; of several, the one through the earliest pairs.
pub open spec fn chain(pairs: Seq<(int, int)>, floor: int, c: int) -> Seq<(int, int)>
    decreases pairs.len() - c,
{
    if c < 0 || c >= pairs.len() {
        Seq::empty()
    } else if pairs[c].1 > floor && chain_len_at(pairs, c) == chain_len(pairs, floor, c) {
        seq![pairs[c]] + chain(pairs, pairs[c].1, c + 1)
    } else {
        chain(pairs, floor, c + 1)
    }
}

/// The script that the anchor alignment gives for `a` and `b`: the matches
/// of the common prefix, the script of what lies between, and the matches
/// of the common suffix.
pub open spec fn patience_ops<T>(a: Seq<T>, b: Seq<T>) -> Seq<EditKind>
    decreases a.len() + b.len(), 2nat, 0nat,
{
    let lead = snake_end(a, b, 0, 0);
    if 0 <= lead <= a.len() && lead <= b.len() {
        let trail = common_suffix(a.skip(lead), b.skip(lead));
        if lead + trail <= a.len() && lead + trail <= b.len() {
            repeat(EditKind::Match, lead as nat) + patience_middle(
                a.subrange(lead, a.len() - trail),
                b.subrange(lead, b.len() - trail),
            ) + repeat(EditKind::Match, trail)
        } else {
            Seq::empty()
        }
    } else {
        Seq::empty()
    }
}

/// The script for two sequences that neither start nor end with a common
/// token. Where one is empty the other is deleted or inserted. Where they
/// have anchors the script is stitched along the chain of anchors. Where
/// they have none the greedy search for a shortest script aligns them.
pub open spec fn patience_middle<T>(a: Seq<T>, b: Seq<T>) -> Seq<EditKind>
    decreases a.len() + b.len(), 1nat, 0nat,
{
    if a.len() == 0 || b.len() == 0 {
        repeat(EditKind::Delete, a.len()) + repeat(EditKind::Insert, b.len())
    } else {
        let picked = chain(anchors(a, b, a.len() as int), -1, 0);
        if picked.len() == 0 {
            myers_ops(a, b)
        } else {
            stitch(a, b, picked, 0, 0, 0)
        }
    }
}

/// The script along the chain `picked` from its pair `k` on, when `a` has
/// been aligned up to `ai` and `b` up to `bj`: the gap before each pair is
/// aligned by itself, the pair is a match, and the gap behind the last pair
/// is aligned by itself.
pub open spec fn stitch<T>(
    a: Seq<T>,
    b: Seq<T>,
    picked: Seq<(int, int)>,
    k: int,
    ai: int,
    bj: int,
) -> Seq<EditKind>
    decreases a.len() + b.len(), 0nat, picked.len() - k,
{
    if k < 0 || ai < 0 || bj < 0 || ai > a.len() || bj > b.len() {
        Seq::empty()
    } else if k >= picked.len() {
        if ai == 0 && bj == 0 {
            Seq::empty()
        } else {
            patience_ops(a.subrange(ai, a.len() as int), b.subrange(bj, b.len() as int))
        }
    } else if ai <= picked[k].0 < a.len() && bj <= picked[k].1 < b.len() {
        patience_ops(a.subrange(ai, picked[k].0), b.subrange(bj, picked[k].1)).push(
            EditKind::Match,
        ) + stitch(a, b, picked, k + 1, picked[k].0 + 1, picked[k].1 + 1)
    } else {
        Seq::empty()
    }
}

/// The chain `picked` from its pair `k` on pairs equal tokens, lies within
/// both sequences at or behind `(ai, bj)`, and rises in both positions.
pub open spec fn picked_ok<T>(
    a: Seq<T>,
    b: Seq<T>,
    picked: Seq<(int, int)>,
    k: int,
    ai: int,
    bj: int,
) -> bool
    decreases picked.len() - k,
{
    if k < 0 || k >= picked.len() {
        true
    } else {
        &&& ai <= picked[k].0 < a.len()
        &&& bj <= picked[k].1 < b.len()
        &&& a[picked[k].0] == b[picked[k].1]
        &&& picked_ok(a, b, picked, k + 1, picked[k].0 + 1, picked[k].1 + 1)
    }
}

/// Every pair of the list pairs equal tokens within both sequences, and the
/// left positions rise.
pub open spec fn pairs_ok<T>(a: Seq<T>, b: Seq<T>, pairs: Seq<(int, int)>) -> bool {
    &&& forall|k: int|
        0 <= k < pairs.len() ==> 0 <= (#[trigger] pairs[k]).0 < a.len() && 0 <= pairs[k].1 < b.len()
            && a[pairs[k].0] == b[pairs[k].1]
    &&& forall|k: int, l: int|
        0 <= k < l < pairs.len() ==> (#[trigger] pairs[k]).0 < (#[trigger] pairs[l]).0
}

/// An edit script over parts of two ranges, taken by themselves, is an
/// edit script over these parts.
pub proof fn lemma_aligns_lift<T>(
    ops: Seq<EditKind>,
    a: Seq<T>,
    ai: int,
    ah: int,
    b: Seq<T>,
    bj: int,
    bh: int,
    i: int,
    i1: int,
    j: int,
    j1: int,
)
    requires
        0 <= ai <= ah <= a.len(),
        0 <= bj <= bh <= b.len(),
        aligns_range(ops, a.subrange(ai, ah), i, i1, b.subrange(bj, bh), j, j1),
    ensures
        aligns_range(ops, a, ai + i, ai + i1, b, bj + j, bj + j1),
    decreases ops.len(),
{
    if ops.len() > 0 {
        let rest = ops.drop_first();
        match ops[0] {
            EditKind::Match | EditKind::Replace => {
                lemma_aligns_lift(rest, a, ai, ah, b, bj, bh, i + 1, i1, j + 1, j1);
            },
            EditKind::Delete => {
                lemma_aligns_lift(rest, a, ai, ah, b, bj, bh, i + 1, i1, j, j1);
            },
            EditKind::Insert => {
                lemma_aligns_lift(rest, a, ai, ah, b, bj, bh, i, i1, j + 1, j1);
            },
        }
    }
}

/// An edit script between a range of `a` and a range of `b`, taken by
/// themselves, is an edit script over these ranges.
pub proof fn lemma_aligned_lift<T>(ops: Seq<EditKind>, a: Seq<T>, ai: int, ah: int, b: Seq<T>, bj: int, bh: int)
    requires
        0 <= ai <= ah <= a.len(),
        0 <= bj <= bh <= b.len(),
        aligned(ops, a.subrange(ai, ah), b.subrange(bj, bh)),
    ensures
        aligns_range(ops, a, ai, ah, b, bj, bh),
{
    lemma_aligns_lift(ops, a, ai, ah, b, bj, bh, 0, ah - ai, 0, bh - bj);
}

/// The common suffix is no longer than either sequence.
pub proof fn lemma_suffix_bound<T>(a: Seq<T>, b: Seq<T>)
    ensures
        common_suffix(a, b) <= a.len(),
        common_suffix(a, b) <= b.len(),
    decreases a.len(),
{
    if a.len() > 0 && b.len() > 0 && a.last() == b.last() {
        lemma_suffix_bound(a.drop_last(), b.drop_last());
    }
}

/// Every position of the common suffix holds equal tokens.
pub proof fn lemma_suffix_at<T>(a: Seq<T>, b: Seq<T>, k: int)
    requires
        0 <= k < common_suffix(a, b),
    ensures
        k < a.len(),
        k < b.len(),
        a[a.len() - 1 - k] == b[b.len() - 1 - k],
    decreases a.len(),
{
    if k > 0 {
        lemma_suffix_at(a.drop_last(), b.drop_last(), k - 1);
    }
}

/// A token occurs no more often than the sequence has tokens.
pub proof fn lemma_occurrences_bound<T>(s: Seq<T>, x: T)
    ensures
        occurrences(s, x) <= s.len(),
    decreases s.len(),
{
    if s.len() > 0 {
        lemma_occurrences_bound(s.drop_last(), x);
    }
}

/// A token that occurs in `s` is found at its first position.
pub proof fn lemma_position<T>(s: Seq<T>, x: T, from: int)
    requires
        0 <= from,
    ensures
        from <= position(s, x, from) <= s.len() || (from > s.len() && position(s, x, from)
            == s.len()),
        position(s, x, from) < s.len() ==> s[position(s, x, from)] == x,
        forall|i: int| from <= i < position(s, x, from) && i < s.len() ==> (#[trigger] s[i]) != x,
    decreases s.len() - from,
{
    if from < s.len() && s[from] != x {
        lemma_position(s, x, from + 1);
    }
}

/// A token that occurs in `s` has a position in `s`.
pub proof fn lemma_occurs_position<T>(s: Seq<T>, x: T)
    requires
        occurrences(s, x) >= 1,
    ensures
        0 <= position(s, x, 0) < s.len(),
        s[position(s, x, 0)] == x,
    decreases s.len(),
{
    lemma_position(s, x, 0);
    if s.len() > 0 {
        if s.last() == x {
            if position(s, x, 0) >= s.len() {
                assert(s[s.len() - 1] != x);
            }
        } else {
            lemma_occurs_position(s.drop_last(), x);
            let q = position(s.drop_last(), x, 0);
            assert(s[q] == x);
            if position(s, x, 0) >= s.len() {
                assert(s[q] != x);
            }
        }
    }
}

/// The anchors pair equal tokens within both sequences, and their left
/// positions rise.
pub proof fn lemma_anchors<T>(a: Seq<T>, b: Seq<T>, upto: int)
    requires
        upto <= a.len(),
    ensures
        pairs_ok(a, b, anchors(a, b, upto)),
        forall|k: int|
            0 <= k < anchors(a, b, upto).len() ==> (#[trigger] anchors(a, b, upto)[k]).0 < upto,
    decreases upto,
{
    if upto > 0 {
        lemma_anchors(a, b, upto - 1);
        let before = anchors(a, b, upto - 1);
        let all = anchors(a, b, upto);
        if is_anchor(a, b, upto - 1) {
            lemma_occurs_position(b, a[upto - 1]);
            assert forall|k: int| 0 <= k < all.len() implies 0 <= (#[trigger] all[k]).0 < a.len()
                && 0 <= all[k].1 < b.len() && a[all[k].0] == b[all[k].1] && all[k].0 < upto by {
                if k < before.len() {
                    assert(all[k] == before[k]);
                }
            }
            assert forall|k: int, l: int| 0 <= k < l < all.len() implies (#[trigger] all[k]).0 < (
            #[trigger] all[l]).0 by {
                assert(all[k] == before[k]);
                if l < before.len() {
                    assert(all[l] == before[l]);
                }
            }
        }
    }
}

/// A sound chain stays sound behind one more pair at its front.
pub proof fn lemma_picked_shift<T>(
    a: Seq<T>,
    b: Seq<T>,
    head: (int, int),
    rest: Seq<(int, int)>,
    k: int,
    ai: int,
    bj: int,
)
    requires
        0 <= k,
        picked_ok(a, b, rest, k, ai, bj),
    ensures
        picked_ok(a, b, seq![head] + rest, k + 1, ai, bj),
    decreases rest.len() - k,
{
    let all = seq![head] + rest;
    if k < rest.len() {
        assert(all[k + 1] == rest[k]);
        lemma_picked_shift(a, b, head, rest, k + 1, rest[k].0 + 1, rest[k].1 + 1);
    }
}

/// The chain that is picked from a list of sound pairs pairs equal tokens
/// and rises in both positions.
pub proof fn lemma_chain_picked<T>(
    a: Seq<T>,
    b: Seq<T>,
    pairs: Seq<(int, int)>,
    floor: int,
    c: int,
    ai: int,
)
    requires
        pairs_ok(a, b, pairs),
        0 <= c,
        floor >= -1,
        c < pairs.len() ==> ai <= pairs[c].0,
    ensures
        picked_ok(a, b, chain(pairs, floor, c), 0, ai, floor + 1),
    decreases pairs.len() - c,
{
    if c < pairs.len() {
        if pairs[c].1 > floor && chain_len_at(pairs, c) == chain_len(pairs, floor, c) {
            let rest = chain(pairs, pairs[c].1, c + 1);
            if c + 1 < pairs.len() {
                assert(pairs[c].0 < pairs[c + 1].0);
            }
            lemma_chain_picked(a, b, pairs, pairs[c].1, c + 1, pairs[c].0 + 1);
            lemma_picked_shift(a, b, pairs[c], rest, 0, pairs[c].0 + 1, pairs[c].1 + 1);
            assert((seq![pairs[c]] + rest)[0] == pairs[c]);
        } else {
            if c + 1 < pairs.len() {
                assert(pairs[c].0 < pairs[c + 1].0);
            }
            lemma_chain_picked(a, b, pairs, floor, c + 1, ai);
        }
    }
}

/// The pairs at the positions `picks`, none before `c`, come in order and
/// rise in their right positions from above `floor`.
pub open spec fn rises(pairs: Seq<(int, int)>, picks: Seq<int>, floor: int, c: int) -> bool
    decreases picks.len(),
{
    if picks.len() == 0 {
        true
    } else {
        &&& c <= picks[0] < pairs.len()
        &&& pairs[picks[0]].1 > floor
        &&& rises(pairs, picks.drop_first(), pairs[picks[0]].1, picks[0] + 1)
    }
}

/// The chain that is picked is as long as the longest chain is said to be.
pub proof fn lemma_chain_length(pairs: Seq<(int, int)>, floor: int, c: int)
    requires
        0 <= c,
    ensures
        chain(pairs, floor, c).len() == chain_len(pairs, floor, c),
    decreases pairs.len() - c,
{
    if c < pairs.len() {
        lemma_chain_len_unfold(pairs, floor, c);
        if pairs[c].1 > floor && chain_len_at(pairs, c) == chain_len(pairs, floor, c) {
            lemma_chain_length(pairs, pairs[c].1, c + 1);
        } else {
            lemma_chain_length(pairs, floor, c + 1);
        }
    }
}

/// No choice of pairs that rise in their right positions is longer than
/// the chain that is picked.
pub proof fn lemma_chain_longest(pairs: Seq<(int, int)>, picks: Seq<int>, floor: int, c: int)
    requires
        0 <= c,
        rises(pairs, picks, floor, c),
    ensures
        picks.len() <= chain(pairs, floor, c).len(),
    decreases pairs.len() - c,
{
    lemma_chain_length(pairs, floor, c);
    if picks.len() > 0 {
        lemma_chain_len_unfold(pairs, floor, c);
        if picks[0] == c {
            lemma_chain_longest(pairs, picks.drop_first(), pairs[c].1, c + 1);
            lemma_chain_length(pairs, pairs[c].1, c + 1);
        } else {
            lemma_chain_longest(pairs, picks, floor, c + 1);
            lemma_chain_length(pairs, floor, c + 1);
        }
    }
}

/// The script of the anchor alignment is an edit script of matches,
/// insertions and deletions.
pub proof fn lemma_patience_ops<T>(a: Seq<T>, b: Seq<T>)
    ensures
        aligned(patience_ops(a, b), a, b),
        count_kind(patience_ops(a, b), EditKind::Replace) == 0,
    decreases a.len() + b.len(), 2nat, 0nat,
{
    let m = a.len() as int;
    let n = b.len() as int;
    let lead = snake_end(a, b, 0, 0);
    lemma_snake(a, b, 0, 0);
    let sa = a.skip(lead);
    let sb = b.skip(lead);
    let trail = common_suffix(sa, sb);
    lemma_suffix_bound(sa, sb);
    let am = a.subrange(lead, m - trail);
    let bm = b.subrange(lead, n - trail);
    let head = repeat(EditKind::Match, lead as nat);
    let tail = repeat(EditKind::Match, trail);
    let mid = patience_middle(am, bm);
    lemma_middle_ops(am, bm);
    lemma_aligned_lift(mid, a, lead, m - trail, b, lead, n - trail);
    lemma_matches_from_snake(a, b, 0, 0, lead as nat);
    assert forall|k: int| m - trail <= k < m - trail + trail implies (#[trigger] a[k]) == b[k - (m
        - trail) + (n - trail)] by {
        lemma_suffix_at(sa, sb, m - 1 - k);
    }
    lemma_aligns_matches(a, m - trail, b, n - trail, trail);
    lemma_aligns_concat(head, mid, a, 0, lead, m - trail, b, 0, lead, n - trail);
    lemma_aligns_concat(head + mid, tail, a, 0, m - trail, m, b, 0, n - trail, n);
    lemma_count_concat(head, mid, EditKind::Replace);
    lemma_count_concat(head + mid, tail, EditKind::Replace);
    lemma_count_repeat(EditKind::Match, lead as nat, EditKind::Replace);
    lemma_count_repeat(EditKind::Match, trail, EditKind::Replace);
}

/// The tokens up to the end of a run of equal tokens are aligned by matches.
pub proof fn lemma_matches_from_snake<T>(a: Seq<T>, b: Seq<T>, x: int, y: int, r: nat)
    requires
        0 <= x <= a.len(),
        0 <= y <= b.len(),
        x + r <= snake_end(a, b, x, y),
    ensures
        aligns_range(repeat(EditKind::Match, r), a, x, x + r, b, y, y + r),
{
    lemma_snake(a, b, x, y);
    if r > 0 {
        lemma_snake_at(a, b, x, y, x + r - 1);
    }
    assert forall|k: int| x <= k < x + r implies (#[trigger] a[k]) == b[k - x + y] by {
        lemma_snake_at(a, b, x, y, k);
    }
    lemma_aligns_matches(a, x, b, y, r);
}

/// The script for the middle of two sequences is an edit script of matches,
/// insertions and deletions.
pub proof fn lemma_middle_ops<T>(a: Seq<T>, b: Seq<T>)
    ensures
        aligned(patience_middle(a, b), a, b),
        count_kind(patience_middle(a, b), EditKind::Replace) == 0,
    decreases a.len() + b.len(), 1nat, 0nat,
{
    let m = a.len() as int;
    let n = b.len() as int;
    if a.len() == 0 || b.len() == 0 {
        let dels = repeat(EditKind::Delete, a.len());
        let inss = repeat(EditKind::Insert, b.len());
        lemma_aligns_deletes(a, 0, m, b, 0);
        lemma_aligns_inserts(a, m, b, 0, n);
        lemma_aligns_concat(dels, inss, a, 0, m, m, b, 0, 0, n);
        lemma_count_concat(dels, inss, EditKind::Replace);
        lemma_count_repeat(EditKind::Delete, a.len(), EditKind::Replace);
        lemma_count_repeat(EditKind::Insert, b.len(), EditKind::Replace);
    } else {
        let pairs = anchors(a, b, m);
        let picked = chain(pairs, -1, 0);
        if picked.len() == 0 {
            lemma_myers_ops(a, b);
        } else {
            lemma_anchors(a, b, m);
            if pairs.len() > 0 {
                assert(0 <= pairs[0].0);
            }
            lemma_chain_picked(a, b, pairs, -1, 0, 0);
            lemma_stitch_ops(a, b, picked, 0, 0, 0);
        }
    }
}

/// The script along a sound chain is an edit script of matches, insertions
/// and deletions over what is left of both sequences.
pub proof fn lemma_stitch_ops<T>(
    a: Seq<T>,
    b: Seq<T>,
    picked: Seq<(int, int)>,
    k: int,
    ai: int,
    bj: int,
)
    requires
        0 <= k <= picked.len(),
        0 <= ai <= a.len(),
        0 <= bj <= b.len(),
        picked_ok(a, b, picked, k, ai, bj),
        k >= picked.len() ==> ai > 0 || bj > 0,
    ensures
        aligns_range(stitch(a, b, picked, k, ai, bj), a, ai, a.len() as int, b, bj, b.len() as int),
        count_kind(stitch(a, b, picked, k, ai, bj), EditKind::Replace) == 0,
    decreases a.len() + b.len(), 0nat, picked.len() - k,
{
    let m = a.len() as int;
    let n = b.len() as int;
    if k >= picked.len() {
        let sa = a.subrange(ai, m);
        let sb = b.subrange(bj, n);
        lemma_patience_ops(sa, sb);
        lemma_aligned_lift(patience_ops(sa, sb), a, ai, m, b, bj, n);
    } else {
        let pi = picked[k].0;
        let pj = picked[k].1;
        let sa = a.subrange(ai, pi);
        let sb = b.subrange(bj, pj);
        let gap = patience_ops(sa, sb);
        lemma_patience_ops(sa, sb);
        lemma_aligned_lift(gap, a, ai, pi, b, bj, pj);
        let one = seq![EditKind::Match];
        assert(one.drop_first() =~= Seq::<EditKind>::empty());
        assert(one[0] == EditKind::Match);
        assert(aligns_range(Seq::<EditKind>::empty(), a, pi + 1, pi + 1, b, pj + 1, pj + 1));
        assert(aligns_range(one, a, pi, pi + 1, b, pj, pj + 1));
        lemma_aligns_concat(gap, one, a, ai, pi, pi + 1, b, bj, pj, pj + 1);
        assert(gap.push(EditKind::Match) =~= gap + one);
        let rest = stitch(a, b, picked, k + 1, pi + 1, pj + 1);
        lemma_stitch_ops(a, b, picked, k + 1, pi + 1, pj + 1);
        lemma_aligns_concat(gap + one, rest, a, ai, pi + 1, m, b, bj, pj + 1, n);
        lemma_count_concat(gap, one, EditKind::Replace);
        lemma_count_one(EditKind::Match, EditKind::Replace);
        lemma_count_concat(gap + one, rest, EditKind::Replace);
    }
}

/// The pairs of positions of a list as the contracts see them.
pub open spec fn pairs_view(pairs: Seq<(usize, usize)>) -> Seq<(int, int)> {
    Seq::new(pairs.len(), |k: int| (pairs[k].0 as int, pairs[k].1 as int))
}

/// No chain is longer than the list of pairs it is picked from, and the
/// chain from a pair has that pair at least.
pub proof fn lemma_chain_len_bound(pairs: Seq<(int, int)>, floor: int, c: int)
    requires
        0 <= c,
    ensures
        chain_len(pairs, floor, c) <= pairs.len() - c || (c >= pairs.len() && chain_len(
            pairs,
            floor,
            c,
        ) == 0),
        c < pairs.len() ==> 1 <= chain_len_at(pairs, c) <= pairs.len() - c,
    decreases pairs.len() - c,
{
    if c < pairs.len() {
        lemma_chain_len_bound(pairs, floor, c + 1);
        lemma_chain_len_bound(pairs, pairs[c].1, c + 1);
        lemma_chain_len_unfold(pairs, floor, c);
    }
}

/// The two lengths, spelled out by one step.
pub proof fn lemma_chain_len_unfold(pairs: Seq<(int, int)>, floor: int, c: int)
    requires
        0 <= c < pairs.len(),
    ensures
        chain_len_at(pairs, c) == 1 + chain_len(pairs, pairs[c].1, c + 1),
        chain_len(pairs, floor, c) == ({
            let later = chain_len(pairs, floor, c + 1);
            let here = if pairs[c].1 > floor {
                chain_len_at(pairs, c)
            } else {
                0
            };
            if here >= later {
                here
            } else {
                later
            }
        }),
{
    reveal_with_fuel(chain_len, 2);
    reveal_with_fuel(chain_len_at, 2);
}

fn push_repeat(out: &mut Vec<EditKind>, kind: EditKind, count: usize)
    ensures
        final(out)@ == old(out)@ + repeat(kind, count as nat),
{
    let ghost before = out@;
    let mut k: usize = 0;
    proof {
        assert(out@ =~= before + repeat(kind, 0));
    }
    while k < count
        invariant
            k <= count,
            out@ == before + repeat(kind, k as nat),
        decreases count - k,
    {
        out.push(kind);
        k = k + 1;
        proof {
            assert(out@ =~= before + repeat(kind, k as nat));
        }
    }
}

/// How many tokens at the end of `a` and `b` agree, the first `lead` tokens
/// of both left aside.
fn follow_suffix(a: &[u8], b: &[u8], lead: usize) -> (trail: usize)
    requires
        lead <= a.len(),
        lead <= b.len(),
    ensures
        trail == common_suffix(a@.skip(lead as int), b@.skip(lead as int)),
        lead + trail <= a.len(),
        lead + trail <= b.len(),
{
    let m = a.len();
    let n = b.len();
    let ghost sa = a@.skip(lead as int);
    let ghost sb = b@.skip(lead as int);
    let mut k: usize = 0;
    proof {
        assert(sa.subrange(0, sa.len() as int) =~= sa);
        assert(sb.subrange(0, sb.len() as int) =~= sb);
    }
    while lead + k < m && lead + k < n && a[m - 1 - k] == b[n - 1 - k]
        invariant
            m == a.len(),
            n == b.len(),
            sa == a@.skip(lead as int),
            sb == b@.skip(lead as int),
            lead + k <= m,
            lead + k <= n,
            common_suffix(sa.subrange(0, sa.len() - k), sb.subrange(0, sb.len() - k)) + k
                == common_suffix(sa, sb),
        decreases m - lead - k,
    {
        proof {
            let ca = sa.subrange(0, sa.len() - k);
            let cb = sb.subrange(0, sb.len() - k);
            assert(ca.last() == a@[m - 1 - k]);
            assert(cb.last() == b@[n - 1 - k]);
            assert(ca.drop_last() =~= sa.subrange(0, sa.len() - (k + 1)));
            assert(cb.drop_last() =~= sb.subrange(0, sb.len() - (k + 1)));
        }
        k = k + 1;
    }
    proof {
        let ca = sa.subrange(0, sa.len() - k);
        let cb = sb.subrange(0, sb.len() - k);
        if ca.len() > 0 && cb.len() > 0 {
            assert(ca.last() == a@[m - 1 - k]);
            assert(cb.last() == b@[n - 1 - k]);
        }
    }
    k
}

/// How often each byte occurs in `s`.
fn count_table(s: &[u8]) -> (table: Vec<usize>)
    ensures
        table.len() == 256,
        forall|v: u8| #[trigger] table[v as int] == occurrences(s@, v),
{
    let mut table: Vec<usize> = vec![0usize; 256];
    let mut k: usize = 0;
    proof {
        assert(s@.take(0) =~= Seq::<u8>::empty());
    }
    while k < s.len()
        invariant
            k <= s.len(),
            table.len() == 256,
            forall|v: u8| #[trigger] table[v as int] == occurrences(s@.take(k as int), v),
        decreases s.len() - k,
    {
        let byte = s[k];
        proof {
            lemma_occurrences_bound(s@.take(k as int), byte);
            assert(s@.take(k + 1).drop_last() =~= s@.take(k as int));
            assert(s@.take(k + 1).last() == byte);
        }
        let seen = table[byte as usize];
        table.set(byte as usize, seen + 1);
        k = k + 1;
    }
    proof {
        assert(s@.take(k as int) =~= s@);
    }
    table
}

/// Where each byte stands first in `s`.
fn first_positions(s: &[u8]) -> (table: Vec<usize>)
    ensures
        table.len() == 256,
        forall|v: u8| #[trigger] table[v as int] == position(s@, v, 0),
{
    let mut table: Vec<usize> = vec![s.len(); 256];
    let mut k: usize = s.len();
    while k > 0
        invariant
            k <= s.len(),
            table.len() == 256,
            forall|v: u8| #[trigger] table[v as int] == position(s@, v, k as int),
        decreases k,
    {
        k = k - 1;
        table.set(s[k] as usize, k);
    }
    table
}

/// The anchors of `a` and `b`, in the order of `a`.
fn find_anchors(a: &[u8], b: &[u8]) -> (pairs: Vec<(usize, usize)>)
    ensures
        pairs_view(pairs@) == anchors(a@, b@, a.len() as int),
{
    let in_a = count_table(a);
    let in_b = count_table(b);
    let at_b = first_positions(b);
    let mut pairs: Vec<(usize, usize)> = Vec::new();
    let mut i: usize = 0;
    proof {
        assert(pairs_view(pairs@) =~= anchors(a@, b@, 0));
    }
    while i < a.len()
        invariant
            i <= a.len(),
            in_a.len() == 256,
            in_b.len() == 256,
            at_b.len() == 256,
            forall|v: u8| #[trigger] in_a[v as int] == occurrences(a@, v),
            forall|v: u8| #[trigger] in_b[v as int] == occurrences(b@, v),
            forall|v: u8| #[trigger] at_b[v as int] == position(b@, v, 0),
            pairs_view(pairs@) == anchors(a@, b@, i as int),
        decreases a.len() - i,
    {
        let byte = a[i];
        let ghost before = pairs_view(pairs@);
        proof {
            assert(in_a[byte as int] == occurrences(a@, byte));
            assert(in_b[byte as int] == occurrences(b@, byte));
            assert(at_b[byte as int] == position(b@, byte, 0));
        }
        if in_a[byte as usize] == 1 && in_b[byte as usize] == 1 {
            pairs.push((i, at_b[byte as usize]));
            proof {
                assert(pairs_view(pairs@) =~= before.push((i as int, position(b@, byte, 0))));
            }
        }
        i = i + 1;
    }
    pairs
}

/// The right position that a chain has to rise above: that of its last
/// pair, or none where it has no pair yet.
pub open spec fn floor_of(last: Option<usize>) -> int {
    match last {
        Some(j) => j as int,
        None => -1,
    }
}

/// The longest chain of pairs whose right positions rise; of several, the
/// one through the earliest pairs.
fn longest_chain(pairs: &Vec<(usize, usize)>) -> (picked: Vec<(usize, usize)>)
    ensures
        pairs_view(picked@) == chain(pairs_view(pairs@), -1, 0),
{
    let count = pairs.len();
    let ghost pv = pairs_view(pairs@);
    let mut lens: Vec<usize> = vec![0usize; count];
    let mut k: usize = count;
    while k > 0
        invariant
            k <= count,
            count == pairs.len(),
            pv == pairs_view(pairs@),
            lens.len() == count,
            forall|t: int| k <= t < count ==> lens[t] == chain_len_at(pv, t),
        decreases k,
    {
        k = k - 1;
        let floor = pairs[k].1;
        let mut best: usize = 0;
        let mut c: usize = count;
        while c > k + 1
            invariant
                k + 1 <= c <= count,
                count == pairs.len(),
                pv == pairs_view(pairs@),
                lens.len() == count,
                floor == pairs[k as int].1,
                forall|t: int| k < t < count ==> lens[t] == chain_len_at(pv, t),
                best == chain_len(pv, floor as int, c as int),
            decreases c,
        {
            c = c - 1;
            proof {
                lemma_chain_len_unfold(pv, floor as int, c as int);
            }
            let here = if pairs[c].1 > floor {
                lens[c]
            } else {
                0
            };
            if here >= best {
                best = here;
            }
        }
        proof {
            lemma_chain_len_bound(pv, floor as int, k + 1);
            lemma_chain_len_unfold(pv, floor as int, k as int);
        }
        lens.set(k, best + 1);
    }
    let mut want: usize = 0;
    let mut c: usize = count;
    while c > 0
        invariant
            c <= count,
            count == pairs.len(),
            pv == pairs_view(pairs@),
            lens.len() == count,
            forall|t: int| 0 <= t < count ==> lens[t] == chain_len_at(pv, t),
            want == chain_len(pv, -1, c as int),
        decreases c,
    {
        c = c - 1;
        proof {
            lemma_chain_len_unfold(pv, -1, c as int);
        }
        if lens[c] >= want {
            want = lens[c];
        }
    }
    let mut picked: Vec<(usize, usize)> = Vec::new();
    let mut last: Option<usize> = None;
    let mut at: usize = 0;
    proof {
        assert(pairs_view(picked@) + chain(pv, -1, 0) =~= chain(pv, -1, 0));
    }
    while at < count
        invariant
            at <= count,
            count == pairs.len(),
            pv == pairs_view(pairs@),
            lens.len() == count,
            forall|t: int| 0 <= t < count ==> lens[t] == chain_len_at(pv, t),
            want == chain_len(pv, floor_of(last), at as int),
            pairs_view(picked@) + chain(pv, floor_of(last), at as int) == chain(pv, -1, 0),
        decreases count - at,
    {
        let ghost before = pairs_view(picked@);
        let ghost rest = chain(pv, floor_of(last), at as int);
        let above = match last {
            None => true,
            Some(j) => pairs[at].1 > j,
        };
        proof {
            lemma_chain_len_bound(pv, floor_of(last), at as int);
            lemma_chain_len_unfold(pv, floor_of(last), at as int);
        }
        if above && lens[at] == want {
            picked.push(pairs[at]);
            last = Some(pairs[at].1);
            want = want - 1;
            proof {
                assert(pairs_view(picked@) =~= before.push(pv[at as int]));
                assert(pairs_view(picked@) + chain(pv, floor_of(last), at + 1) =~= before + rest);
            }
        }
        at = at + 1;
    }
    proof {
        assert(pairs_view(picked@) + Seq::<(int, int)>::empty() =~= pairs_view(picked@));
    }
    picked
}

/// Appends the script of the anchor alignment of `a` and `b` to `out`.
fn patience_into(a: &[u8], b: &[u8], out: &mut Vec<EditKind>)
    requires
        a.len() <= MAX_TOKENS,
        b.len() <= MAX_TOKENS,
    ensures
        final(out)@ == old(out)@ + patience_ops(a@, b@),
    decreases a.len() + b.len(), 2nat, 0nat,
{
    let ghost before = out@;
    let lead = follow_snake(a, b, 0, 0);
    proof {
        lemma_snake(a@, b@, 0, 0);
    }
    let trail = follow_suffix(a, b, lead);
    push_repeat(out, EditKind::Match, lead);
    let am = slice_subrange(a, lead, a.len() - trail);
    let bm = slice_subrange(b, lead, b.len() - trail);
    patience_middle_into(am, bm, out);
    push_repeat(out, EditKind::Match, trail);
    proof {
        assert(out@ =~= before + patience_ops(a@, b@));
    }
}

/// Appends the script for two sequences without a common start or end to
/// `out`.
fn patience_middle_into(a: &[u8], b: &[u8], out: &mut Vec<EditKind>)
    requires
        a.len() <= MAX_TOKENS,
        b.len() <= MAX_TOKENS,
    ensures
        final(out)@ == old(out)@ + patience_middle(a@, b@),
    decreases a.len() + b.len(), 1nat, 0nat,
{
    let ghost before = out@;
    let m = a.len();
    let n = b.len();
    if m == 0 || n == 0 {
        push_repeat(out, EditKind::Delete, m);
        push_repeat(out, EditKind::Insert, n);
        proof {
            assert(out@ =~= before + patience_middle(a@, b@));
        }
        return ;
    }
    let pairs = find_anchors(a, b);
    let picked = longest_chain(&pairs);
    let ghost pk = pairs_view(picked@);
    if picked.len() == 0 {
        let mut ops = myers_script(a, b);
        out.append(&mut ops);
        return ;
    }
    proof {
        lemma_anchors(a@, b@, m as int);
        let all = anchors(a@, b@, m as int);
        if all.len() > 0 {
            assert(0 <= all[0].0);
        }
        lemma_chain_picked(a@, b@, all, -1, 0, 0);
        assert(out@ + stitch(a@, b@, pk, 0, 0, 0) =~= before + stitch(a@, b@, pk, 0, 0, 0));
    }
    let mut ai: usize = 0;
    let mut bj: usize = 0;
    let mut k: usize = 0;
    while k < picked.len()
        invariant
            m == a.len(),
            n == b.len(),
            m <= MAX_TOKENS,
            n <= MAX_TOKENS,
            m > 0,
            n > 0,
            k <= picked.len(),
            pk == pairs_view(picked@),
            ai <= m,
            bj <= n,
            k > 0 ==> ai > 0,
            picked_ok(a@, b@, pk, k as int, ai as int, bj as int),
            out@ + stitch(a@, b@, pk, k as int, ai as int, bj as int) == before + stitch(
                a@,
                b@,
                pk,
                0,
                0,
                0,
            ),
        decreases picked.len() - k,
    {
        let ghost so_far = out@;
        let ghost rest = stitch(a@, b@, pk, k as int, ai as int, bj as int);
        let (pi, pj) = picked[k];
        proof {
            assert(pk[k as int] == (pi as int, pj as int));
        }
        let ga = slice_subrange(a, ai, pi);
        let gb = slice_subrange(b, bj, pj);
        patience_into(ga, gb, out);
        out.push(EditKind::Match);
        proof {
            assert(out@ + stitch(a@, b@, pk, k + 1, pi + 1, pj + 1) =~= so_far + rest);
        }
        ai = pi + 1;
        bj = pj + 1;
        k = k + 1;
    }
    let ghost so_far = out@;
    let ga = slice_subrange(a, ai, m);
    let gb = slice_subrange(b, bj, n);
    patience_into(ga, gb, out);
    proof {
        assert(out@ =~= so_far + stitch(a@, b@, pk, k as int, ai as int, bj as int));
    }
}

/// Aligns `a` with `b` along their anchors. The result is the script that
/// `patience_ops` defines: the common start and end are matched, the tokens
/// that occur once in both remainders are paired, the longest chain of such
/// pairs that do not cross is matched, and what lies between is aligned in
/// the same way, by the greedy search where no anchor is left.
pub fn patience_script(a: &[u8], b: &[u8]) -> (ops: Vec<EditKind>)
    requires
        a.len() <= MAX_TOKENS,
        b.len() <= MAX_TOKENS,
    ensures
        ops@ == patience_ops(a@, b@),
{
    let mut ops: Vec<EditKind> = Vec::new();
    patience_into(a, b, &mut ops);
    proof {
        assert(Seq::<EditKind>::empty() + patience_ops(a@, b@) =~= patience_ops(a@, b@));
    }
    ops
}

} // verus!
