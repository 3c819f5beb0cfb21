//! The one entry to the four alignment algorithms, and what holds of all of
//! them.

use crate::diff::editops::{
    aligned, edit_cost, expand, group_runs, left_rebuilt, lemma_aligns_lengths,
    lemma_aligns_matches, lemma_count_repeat, lemma_count_total, lemma_only_kind, lemma_rle,
    lemma_script_reconstructs, lemma_single_run, normalized, repeat, right_rebuilt, rle, EditKind,
    EditRun, MAX_TOKENS,
};
use crate::diff::lcs::{lcs_ops, lcs_script, lemma_lcs_ops_aligns};
use crate::diff::levenshtein::{lemma_lev_ops_aligns, lev_ops, levenshtein_script};
use crate::diff::myers::{
    lemma_myers_least, lemma_myers_ops, myers_ops, myers_script, snake_end,
};
use crate::diff::patience::{common_suffix, lemma_patience_ops, patience_ops, patience_script};
use crate::diff::{DiffAlg, DiffError};
use vstd::prelude::*;

verus! {

/// The script that algorithm `alg` gives for `a` and `b`, step by step.
pub open spec fn script_ops(alg: DiffAlg, a: Seq<u8>, b: Seq<u8>) -> Seq<EditKind> {
    match alg {
        DiffAlg::Lcs => lcs_ops(a, 0, b, 0),
        DiffAlg::Levenshtein => lev_ops(a, 0, b, 0),
        DiffAlg::Myers => myers_ops(a, b),
        DiffAlg::Patience => patience_ops(a, b),
    }
}

/// Whatever the algorithm, its script is an edit script from `a` to `b`: it
/// walks through all of `a` and all of `b`, and it matches equal tokens only.
pub proof fn lemma_script_aligned(alg: DiffAlg, a: Seq<u8>, b: Seq<u8>)
    ensures
        aligned(script_ops(alg, a, b), a, b),
{
    match alg {
        DiffAlg::Lcs => lemma_lcs_ops_aligns(a, 0, b, 0),
        DiffAlg::Levenshtein => lemma_lev_ops_aligns(a, 0, b, 0),
        DiffAlg::Myers => lemma_myers_ops(a, b),
        DiffAlg::Patience => lemma_patience_ops(a, b),
    }
}

/// Whatever the algorithm and the two sequences, the matches, deletions and
/// replacements of the script reconstruct the left sequence exactly, and its
/// matches, insertions and replacements reconstruct the right sequence
/// exactly.
pub proof fn lemma_script_rebuilds(alg: DiffAlg, a: Seq<u8>, b: Seq<u8>)
    ensures
        left_rebuilt(script_ops(alg, a, b), a, 0, b, 0) == a,
        right_rebuilt(script_ops(alg, a, b), a, 0, b, 0) == b,
{
    lemma_script_aligned(alg, a, b);
    lemma_script_reconstructs(script_ops(alg, a, b), a, b);
}

/// An edit script from a sequence to itself that has no edit is one match
/// for every token.
pub proof fn lemma_free_script_matches(ops: Seq<EditKind>, a: Seq<u8>)
    requires
        aligned(ops, a, a),
        edit_cost(ops) == 0,
    ensures
        ops == repeat(EditKind::Match, a.len()),
{
    lemma_aligns_lengths(ops, a, 0, a.len() as int, a, 0, a.len() as int);
    lemma_count_total(ops);
    lemma_only_kind(ops, EditKind::Match);
}

/// The longest-common-subsequence script from a sequence to itself is all
/// matches.
pub proof fn lemma_lcs_identical(a: Seq<u8>, i: int)
    requires
        0 <= i <= a.len(),
    ensures
        lcs_ops(a, i, a, i) == repeat(EditKind::Match, (a.len() - i) as nat),
    decreases a.len() - i,
{
    if i < a.len() {
        lemma_lcs_identical(a, i + 1);
        assert(lcs_ops(a, i, a, i) =~= repeat(EditKind::Match, (a.len() - i) as nat));
    } else {
        assert(lcs_ops(a, i, a, i) =~= repeat(EditKind::Match, 0));
    }
}

/// The edit-distance script from a sequence to itself is all matches.
pub proof fn lemma_lev_identical(a: Seq<u8>, i: int)
    requires
        0 <= i <= a.len(),
    ensures
        lev_ops(a, i, a, i) == repeat(EditKind::Match, (a.len() - i) as nat),
    decreases a.len() - i,
{
    if i < a.len() {
        lemma_lev_identical(a, i + 1);
        assert(lev_ops(a, i, a, i) =~= repeat(EditKind::Match, (a.len() - i) as nat));
    } else {
        assert(lev_ops(a, i, a, i) =~= repeat(EditKind::Match, 0));
    }
}

/// The run of equal tokens of a sequence against itself goes to its end.
pub proof fn lemma_snake_identical(a: Seq<u8>, x: int)
    requires
        0 <= x <= a.len(),
    ensures
        snake_end(a, a, x, x) == a.len(),
    decreases a.len() - x,
{
    if x < a.len() {
        lemma_snake_identical(a, x + 1);
    }
}

/// Whatever the algorithm, the script from a sequence to itself is one
/// match for every token and nothing else.
pub proof fn lemma_identical_all_match(alg: DiffAlg, a: Seq<u8>)
    ensures
        script_ops(alg, a, a) == repeat(EditKind::Match, a.len()),
        a.len() > 0 && a.len() <= usize::MAX ==> rle(script_ops(alg, a, a)) == seq![
            EditRun { kind: EditKind::Match, len: a.len() as usize },
        ],
        a.len() == 0 ==> rle(script_ops(alg, a, a)).len() == 0,
{
    let all = repeat(EditKind::Match, a.len());
    match alg {
        DiffAlg::Lcs => {
            lemma_lcs_identical(a, 0);
        },
        DiffAlg::Levenshtein => {
            lemma_lev_identical(a, 0);
        },
        DiffAlg::Myers => {
            lemma_aligns_matches(a, 0, a, 0, a.len());
            lemma_count_repeat(EditKind::Match, a.len(), EditKind::Insert);
            lemma_count_repeat(EditKind::Match, a.len(), EditKind::Delete);
            lemma_count_repeat(EditKind::Match, a.len(), EditKind::Replace);
            lemma_myers_least(all, a, a);
            lemma_myers_ops(a, a);
            lemma_free_script_matches(myers_ops(a, a), a);
        },
        DiffAlg::Patience => {
            lemma_snake_identical(a, 0);
            let rest = a.skip(a.len() as int);
            assert(rest.len() == 0);
            assert(common_suffix(rest, rest) == 0);
            let middle = a.subrange(a.len() as int, a.len() - 0);
            assert(middle.len() == 0);
            assert(patience_ops(a, a) =~= all);
        },
    }
    if a.len() <= usize::MAX {
        lemma_rle(all);
        if a.len() > 0 {
            lemma_count_repeat(EditKind::Match, a.len(), EditKind::Match);
            lemma_single_run(rle(all), EditKind::Match);
            assert(rle(all) =~= seq![EditRun { kind: EditKind::Match, len: a.len() as usize }]);
        }
    } else {
        assert(a.len() != 0);
    }
}

/// Aligns `left` with `right` by the algorithm `alg` and gives the script
/// step by step. It fails on a sequence of more than `MAX_TOKENS` tokens and
/// on nothing else.
pub fn diff_tokens(alg: DiffAlg, left: &[u8], right: &[u8]) -> (r: Result<Vec<EditKind>, DiffError>)
    ensures
        r is Err <==> left.len() > MAX_TOKENS || right.len() > MAX_TOKENS,
        r matches Ok(ops) ==> ops@ == script_ops(alg, left@, right@),
{
    if left.len() > MAX_TOKENS || right.len() > MAX_TOKENS {
        return Err(DiffError::AlignmentFailure);
    }
    let ops = match alg {
        DiffAlg::Lcs => lcs_script(left, right),
        DiffAlg::Levenshtein => levenshtein_script(left, right),
        DiffAlg::Myers => myers_script(left, right),
        DiffAlg::Patience => patience_script(left, right),
    };
    Ok(ops)
}

/// Aligns `left` with `right` by the algorithm `alg` and gives the script as
/// runs: no run is empty, and neighbours differ in kind. Two empty sequences
/// give no run, and one empty sequence beside a sequence of `n` tokens gives
/// the one run that inserts or deletes all `n`.
pub fn diff_runs(alg: DiffAlg, left: &[u8], right: &[u8]) -> (r: Result<Vec<EditRun>, DiffError>)
    ensures
        r is Err <==> left.len() > MAX_TOKENS || right.len() > MAX_TOKENS,
        r matches Ok(runs) ==> runs@ == rle(script_ops(alg, left@, right@)),
        r matches Ok(runs) ==> expand(runs@) == script_ops(alg, left@, right@) && normalized(runs@),
        r matches Ok(runs) ==> (left.len() == 0 && right.len() == 0 ==> runs@.len() == 0),
        r matches Ok(runs) ==> (left.len() == 0 && right.len() > 0 ==> runs@ == seq![
            EditRun { kind: EditKind::Insert, len: right.len() },
        ]),
        r matches Ok(runs) ==> (left.len() > 0 && right.len() == 0 ==> runs@ == seq![
            EditRun { kind: EditKind::Delete, len: left.len() },
        ]),
{
    match diff_tokens(alg, left, right) {
        Ok(ops) => {
            let runs = group_runs(&ops);
            proof {
                lemma_script_aligned(alg, left@, right@);
                lemma_one_sided_runs(ops@, runs@, left@, right@);
            }
            Ok(runs)
        },
        Err(e) => Err(e),
    }
}

/// An edit script between an empty sequence and another sequence is, as
/// runs, nothing at all or the one run over the other sequence.
pub proof fn lemma_one_sided_runs(ops: Seq<EditKind>, runs: Seq<EditRun>, a: Seq<u8>, b: Seq<u8>)
    requires
        aligned(ops, a, b),
        expand(runs) == ops,
        normalized(runs),
        b.len() <= usize::MAX,
        a.len() <= usize::MAX,
    ensures
        a.len() == 0 && b.len() == 0 ==> runs.len() == 0,
        a.len() == 0 && b.len() > 0 ==> runs == seq![
            EditRun { kind: EditKind::Insert, len: b.len() as usize },
        ],
        a.len() > 0 && b.len() == 0 ==> runs == seq![
            EditRun { kind: EditKind::Delete, len: a.len() as usize },
        ],
{
    lemma_aligns_lengths(ops, a, 0, a.len() as int, b, 0, b.len() as int);
    lemma_count_total(ops);
    if a.len() == 0 && b.len() == 0 {
        assert(ops.len() == 0);
        if runs.len() > 0 {
            assert(runs[runs.len() - 1].len > 0);
            assert(expand(runs) == expand(runs.drop_last()) + repeat(
                runs.last().kind,
                runs.last().len as nat,
            ));
        }
    } else if a.len() == 0 {
        lemma_single_run(runs, EditKind::Insert);
        assert(runs =~= seq![EditRun { kind: EditKind::Insert, len: b.len() as usize }]);
    } else if b.len() == 0 {
        lemma_single_run(runs, EditKind::Delete);
        assert(runs =~= seq![EditRun { kind: EditKind::Delete, len: a.len() as usize }]);
    }
}

} // verus!
