use objdiff::diff::align::{diff_runs, diff_tokens};
use objdiff::diff::editops::{EditKind, EditRun, MAX_TOKENS};
use objdiff::diff::lcs::lcs_script;
use objdiff::diff::levenshtein::levenshtein_script;
use objdiff::diff::myers::myers_script;
use objdiff::diff::patience::patience_script;
use objdiff::diff::{DiffAlg, DiffError};

const ALGS: [DiffAlg; 4] = [DiffAlg::Patience, DiffAlg::Levenshtein, DiffAlg::Myers, DiffAlg::Lcs];

fn run(kind: EditKind, len: usize) -> EditRun {
    EditRun { kind, len }
}

/// Spells out both sides from the script and checks every step on the way.
fn rebuild(ops: &[EditKind], a: &[u8], b: &[u8]) -> (Vec<u8>, Vec<u8>) {
    let mut left = Vec::new();
    let mut right = Vec::new();
    let (mut i, mut j) = (0, 0);
    for op in ops {
        match op {
            EditKind::Match => {
                assert_eq!(a[i], b[j]);
                left.push(b[j]);
                right.push(a[i]);
                i += 1;
                j += 1;
            }
            EditKind::Replace => {
                assert_ne!(a[i], b[j]);
                left.push(a[i]);
                right.push(b[j]);
                i += 1;
                j += 1;
            }
            EditKind::Delete => {
                left.push(a[i]);
                i += 1;
            }
            EditKind::Insert => {
                right.push(b[j]);
                j += 1;
            }
        }
    }
    (left, right)
}

fn edits(ops: &[EditKind]) -> usize {
    ops.iter().filter(|op| **op != EditKind::Match).count()
}

fn samples() -> Vec<(Vec<u8>, Vec<u8>)> {
    let mut out = vec![
        (vec![], vec![]),
        (vec![1], vec![]),
        (vec![], vec![1, 2]),
        (vec![1, 2, 3], vec![1, 3]),
        (vec![1, 2], vec![2, 1]),
        (vec![1, 9, 9, 2], vec![2, 9, 9, 1]),
        (b"kitten".to_vec(), b"sitting".to_vec()),
        (b"abcabba".to_vec(), b"cbabac".to_vec()),
        (vec![5; 7], vec![5; 4]),
    ];
    let mut seed: u32 = 12345;
    for round in 0..40 {
        let mut pair = (Vec::new(), Vec::new());
        for side in 0..2 {
            seed = seed.wrapping_mul(1103515245).wrapping_add(12345);
            let len = (seed >> 16) % 24;
            for _ in 0..len {
                seed = seed.wrapping_mul(1103515245).wrapping_add(12345);
                let byte = ((seed >> 16) % (2 + round % 5)) as u8;
                if side == 0 {
                    pair.0.push(byte);
                } else {
                    pair.1.push(byte);
                }
            }
        }
        out.push(pair);
    }
    out
}

#[test]
fn every_script_reconstructs_both_sides() {
    for (a, b) in samples() {
        for alg in ALGS {
            let ops = diff_tokens(alg, &a, &b).unwrap();
            let (left, right) = rebuild(&ops, &a, &b);
            assert_eq!(left, a);
            assert_eq!(right, b);
        }
    }
}

#[test]
fn identical_sequences_give_matches_only() {
    for (a, _) in samples() {
        for alg in ALGS {
            let runs = diff_runs(alg, &a, &a).unwrap();
            if a.is_empty() {
                assert!(runs.is_empty());
            } else {
                assert_eq!(runs, vec![run(EditKind::Match, a.len())]);
            }
        }
    }
}

#[test]
fn empty_sides_give_one_run() {
    for alg in ALGS {
        assert_eq!(diff_runs(alg, &[], &[]).unwrap(), Vec::new());
        assert_eq!(diff_runs(alg, &[], &[4, 4, 5]).unwrap(), vec![run(EditKind::Insert, 3)]);
        assert_eq!(diff_runs(alg, &[4, 4, 5], &[]).unwrap(), vec![run(EditKind::Delete, 3)]);
    }
}

#[test]
fn only_levenshtein_replaces() {
    for (a, b) in samples() {
        for alg in [DiffAlg::Patience, DiffAlg::Myers, DiffAlg::Lcs] {
            let ops = diff_tokens(alg, &a, &b).unwrap();
            assert!(!ops.contains(&EditKind::Replace));
        }
    }
}

#[test]
fn myers_and_lcs_have_the_fewest_edits() {
    for (a, b) in samples() {
        let myers = myers_script(&a, &b);
        let lcs = lcs_script(&a, &b);
        let patience = patience_script(&a, &b);
        let lev = levenshtein_script(&a, &b);
        assert_eq!(edits(&myers), edits(&lcs));
        assert!(edits(&patience) >= edits(&myers));
        assert!(edits(&lev) <= edits(&myers));
    }
}

#[test]
fn the_middle_token_is_deleted() {
    for alg in ALGS {
        assert_eq!(
            diff_runs(alg, &[1, 2, 3], &[1, 3]).unwrap(),
            vec![run(EditKind::Match, 1), run(EditKind::Delete, 1), run(EditKind::Match, 1)]
        );
    }
}

#[test]
fn lcs_takes_the_earliest_left_match() {
    assert_eq!(
        diff_runs(DiffAlg::Lcs, &[1, 2], &[2, 1]).unwrap(),
        vec![run(EditKind::Insert, 1), run(EditKind::Match, 1), run(EditKind::Delete, 1)]
    );
    assert_eq!(
        diff_runs(DiffAlg::Lcs, &[1, 9, 9, 2], &[2, 9, 9, 1]).unwrap(),
        vec![
            run(EditKind::Insert, 1),
            run(EditKind::Delete, 1),
            run(EditKind::Match, 2),
            run(EditKind::Insert, 1),
            run(EditKind::Delete, 1),
        ]
    );
}

#[test]
fn myers_deletes_before_it_inserts() {
    assert_eq!(
        diff_runs(DiffAlg::Myers, &[1, 2], &[2, 1]).unwrap(),
        vec![run(EditKind::Delete, 1), run(EditKind::Match, 1), run(EditKind::Insert, 1)]
    );
}

#[test]
fn levenshtein_prefers_replacements() {
    assert_eq!(
        diff_runs(DiffAlg::Levenshtein, &[1, 2], &[2, 1]).unwrap(),
        vec![run(EditKind::Replace, 2)]
    );
    assert_eq!(
        diff_runs(DiffAlg::Levenshtein, b"kitten", b"sitting").unwrap(),
        vec![
            run(EditKind::Replace, 1),
            run(EditKind::Match, 3),
            run(EditKind::Replace, 1),
            run(EditKind::Match, 1),
            run(EditKind::Insert, 1),
        ]
    );
}

#[test]
fn patience_follows_the_anchors() {
    // 1 and 2 occur once on both sides and cross; the pair of the earlier
    // left token is kept, though a longer common subsequence exists.
    assert_eq!(
        diff_runs(DiffAlg::Patience, &[1, 9, 9, 2], &[2, 9, 9, 1]).unwrap(),
        vec![run(EditKind::Insert, 3), run(EditKind::Match, 1), run(EditKind::Delete, 3)]
    );
    // The longest chain of anchors is kept when a block moves.
    assert_eq!(
        diff_runs(DiffAlg::Patience, &[1, 2, 3, 4, 5], &[4, 5, 1, 2, 3]).unwrap(),
        vec![run(EditKind::Insert, 2), run(EditKind::Match, 3), run(EditKind::Delete, 2)]
    );
}

#[test]
fn patience_strips_common_ends_and_recurses() {
    // 7 ... 7 frames the middle; 3 is the only anchor of the middle.
    assert_eq!(
        diff_runs(DiffAlg::Patience, &[7, 1, 1, 3, 2, 7], &[7, 2, 3, 1, 1, 7]).unwrap(),
        vec![
            run(EditKind::Match, 1),
            run(EditKind::Delete, 2),
            run(EditKind::Insert, 1),
            run(EditKind::Match, 1),
            run(EditKind::Delete, 1),
            run(EditKind::Insert, 2),
            run(EditKind::Match, 1),
        ]
    );
}

#[test]
fn too_long_a_sequence_fails() {
    let long = vec![0u8; MAX_TOKENS + 1];
    for alg in ALGS {
        assert_eq!(diff_tokens(alg, &long, &[]), Err(DiffError::AlignmentFailure));
        assert_eq!(diff_runs(alg, &[1], &long), Err(DiffError::AlignmentFailure));
    }
}

#[test]
fn the_default_algorithm_is_patience() {
    assert_eq!(DiffAlg::default(), DiffAlg::Patience);
}
