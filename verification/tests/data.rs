use objdiff::diff::code::DiffSide;
use objdiff::diff::data::{diff_bss_symbols, diff_data, no_diff_data};
use objdiff::diff::editops::{EditKind, MAX_TOKENS};
use objdiff::diff::{DiffAlg, DiffError};
use objdiff::obj::{ObjDataDiff, ObjPairing, ObjSection, ObjSectionKind, ObjSymbol};

fn symbol(name: &str, address: u64, size: u64) -> ObjSymbol {
    ObjSymbol {
        name: name.to_string(),
        address,
        size,
        instructions: vec![],
        diff_symbol: None,
        match_score: 0,
        pairing: ObjPairing::Unpaired,
    }
}

fn section(data: Vec<u8>, symbols: Vec<ObjSymbol>) -> ObjSection {
    ObjSection {
        name: ".data".to_string(),
        kind: ObjSectionKind::Data,
        address: 0,
        data,
        symbols,
        relocations: vec![],
        data_diff: vec![],
    }
}

fn piece(kind: EditKind, len: usize, symbol: Option<usize>) -> ObjDataDiff {
    ObjDataDiff { kind, len, symbol }
}

#[test]
fn the_data_diff_is_cut_at_symbol_boundaries() {
    let symbols = || vec![symbol("a", 0, 4), symbol("b", 4, 4)];
    let mut left = section(vec![1, 2, 3, 4, 5, 6, 7, 8], symbols());
    let mut right = section(vec![1, 2, 3, 4, 5, 9, 7, 8], symbols());
    assert_eq!(diff_data(DiffAlg::Levenshtein, &mut left, &mut right), Ok(()));
    let expected = vec![
        piece(EditKind::Match, 4, Some(0)),
        piece(EditKind::Match, 1, Some(1)),
        piece(EditKind::Replace, 1, Some(1)),
        piece(EditKind::Match, 2, Some(1)),
    ];
    assert_eq!(left.data_diff, expected);
    assert_eq!(right.data_diff, expected);
}

#[test]
fn each_side_sees_its_own_bytes() {
    let mut left = section(vec![1, 2, 3, 4, 5, 6, 7, 8], vec![symbol("a", 0, 4), symbol("b", 4, 4)]);
    let mut right = section(vec![1, 2, 3, 4, 5, 9, 7, 8], vec![symbol("a", 0, 6), symbol("b", 6, 2)]);
    assert_eq!(diff_data(DiffAlg::Lcs, &mut left, &mut right), Ok(()));
    assert_eq!(
        left.data_diff,
        vec![
            piece(EditKind::Match, 4, Some(0)),
            piece(EditKind::Match, 1, Some(1)),
            piece(EditKind::Insert, 1, None),
            piece(EditKind::Delete, 1, Some(1)),
            piece(EditKind::Match, 2, Some(1)),
        ]
    );
    assert_eq!(
        right.data_diff,
        vec![
            piece(EditKind::Match, 5, Some(0)),
            piece(EditKind::Insert, 1, Some(0)),
            piece(EditKind::Delete, 1, None),
            piece(EditKind::Match, 2, Some(1)),
        ]
    );
}

#[test]
fn bytes_outside_every_symbol_belong_to_none() {
    let mut left = section(vec![7; 6], vec![symbol("mid", 2, 2)]);
    let mut right = section(vec![7; 6], vec![]);
    for alg in [DiffAlg::Patience, DiffAlg::Levenshtein, DiffAlg::Myers, DiffAlg::Lcs] {
        assert_eq!(diff_data(alg, &mut left, &mut right), Ok(()));
        assert_eq!(
            left.data_diff,
            vec![
                piece(EditKind::Match, 2, None),
                piece(EditKind::Match, 2, Some(0)),
                piece(EditKind::Match, 2, None),
            ]
        );
        assert_eq!(right.data_diff, vec![piece(EditKind::Match, 6, None)]);
    }
}

#[test]
fn of_overlapping_symbols_the_first_owns_a_byte() {
    let mut left = section(vec![1, 2, 3, 4], vec![symbol("wide", 0, 4), symbol("inner", 1, 2)]);
    no_diff_data(&mut left, DiffSide::Left);
    assert_eq!(
        left.data_diff,
        vec![
            piece(EditKind::Delete, 1, Some(0)),
            piece(EditKind::Delete, 2, Some(0)),
            piece(EditKind::Delete, 1, Some(0)),
        ]
    );
}

#[test]
fn a_symbol_that_reaches_past_the_address_space_is_cut_at_its_start_only() {
    let mut left = section(vec![1, 2, 3], vec![symbol("huge", 1, u64::MAX)]);
    no_diff_data(&mut left, DiffSide::Left);
    assert_eq!(
        left.data_diff,
        vec![piece(EditKind::Delete, 1, None), piece(EditKind::Delete, 2, Some(0))]
    );
}

#[test]
fn empty_sections_have_an_empty_diff() {
    let mut left = section(vec![], vec![symbol("a", 0, 0)]);
    let mut right = section(vec![], vec![]);
    assert_eq!(diff_data(DiffAlg::Patience, &mut left, &mut right), Ok(()));
    assert!(left.data_diff.is_empty() && right.data_diff.is_empty());
    no_diff_data(&mut left, DiffSide::Left);
    assert!(left.data_diff.is_empty());
}

#[test]
fn the_data_fallback_is_one_sided() {
    let mut left = section(vec![1, 2, 3], vec![symbol("a", 0, 2)]);
    no_diff_data(&mut left, DiffSide::Left);
    assert_eq!(
        left.data_diff,
        vec![piece(EditKind::Delete, 2, Some(0)), piece(EditKind::Delete, 1, None)]
    );
    let mut right = section(vec![1, 2, 3], vec![symbol("a", 1, 9)]);
    no_diff_data(&mut right, DiffSide::Right);
    assert_eq!(
        right.data_diff,
        vec![piece(EditKind::Insert, 1, None), piece(EditKind::Insert, 2, Some(0))]
    );
}

#[test]
fn too_large_a_section_fails_and_changes_nothing() {
    let mut left = section(vec![0u8; MAX_TOKENS + 1], vec![]);
    let mut right = section(vec![1, 2], vec![]);
    right.data_diff = vec![piece(EditKind::Match, 2, None)];
    assert_eq!(diff_data(DiffAlg::Myers, &mut left, &mut right), Err(DiffError::AlignmentFailure));
    assert!(left.data_diff.is_empty());
    assert_eq!(right.data_diff, vec![piece(EditKind::Match, 2, None)]);
}

#[test]
fn uninitialized_symbols_are_paired_by_name() {
    let mut left = vec![symbol("a", 0, 4), symbol("b", 4, 8), symbol("d", 12, 2)];
    let mut right = vec![symbol("a", 0, 8), symbol("c", 8, 8), symbol("d", 16, 2)];
    diff_bss_symbols(&mut left, &mut right);
    // The same name with another size is a pair that is flagged as a size mismatch.
    assert_eq!(left[0].pairing, ObjPairing::SizeMismatch);
    assert_eq!(left[0].diff_symbol, Some("a".to_string()));
    assert_eq!(right[0].pairing, ObjPairing::SizeMismatch);
    assert_eq!(right[0].diff_symbol, Some("a".to_string()));
    // The same size with another name is no pair at all.
    assert_eq!(left[1].pairing, ObjPairing::OneSided);
    assert_eq!(left[1].diff_symbol, None);
    assert_eq!(right[1].pairing, ObjPairing::OneSided);
    assert_eq!(right[1].diff_symbol, None);
    // The same name and size is a match.
    assert_eq!(left[2].pairing, ObjPairing::Matched);
    assert_eq!(right[2].pairing, ObjPairing::Matched);
    assert_eq!(right[2].diff_symbol, Some("d".to_string()));
    // Nothing else is touched.
    assert_eq!(left[0].size, 4);
    assert_eq!(left[0].match_score, 0);
    assert_eq!(right[1].name, "c");
}

#[test]
fn of_two_symbols_of_one_name_the_first_right_and_the_last_left_are_paired() {
    let mut left = vec![symbol("x", 0, 4), symbol("x", 4, 8)];
    let mut right = vec![symbol("x", 0, 4), symbol("x", 4, 4)];
    right[1].diff_symbol = Some("stale".to_string());
    diff_bss_symbols(&mut left, &mut right);
    assert_eq!(left[0].pairing, ObjPairing::Matched);
    assert_eq!(left[1].pairing, ObjPairing::SizeMismatch);
    assert_eq!(right[0].pairing, ObjPairing::SizeMismatch);
    assert_eq!(right[0].diff_symbol, Some("x".to_string()));
    assert_eq!(right[1].pairing, ObjPairing::OneSided);
    assert_eq!(right[1].diff_symbol, None);
}

#[test]
fn empty_lists_of_uninitialized_symbols() {
    let mut left: Vec<ObjSymbol> = vec![];
    let mut right = vec![symbol("a", 0, 1)];
    diff_bss_symbols(&mut left, &mut right);
    assert_eq!(right[0].pairing, ObjPairing::OneSided);
    let mut none: Vec<ObjSymbol> = vec![];
    diff_bss_symbols(&mut right, &mut none);
    assert_eq!(right[0].pairing, ObjPairing::OneSided);
    assert!(none.is_empty());
}
