use objdiff::diff::editops::{EditKind, MAX_TOKENS};
use objdiff::diff::{diff_objs, DiffAlg, DiffError, DiffObjConfig};
use objdiff::obj::{
    ObjArchitecture, ObjDataDiff, ObjInfo, ObjIns, ObjInsArg, ObjInsDiffKind, ObjLine, ObjPairing,
    ObjSection, ObjSectionKind, ObjSymbol, SCORE_FULL,
};

fn ins(op: u8, arg: &str) -> ObjIns {
    ObjIns {
        address: 0,
        op,
        mnemonic: format!("op{}", op),
        args: vec![ObjInsArg::Plain(arg.to_string())],
        reloc: None,
        line: None,
        diff_kind: ObjInsDiffKind::Unclassified,
    }
}

fn code(name: &str, ops: &[u8]) -> ObjSymbol {
    ObjSymbol {
        name: name.to_string(),
        address: 0,
        size: 4 * ops.len() as u64,
        instructions: ops.iter().map(|op| ins(*op, "r0")).collect(),
        diff_symbol: None,
        match_score: 0,
        pairing: ObjPairing::Unpaired,
    }
}

fn blank(name: &str, size: u64) -> ObjSymbol {
    ObjSymbol { size, ..code(name, &[]) }
}

fn section(name: &str, kind: ObjSectionKind, data: &[u8], symbols: Vec<ObjSymbol>) -> ObjSection {
    ObjSection {
        name: name.to_string(),
        kind,
        address: 0,
        data: data.to_vec(),
        symbols,
        relocations: vec![],
        data_diff: vec![],
    }
}

fn image(sections: Vec<ObjSection>, common: Vec<ObjSymbol>) -> ObjInfo {
    ObjInfo {
        architecture: ObjArchitecture::Mips,
        sections,
        common,
        line_info: Some(vec![ObjLine { address: 0, line: 12 }]),
    }
}

fn kinds(symbol: &ObjSymbol) -> Vec<ObjInsDiffKind> {
    symbol.instructions.iter().map(|i| i.diff_kind).collect()
}

fn config(alg: DiffAlg) -> DiffObjConfig {
    DiffObjConfig { code_alg: alg, data_alg: alg, relax_reloc_diffs: false }
}

fn left_image() -> ObjInfo {
    image(
        vec![
            section(
                ".text",
                ObjSectionKind::Code,
                &[],
                vec![code("main", &[1, 2, 3]), code("only_left", &[4, 5])],
            ),
            section(".data", ObjSectionKind::Data, &[1, 2, 3, 4], vec![blank("table", 4)]),
            section(".rodata", ObjSectionKind::Data, &[9, 9], vec![]),
            section(".bss", ObjSectionKind::Bss, &[], vec![blank("buf", 16), blank("tmp", 4)]),
            section(".comment", ObjSectionKind::Other, &[1], vec![blank("note", 1)]),
        ],
        vec![blank("shared", 8), blank("gone", 4)],
    )
}

fn right_image() -> ObjInfo {
    image(
        vec![
            section(".data", ObjSectionKind::Data, &[1, 2, 4], vec![blank("table", 3)]),
            section(".sdata", ObjSectionKind::Data, &[5], vec![]),
            section(
                ".text",
                ObjSectionKind::Code,
                &[],
                vec![code("only_right", &[7]), code("main", &[1, 3])],
            ),
            section(".bss", ObjSectionKind::Bss, &[], vec![blank("buf", 32), blank("new", 4)]),
        ],
        vec![blank("shared", 8), blank("fresh", 4)],
    )
}

#[test]
fn both_images_are_annotated() {
    for alg in [DiffAlg::Patience, DiffAlg::Levenshtein, DiffAlg::Myers, DiffAlg::Lcs] {
        let (mut left, mut right) = (left_image(), right_image());
        assert_eq!(diff_objs(&config(alg), Some(&mut left), Some(&mut right)), Ok(()));

        // Code symbols with a counterpart are diffed, the cross-reference is mutual.
        let main_left = &left.sections[0].symbols[0];
        let main_right = &right.sections[2].symbols[1];
        assert_eq!(
            kinds(main_left),
            vec![ObjInsDiffKind::Matched, ObjInsDiffKind::Delete, ObjInsDiffKind::Matched]
        );
        assert_eq!(kinds(main_right), vec![ObjInsDiffKind::Matched, ObjInsDiffKind::Matched]);
        assert_eq!(main_left.match_score, 6666);
        assert_eq!(main_right.match_score, 6666);
        assert_eq!(main_left.diff_symbol, Some("main".to_string()));
        assert_eq!(main_right.diff_symbol, Some("main".to_string()));

        // Code symbols without a counterpart fall back on their own side.
        let only_left = &left.sections[0].symbols[1];
        assert_eq!(only_left.diff_symbol, None);
        assert_eq!(only_left.match_score, 0);
        assert_eq!(kinds(only_left), vec![ObjInsDiffKind::Delete, ObjInsDiffKind::Delete]);
        let only_right = &right.sections[2].symbols[0];
        assert_eq!(only_right.diff_symbol, None);
        assert_eq!(only_right.match_score, 0);
        assert_eq!(kinds(only_right), vec![ObjInsDiffKind::Insert]);

        // Data sections of the same name are diffed, the others fall back.
        assert_eq!(
            left.sections[1].data_diff,
            vec![
                ObjDataDiff { kind: EditKind::Match, len: 2, symbol: Some(0) },
                ObjDataDiff { kind: EditKind::Delete, len: 1, symbol: Some(0) },
                ObjDataDiff { kind: EditKind::Match, len: 1, symbol: Some(0) },
            ]
        );
        assert_eq!(
            right.sections[0].data_diff,
            vec![
                ObjDataDiff { kind: EditKind::Match, len: 2, symbol: Some(0) },
                ObjDataDiff { kind: EditKind::Delete, len: 1, symbol: None },
                ObjDataDiff { kind: EditKind::Match, len: 1, symbol: Some(0) },
            ]
        );
        assert_eq!(
            left.sections[2].data_diff,
            vec![ObjDataDiff { kind: EditKind::Delete, len: 2, symbol: None }]
        );
        assert_eq!(
            right.sections[1].data_diff,
            vec![ObjDataDiff { kind: EditKind::Insert, len: 1, symbol: None }]
        );

        // Uninitialized symbols are paired by name, in sections and among the common symbols.
        assert_eq!(left.sections[3].symbols[0].pairing, ObjPairing::SizeMismatch);
        assert_eq!(right.sections[3].symbols[0].pairing, ObjPairing::SizeMismatch);
        assert_eq!(left.sections[3].symbols[1].pairing, ObjPairing::OneSided);
        assert_eq!(right.sections[3].symbols[1].pairing, ObjPairing::OneSided);
        assert_eq!(left.common[0].pairing, ObjPairing::Matched);
        assert_eq!(left.common[0].diff_symbol, Some("shared".to_string()));
        assert_eq!(right.common[0].pairing, ObjPairing::Matched);
        assert_eq!(left.common[1].pairing, ObjPairing::OneSided);
        assert_eq!(right.common[1].pairing, ObjPairing::OneSided);

        // Sections of another kind are left alone.
        assert_eq!(left.sections[4], left_image().sections[4]);
    }
}

/// An image with every result of a diff pass taken out again.
fn stripped(obj: &ObjInfo) -> ObjInfo {
    let strip = |symbol: &ObjSymbol| ObjSymbol {
        diff_symbol: None,
        match_score: 0,
        pairing: ObjPairing::Unpaired,
        instructions: symbol
            .instructions
            .iter()
            .map(|i| ObjIns { diff_kind: ObjInsDiffKind::Unclassified, ..i.clone() })
            .collect(),
        ..symbol.clone()
    };
    ObjInfo {
        sections: obj
            .sections
            .iter()
            .map(|s| ObjSection {
                symbols: s.symbols.iter().map(strip).collect(),
                data_diff: vec![],
                ..s.clone()
            })
            .collect(),
        common: obj.common.iter().map(strip).collect(),
        ..obj.clone()
    }
}

#[test]
fn a_pass_only_annotates() {
    let (mut left, mut right) = (left_image(), right_image());
    assert_eq!(diff_objs(&config(DiffAlg::Patience), Some(&mut left), Some(&mut right)), Ok(()));
    assert_eq!(stripped(&left), left_image());
    assert_eq!(stripped(&right), right_image());
    for symbol in left.sections[0].symbols.iter().chain(&right.sections[2].symbols) {
        assert!(symbol.match_score <= SCORE_FULL);
        assert!(symbol.instructions.iter().all(|i| i.diff_kind != ObjInsDiffKind::Unclassified));
    }
}

#[test]
fn a_second_pass_changes_nothing() {
    let (mut left, mut right) = (left_image(), right_image());
    assert_eq!(diff_objs(&config(DiffAlg::Myers), Some(&mut left), Some(&mut right)), Ok(()));
    let (first_left, first_right) = (left.clone(), right.clone());
    assert_eq!(diff_objs(&config(DiffAlg::Myers), Some(&mut left), Some(&mut right)), Ok(()));
    assert_eq!(left, first_left);
    assert_eq!(right, first_right);
}

#[test]
fn identical_images_match_in_full() {
    for alg in [DiffAlg::Patience, DiffAlg::Levenshtein, DiffAlg::Myers, DiffAlg::Lcs] {
        let (mut left, mut right) = (left_image(), left_image());
        assert_eq!(diff_objs(&config(alg), Some(&mut left), Some(&mut right)), Ok(()));
        assert_eq!(left, right);
        for symbol in &left.sections[0].symbols {
            assert_eq!(symbol.match_score, SCORE_FULL);
            assert_eq!(symbol.diff_symbol, Some(symbol.name.clone()));
            assert!(symbol.instructions.iter().all(|i| i.diff_kind == ObjInsDiffKind::Matched));
        }
        assert_eq!(
            left.sections[1].data_diff,
            vec![ObjDataDiff { kind: EditKind::Match, len: 4, symbol: Some(0) }]
        );
        assert!(left.sections[3].symbols.iter().all(|s| s.pairing == ObjPairing::Matched));
        assert!(left.common.iter().all(|s| s.pairing == ObjPairing::Matched));
    }
}

#[test]
fn a_single_image_falls_back() {
    let mut left = left_image();
    assert_eq!(diff_objs(&config(DiffAlg::Patience), Some(&mut left), None), Ok(()));
    for symbol in &left.sections[0].symbols {
        assert_eq!(symbol.diff_symbol, None);
        assert_eq!(symbol.match_score, 0);
        assert!(symbol.instructions.iter().all(|i| i.diff_kind == ObjInsDiffKind::Delete));
    }
    assert_eq!(
        left.sections[1].data_diff,
        vec![ObjDataDiff { kind: EditKind::Delete, len: 4, symbol: Some(0) }]
    );
    // Uninitialized symbols have no counterpart either.
    for symbol in left.sections[3].symbols.iter().chain(&left.common) {
        assert_eq!(symbol.pairing, ObjPairing::OneSided);
        assert_eq!(symbol.diff_symbol, None);
    }
    assert_eq!(left.sections[4], left_image().sections[4]);
    assert_eq!(stripped(&left), left_image());

    let mut right = right_image();
    assert_eq!(diff_objs(&config(DiffAlg::Patience), None, Some(&mut right)), Ok(()));
    for symbol in &right.sections[2].symbols {
        assert!(symbol.instructions.iter().all(|i| i.diff_kind == ObjInsDiffKind::Insert));
        assert_eq!(symbol.match_score, 0);
    }
    assert_eq!(
        right.sections[0].data_diff,
        vec![ObjDataDiff { kind: EditKind::Insert, len: 3, symbol: Some(0) }]
    );
    assert_eq!(stripped(&right), right_image());
}

#[test]
fn no_image_is_no_error() {
    assert_eq!(diff_objs(&config(DiffAlg::Lcs), None, None), Ok(()));
    assert_eq!(diff_objs(&DiffObjConfig::default(), None, None), Ok(()));
}

#[test]
fn duplicates_resolve_to_the_first_right_symbol() {
    let mut left = image(
        vec![section(".text", ObjSectionKind::Code, &[], vec![code("f", &[1]), code("f", &[1, 2])])],
        vec![],
    );
    let mut right = image(
        vec![section(".text", ObjSectionKind::Code, &[], vec![code("f", &[1, 2]), code("f", &[1])])],
        vec![],
    );
    assert_eq!(diff_objs(&config(DiffAlg::Lcs), Some(&mut left), Some(&mut right)), Ok(()));
    // Both left symbols are diffed against the first right symbol.
    assert_eq!(left.sections[0].symbols[0].match_score, 5000);
    assert_eq!(left.sections[0].symbols[1].match_score, SCORE_FULL);
    // The first right symbol keeps the diff against the last left symbol.
    assert_eq!(right.sections[0].symbols[0].match_score, SCORE_FULL);
    assert_eq!(right.sections[0].symbols[0].diff_symbol, Some("f".to_string()));
    // The second right symbol has no counterpart.
    assert_eq!(right.sections[0].symbols[1].diff_symbol, None);
    assert_eq!(kinds(&right.sections[0].symbols[1]), vec![ObjInsDiffKind::Insert]);
}

#[test]
fn an_empty_symbol_with_a_counterpart_keeps_its_cross_reference() {
    let mut left =
        image(vec![section(".text", ObjSectionKind::Code, &[], vec![code("f", &[])])], vec![]);
    let mut right =
        image(vec![section(".text", ObjSectionKind::Code, &[], vec![code("f", &[])])], vec![]);
    assert_eq!(diff_objs(&config(DiffAlg::Patience), Some(&mut left), Some(&mut right)), Ok(()));
    assert_eq!(left.sections[0].symbols[0].diff_symbol, Some("f".to_string()));
    assert_eq!(right.sections[0].symbols[0].diff_symbol, Some("f".to_string()));
    assert_eq!(left.sections[0].symbols[0].match_score, SCORE_FULL);
    assert_eq!(right.sections[0].symbols[0].match_score, SCORE_FULL);
}

#[test]
fn sections_are_paired_by_kind_and_name() {
    let mut left = image(vec![section("x", ObjSectionKind::Data, &[1, 2], vec![])], vec![]);
    let mut right = image(
        vec![
            section("x", ObjSectionKind::Bss, &[], vec![blank("b", 1)]),
            section("x", ObjSectionKind::Data, &[1], vec![]),
        ],
        vec![],
    );
    assert_eq!(diff_objs(&config(DiffAlg::Lcs), Some(&mut left), Some(&mut right)), Ok(()));
    assert_eq!(
        left.sections[0].data_diff,
        vec![
            ObjDataDiff { kind: EditKind::Match, len: 1, symbol: None },
            ObjDataDiff { kind: EditKind::Delete, len: 1, symbol: None },
        ]
    );
    // The right section of another kind has no counterpart.
    assert_eq!(right.sections[0].symbols[0].pairing, ObjPairing::OneSided);
    assert_eq!(right.sections[0].symbols[0].diff_symbol, None);
    assert_eq!(right.sections[1].data_diff.len(), 2);
}

#[test]
fn sections_are_paired_one_to_one() {
    let mut left = image(
        vec![
            section(".bss", ObjSectionKind::Bss, &[], vec![blank("a", 4)]),
            section(".bss", ObjSectionKind::Bss, &[], vec![blank("b", 4)]),
            section(".data", ObjSectionKind::Data, &[1, 2], vec![]),
            section(".data", ObjSectionKind::Data, &[1], vec![]),
        ],
        vec![],
    );
    let mut right = image(
        vec![
            section(".data", ObjSectionKind::Data, &[1, 2], vec![]),
            section(".bss", ObjSectionKind::Bss, &[], vec![blank("a", 4), blank("b", 4)]),
            section(".bss", ObjSectionKind::Bss, &[], vec![blank("a", 4)]),
        ],
        vec![],
    );
    right.sections[2].symbols[0].diff_symbol = Some("stale".to_string());
    assert_eq!(diff_objs(&config(DiffAlg::Lcs), Some(&mut left), Some(&mut right)), Ok(()));
    // The first sections of a name are a pair, and their cross-references are mutual.
    assert_eq!(left.sections[0].symbols[0].diff_symbol, Some("a".to_string()));
    assert_eq!(left.sections[0].symbols[0].pairing, ObjPairing::Matched);
    assert_eq!(right.sections[1].symbols[0].diff_symbol, Some("a".to_string()));
    assert_eq!(right.sections[1].symbols[0].pairing, ObjPairing::Matched);
    assert_eq!(right.sections[1].symbols[1].diff_symbol, None);
    assert_eq!(right.sections[1].symbols[1].pairing, ObjPairing::OneSided);
    // Later sections of the same name have no counterpart, on either side.
    assert_eq!(left.sections[1].symbols[0].diff_symbol, None);
    assert_eq!(left.sections[1].symbols[0].pairing, ObjPairing::OneSided);
    assert_eq!(right.sections[2].symbols[0].diff_symbol, None);
    assert_eq!(right.sections[2].symbols[0].pairing, ObjPairing::OneSided);
    let matched = vec![ObjDataDiff { kind: EditKind::Match, len: 2, symbol: None }];
    assert_eq!(left.sections[2].data_diff, matched);
    assert_eq!(right.sections[0].data_diff, matched);
    assert_eq!(
        left.sections[3].data_diff,
        vec![ObjDataDiff { kind: EditKind::Delete, len: 1, symbol: None }]
    );
}

#[test]
fn cross_references_are_mutual() {
    let mut left = image(
        vec![
            section(".bss", ObjSectionKind::Bss, &[], vec![blank("a", 4)]),
            section(".bss", ObjSectionKind::Bss, &[], vec![]),
        ],
        vec![blank("c", 1)],
    );
    let mut right = image(
        vec![section(".bss", ObjSectionKind::Bss, &[], vec![blank("a", 4)])],
        vec![blank("c", 2), blank("c", 1)],
    );
    assert_eq!(diff_objs(&config(DiffAlg::Patience), Some(&mut left), Some(&mut right)), Ok(()));
    assert_eq!(left.sections[0].symbols[0].diff_symbol, Some("a".to_string()));
    assert_eq!(right.sections[0].symbols[0].diff_symbol, Some("a".to_string()));
    assert_eq!(left.common[0].diff_symbol, Some("c".to_string()));
    assert_eq!(right.common[0].diff_symbol, Some("c".to_string()));
    assert_eq!(right.common[0].pairing, ObjPairing::SizeMismatch);
    assert_eq!(right.common[1].diff_symbol, None);
    for side in [&left, &right] {
        let sections = side.sections.iter().flat_map(|s| s.symbols.iter());
        for symbol in sections.chain(&side.common) {
            if let Some(name) = &symbol.diff_symbol {
                assert_eq!(*name, symbol.name);
            }
        }
    }
}

#[test]
fn a_pass_fails_as_a_whole() {
    let mut left = left_image();
    left.sections[2].data = vec![0u8; MAX_TOKENS + 1];
    let mut right = right_image();
    right.sections[1].name = ".rodata".to_string();
    let right_before = right.clone();
    assert_eq!(
        diff_objs(&config(DiffAlg::Patience), Some(&mut left), Some(&mut right)),
        Err(DiffError::AlignmentFailure)
    );
    // Nothing is annotated, not even what was in order.
    assert_eq!(left.sections[0], left_image().sections[0]);
    assert_eq!(left.sections[1], left_image().sections[1]);
    assert!(left.sections[2].data_diff.is_empty());
    assert_eq!(left.common, left_image().common);
    assert_eq!(right, right_before);

    // A section that is too large and has no counterpart is no obstacle.
    right.sections[1].name = ".sdata".to_string();
    assert_eq!(diff_objs(&config(DiffAlg::Patience), Some(&mut left), Some(&mut right)), Ok(()));
    assert_eq!(
        left.sections[2].data_diff,
        vec![ObjDataDiff { kind: EditKind::Delete, len: MAX_TOKENS + 1, symbol: None }]
    );
}

#[test]
fn the_default_settings() {
    let settings = DiffObjConfig::default();
    assert_eq!(settings.code_alg, DiffAlg::Patience);
    assert_eq!(settings.data_alg, DiffAlg::Patience);
    assert!(!settings.relax_reloc_diffs);
}
