use objdiff::diff::code::{
    diff_code, find_section_and_symbol, ins_eq, no_diff_code, process_code, score_of, DiffSide,
    CREDIT_MATCHED, CREDIT_MISMATCH,
};
use objdiff::diff::{DiffAlg, DiffObjConfig};
use objdiff::obj::{
    ObjArchitecture, ObjInfo, ObjIns, ObjInsArg, ObjInsDiffKind, ObjPairing, ObjReloc, ObjSection,
    ObjSectionKind, ObjSymbol, SCORE_FULL,
};

const ALGS: [DiffAlg; 4] = [DiffAlg::Patience, DiffAlg::Levenshtein, DiffAlg::Myers, DiffAlg::Lcs];

fn ins(op: u8, mnemonic: &str, args: &[&str]) -> ObjIns {
    ObjIns {
        address: 0,
        op,
        mnemonic: mnemonic.to_string(),
        args: args.iter().map(|a| ObjInsArg::Plain(a.to_string())).collect(),
        reloc: None,
        line: None,
        diff_kind: ObjInsDiffKind::Unclassified,
    }
}

fn call(target: &str, target_address: u64) -> ObjIns {
    ObjIns {
        address: 0,
        op: 9,
        mnemonic: "bl".to_string(),
        args: vec![ObjInsArg::Reloc],
        reloc: Some(ObjReloc {
            kind: 10,
            address: 0,
            target: target.to_string(),
            target_address,
            addend: 0,
        }),
        line: None,
        diff_kind: ObjInsDiffKind::Unclassified,
    }
}

fn symbol(name: &str, instructions: Vec<ObjIns>) -> ObjSymbol {
    ObjSymbol {
        name: name.to_string(),
        address: 0,
        size: 4 * instructions.len() as u64,
        instructions,
        diff_symbol: None,
        match_score: 77,
        pairing: ObjPairing::Unpaired,
    }
}

fn config(code_alg: DiffAlg, relax_reloc_diffs: bool) -> DiffObjConfig {
    DiffObjConfig { code_alg, data_alg: DiffAlg::Lcs, relax_reloc_diffs }
}

fn kinds(symbol: &ObjSymbol) -> Vec<ObjInsDiffKind> {
    symbol.instructions.iter().map(|i| i.diff_kind).collect()
}

fn mov() -> ObjIns {
    ins(1, "mov", &["r0", "r1"])
}

fn add(imm: &str) -> ObjIns {
    ins(2, "add", &["r0", imm])
}

fn ret() -> ObjIns {
    ins(3, "ret", &[])
}

#[test]
fn an_operand_mismatch_gets_half_credit() {
    for alg in ALGS {
        let mut left = symbol("f", vec![mov(), add("1"), ret()]);
        let mut right = symbol("f", vec![mov(), add("2"), ret()]);
        assert_eq!(diff_code(&config(alg, false), &mut left, &mut right), Ok(()));
        let expected = vec![
            ObjInsDiffKind::Matched,
            ObjInsDiffKind::OperandMismatch,
            ObjInsDiffKind::Matched,
        ];
        assert_eq!(kinds(&left), expected);
        assert_eq!(kinds(&right), expected);
        assert_eq!(left.match_score, 8333);
        assert_eq!(right.match_score, 8333);
        assert!(0 < left.match_score && left.match_score < SCORE_FULL);
        assert_eq!(left.diff_symbol, Some("f".to_string()));
        assert_eq!(right.diff_symbol, Some("f".to_string()));
    }
}

#[test]
fn a_missing_instruction_costs_a_third() {
    for alg in ALGS {
        let mut left = symbol("f", vec![mov(), add("1"), ret()]);
        let mut right = symbol("f", vec![mov(), ret()]);
        assert_eq!(diff_code(&config(alg, false), &mut left, &mut right), Ok(()));
        assert_eq!(
            kinds(&left),
            vec![ObjInsDiffKind::Matched, ObjInsDiffKind::Delete, ObjInsDiffKind::Matched]
        );
        assert_eq!(kinds(&right), vec![ObjInsDiffKind::Matched, ObjInsDiffKind::Matched]);
        assert_eq!(left.match_score, 6666);
        assert_eq!(right.match_score, 6666);
        let percent = left.match_score as f32 / 100.0;
        assert!((percent - 66.7).abs() < 0.1);
    }
}

#[test]
fn two_empty_symbols_match_in_full() {
    for alg in ALGS {
        let mut left = symbol("f", vec![]);
        let mut right = symbol("f", vec![]);
        assert_eq!(diff_code(&config(alg, false), &mut left, &mut right), Ok(()));
        assert!(left.instructions.is_empty() && right.instructions.is_empty());
        assert_eq!(left.match_score, SCORE_FULL);
        assert_eq!(right.match_score, SCORE_FULL);
    }
}

#[test]
fn one_empty_symbol_scores_zero() {
    for alg in ALGS {
        let mut left = symbol("f", vec![mov(), ret()]);
        let mut right = symbol("f", vec![]);
        assert_eq!(diff_code(&config(alg, false), &mut left, &mut right), Ok(()));
        assert_eq!(kinds(&left), vec![ObjInsDiffKind::Delete, ObjInsDiffKind::Delete]);
        assert_eq!(left.match_score, 0);
        assert_eq!(right.match_score, 0);
        assert_eq!(left.diff_symbol, Some("f".to_string()));

        let mut left = symbol("f", vec![]);
        let mut right = symbol("g", vec![mov()]);
        assert_eq!(diff_code(&config(alg, false), &mut left, &mut right), Ok(()));
        assert_eq!(kinds(&right), vec![ObjInsDiffKind::Insert]);
        assert_eq!(right.match_score, 0);
        assert_eq!(left.diff_symbol, Some("g".to_string()));
        assert_eq!(right.diff_symbol, Some("f".to_string()));
    }
}

#[test]
fn identical_symbols_score_full() {
    for alg in ALGS {
        for relax in [false, true] {
            let body = vec![mov(), call("memcpy", 0x80), add("1"), add("1"), ret()];
            let mut left = symbol("f", body.clone());
            let mut right = symbol("f", body);
            assert_eq!(diff_code(&config(alg, relax), &mut left, &mut right), Ok(()));
            assert_eq!(kinds(&left), vec![ObjInsDiffKind::Matched; 5]);
            assert_eq!(kinds(&right), vec![ObjInsDiffKind::Matched; 5]);
            assert_eq!(left.match_score, SCORE_FULL);
            assert_eq!(right.match_score, SCORE_FULL);
        }
    }
}

#[test]
fn relaxing_ignores_the_target_address() {
    for alg in ALGS {
        let mut left = symbol("f", vec![call("memcpy", 0x80), ret()]);
        let mut right = symbol("f", vec![call("memcpy", 0x90), ret()]);
        assert_eq!(diff_code(&config(alg, false), &mut left, &mut right), Ok(()));
        assert_eq!(kinds(&left), vec![ObjInsDiffKind::OperandMismatch, ObjInsDiffKind::Matched]);
        assert_eq!(left.match_score, 7500);
        let strict = left.match_score;

        let mut left = symbol("f", vec![call("memcpy", 0x80), ret()]);
        let mut right = symbol("f", vec![call("memcpy", 0x90), ret()]);
        assert_eq!(diff_code(&config(alg, true), &mut left, &mut right), Ok(()));
        assert_eq!(kinds(&left), vec![ObjInsDiffKind::Matched, ObjInsDiffKind::Matched]);
        assert_eq!(left.match_score, SCORE_FULL);
        assert!(left.match_score >= strict);
    }
}

#[test]
fn relaxing_keeps_the_target_name() {
    for relax in [false, true] {
        let mut left = symbol("f", vec![call("memcpy", 0x80)]);
        let mut right = symbol("f", vec![call("memset", 0x80)]);
        assert_eq!(diff_code(&config(DiffAlg::Myers, relax), &mut left, &mut right), Ok(()));
        assert_eq!(kinds(&left), vec![ObjInsDiffKind::OperandMismatch]);
        assert_eq!(left.match_score, 5000);
    }
}

#[test]
fn instructions_are_compared_by_all_their_parts() {
    assert!(ins_eq(&add("1"), &add("1"), false));
    assert!(!ins_eq(&add("1"), &add("2"), false));
    assert!(!ins_eq(&add("1"), &ins(2, "addi", &["r0", "1"]), false));
    assert!(!ins_eq(&add("1"), &ins(4, "add", &["r0", "1"]), false));
    assert!(!ins_eq(&add("1"), &ins(2, "add", &["r0"]), false));
    assert!(!ins_eq(&call("a", 1), &call("a", 2), false));
    assert!(ins_eq(&call("a", 1), &call("a", 2), true));
    assert!(!ins_eq(&call("a", 1), &call("b", 1), true));
    let mut shifted = call("a", 1);
    shifted.reloc.as_mut().unwrap().addend = 4;
    assert!(!ins_eq(&call("a", 1), &shifted, true));
    let mut other_kind = call("a", 1);
    other_kind.reloc.as_mut().unwrap().kind = 11;
    assert!(!ins_eq(&call("a", 1), &other_kind, true));
    let mut bare = call("a", 1);
    bare.reloc = None;
    assert!(!ins_eq(&call("a", 1), &bare, true));
    let branch = |offset| ObjIns { args: vec![ObjInsArg::BranchOffset(offset)], ..ret() };
    assert!(ins_eq(&branch(8), &branch(8), false));
    assert!(!ins_eq(&branch(8), &branch(-8), false));
    assert!(!ins_eq(&branch(8), &ObjIns { args: vec![ObjInsArg::Reloc], ..ret() }, false));
    // The classification and the address take no part.
    let mut seen = add("1");
    seen.diff_kind = ObjInsDiffKind::Delete;
    seen.address = 64;
    assert!(ins_eq(&add("1"), &seen, false));
}

#[test]
fn levenshtein_replacements_are_one_sided() {
    let mut left = symbol("f", vec![mov(), add("1"), ret()]);
    let mut right = symbol("f", vec![mov(), ins(7, "sub", &["r0", "1"]), ret()]);
    assert_eq!(diff_code(&config(DiffAlg::Levenshtein, false), &mut left, &mut right), Ok(()));
    assert_eq!(
        kinds(&left),
        vec![ObjInsDiffKind::Matched, ObjInsDiffKind::Delete, ObjInsDiffKind::Matched]
    );
    assert_eq!(
        kinds(&right),
        vec![ObjInsDiffKind::Matched, ObjInsDiffKind::Insert, ObjInsDiffKind::Matched]
    );
    assert_eq!(left.match_score, 6666);
}

#[test]
fn a_diff_only_annotates() {
    let mut left = symbol("f", vec![mov(), add("1"), ret()]);
    let mut right = symbol("g", vec![ret(), mov()]);
    let (left_before, right_before) = (left.clone(), right.clone());
    assert_eq!(diff_code(&config(DiffAlg::Patience, false), &mut left, &mut right), Ok(()));
    assert_eq!(left.name, "f");
    assert_eq!(left.size, left_before.size);
    assert_eq!(left.pairing, ObjPairing::Unpaired);
    assert_eq!(left.instructions.len(), 3);
    for (after, before) in left.instructions.iter().zip(&left_before.instructions) {
        assert_eq!(ObjIns { diff_kind: ObjInsDiffKind::Unclassified, ..after.clone() }, *before);
        assert_ne!(after.diff_kind, ObjInsDiffKind::Unclassified);
    }
    for (after, before) in right.instructions.iter().zip(&right_before.instructions) {
        assert_eq!(ObjIns { diff_kind: ObjInsDiffKind::Unclassified, ..after.clone() }, *before);
        assert_ne!(after.diff_kind, ObjInsDiffKind::Unclassified);
    }
    assert!(left.match_score <= SCORE_FULL);
}

#[test]
fn the_fallback_marks_every_instruction() {
    let mut left = symbol("f", vec![mov(), ret()]);
    left.diff_symbol = Some("stale".to_string());
    no_diff_code(&mut left, DiffSide::Left);
    assert_eq!(kinds(&left), vec![ObjInsDiffKind::Delete, ObjInsDiffKind::Delete]);
    assert_eq!(left.diff_symbol, None);
    assert_eq!(left.match_score, 0);

    let mut right = symbol("g", vec![mov()]);
    no_diff_code(&mut right, DiffSide::Right);
    assert_eq!(kinds(&right), vec![ObjInsDiffKind::Insert]);
    assert_eq!(right.diff_symbol, None);
    assert_eq!(right.match_score, 0);

    let mut empty = symbol("h", vec![]);
    no_diff_code(&mut empty, DiffSide::Left);
    assert_eq!(empty.match_score, 0);
}

#[test]
fn scores_follow_the_formula() {
    assert_eq!(CREDIT_MATCHED, 2);
    assert_eq!(CREDIT_MISMATCH, 1);
    assert_eq!(SCORE_FULL, 10_000);
    assert_eq!(score_of(0, 0, 0), 10_000);
    assert_eq!(score_of(0, 3, 0), 0);
    assert_eq!(score_of(6, 3, 3), 10_000);
    assert_eq!(score_of(5, 3, 3), 8333);
    assert_eq!(score_of(4, 3, 2), 6666);
    assert_eq!(score_of(4, 2, 3), 6666);
    assert_eq!(score_of(1, 1, 7), 714);
    assert_eq!(score_of(9, 3, 3), 10_000);
}

#[test]
fn instructions_stand_beside_their_opcodes() {
    let out = process_code(vec![mov(), add("1"), ret()]);
    assert_eq!(out.ops, vec![1, 2, 3]);
    assert_eq!(out.insts, vec![mov(), add("1"), ret()]);
    assert!(process_code(vec![]).ops.is_empty());
}

fn section(name: &str, kind: ObjSectionKind, symbols: Vec<ObjSymbol>) -> ObjSection {
    ObjSection {
        name: name.to_string(),
        kind,
        address: 0,
        data: vec![],
        symbols,
        relocations: vec![],
        data_diff: vec![],
    }
}

#[test]
fn the_resolver_finds_the_first_code_symbol() {
    let obj = ObjInfo {
        architecture: ObjArchitecture::PowerPc,
        sections: vec![
            section(".data", ObjSectionKind::Data, vec![symbol("f", vec![])]),
            section(".text", ObjSectionKind::Code, vec![symbol("g", vec![]), symbol("f", vec![])]),
            section(".init", ObjSectionKind::Code, vec![symbol("f", vec![]), symbol("h", vec![])]),
        ],
        common: vec![symbol("c", vec![])],
        line_info: None,
    };
    assert_eq!(find_section_and_symbol(&obj, &"f".to_string()), Some((1, 1)));
    assert_eq!(find_section_and_symbol(&obj, &"g".to_string()), Some((1, 0)));
    assert_eq!(find_section_and_symbol(&obj, &"h".to_string()), Some((2, 1)));
    assert_eq!(find_section_and_symbol(&obj, &"c".to_string()), None);
    assert_eq!(find_section_and_symbol(&obj, &"F".to_string()), None);
    assert_eq!(find_section_and_symbol(&obj, &"".to_string()), None);
}
