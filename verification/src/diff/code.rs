//! The code differ: aligns the instruction streams of two symbols by their
//! opcodes, classifies every instruction and scores the pair.

use crate::diff::align::{diff_tokens, lemma_identical_all_match, lemma_script_aligned, script_ops};
use crate::diff::editops::{aligned, aligns_range, repeat, EditKind, MAX_TOKENS};
use crate::diff::{DiffError, DiffObjConfig, ProcessCodeResult};
use crate::obj::{
    arg_tokens, diff_kinds, instructions_annotated, opcodes, reloc_token, section_annotated,
    symbol_annotated, symbols_annotated, tokens, InsToken, ObjInfo, ObjIns, ObjInsArg,
    ObjInsDiffKind, ObjReloc, ObjSection, ObjSectionKind, ObjSymbol, RelocToken, SCORE_FULL,
};
use vstd::prelude::*;

verus! {

/// The credit of an instruction that is paired with an identical one.
pub const CREDIT_MATCHED: u64 = 2;

/// The credit of an instruction that is paired with one of the same opcode
/// that differs in an operand or in its relocation: half of the full credit.
pub const CREDIT_MISMATCH: u64 = 1;

/// One of the two sides of a diff.
#[derive(Clone, Copy, Debug, PartialEq, Eq, Structural)]
pub enum DiffSide {
    Left,
    Right,
}

/// A relocation with its target address replaced by a placeholder, where
/// relocation differences are relaxed.
pub open spec fn masked_reloc(reloc: Option<RelocToken>, relax: bool) -> Option<RelocToken> {
    match reloc {
        Some(r) => Some(
            if relax {
                RelocToken { target_address: 0, ..r }
            } else {
                r
            },
        ),
        None => None,
    }
}

/// The token of an instruction as it is compared under the given setting.
pub open spec fn masked(token: InsToken, relax: bool) -> InsToken {
    InsToken { reloc: masked_reloc(token.reloc, relax), ..token }
}

/// Two instructions are the same to a comparison: mnemonic, operands and
/// relocation agree, the target address of the relocation left aside where
/// relocation differences are relaxed.
pub open spec fn ins_matches(l: InsToken, r: InsToken, relax: bool) -> bool {
    masked(l, relax) == masked(r, relax)
}

/// The classification of two instructions that a match of the script pairs.
pub open spec fn pair_kind(l: InsToken, r: InsToken, relax: bool) -> ObjInsDiffKind {
    if ins_matches(l, r, relax) {
        ObjInsDiffKind::Matched
    } else {
        ObjInsDiffKind::OperandMismatch
    }
}

/// The credit of two instructions that a match of the script pairs.
pub open spec fn pair_credit(l: InsToken, r: InsToken, relax: bool) -> nat {
    if ins_matches(l, r, relax) {
        CREDIT_MATCHED as nat
    } else {
        CREDIT_MISMATCH as nat
    }
}

/// The classifications of the left instructions from `l[i]` on, as the
/// script `ops` gives them: an instruction under a match is classified with
/// its partner, every other one is one-sided.
pub open spec fn left_kinds(
    ops: Seq<EditKind>,
    l: Seq<InsToken>,
    i: int,
    r: Seq<InsToken>,
    j: int,
    relax: bool,
) -> Seq<ObjInsDiffKind>
    decreases ops.len(),
{
    if ops.len() == 0 {
        Seq::empty()
    } else {
        let rest = ops.drop_first();
        match ops[0] {
            EditKind::Match => seq![pair_kind(l[i], r[j], relax)] + left_kinds(
                rest,
                l,
                i + 1,
                r,
                j + 1,
                relax,
            ),
            EditKind::Replace => seq![ObjInsDiffKind::Delete] + left_kinds(
                rest,
                l,
                i + 1,
                r,
                j + 1,
                relax,
            ),
            EditKind::Delete => seq![ObjInsDiffKind::Delete] + left_kinds(
                rest,
                l,
                i + 1,
                r,
                j,
                relax,
            ),
            EditKind::Insert => left_kinds(rest, l, i, r, j + 1, relax),
        }
    }
}

/// The classifications of the right instructions from `r[j]` on, as the
/// script `ops` gives them.
pub open spec fn right_kinds(
    ops: Seq<EditKind>,
    l: Seq<InsToken>,
    i: int,
    r: Seq<InsToken>,
    j: int,
    relax: bool,
) -> Seq<ObjInsDiffKind>
    decreases ops.len(),
{
    if ops.len() == 0 {
        Seq::empty()
    } else {
        let rest = ops.drop_first();
        match ops[0] {
            EditKind::Match => seq![pair_kind(l[i], r[j], relax)] + right_kinds(
                rest,
                l,
                i + 1,
                r,
                j + 1,
                relax,
            ),
            EditKind::Replace => seq![ObjInsDiffKind::Insert] + right_kinds(
                rest,
                l,
                i + 1,
                r,
                j + 1,
                relax,
            ),
            EditKind::Insert => seq![ObjInsDiffKind::Insert] + right_kinds(
                rest,
                l,
                i,
                r,
                j + 1,
                relax,
            ),
            EditKind::Delete => right_kinds(rest, l, i + 1, r, j, relax),
        }
    }
}

/// The sum of the credits of the pairs that the script `ops` matches, from
/// position `(i, j)` on.
pub open spec fn credit_of(
    ops: Seq<EditKind>,
    l: Seq<InsToken>,
    i: int,
    r: Seq<InsToken>,
    j: int,
    relax: bool,
) -> nat
    decreases ops.len(),
{
    if ops.len() == 0 {
        0
    } else {
        let rest = ops.drop_first();
        match ops[0] {
            EditKind::Match => pair_credit(l[i], r[j], relax) + credit_of(
                rest,
                l,
                i + 1,
                r,
                j + 1,
                relax,
            ),
            EditKind::Replace => credit_of(rest, l, i + 1, r, j + 1, relax),
            EditKind::Delete => credit_of(rest, l, i + 1, r, j, relax),
            EditKind::Insert => credit_of(rest, l, i, r, j + 1, relax),
        }
    }
}

/// The match score of two symbols in hundredths of a percent: the credit
/// over the full credit of the longer side, no more than `SCORE_FULL`; two
/// empty symbols match in full.
pub open spec fn code_score(credit: nat, left_len: nat, right_len: nat) -> nat {
    let longest = if left_len >= right_len {
        left_len
    } else {
        right_len
    };
    if longest == 0 {
        SCORE_FULL as nat
    } else {
        let raw = (credit * SCORE_FULL) / (CREDIT_MATCHED * longest);
        if raw > SCORE_FULL {
            SCORE_FULL as nat
        } else {
            raw as nat
        }
    }
}

/// The script that aligns the instructions `l` with the instructions `r`.
pub open spec fn code_script(config: DiffObjConfig, l: Seq<ObjIns>, r: Seq<ObjIns>) -> Seq<EditKind> {
    script_ops(config.code_alg, opcodes(l), opcodes(r))
}

/// The match score of the instructions `l` against the instructions `r`.
pub open spec fn pair_score(config: DiffObjConfig, l: Seq<ObjIns>, r: Seq<ObjIns>) -> nat {
    code_score(
        credit_of(code_script(config, l, r), tokens(l), 0, tokens(r), 0, config.relax_reloc_diffs),
        l.len(),
        r.len(),
    )
}

/// What a diff of the symbols `l0` and `r0` leaves in the left symbol.
pub open spec fn paired_left(config: DiffObjConfig, l0: ObjSymbol, r0: ObjSymbol, l1: ObjSymbol) -> bool {
    &&& symbol_annotated(l0, l1)
    &&& diff_kinds(l1.instructions@) == left_kinds(
        code_script(config, l0.instructions@, r0.instructions@),
        tokens(l0.instructions@),
        0,
        tokens(r0.instructions@),
        0,
        config.relax_reloc_diffs,
    )
    &&& l1.match_score == pair_score(config, l0.instructions@, r0.instructions@)
    &&& l1.diff_symbol matches Some(name) && name@ == r0.name@
    &&& l1.pairing == l0.pairing
}

/// What a diff of the symbols `l0` and `r0` leaves in the right symbol.
pub open spec fn paired_right(config: DiffObjConfig, l0: ObjSymbol, r0: ObjSymbol, r1: ObjSymbol) -> bool {
    &&& symbol_annotated(r0, r1)
    &&& diff_kinds(r1.instructions@) == right_kinds(
        code_script(config, l0.instructions@, r0.instructions@),
        tokens(l0.instructions@),
        0,
        tokens(r0.instructions@),
        0,
        config.relax_reloc_diffs,
    )
    &&& r1.match_score == pair_score(config, l0.instructions@, r0.instructions@)
    &&& r1.diff_symbol matches Some(name) && name@ == l0.name@
    &&& r1.pairing == r0.pairing
}

/// The classification of an instruction that has no counterpart.
pub open spec fn one_sided_kind(side: DiffSide) -> ObjInsDiffKind {
    match side {
        DiffSide::Left => ObjInsDiffKind::Delete,
        DiffSide::Right => ObjInsDiffKind::Insert,
    }
}

/// What the fallback leaves in a symbol that has no counterpart: no
/// cross-reference, a score of zero, and every instruction one-sided.
pub open spec fn unpaired(s0: ObjSymbol, s1: ObjSymbol, side: DiffSide) -> bool {
    &&& symbol_annotated(s0, s1)
    &&& diff_kinds(s1.instructions@) == Seq::new(
        s0.instructions@.len(),
        |k: int| one_sided_kind(side),
    )
    &&& s1.match_score == 0
    &&& s1.diff_symbol is None
    &&& s1.pairing == s0.pairing
}

fn reloc_eq(l: &Option<ObjReloc>, r: &Option<ObjReloc>, relax: bool) -> (res: bool)
    ensures
        res == (masked_reloc(reloc_token(*l), relax) == masked_reloc(reloc_token(*r), relax)),
{
    match l {
        None => r.is_none(),
        Some(a) => match r {
            None => false,
            Some(b) => a.kind == b.kind && a.target == b.target && a.addend == b.addend && (relax
                || a.target_address == b.target_address),
        },
    }
}

fn arg_eq(l: &ObjInsArg, r: &ObjInsArg) -> (res: bool)
    ensures
        res == (l.token() == r.token()),
{
    match l {
        ObjInsArg::Plain(x) => match r {
            ObjInsArg::Plain(y) => *x == *y,
            _ => false,
        },
        ObjInsArg::Reloc => match r {
            ObjInsArg::Reloc => true,
            _ => false,
        },
        ObjInsArg::BranchOffset(x) => match r {
            ObjInsArg::BranchOffset(y) => *x == *y,
            _ => false,
        },
    }
}

fn args_eq(l: &Vec<ObjInsArg>, r: &Vec<ObjInsArg>) -> (res: bool)
    ensures
        res == (arg_tokens(l@) == arg_tokens(r@)),
{
    if l.len() != r.len() {
        assert(arg_tokens(l@).len() != arg_tokens(r@).len());
        return false;
    }
    let mut k: usize = 0;
    while k < l.len()
        invariant
            k <= l.len(),
            l.len() == r.len(),
            forall|t: int| 0 <= t < k ==> l@[t].token() == r@[t].token(),
        decreases l.len() - k,
    {
        if !arg_eq(&l[k], &r[k]) {
            assert(arg_tokens(l@)[k as int] != arg_tokens(r@)[k as int]);
            return false;
        }
        k = k + 1;
    }
    assert(arg_tokens(l@) =~= arg_tokens(r@));
    true
}

/// Whether two instructions are the same to a comparison.
pub fn ins_eq(l: &ObjIns, r: &ObjIns, relax: bool) -> (res: bool)
    ensures
        res == ins_matches(l.token(), r.token(), relax),
{
    l.op == r.op && l.mnemonic == r.mnemonic && args_eq(&l.args, &r.args) && reloc_eq(
        &l.reloc,
        &r.reloc,
        relax,
    )
}

/// The opcodes of a list of instructions.
fn opcode_list(insts: &Vec<ObjIns>) -> (ops: Vec<u8>)
    ensures
        ops@ == opcodes(insts@),
{
    let mut ops: Vec<u8> = Vec::new();
    let mut k: usize = 0;
    while k < insts.len()
        invariant
            k <= insts.len(),
            ops.len() == k,
            forall|t: int| 0 <= t < k ==> ops[t] == insts[t].op,
        decreases insts.len() - k,
    {
        ops.push(insts[k].op);
        k = k + 1;
    }
    assert(ops@ =~= opcodes(insts@));
    ops
}

/// Puts the instructions of a symbol beside their opcodes, ready to be
/// aligned.
pub fn process_code(insts: Vec<ObjIns>) -> (out: ProcessCodeResult)
    ensures
        out.insts == insts,
        out.ops@ == opcodes(insts@),
        out.wf(),
{
    let ops = opcode_list(&insts);
    ProcessCodeResult { ops, insts }
}

/// The match score for a credit and the lengths of the two sides.
pub fn score_of(credit: u64, left_len: usize, right_len: usize) -> (score: u32)
    requires
        left_len <= MAX_TOKENS,
        right_len <= MAX_TOKENS,
        credit <= CREDIT_MATCHED * MAX_TOKENS,
    ensures
        score == code_score(credit as nat, left_len as nat, right_len as nat),
        score <= SCORE_FULL,
{
    let longest = if left_len >= right_len {
        left_len
    } else {
        right_len
    };
    if longest == 0 {
        SCORE_FULL
    } else {
        assert(credit * 10_000 <= 2 * 0x3fff_ffff * 10_000) by (nonlinear_arith)
            requires
                credit <= 2 * 0x3fff_ffff,
        ;
        let raw = (credit * (SCORE_FULL as u64)) / (CREDIT_MATCHED * (longest as u64));
        if raw > SCORE_FULL as u64 {
            SCORE_FULL
        } else {
            raw as u32
        }
    }
}

/// Classifies the instructions of both sides as the script `ops` pairs them
/// and gives the sum of the credits.
fn annotate_instructions(
    ops: &Vec<EditKind>,
    left: &mut Vec<ObjIns>,
    right: &mut Vec<ObjIns>,
    relax: bool,
) -> (credit: u64)
    requires
        aligned(ops@, opcodes(old(left)@), opcodes(old(right)@)),
        old(left).len() <= MAX_TOKENS,
        old(right).len() <= MAX_TOKENS,
    ensures
        instructions_annotated(old(left)@, final(left)@),
        instructions_annotated(old(right)@, final(right)@),
        diff_kinds(final(left)@) == left_kinds(
            ops@,
            tokens(old(left)@),
            0,
            tokens(old(right)@),
            0,
            relax,
        ),
        diff_kinds(final(right)@) == right_kinds(
            ops@,
            tokens(old(left)@),
            0,
            tokens(old(right)@),
            0,
            relax,
        ),
        credit == credit_of(ops@, tokens(old(left)@), 0, tokens(old(right)@), 0, relax),
        credit <= CREDIT_MATCHED * MAX_TOKENS,
{
    let ghost l0 = left@;
    let ghost r0 = right@;
    let ghost lt = tokens(l0);
    let ghost rt = tokens(r0);
    let ghost mut lk: Seq<ObjInsDiffKind> = Seq::empty();
    let ghost mut rk: Seq<ObjInsDiffKind> = Seq::empty();
    let m = left.len();
    let n = right.len();
    let mut credit: u64 = 0;
    let mut i: usize = 0;
    let mut j: usize = 0;
    let mut k: usize = 0;
    proof {
        assert(ops@.skip(0) =~= ops@);
    }
    while k < ops.len()
        invariant
            k <= ops.len(),
            i <= m,
            j <= n,
            m == l0.len(),
            n == r0.len(),
            m <= MAX_TOKENS,
            n <= MAX_TOKENS,
            left.len() == m,
            right.len() == n,
            lt == tokens(l0),
            rt == tokens(r0),
            aligns_range(ops@.skip(k as int), opcodes(l0), i as int, m as int, opcodes(r0), j as int, n as int),
            lk.len() == i,
            rk.len() == j,
            forall|t: int| i <= t < m ==> left@[t] == l0[t],
            forall|t: int| 0 <= t < i ==> left@[t] == l0[t].with_kind(lk[t]),
            forall|t: int| j <= t < n ==> right@[t] == r0[t],
            forall|t: int| 0 <= t < j ==> right@[t] == r0[t].with_kind(rk[t]),
            lk + left_kinds(ops@.skip(k as int), lt, i as int, rt, j as int, relax) == left_kinds(
                ops@,
                lt,
                0,
                rt,
                0,
                relax,
            ),
            rk + right_kinds(ops@.skip(k as int), lt, i as int, rt, j as int, relax)
                == right_kinds(ops@, lt, 0, rt, 0, relax),
            credit + credit_of(ops@.skip(k as int), lt, i as int, rt, j as int, relax)
                == credit_of(ops@, lt, 0, rt, 0, relax),
            credit <= CREDIT_MATCHED * i,
        decreases ops.len() - k,
    {
        let ghost suffix = ops@.skip(k as int);
        let ghost lk_rest = left_kinds(suffix, lt, i as int, rt, j as int, relax);
        let ghost rk_rest = right_kinds(suffix, lt, i as int, rt, j as int, relax);
        proof {
            assert(suffix[0] == ops@[k as int]);
            assert(suffix.drop_first() =~= ops@.skip(k + 1));
        }
        match ops[k] {
            EditKind::Match => {
                let same = ins_eq(&left[i], &right[j], relax);
                let kind = if same {
                    ObjInsDiffKind::Matched
                } else {
                    ObjInsDiffKind::OperandMismatch
                };
                left[i].diff_kind = kind;
                right[j].diff_kind = kind;
                credit = credit + if same {
                    CREDIT_MATCHED
                } else {
                    CREDIT_MISMATCH
                };
                proof {
                    assert(kind == pair_kind(lt[i as int], rt[j as int], relax));
                    assert(lk.push(kind) + left_kinds(ops@.skip(k + 1), lt, i + 1, rt, j + 1, relax)
                        =~= lk + lk_rest);
                    assert(rk.push(kind) + right_kinds(ops@.skip(k + 1), lt, i + 1, rt, j + 1, relax)
                        =~= rk + rk_rest);
                    lk = lk.push(kind);
                    rk = rk.push(kind);
                }
                i = i + 1;
                j = j + 1;
            },
            EditKind::Replace => {
                left[i].diff_kind = ObjInsDiffKind::Delete;
                right[j].diff_kind = ObjInsDiffKind::Insert;
                proof {
                    assert(lk.push(ObjInsDiffKind::Delete) + left_kinds(
                        ops@.skip(k + 1),
                        lt,
                        i + 1,
                        rt,
                        j + 1,
                        relax,
                    ) =~= lk + lk_rest);
                    assert(rk.push(ObjInsDiffKind::Insert) + right_kinds(
                        ops@.skip(k + 1),
                        lt,
                        i + 1,
                        rt,
                        j + 1,
                        relax,
                    ) =~= rk + rk_rest);
                    lk = lk.push(ObjInsDiffKind::Delete);
                    rk = rk.push(ObjInsDiffKind::Insert);
                }
                i = i + 1;
                j = j + 1;
            },
            EditKind::Delete => {
                left[i].diff_kind = ObjInsDiffKind::Delete;
                proof {
                    assert(lk.push(ObjInsDiffKind::Delete) + left_kinds(
                        ops@.skip(k + 1),
                        lt,
                        i + 1,
                        rt,
                        j as int,
                        relax,
                    ) =~= lk + lk_rest);
                    lk = lk.push(ObjInsDiffKind::Delete);
                }
                i = i + 1;
            },
            EditKind::Insert => {
                right[j].diff_kind = ObjInsDiffKind::Insert;
                proof {
                    assert(rk.push(ObjInsDiffKind::Insert) + right_kinds(
                        ops@.skip(k + 1),
                        lt,
                        i as int,
                        rt,
                        j + 1,
                        relax,
                    ) =~= rk + rk_rest);
                    rk = rk.push(ObjInsDiffKind::Insert);
                }
                j = j + 1;
            },
        }
        k = k + 1;
    }
    proof {
        assert(ops@.skip(k as int) =~= Seq::<EditKind>::empty());
        assert(lk + Seq::<ObjInsDiffKind>::empty() =~= lk);
        assert(rk + Seq::<ObjInsDiffKind>::empty() =~= rk);
        assert(diff_kinds(left@) =~= lk);
        assert(diff_kinds(right@) =~= rk);
    }
    credit
}

/// Aligns and scores two code symbols that are taken to implement the same
/// function. The two instruction streams are aligned by their opcodes with
/// the configured algorithm. Every instruction of both symbols is classified,
/// both symbols get the same score, and each gets the name of the other as
/// its cross-reference. It fails, and changes nothing, where a symbol has
/// more than `MAX_TOKENS` instructions.
pub fn diff_code(config: &DiffObjConfig, left: &mut ObjSymbol, right: &mut ObjSymbol) -> (r: Result<
    (),
    DiffError,
>)
    ensures
        r is Err <==> old(left).instructions.len() > MAX_TOKENS || old(right).instructions.len()
            > MAX_TOKENS,
        r is Err ==> *final(left) == *old(left) && *final(right) == *old(right),
        r is Ok ==> paired_left(*config, *old(left), *old(right), *final(left)),
        r is Ok ==> paired_right(*config, *old(left), *old(right), *final(right)),
{
    if left.instructions.len() > MAX_TOKENS || right.instructions.len() > MAX_TOKENS {
        return Err(DiffError::AlignmentFailure);
    }
    let mut left_insts: Vec<ObjIns> = Vec::new();
    let mut right_insts: Vec<ObjIns> = Vec::new();
    core::mem::swap(&mut left_insts, &mut left.instructions);
    core::mem::swap(&mut right_insts, &mut right.instructions);
    let mut left_out = process_code(left_insts);
    let mut right_out = process_code(right_insts);
    match diff_tokens(config.code_alg, left_out.ops.as_slice(), right_out.ops.as_slice()) {
        Err(e) => Err(e),
        Ok(ops) => {
            proof {
                lemma_script_aligned(config.code_alg, left_out.ops@, right_out.ops@);
            }
            let credit = annotate_instructions(
                &ops,
                &mut left_out.insts,
                &mut right_out.insts,
                config.relax_reloc_diffs,
            );
            let score = score_of(credit, left_out.insts.len(), right_out.insts.len());
            core::mem::swap(&mut left_out.insts, &mut left.instructions);
            core::mem::swap(&mut right_out.insts, &mut right.instructions);
            left.diff_symbol = Some(right.name.clone());
            right.diff_symbol = Some(left.name.clone());
            left.match_score = score;
            right.match_score = score;
            Ok(())
        },
    }
}

/// Fills in the results for a code symbol that has no counterpart: every
/// instruction is marked one-sided for the symbol's own side, the
/// cross-reference is removed and the score is zero.
pub fn no_diff_code(symbol: &mut ObjSymbol, side: DiffSide)
    ensures
        unpaired(*old(symbol), *final(symbol), side),
{
    let ghost s0 = *symbol;
    let kind = match side {
        DiffSide::Left => ObjInsDiffKind::Delete,
        DiffSide::Right => ObjInsDiffKind::Insert,
    };
    let n = symbol.instructions.len();
    let mut k: usize = 0;
    while k < n
        invariant
            k <= n,
            n == s0.instructions.len(),
            kind == one_sided_kind(side),
            symbol.instructions.len() == n,
            symbol.name == s0.name,
            symbol.address == s0.address,
            symbol.size == s0.size,
            symbol.pairing == s0.pairing,
            forall|t: int| k <= t < n ==> symbol.instructions@[t] == s0.instructions@[t],
            forall|t: int| 0 <= t < k ==> symbol.instructions@[t] == s0.instructions@[t].with_kind(kind),
        decreases n - k,
    {
        symbol.instructions[k].diff_kind = kind;
        k = k + 1;
    }
    symbol.diff_symbol = None;
    symbol.match_score = 0;
    proof {
        assert(diff_kinds(symbol.instructions@) =~= Seq::new(
            s0.instructions@.len(),
            |t: int| one_sided_kind(side),
        ));
    }
}

/// The index of the first symbol at or after `from` that has the name `name`.
pub open spec fn symbol_index(symbols: Seq<ObjSymbol>, name: Seq<char>, from: int) -> Option<int>
    decreases symbols.len() - from,
{
    if from < 0 || from >= symbols.len() {
        None
    } else if symbols[from].name@ == name {
        Some(from)
    } else {
        symbol_index(symbols, name, from + 1)
    }
}

/// The first symbol of the name `name` in a code section at or after
/// `from`, by the indices of its section and of the symbol in it.
pub open spec fn resolve_from(sections: Seq<ObjSection>, name: Seq<char>, from: int) -> Option<
    (int, int),
>
    decreases sections.len() - from,
{
    if from < 0 || from >= sections.len() {
        None
    } else if sections[from].kind == ObjSectionKind::Code && symbol_index(
        sections[from].symbols@,
        name,
        0,
    ) is Some {
        Some((from, symbol_index(sections[from].symbols@, name, 0).unwrap()))
    } else {
        resolve_from(sections, name, from + 1)
    }
}

/// The code symbol of the name `name` in the image: of several, the first.
pub open spec fn resolve(obj: ObjInfo, name: Seq<char>) -> Option<(int, int)> {
    resolve_from(obj.sections@, name, 0)
}

/// The symbol at `(s, k)` is a symbol of the name `name` in a code section.
pub open spec fn is_code_symbol(sections: Seq<ObjSection>, s: int, k: int, name: Seq<char>) -> bool {
    &&& 0 <= s < sections.len()
    &&& sections[s].kind == ObjSectionKind::Code
    &&& 0 <= k < sections[s].symbols@.len()
    &&& sections[s].symbols@[k].name@ == name
}

/// The index that is found holds the name, and no index before it does.
pub proof fn lemma_symbol_index(symbols: Seq<ObjSymbol>, name: Seq<char>, from: int)
    requires
        0 <= from,
    ensures
        match symbol_index(symbols, name, from) {
            Some(k) => from <= k < symbols.len() && symbols[k].name@ == name && forall|t: int|
                from <= t < k ==> (#[trigger] symbols[t]).name@ != name,
            None => forall|t: int| from <= t < symbols.len() ==> (#[trigger] symbols[t]).name@ != name,
        },
    decreases symbols.len() - from,
{
    if from < symbols.len() && symbols[from].name@ != name {
        lemma_symbol_index(symbols, name, from + 1);
    }
}

/// What the resolver finds is a code symbol of the wanted name, and no code
/// symbol of that name stands before it; it finds nothing only where the
/// image has no code symbol of that name.
pub proof fn lemma_resolve_from(sections: Seq<ObjSection>, name: Seq<char>, from: int)
    requires
        0 <= from,
    ensures
        match resolve_from(sections, name, from) {
            Some((s, k)) => from <= s && is_code_symbol(sections, s, k, name) && forall|
                s2: int,
                k2: int,
            |
                from <= s2 && (s2 < s || (s2 == s && k2 < k)) ==> !#[trigger] is_code_symbol(
                    sections,
                    s2,
                    k2,
                    name,
                ),
            None => forall|s2: int, k2: int|
                from <= s2 ==> !#[trigger] is_code_symbol(sections, s2, k2, name),
        },
    decreases sections.len() - from,
{
    if from < sections.len() {
        lemma_symbol_index(sections[from].symbols@, name, 0);
        if !(sections[from].kind == ObjSectionKind::Code && symbol_index(
            sections[from].symbols@,
            name,
            0,
        ) is Some) {
            lemma_resolve_from(sections, name, from + 1);
        }
    }
}

/// Annotating a list of symbols does not change where a name is found in
/// it.
pub proof fn lemma_symbol_index_annotated(
    before: Seq<ObjSymbol>,
    after: Seq<ObjSymbol>,
    name: Seq<char>,
    from: int,
)
    requires
        symbols_annotated(before, after),
    ensures
        symbol_index(after, name, from) == symbol_index(before, name, from),
    decreases before.len() - from,
{
    if 0 <= from < before.len() {
        assert(symbol_annotated(before[from], after[from]));
        lemma_symbol_index_annotated(before, after, name, from + 1);
    }
}

/// Annotating an image does not change what the resolver finds in it.
pub proof fn lemma_resolve_annotated(
    before: Seq<ObjSection>,
    after: Seq<ObjSection>,
    name: Seq<char>,
    from: int,
)
    requires
        after.len() == before.len(),
        forall|s: int| 0 <= s < before.len() ==> section_annotated(before[s], #[trigger] after[s]),
    ensures
        resolve_from(after, name, from) == resolve_from(before, name, from),
    decreases before.len() - from,
{
    if 0 <= from < before.len() {
        assert(section_annotated(before[from], after[from]));
        lemma_symbol_index_annotated(before[from].symbols@, after[from].symbols@, name, 0);
        lemma_resolve_annotated(before, after, name, from + 1);
    }
}

pub(crate) fn find_symbol(symbols: &Vec<ObjSymbol>, name: &String) -> (r: Option<usize>)
    ensures
        match r {
            Some(k) => symbol_index(symbols@, name@, 0) == Some(k as int),
            None => symbol_index(symbols@, name@, 0) is None,
        },
{
    let mut k: usize = 0;
    while k < symbols.len()
        invariant
            k <= symbols.len(),
            symbol_index(symbols@, name@, 0) == symbol_index(symbols@, name@, k as int),
        decreases symbols.len() - k,
    {
        if symbols[k].name == *name {
            return Some(k);
        }
        k = k + 1;
    }
    None
}

/// Finds the code symbol of the name `name` in the image and gives the index
/// of its section and its index in that section; of several such symbols,
/// the first. It gives nothing where the image has no code symbol of that name.
pub fn find_section_and_symbol(obj: &ObjInfo, name: &String) -> (r: Option<(usize, usize)>)
    ensures
        match r {
            Some((s, k)) => resolve(*obj, name@) == Some((s as int, k as int)),
            None => resolve(*obj, name@) is None,
        },
{
    let mut s: usize = 0;
    while s < obj.sections.len()
        invariant
            s <= obj.sections.len(),
            resolve(*obj, name@) == resolve_from(obj.sections@, name@, s as int),
        decreases obj.sections.len() - s,
    {
        if obj.sections[s].kind == ObjSectionKind::Code {
            match find_symbol(&obj.sections[s].symbols, name) {
                Some(k) => {
                    return Some((s, k));
                },
                None => {},
            }
        }
        s = s + 1;
    }
    None
}

/// Two instructions that are the same to a strict comparison are the same
/// to a relaxed one, so relaxing never takes credit from a pair.
pub proof fn lemma_relax_pair(l: InsToken, r: InsToken)
    ensures
        ins_matches(l, r, false) ==> ins_matches(l, r, true),
        pair_credit(l, r, true) >= pair_credit(l, r, false),
{
}

/// Under one script, relaxing never lowers the sum of the credits.
pub proof fn lemma_relax_credit(ops: Seq<EditKind>, l: Seq<InsToken>, i: int, r: Seq<InsToken>, j: int)
    ensures
        credit_of(ops, l, i, r, j, true) >= credit_of(ops, l, i, r, j, false),
    decreases ops.len(),
{
    if ops.len() > 0 {
        let rest = ops.drop_first();
        match ops[0] {
            EditKind::Match => {
                lemma_relax_pair(l[i], r[j]);
                lemma_relax_credit(rest, l, i + 1, r, j + 1);
            },
            EditKind::Replace => lemma_relax_credit(rest, l, i + 1, r, j + 1),
            EditKind::Delete => lemma_relax_credit(rest, l, i + 1, r, j),
            EditKind::Insert => lemma_relax_credit(rest, l, i, r, j + 1),
        }
    }
}

/// More credit never gives a lower score, and no score is over `SCORE_FULL`.
pub proof fn lemma_score_rises(low: nat, high: nat, left_len: nat, right_len: nat)
    requires
        low <= high,
    ensures
        code_score(low, left_len, right_len) <= code_score(high, left_len, right_len),
        code_score(high, left_len, right_len) <= SCORE_FULL,
{
    let longest = if left_len >= right_len {
        left_len
    } else {
        right_len
    };
    if longest > 0 {
        let d = (CREDIT_MATCHED * longest) as int;
        assert(low * SCORE_FULL <= high * SCORE_FULL) by (nonlinear_arith)
            requires
                low <= high,
        ;
        vstd::arithmetic::div_mod::lemma_div_is_ordered(
            (low * SCORE_FULL) as int,
            (high * SCORE_FULL) as int,
            d,
        );
    }
}

/// For the same two symbols and the same algorithm, relaxing the comparison
/// of relocations never gives a lower match score.
pub proof fn lemma_relax_never_lowers(config: DiffObjConfig, l: Seq<ObjIns>, r: Seq<ObjIns>)
    ensures
        pair_score(DiffObjConfig { relax_reloc_diffs: true, ..config }, l, r) >= pair_score(
            DiffObjConfig { relax_reloc_diffs: false, ..config },
            l,
            r,
        ),
{
    let ops = script_ops(config.code_alg, opcodes(l), opcodes(r));
    lemma_relax_credit(ops, tokens(l), 0, tokens(r), 0);
    lemma_score_rises(
        credit_of(ops, tokens(l), 0, tokens(r), 0, false),
        credit_of(ops, tokens(l), 0, tokens(r), 0, true),
        l.len(),
        r.len(),
    );
}

/// A script of matches alone over one sequence of tokens on both sides
/// classifies every instruction as matched and gives full credit for each.
pub proof fn lemma_all_matched(t: Seq<InsToken>, i: int, count: nat, relax: bool)
    ensures
        left_kinds(repeat(EditKind::Match, count), t, i, t, i, relax) == Seq::new(
            count,
            |k: int| ObjInsDiffKind::Matched,
        ),
        right_kinds(repeat(EditKind::Match, count), t, i, t, i, relax) == Seq::new(
            count,
            |k: int| ObjInsDiffKind::Matched,
        ),
        credit_of(repeat(EditKind::Match, count), t, i, t, i, relax) == CREDIT_MATCHED * count,
    decreases count,
{
    let ops = repeat(EditKind::Match, count);
    let all = Seq::new(count, |k: int| ObjInsDiffKind::Matched);
    if count > 0 {
        let less = (count - 1) as nat;
        lemma_all_matched(t, i + 1, less, relax);
        assert(ops.drop_first() =~= repeat(EditKind::Match, less));
        assert(left_kinds(ops, t, i, t, i, relax) =~= all);
        assert(right_kinds(ops, t, i, t, i, relax) =~= all);
    } else {
        assert(left_kinds(ops, t, i, t, i, relax) =~= all);
        assert(right_kinds(ops, t, i, t, i, relax) =~= all);
    }
}

/// Diffing a symbol against one with the same instructions, by any
/// algorithm, matches every instruction and gives the full score.
pub proof fn lemma_identical_code(config: DiffObjConfig, l: Seq<ObjIns>, r: Seq<ObjIns>)
    requires
        tokens(l) == tokens(r),
    ensures
        code_script(config, l, r) == repeat(EditKind::Match, l.len()),
        pair_score(config, l, r) == SCORE_FULL,
        left_kinds(
            code_script(config, l, r),
            tokens(l),
            0,
            tokens(r),
            0,
            config.relax_reloc_diffs,
        ) == Seq::new(l.len(), |k: int| ObjInsDiffKind::Matched),
        right_kinds(
            code_script(config, l, r),
            tokens(l),
            0,
            tokens(r),
            0,
            config.relax_reloc_diffs,
        ) == Seq::new(r.len(), |k: int| ObjInsDiffKind::Matched),
{
    assert(l.len() == tokens(l).len());
    assert(r.len() == tokens(r).len());
    assert forall|k: int| 0 <= k < l.len() implies l[k].op == r[k].op by {
        assert(tokens(l)[k] == l[k].token());
        assert(tokens(r)[k] == r[k].token());
    }
    assert(opcodes(l) =~= opcodes(r));
    lemma_identical_all_match(config.code_alg, opcodes(l));
    lemma_all_matched(tokens(l), 0, l.len(), config.relax_reloc_diffs);
    let n = l.len();
    if n > 0 {
        assert((2 * n * 10_000) / (2 * n) == 10_000) by (nonlinear_arith)
            requires
                n > 0,
        ;
        assert((CREDIT_MATCHED * n) * SCORE_FULL == 2 * n * 10_000) by (nonlinear_arith);
    }
}

} // verus!
