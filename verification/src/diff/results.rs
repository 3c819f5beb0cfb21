//! What the results of a pass over two images say of every pair that the
//! pass has diffed: the script of the pair reconstructs both sides, equal
//! sides match in full, and relaxing never lowers a score.

use crate::diff::align::{
    lemma_identical_all_match, lemma_script_aligned, lemma_script_rebuilds, script_ops,
};
use crate::diff::code::{
    code_script, is_code_symbol, left_kinds, lemma_identical_code, lemma_relax_never_lowers,
    lemma_resolve_from, resolve_from, right_kinds, DiffSide,
};
use crate::diff::data::{
    lemma_next_cut, lemma_side_len_first, next_cut, overlay, side_len, split_run, takes_side,
};
use crate::diff::editops::{
    aligned, expand, left_rebuilt, lemma_aligns_lengths, lemma_expand_first, lemma_rle, repeat,
    right_rebuilt, rle, EditKind, EditRun,
};
use crate::diff::sections::{left_partner, lemma_partners, section_fits};
use crate::diff::symbols::{
    code_left_result, code_right_result, last_in_sections, lemma_last_in_sections,
};
use crate::diff::{images_diffed, left_result, right_result, DiffObjConfig};
use crate::obj::{
    diff_kinds, opcodes, tokens, ObjDataDiff, ObjInfo, ObjInsDiffKind, ObjSectionKind, ObjSymbol,
    SCORE_FULL,
};
use vstd::prelude::*;

verus! {

/// The steps that a stored data script stands for: those of its pieces, in
/// order.
pub open spec fn steps_of(pieces: Seq<ObjDataDiff>) -> Seq<EditKind>
    decreases pieces.len(),
{
    if pieces.len() == 0 {
        Seq::empty()
    } else {
        repeat(pieces[0].kind, pieces[0].len as nat) + steps_of(pieces.drop_first())
    }
}

/// The steps of two lists of pieces, one behind the other, are the steps of
/// the one behind those of the other.
pub proof fn lemma_steps_concat(a: Seq<ObjDataDiff>, b: Seq<ObjDataDiff>)
    ensures
        steps_of(a + b) == steps_of(a) + steps_of(b),
    decreases a.len(),
{
    if a.len() == 0 {
        assert(a + b =~= b);
        assert(steps_of(a) + steps_of(b) =~= steps_of(b));
    } else {
        lemma_steps_concat(a.drop_first(), b);
        assert((a + b).drop_first() =~= a.drop_first() + b);
        assert(steps_of(a + b) =~= steps_of(a) + steps_of(b));
    }
}

/// The pieces that a run is cut into stand for the steps of the run.
pub proof fn lemma_split_steps(kind: EditKind, symbols: Seq<ObjSymbol>, pos: int, end: int)
    requires
        0 <= pos <= end <= usize::MAX,
    ensures
        steps_of(split_run(kind, symbols, pos, end)) == repeat(kind, (end - pos) as nat),
    decreases end - pos,
{
    if pos < end {
        lemma_next_cut(symbols, pos, end, 0);
        let cut = next_cut(symbols, pos, end, 0);
        lemma_split_steps(kind, symbols, cut, end);
        let pieces = split_run(kind, symbols, pos, end);
        assert(pieces.drop_first() =~= split_run(kind, symbols, cut, end));
        assert(steps_of(pieces) =~= repeat(kind, (end - pos) as nat));
    } else {
        assert(steps_of(split_run(kind, symbols, pos, end)) =~= repeat(kind, 0));
    }
}

/// The script that is stored on a section stands for the same steps as
/// the runs it was made of: cutting at symbol boundaries loses nothing.
pub proof fn lemma_overlay_steps(runs: Seq<EditRun>, symbols: Seq<ObjSymbol>, side: DiffSide, pos: int)
    requires
        0 <= pos,
        pos + side_len(expand(runs), side) <= usize::MAX,
    ensures
        steps_of(overlay(runs, symbols, side, pos)) == expand(runs),
    decreases runs.len(),
{
    if runs.len() == 0 {
        assert(expand(runs) =~= Seq::<EditKind>::empty());
    } else {
        let rest = runs.drop_first();
        lemma_expand_first(runs);
        lemma_side_len_first(runs, side);
        if takes_side(runs[0].kind, side) {
            lemma_overlay_steps(rest, symbols, side, pos + runs[0].len);
            lemma_split_steps(runs[0].kind, symbols, pos, pos + runs[0].len);
            lemma_steps_concat(
                split_run(runs[0].kind, symbols, pos, pos + runs[0].len),
                overlay(rest, symbols, side, pos + runs[0].len),
            );
        } else {
            lemma_overlay_steps(rest, symbols, side, pos);
            let piece = ObjDataDiff { kind: runs[0].kind, len: runs[0].len, symbol: None };
            let all = overlay(runs, symbols, side, pos);
            assert(all.drop_first() =~= overlay(rest, symbols, side, pos));
            assert(all[0] == piece);
        }
    }
}

/// The data script of a pair of sections, as it is stored on either side,
/// stands for the script of the algorithm, and that script reconstructs the
/// bytes of both sections exactly.
pub proof fn lemma_data_script(
    alg: crate::diff::DiffAlg,
    left: Seq<u8>,
    right: Seq<u8>,
    symbols: Seq<ObjSymbol>,
    side: DiffSide,
)
    requires
        left.len() + right.len() <= usize::MAX,
    ensures
        steps_of(overlay(rle(script_ops(alg, left, right)), symbols, side, 0)) == script_ops(
            alg,
            left,
            right,
        ),
        aligned(script_ops(alg, left, right), left, right),
        left_rebuilt(script_ops(alg, left, right), left, 0, right, 0) == left,
        right_rebuilt(script_ops(alg, left, right), left, 0, right, 0) == right,
{
    let ops = script_ops(alg, left, right);
    lemma_script_aligned(alg, left, right);
    lemma_script_rebuilds(alg, left, right);
    lemma_aligns_lengths(ops, left, 0, left.len() as int, right, 0, right.len() as int);
    crate::diff::editops::lemma_count_total(ops);
    lemma_rle(ops);
    lemma_overlay_steps(rle(ops), symbols, side, 0);
}

/// After a pass over both images, the script that is stored on the two
/// sections of a pair of data sections is the script of the algorithm
/// between the bytes of the two sections: read off step by step, its
/// matches, deletions and replacements reconstruct the bytes of the left
/// section and its matches, insertions and replacements those of the right
/// section.
pub proof fn lemma_pass_data_script(
    config: DiffObjConfig,
    l0: ObjInfo,
    r0: ObjInfo,
    l1: ObjInfo,
    r1: ObjInfo,
    s: int,
)
    requires
        images_diffed(config, l0, r0, l1, r1),
        0 <= s < l0.sections@.len(),
        l0.sections@[s].kind == ObjSectionKind::Data,
        left_partner(l0.sections@, r0.sections@, s) is Some,
    ensures
        ({
            let rs = left_partner(l0.sections@, r0.sections@, s).unwrap();
            let left = l0.sections@[s].data@;
            let right = r0.sections@[rs].data@;
            let ops = steps_of(l1.sections@[s].data_diff@);
            &&& 0 <= rs < r0.sections@.len()
            &&& r0.sections@[rs].kind == ObjSectionKind::Data
            &&& r0.sections@[rs].name@ == l0.sections@[s].name@
            &&& ops == script_ops(config.data_alg, left, right)
            &&& steps_of(r1.sections@[rs].data_diff@) == ops
            &&& aligned(ops, left, right)
            &&& left_rebuilt(ops, left, 0, right, 0) == left
            &&& right_rebuilt(ops, left, 0, right, 0) == right
        }),
{
    let l0s = l0.sections@;
    let r0s = r0.sections@;
    let rs = left_partner(l0s, r0s, s).unwrap();
    crate::diff::sections::lemma_section_index(r0s, l0s[s].kind, l0s[s].name@, 0);
    lemma_partners(l0s, r0s, s, rs);
    assert(left_result(config, l0s, r0s, s, l1.sections@[s]));
    assert(section_fits(l0s, r0s, s));
    lemma_data_script(
        config.data_alg,
        l0s[s].data@,
        r0s[rs].data@,
        l0s[s].symbols@,
        DiffSide::Left,
    );
    lemma_data_script(
        config.data_alg,
        l0s[s].data@,
        r0s[rs].data@,
        r0s[rs].symbols@,
        DiffSide::Right,
    );
    assert(right_result(config, l0s, r0s, rs, r1.sections@[rs]));
}

/// After a pass over both images, the two data sections of a pair that
/// have the same bytes hold a script of matches only, one for every byte.
pub proof fn lemma_pass_identical_data(
    config: DiffObjConfig,
    l0: ObjInfo,
    r0: ObjInfo,
    l1: ObjInfo,
    r1: ObjInfo,
    s: int,
)
    requires
        images_diffed(config, l0, r0, l1, r1),
        0 <= s < l0.sections@.len(),
        l0.sections@[s].kind == ObjSectionKind::Data,
        left_partner(l0.sections@, r0.sections@, s) matches Some(rs) && r0.sections@[rs].data@
            == l0.sections@[s].data@,
    ensures
        steps_of(l1.sections@[s].data_diff@) == repeat(
            EditKind::Match,
            l0.sections@[s].data@.len(),
        ),
        steps_of(
            r1.sections@[left_partner(l0.sections@, r0.sections@, s).unwrap()].data_diff@,
        ) == repeat(EditKind::Match, l0.sections@[s].data@.len()),
{
    lemma_pass_data_script(config, l0, r0, l1, r1, s);
    lemma_identical_all_match(config.data_alg, l0.sections@[s].data@);
}

/// After a pass over both images, the classifications of a left code symbol
/// with a counterpart follow the script of the algorithm between the
/// opcodes of the two symbols, and that script reconstructs both opcode
/// sequences exactly.
pub proof fn lemma_pass_code_script(
    config: DiffObjConfig,
    l0: ObjInfo,
    r0: ObjInfo,
    l1: ObjInfo,
    r1: ObjInfo,
    s: int,
    k: int,
)
    requires
        images_diffed(config, l0, r0, l1, r1),
        0 <= s < l0.sections@.len(),
        l0.sections@[s].kind == ObjSectionKind::Code,
        0 <= k < l0.sections@[s].symbols@.len(),
        resolve_from(r0.sections@, l0.sections@[s].symbols@[k].name@, 0) is Some,
    ensures
        ({
            let (rs, rk) = resolve_from(
                r0.sections@,
                l0.sections@[s].symbols@[k].name@,
                0,
            ).unwrap();
            let left = l0.sections@[s].symbols@[k].instructions@;
            let right = r0.sections@[rs].symbols@[rk].instructions@;
            let ops = code_script(config, left, right);
            &&& is_code_symbol(r0.sections@, rs, rk, l0.sections@[s].symbols@[k].name@)
            &&& aligned(ops, opcodes(left), opcodes(right))
            &&& left_rebuilt(ops, opcodes(left), 0, opcodes(right), 0) == opcodes(left)
            &&& right_rebuilt(ops, opcodes(left), 0, opcodes(right), 0) == opcodes(right)
            &&& diff_kinds(l1.sections@[s].symbols@[k].instructions@) == left_kinds(
                ops,
                tokens(left),
                0,
                tokens(right),
                0,
                config.relax_reloc_diffs,
            )
            &&& last_in_sections(
                l0.sections@,
                l0.sections@[s].symbols@[k].name@,
                l0.sections@.len() as int,
            ) == Some((s, k)) ==> diff_kinds(r1.sections@[rs].symbols@[rk].instructions@)
                == right_kinds(ops, tokens(left), 0, tokens(right), 0, config.relax_reloc_diffs)
        }),
{
    let l0s = l0.sections@;
    let r0s = r0.sections@;
    let name = l0s[s].symbols@[k].name@;
    lemma_resolve_from(r0s, name, 0);
    let (rs, rk) = resolve_from(r0s, name, 0).unwrap();
    assert(is_code_symbol(r0s, rs, rk, name));
    assert(left_result(config, l0s, r0s, s, l1.sections@[s]));
    assert(code_left_result(config, l0s, r0s, s, k, l1.sections@[s].symbols@[k]));
    assert(right_result(config, l0s, r0s, rs, r1.sections@[rs]));
    assert(code_right_result(config, l0s, r0s, rs, rk, r1.sections@[rs].symbols@[rk]));
    let left = l0s[s].symbols@[k].instructions@;
    let right = r0s[rs].symbols@[rk].instructions@;
    lemma_script_aligned(config.code_alg, opcodes(left), opcodes(right));
    lemma_script_rebuilds(config.code_alg, opcodes(left), opcodes(right));
}

/// After a pass over both images, a left code symbol that was diffed
/// against a symbol with the same instructions has the full score, names
/// its counterpart, and every one of its instructions is classified as
/// matched; where it is the last left symbol of its name, the same holds of
/// the counterpart.
pub proof fn lemma_pass_identical_code(
    config: DiffObjConfig,
    l0: ObjInfo,
    r0: ObjInfo,
    l1: ObjInfo,
    r1: ObjInfo,
    s: int,
    k: int,
)
    requires
        images_diffed(config, l0, r0, l1, r1),
        0 <= s < l0.sections@.len(),
        l0.sections@[s].kind == ObjSectionKind::Code,
        0 <= k < l0.sections@[s].symbols@.len(),
        resolve_from(r0.sections@, l0.sections@[s].symbols@[k].name@, 0) matches Some((rs, rk))
            && tokens(r0.sections@[rs].symbols@[rk].instructions@) == tokens(
            l0.sections@[s].symbols@[k].instructions@,
        ),
    ensures
        ({
            let (rs, rk) = resolve_from(
                r0.sections@,
                l0.sections@[s].symbols@[k].name@,
                0,
            ).unwrap();
            let before = l0.sections@[s].symbols@[k];
            let after = l1.sections@[s].symbols@[k];
            let other = r1.sections@[rs].symbols@[rk];
            &&& after.match_score == SCORE_FULL
            &&& after.diff_symbol matches Some(there) && there@ == before.name@
            &&& diff_kinds(after.instructions@) == Seq::new(
                before.instructions@.len(),
                |t: int| ObjInsDiffKind::Matched,
            )
            &&& last_in_sections(l0.sections@, before.name@, l0.sections@.len() as int) == Some(
                (s, k),
            ) ==> other.match_score == SCORE_FULL && (other.diff_symbol matches Some(back)
                && back@ == before.name@) && diff_kinds(other.instructions@) == Seq::new(
                before.instructions@.len(),
                |t: int| ObjInsDiffKind::Matched,
            )
        }),
{
    let l0s = l0.sections@;
    let r0s = r0.sections@;
    let name = l0s[s].symbols@[k].name@;
    lemma_pass_code_script(config, l0, r0, l1, r1, s, k);
    let (rs, rk) = resolve_from(r0s, name, 0).unwrap();
    let left = l0s[s].symbols@[k].instructions@;
    let right = r0s[rs].symbols@[rk].instructions@;
    lemma_identical_code(config, left, right);
    assert(left.len() == tokens(left).len());
    assert(right.len() == tokens(right).len());
    assert(left_result(config, l0s, r0s, s, l1.sections@[s]));
    assert(code_left_result(config, l0s, r0s, s, k, l1.sections@[s].symbols@[k]));
    assert(right_result(config, l0s, r0s, rs, r1.sections@[rs]));
    assert(code_right_result(config, l0s, r0s, rs, rk, r1.sections@[rs].symbols@[rk]));
}

/// Two passes over the same images that differ only in whether relocation
/// differences are relaxed pair the same symbols, and the relaxed pass
/// gives no code symbol, left or right, a lower score.
pub proof fn lemma_pass_relax(
    config: DiffObjConfig,
    l0: ObjInfo,
    r0: ObjInfo,
    strict_l: ObjInfo,
    strict_r: ObjInfo,
    relaxed_l: ObjInfo,
    relaxed_r: ObjInfo,
    s: int,
    k: int,
)
    requires
        images_diffed(
            DiffObjConfig { relax_reloc_diffs: false, ..config },
            l0,
            r0,
            strict_l,
            strict_r,
        ),
        images_diffed(
            DiffObjConfig { relax_reloc_diffs: true, ..config },
            l0,
            r0,
            relaxed_l,
            relaxed_r,
        ),
    ensures
        0 <= s < l0.sections@.len() && l0.sections@[s].kind == ObjSectionKind::Code && 0 <= k
            < l0.sections@[s].symbols@.len() ==> relaxed_l.sections@[s].symbols@[k].match_score
            >= strict_l.sections@[s].symbols@[k].match_score && (
        relaxed_l.sections@[s].symbols@[k].diff_symbol is Some
            <==> strict_l.sections@[s].symbols@[k].diff_symbol is Some),
        0 <= s < r0.sections@.len() && r0.sections@[s].kind == ObjSectionKind::Code && 0 <= k
            < r0.sections@[s].symbols@.len() ==> relaxed_r.sections@[s].symbols@[k].match_score
            >= strict_r.sections@[s].symbols@[k].match_score && (
        relaxed_r.sections@[s].symbols@[k].diff_symbol is Some
            <==> strict_r.sections@[s].symbols@[k].diff_symbol is Some),
{
    let strict = DiffObjConfig { relax_reloc_diffs: false, ..config };
    let relaxed = DiffObjConfig { relax_reloc_diffs: true, ..config };
    let l0s = l0.sections@;
    let r0s = r0.sections@;
    if 0 <= s < l0s.len() && l0s[s].kind == ObjSectionKind::Code && 0 <= k
        < l0s[s].symbols@.len() {
        let name = l0s[s].symbols@[k].name@;
        assert(left_result(strict, l0s, r0s, s, strict_l.sections@[s]));
        assert(left_result(relaxed, l0s, r0s, s, relaxed_l.sections@[s]));
        assert(code_left_result(strict, l0s, r0s, s, k, strict_l.sections@[s].symbols@[k]));
        assert(code_left_result(relaxed, l0s, r0s, s, k, relaxed_l.sections@[s].symbols@[k]));
        lemma_resolve_from(r0s, name, 0);
        match resolve_from(r0s, name, 0) {
            Some((rs, rk)) => {
                assert(is_code_symbol(r0s, rs, rk, name));
                lemma_relax_never_lowers(
                    config,
                    l0s[s].symbols@[k].instructions@,
                    r0s[rs].symbols@[rk].instructions@,
                );
            },
            None => {},
        }
    }
    if 0 <= s < r0s.len() && r0s[s].kind == ObjSectionKind::Code && 0 <= k < r0s[s].symbols@.len() {
        let name = r0s[s].symbols@[k].name@;
        assert(right_result(strict, l0s, r0s, s, strict_r.sections@[s]));
        assert(right_result(relaxed, l0s, r0s, s, relaxed_r.sections@[s]));
        assert(code_right_result(strict, l0s, r0s, s, k, strict_r.sections@[s].symbols@[k]));
        assert(code_right_result(relaxed, l0s, r0s, s, k, relaxed_r.sections@[s].symbols@[k]));
        lemma_last_in_sections(l0s, name, l0s.len() as int);
        match last_in_sections(l0s, name, l0s.len() as int) {
            Some((ls, lk)) => {
                assert(is_code_symbol(l0s, ls, lk, name));
                lemma_relax_never_lowers(
                    config,
                    l0s[ls].symbols@[lk].instructions@,
                    r0s[s].symbols@[k].instructions@,
                );
            },
            None => {},
        }
    }
}

} // verus!
