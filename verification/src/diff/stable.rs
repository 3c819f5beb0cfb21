//! A pass is stable: run again over images that a pass has annotated, it
//! leaves the results that the first pass left.

use crate::diff::code::{
    lemma_resolve_annotated, lemma_resolve_from, lemma_symbol_index, paired_left, paired_right,
    resolve_from, symbol_index, unpaired, DiffSide,
};
use crate::diff::data::{
    bss_diffed, bss_left_result, bss_one_sided, bss_right_result, last_symbol_index,
    lemma_last_symbol_index, lemma_symbol_index_same_names,
};
use crate::diff::sections::{
    left_partner, lemma_left_result_touched, lemma_partners, lemma_right_result_touched,
    lemma_section_index, lemma_section_index_same_names, pairing_changed, right_partner,
    section_touched, section_unpaired,
};
use crate::diff::symbols::{
    code_left_result, code_right_result, last_in_sections, lemma_last_in_sections,
};
use crate::diff::{
    images_diffed, left_result, lemma_pass_only_annotates, right_result, DiffObjConfig,
};
use crate::obj::{
    lemma_instructions_annotated_tokens, lemma_symbol_annotated_trans, section_annotated,
    symbol_annotated, ObjInfo, ObjSection, ObjSectionKind, ObjSymbol,
};
use vstd::prelude::*;

verus! {

/// Two lists of symbols with the same names give the same last index.
pub proof fn lemma_last_symbol_index_same_names(
    a: Seq<ObjSymbol>,
    b: Seq<ObjSymbol>,
    name: Seq<char>,
    upto: int,
)
    requires
        a.len() == b.len(),
        forall|k: int| 0 <= k < a.len() ==> (#[trigger] a[k]).name@ == b[k].name@,
    ensures
        last_symbol_index(a, name, upto) == last_symbol_index(b, name, upto),
    decreases upto,
{
    if 0 < upto <= a.len() {
        assert(a[upto - 1].name@ == b[upto - 1].name@);
        lemma_last_symbol_index_same_names(a, b, name, upto - 1);
    }
}

/// Annotating an image does not change which code symbol of a name is its last.
pub proof fn lemma_last_in_sections_annotated(
    before: Seq<ObjSection>,
    after: Seq<ObjSection>,
    name: Seq<char>,
    upto: int,
)
    requires
        after.len() == before.len(),
        forall|s: int| 0 <= s < before.len() ==> section_annotated(before[s], #[trigger] after[s]),
    ensures
        last_in_sections(after, name, upto) == last_in_sections(before, name, upto),
    decreases upto,
{
    if 0 < upto <= before.len() {
        let s = upto - 1;
        assert(section_annotated(before[s], after[s]));
        assert forall|k: int| 0 <= k < before[s].symbols@.len() implies (
        #[trigger] after[s].symbols@[k]).name@ == before[s].symbols@[k].name@ by {
            assert(symbol_annotated(before[s].symbols@[k], after[s].symbols@[k]));
        }
        lemma_last_symbol_index_same_names(
            after[s].symbols@,
            before[s].symbols@,
            name,
            before[s].symbols@.len() as int,
        );
        lemma_last_in_sections_annotated(before, after, name, upto - 1);
    }
}

/// Two symbols, diffed as annotated copies, come out as when diffed
/// themselves.
pub proof fn lemma_paired_again(
    config: DiffObjConfig,
    l0: ObjSymbol,
    lc: ObjSymbol,
    r0: ObjSymbol,
    rc: ObjSymbol,
    l2: ObjSymbol,
    r2: ObjSymbol,
)
    requires
        symbol_annotated(l0, lc),
        symbol_annotated(r0, rc),
        lc.pairing == l0.pairing,
        rc.pairing == r0.pairing,
    ensures
        paired_left(config, lc, rc, l2) ==> paired_left(config, l0, r0, l2),
        paired_right(config, lc, rc, r2) ==> paired_right(config, l0, r0, r2),
        unpaired(lc, l2, DiffSide::Left) ==> unpaired(l0, l2, DiffSide::Left),
        unpaired(rc, r2, DiffSide::Right) ==> unpaired(r0, r2, DiffSide::Right),
{
    lemma_instructions_annotated_tokens(l0.instructions@, lc.instructions@);
    lemma_instructions_annotated_tokens(r0.instructions@, rc.instructions@);
    if symbol_annotated(lc, l2) {
        lemma_symbol_annotated_trans(l0, lc, l2);
    }
    if symbol_annotated(rc, r2) {
        lemma_symbol_annotated_trans(r0, rc, r2);
    }
}

/// The left symbols of two lists of uninitialized symbols, paired as copies
/// that were paired before, come out as when paired themselves.
pub proof fn lemma_bss_left_again(
    l0: Seq<ObjSymbol>,
    lc: Seq<ObjSymbol>,
    r0: Seq<ObjSymbol>,
    rc: Seq<ObjSymbol>,
    l2: Seq<ObjSymbol>,
)
    requires
        lc.len() == l0.len(),
        rc.len() == r0.len(),
        forall|k: int| 0 <= k < l0.len() ==> pairing_changed(l0[k], #[trigger] lc[k]),
        forall|k: int| 0 <= k < r0.len() ==> pairing_changed(r0[k], #[trigger] rc[k]),
        forall|i: int| 0 <= i < l0.len() ==> bss_left_result(lc, rc, i, #[trigger] l2[i]),
    ensures
        forall|i: int| 0 <= i < l0.len() ==> bss_left_result(l0, r0, i, #[trigger] l2[i]),
{
    assert forall|k: int| 0 <= k < rc.len() implies (#[trigger] rc[k]).name@ == r0[k].name@ by {
        assert(pairing_changed(r0[k], rc[k]));
    }
    assert forall|i: int| 0 <= i < l0.len() implies bss_left_result(l0, r0, i, #[trigger] l2[i]) by {
        assert(bss_left_result(lc, rc, i, l2[i]));
        assert(pairing_changed(l0[i], lc[i]));
        lemma_symbol_index_same_names(rc, r0, l0[i].name@, 0);
        lemma_symbol_index(r0, l0[i].name@, 0);
        match symbol_index(r0, l0[i].name@, 0) {
            Some(k) => {
                assert(pairing_changed(r0[k], rc[k]));
            },
            None => {},
        }
    }
}

/// The right symbols of two lists of uninitialized symbols, paired as
/// copies that were paired before, come out as when paired themselves.
pub proof fn lemma_bss_right_again(
    l0: Seq<ObjSymbol>,
    lc: Seq<ObjSymbol>,
    r0: Seq<ObjSymbol>,
    rc: Seq<ObjSymbol>,
    r2: Seq<ObjSymbol>,
)
    requires
        lc.len() == l0.len(),
        rc.len() == r0.len(),
        forall|k: int| 0 <= k < l0.len() ==> pairing_changed(l0[k], #[trigger] lc[k]),
        forall|k: int| 0 <= k < r0.len() ==> pairing_changed(r0[k], #[trigger] rc[k]),
        forall|k: int| 0 <= k < r0.len() ==> bss_right_result(lc, rc, k, #[trigger] r2[k]),
    ensures
        forall|k: int| 0 <= k < r0.len() ==> bss_right_result(l0, r0, k, #[trigger] r2[k]),
{
    assert forall|k: int| 0 <= k < lc.len() implies (#[trigger] lc[k]).name@ == l0[k].name@ by {
        assert(pairing_changed(l0[k], lc[k]));
    }
    assert forall|k: int| 0 <= k < rc.len() implies (#[trigger] rc[k]).name@ == r0[k].name@ by {
        assert(pairing_changed(r0[k], rc[k]));
    }
    assert forall|k: int| 0 <= k < r0.len() implies bss_right_result(l0, r0, k, #[trigger] r2[k]) by {
        assert(bss_right_result(lc, rc, k, r2[k]));
        assert(pairing_changed(r0[k], rc[k]));
        lemma_symbol_index_same_names(rc, r0, r0[k].name@, 0);
        lemma_last_symbol_index_same_names(lc, l0, r0[k].name@, l0.len() as int);
        lemma_last_symbol_index(l0, r0[k].name@, l0.len() as int);
        match last_symbol_index(l0, r0[k].name@, l0.len() as int) {
            Some(i) => {
                assert(pairing_changed(l0[i], lc[i]));
            },
            None => {},
        }
    }
}

/// What a first pass leaves in a list of uninitialized symbols differs from
/// the list in nothing but cross-references and pairing states.
proof fn lemma_bss_touched(l0: Seq<ObjSymbol>, r0: Seq<ObjSymbol>, l1: Seq<ObjSymbol>, r1: Seq<ObjSymbol>)
    requires
        bss_diffed(l0, r0, l1, r1),
    ensures
        forall|k: int| 0 <= k < l0.len() ==> pairing_changed(l0[k], #[trigger] l1[k]),
        forall|k: int| 0 <= k < r0.len() ==> pairing_changed(r0[k], #[trigger] r1[k]),
{
    assert forall|k: int| 0 <= k < l0.len() implies pairing_changed(l0[k], #[trigger] l1[k]) by {
        assert(bss_left_result(l0, r0, k, l1[k]));
    }
    assert forall|k: int| 0 <= k < r0.len() implies pairing_changed(r0[k], #[trigger] r1[k]) by {
        assert(bss_right_result(l0, r0, k, r1[k]));
    }
}

/// What a first pass leaves in a section: the kind and the name, the data
/// and, but for code sections and sections of uninitialized memory, the
/// symbols are as they were; where the symbols changed, it is in results only.
proof fn lemma_section_kept(
    config: DiffObjConfig,
    l0: Seq<ObjSection>,
    r0: Seq<ObjSection>,
    s: int,
    after: ObjSection,
    left: bool,
)
    requires
        if left {
            0 <= s < l0.len() && left_result(config, l0, r0, s, after)
        } else {
            0 <= s < r0.len() && right_result(config, l0, r0, s, after)
        },
    ensures
        ({
            let before = if left {
                l0[s]
            } else {
                r0[s]
            };
            &&& after.kind == before.kind
            &&& after.name == before.name
            &&& after.data == before.data
            &&& after.symbols@.len() == before.symbols@.len()
            &&& before.kind != ObjSectionKind::Code && before.kind != ObjSectionKind::Bss
                ==> after.symbols == before.symbols
            &&& before.kind == ObjSectionKind::Bss ==> forall|k: int|
                0 <= k < before.symbols@.len() ==> pairing_changed(
                    before.symbols@[k],
                    #[trigger] after.symbols@[k],
                )
            &&& before.kind == ObjSectionKind::Code ==> forall|k: int|
                0 <= k < before.symbols@.len() ==> symbol_annotated(
                    before.symbols@[k],
                    #[trigger] after.symbols@[k],
                ) && after.symbols@[k].pairing == before.symbols@[k].pairing
        }),
{
    let before = if left {
        l0[s]
    } else {
        r0[s]
    };
    if before.kind == ObjSectionKind::Code {
        assert forall|k: int| 0 <= k < before.symbols@.len() implies symbol_annotated(
            before.symbols@[k],
            #[trigger] after.symbols@[k],
        ) && after.symbols@[k].pairing == before.symbols@[k].pairing by {
            if left {
                assert(code_left_result(config, l0, r0, s, k, after.symbols@[k]));
            } else {
                assert(code_right_result(config, l0, r0, s, k, after.symbols@[k]));
            }
        }
    } else if left {
        lemma_left_result_touched(config, l0, r0, s, after);
    } else {
        lemma_right_result_touched(config, l0, r0, s, after);
    }
}

/// A section without a counterpart, fallen back as a copy that a pass has
/// touched, comes out as when fallen back itself.
proof fn lemma_unpaired_again(s0: ObjSection, sc: ObjSection, s2: ObjSection, side: DiffSide)
    requires
        section_touched(s0, sc),
        section_unpaired(sc, s2, side),
    ensures
        section_unpaired(s0, s2, side),
{
    if s0.kind == ObjSectionKind::Bss {
        assert forall|k: int| 0 <= k < s0.symbols@.len() implies bss_one_sided(
            s0.symbols@[k],
            #[trigger] s2.symbols@[k],
        ) by {
            assert(pairing_changed(s0.symbols@[k], sc.symbols@[k]));
            assert(bss_one_sided(sc.symbols@[k], s2.symbols@[k]));
        }
    }
}

/// A second pass over the images that a pass has annotated leaves every
/// result as the first pass left it: what it writes is what a pass over
/// the images from before the first pass writes.
pub proof fn lemma_second_pass(
    config: DiffObjConfig,
    l0: ObjInfo,
    r0: ObjInfo,
    l1: ObjInfo,
    r1: ObjInfo,
    l2: ObjInfo,
    r2: ObjInfo,
)
    requires
        images_diffed(config, l0, r0, l1, r1),
        images_diffed(config, l1, r1, l2, r2),
    ensures
        images_diffed(config, l0, r0, l2, r2),
{
    let l0s = l0.sections@;
    let r0s = r0.sections@;
    let l1s = l1.sections@;
    let r1s = r1.sections@;
    lemma_pass_only_annotates(config, l0, r0, l1, r1);
    assert forall|t: int| 0 <= t < l0s.len() implies (#[trigger] l1s[t]).kind == l0s[t].kind
        && l1s[t].name@ == l0s[t].name@ by {
        assert(section_annotated(l0s[t], l1s[t]));
    }
    assert forall|t: int| 0 <= t < r0s.len() implies (#[trigger] r1s[t]).kind == r0s[t].kind
        && r1s[t].name@ == r0s[t].name@ by {
        assert(section_annotated(r0s[t], r1s[t]));
    }
    assert forall|s: int| 0 <= s < l0s.len() implies left_result(
        config,
        l0s,
        r0s,
        s,
        #[trigger] l2.sections@[s],
    ) by {
        let after = l2.sections@[s];
        assert(left_result(config, l1s, r1s, s, after));
        assert(left_result(config, l0s, r0s, s, l1s[s]));
        lemma_section_kept(config, l0s, r0s, s, l1s[s], true);
        if l0s[s].kind == ObjSectionKind::Code {
            assert forall|k: int| 0 <= k < l0s[s].symbols@.len() implies code_left_result(
                config,
                l0s,
                r0s,
                s,
                k,
                #[trigger] after.symbols@[k],
            ) by {
                let name = l0s[s].symbols@[k].name@;
                assert(code_left_result(config, l1s, r1s, s, k, after.symbols@[k]));
                assert(symbol_annotated(l0s[s].symbols@[k], l1s[s].symbols@[k]));
                lemma_resolve_annotated(r0s, r1s, name, 0);
                lemma_resolve_from(r0s, name, 0);
                match resolve_from(r0s, name, 0) {
                    Some((rs, rk)) => {
                        assert(right_result(config, l0s, r0s, rs, r1s[rs]));
                        lemma_section_kept(config, l0s, r0s, rs, r1s[rs], false);
                        lemma_paired_again(
                            config,
                            l0s[s].symbols@[k],
                            l1s[s].symbols@[k],
                            r0s[rs].symbols@[rk],
                            r1s[rs].symbols@[rk],
                            after.symbols@[k],
                            after.symbols@[k],
                        );
                    },
                    None => {
                        lemma_paired_again(
                            config,
                            l0s[s].symbols@[k],
                            l1s[s].symbols@[k],
                            l0s[s].symbols@[k],
                            l1s[s].symbols@[k],
                            after.symbols@[k],
                            after.symbols@[k],
                        );
                    },
                }
            }
        } else {
            let kind = l0s[s].kind;
            let name = l0s[s].name@;
            lemma_section_index_same_names(r1s, r0s, kind, name, 0);
            lemma_section_index_same_names(l1s, l0s, kind, name, 0);
            lemma_left_result_touched(config, l0s, r0s, s, l1s[s]);
            match left_partner(l0s, r0s, s) {
                Some(rs) => {
                    lemma_section_index(r0s, kind, name, 0);
                    lemma_partners(l0s, r0s, s, rs);
                    assert(right_result(config, l0s, r0s, rs, r1s[rs]));
                    lemma_section_kept(config, l0s, r0s, rs, r1s[rs], false);
                    if kind == ObjSectionKind::Bss {
                        assert(forall|k: int|
                            0 <= k < l0s[s].symbols@.len() ==> bss_left_result(
                                l1s[s].symbols@,
                                r1s[rs].symbols@,
                                k,
                                #[trigger] after.symbols@[k],
                            ));
                        lemma_bss_left_again(
                            l0s[s].symbols@,
                            l1s[s].symbols@,
                            r0s[rs].symbols@,
                            r1s[rs].symbols@,
                            after.symbols@,
                        );
                    }
                },
                None => {
                    lemma_unpaired_again(l0s[s], l1s[s], after, DiffSide::Left);
                },
            }
        }
    }
    assert forall|rs: int| 0 <= rs < r0s.len() implies right_result(
        config,
        l0s,
        r0s,
        rs,
        #[trigger] r2.sections@[rs],
    ) by {
        let after = r2.sections@[rs];
        assert(right_result(config, l1s, r1s, rs, after));
        assert(right_result(config, l0s, r0s, rs, r1s[rs]));
        lemma_section_kept(config, l0s, r0s, rs, r1s[rs], false);
        if r0s[rs].kind == ObjSectionKind::Code {
            assert forall|rk: int| 0 <= rk < r0s[rs].symbols@.len() implies code_right_result(
                config,
                l0s,
                r0s,
                rs,
                rk,
                #[trigger] after.symbols@[rk],
            ) by {
                let name = r0s[rs].symbols@[rk].name@;
                assert(code_right_result(config, l1s, r1s, rs, rk, after.symbols@[rk]));
                assert(symbol_annotated(r0s[rs].symbols@[rk], r1s[rs].symbols@[rk]));
                lemma_resolve_annotated(r0s, r1s, name, 0);
                lemma_last_in_sections_annotated(l0s, l1s, name, l0s.len() as int);
                lemma_last_in_sections(l0s, name, l0s.len() as int);
                match last_in_sections(l0s, name, l0s.len() as int) {
                    Some((ls, lk)) => {
                        assert(left_result(config, l0s, r0s, ls, l1s[ls]));
                        lemma_section_kept(config, l0s, r0s, ls, l1s[ls], true);
                        lemma_paired_again(
                            config,
                            l0s[ls].symbols@[lk],
                            l1s[ls].symbols@[lk],
                            r0s[rs].symbols@[rk],
                            r1s[rs].symbols@[rk],
                            after.symbols@[rk],
                            after.symbols@[rk],
                        );
                    },
                    None => {},
                }
                lemma_paired_again(
                    config,
                    r0s[rs].symbols@[rk],
                    r1s[rs].symbols@[rk],
                    r0s[rs].symbols@[rk],
                    r1s[rs].symbols@[rk],
                    after.symbols@[rk],
                    after.symbols@[rk],
                );
            }
        } else {
            let kind = r0s[rs].kind;
            let name = r0s[rs].name@;
            lemma_section_index_same_names(r1s, r0s, kind, name, 0);
            lemma_section_index_same_names(l1s, l0s, kind, name, 0);
            lemma_right_result_touched(config, l0s, r0s, rs, r1s[rs]);
            match right_partner(l0s, r0s, rs, l0s.len() as int) {
                Some(ls) => {
                    lemma_section_index(l0s, kind, name, 0);
                    lemma_partners(l0s, r0s, ls, rs);
                    assert(left_result(config, l0s, r0s, ls, l1s[ls]));
                    lemma_section_kept(config, l0s, r0s, ls, l1s[ls], true);
                    if kind == ObjSectionKind::Bss {
                        assert(forall|k: int|
                            0 <= k < r0s[rs].symbols@.len() ==> bss_right_result(
                                l1s[ls].symbols@,
                                r1s[rs].symbols@,
                                k,
                                #[trigger] after.symbols@[k],
                            ));
                        lemma_bss_right_again(
                            l0s[ls].symbols@,
                            l1s[ls].symbols@,
                            r0s[rs].symbols@,
                            r1s[rs].symbols@,
                            after.symbols@,
                        );
                    }
                },
                None => {
                    lemma_unpaired_again(r0s[rs], r1s[rs], after, DiffSide::Right);
                },
            }
        }
    }
    lemma_bss_touched(l0.common@, r0.common@, l1.common@, r1.common@);
    lemma_bss_left_again(l0.common@, l1.common@, r0.common@, r1.common@, l2.common@);
    lemma_bss_right_again(l0.common@, l1.common@, r0.common@, r1.common@, r2.common@);
}

} // verus!
