//! The pass over the code symbols of two images: every left symbol is
//! diffed against its counterpart or falls back, then the right symbols
//! without a counterpart fall back.

use crate::diff::code::{
    diff_code, find_section_and_symbol, is_code_symbol, lemma_resolve_annotated, lemma_resolve_from,
    no_diff_code, paired_left, paired_right, resolve_from, unpaired, DiffSide,
};
use crate::diff::data::{last_symbol_index, lemma_last_symbol_index};
use crate::diff::editops::MAX_TOKENS;
use crate::diff::DiffObjConfig;
use crate::obj::{
    lemma_instructions_annotated_tokens, lemma_symbol_annotated_trans, section_annotated,
    symbol_annotated, ObjInfo, ObjSection, ObjSectionKind, ObjSymbol,
};
use vstd::prelude::*;

verus! {

/// The last symbol of the name `name` in a code section before section `upto`.
pub open spec fn last_in_sections(sections: Seq<ObjSection>, name: Seq<char>, upto: int) -> Option<
    (int, int),
>
    decreases upto,
{
    if upto <= 0 || upto > sections.len() {
        None
    } else if sections[upto - 1].kind == ObjSectionKind::Code && last_symbol_index(
        sections[upto - 1].symbols@,
        name,
        sections[upto - 1].symbols@.len() as int,
    ) is Some {
        Some(
            (
                upto - 1,
                last_symbol_index(
                    sections[upto - 1].symbols@,
                    name,
                    sections[upto - 1].symbols@.len() as int,
                ).unwrap(),
            ),
        )
    } else {
        last_in_sections(sections, name, upto - 1)
    }
}

/// The last code symbol of the name `name` that stands before symbol `k` of
/// section `s`.
pub open spec fn last_at(sections: Seq<ObjSection>, name: Seq<char>, s: int, k: int) -> Option<
    (int, int),
> {
    if 0 <= s < sections.len() && sections[s].kind == ObjSectionKind::Code && last_symbol_index(
        sections[s].symbols@,
        name,
        k,
    ) is Some {
        Some((s, last_symbol_index(sections[s].symbols@, name, k).unwrap()))
    } else {
        last_in_sections(sections, name, s)
    }
}

/// Nothing of the section changed but its symbols, and none was added or removed.
pub open spec fn symbols_changed(s0: ObjSection, s1: ObjSection) -> bool {
    &&& s1 == (ObjSection { symbols: s1.symbols, ..s0 })
    &&& s1.symbols@.len() == s0.symbols@.len()
}

/// Nothing of the image changed but its sections, and none was added or removed.
pub open spec fn sections_changed(o0: ObjInfo, o1: ObjInfo) -> bool {
    &&& o1 == (ObjInfo { sections: o1.sections, ..o0 })
    &&& o1.sections@.len() == o0.sections@.len()
}

/// Every pair of code symbols that the pass will diff is within the limit of
/// the alignment.
pub open spec fn code_fits(l0: Seq<ObjSection>, r0: Seq<ObjSection>) -> bool {
    forall|s: int, k: int|
        0 <= s < l0.len() && l0[s].kind == ObjSectionKind::Code && 0 <= k < l0[s].symbols@.len()
            ==> #[trigger] symbol_fits(l0, r0, s, k)
}

/// The left code symbol `(s, k)` and its counterpart, if it has one, are
/// within the limit of the alignment.
pub open spec fn symbol_fits(l0: Seq<ObjSection>, r0: Seq<ObjSection>, s: int, k: int) -> bool {
    match resolve_from(r0, l0[s].symbols@[k].name@, 0) {
        Some((rs, rk)) => l0[s].symbols@[k].instructions@.len() <= MAX_TOKENS
            && r0[rs].symbols@[rk].instructions@.len() <= MAX_TOKENS,
        None => true,
    }
}

/// The result for the left code symbol `(s, k)`: it is diffed against the
/// first right code symbol of its name, and falls back where there is none.
pub open spec fn code_left_result(
    config: DiffObjConfig,
    l0: Seq<ObjSection>,
    r0: Seq<ObjSection>,
    s: int,
    k: int,
    l1: ObjSymbol,
) -> bool {
    match resolve_from(r0, l0[s].symbols@[k].name@, 0) {
        Some((rs, rk)) => paired_left(config, l0[s].symbols@[k], r0[rs].symbols@[rk], l1),
        None => unpaired(l0[s].symbols@[k], l1, DiffSide::Left),
    }
}

/// The state of the right code symbol `(rs, rk)` when the left code symbols
/// before `(s, k)` have been handled.
pub open spec fn code_right_so_far(
    config: DiffObjConfig,
    l0: Seq<ObjSection>,
    r0: Seq<ObjSection>,
    rs: int,
    rk: int,
    s: int,
    k: int,
    r1: ObjSymbol,
) -> bool {
    let name = r0[rs].symbols@[rk].name@;
    let last = last_at(l0, name, s, k);
    if resolve_from(r0, name, 0) == Some((rs, rk)) && last is Some {
        paired_right(
            config,
            l0[last.unwrap().0].symbols@[last.unwrap().1],
            r0[rs].symbols@[rk],
            r1,
        )
    } else {
        r1 == r0[rs].symbols@[rk]
    }
}

/// The result for the right code symbol `(rs, rk)`: where it is the first
/// right code symbol of its name and the left image has a code symbol of
/// that name, it holds the diff against the last such left symbol; else it
/// has fallen back.
pub open spec fn code_right_result(
    config: DiffObjConfig,
    l0: Seq<ObjSection>,
    r0: Seq<ObjSection>,
    rs: int,
    rk: int,
    r1: ObjSymbol,
) -> bool {
    let name = r0[rs].symbols@[rk].name@;
    let last = last_in_sections(l0, name, l0.len() as int);
    if resolve_from(r0, name, 0) == Some((rs, rk)) && last is Some {
        paired_right(
            config,
            l0[last.unwrap().0].symbols@[last.unwrap().1],
            r0[rs].symbols@[rk],
            r1,
        )
    } else {
        unpaired(r0[rs].symbols@[rk], r1, DiffSide::Right)
    }
}

/// The state of the left section `s2` when the left code symbols before
/// `(s, k)` have been handled.
pub open spec fn left_section_at(
    config: DiffObjConfig,
    l0: Seq<ObjSection>,
    r0: Seq<ObjSection>,
    s2: int,
    s: int,
    k: int,
    cur: ObjSection,
) -> bool {
    if l0[s2].kind != ObjSectionKind::Code || s2 > s {
        cur == l0[s2]
    } else {
        &&& symbols_changed(l0[s2], cur)
        &&& forall|k2: int|
            0 <= k2 < l0[s2].symbols@.len() ==> if s2 < s || k2 < k {
                code_left_result(config, l0, r0, s2, k2, #[trigger] cur.symbols@[k2])
            } else {
                cur.symbols@[k2] == l0[s2].symbols@[k2]
            }
    }
}

/// The state of the right section `rs` when the left code symbols before
/// `(s, k)` have been handled.
pub open spec fn right_section_at(
    config: DiffObjConfig,
    l0: Seq<ObjSection>,
    r0: Seq<ObjSection>,
    rs: int,
    s: int,
    k: int,
    cur: ObjSection,
) -> bool {
    if r0[rs].kind != ObjSectionKind::Code {
        cur == r0[rs]
    } else {
        &&& symbols_changed(r0[rs], cur)
        &&& forall|rk: int|
            0 <= rk < r0[rs].symbols@.len() ==> code_right_so_far(
                config,
                l0,
                r0,
                rs,
                rk,
                s,
                k,
                #[trigger] cur.symbols@[rk],
            )
    }
}

/// The state of both images when the left code symbols before `(s, k)` have
/// been handled.
pub open spec fn code_pass_at(
    config: DiffObjConfig,
    l0: ObjInfo,
    r0: ObjInfo,
    s: int,
    k: int,
    l: ObjInfo,
    r: ObjInfo,
) -> bool {
    &&& sections_changed(l0, l)
    &&& sections_changed(r0, r)
    &&& forall|s2: int|
        0 <= s2 < l0.sections@.len() ==> left_section_at(
            config,
            l0.sections@,
            r0.sections@,
            s2,
            s,
            k,
            #[trigger] l.sections@[s2],
        )
    &&& forall|rs: int|
        0 <= rs < r0.sections@.len() ==> right_section_at(
            config,
            l0.sections@,
            r0.sections@,
            rs,
            s,
            k,
            #[trigger] r.sections@[rs],
        )
}

/// The final state of a code section of the right image.
pub open spec fn right_section_done(
    config: DiffObjConfig,
    l0: Seq<ObjSection>,
    r0: Seq<ObjSection>,
    rs: int,
    upto: int,
    cur: ObjSection,
) -> bool {
    if r0[rs].kind != ObjSectionKind::Code {
        cur == r0[rs]
    } else {
        &&& symbols_changed(r0[rs], cur)
        &&& forall|rk: int|
            0 <= rk < r0[rs].symbols@.len() ==> if upto > rk {
                code_right_result(config, l0, r0, rs, rk, #[trigger] cur.symbols@[rk])
            } else {
                code_right_so_far(
                    config,
                    l0,
                    r0,
                    rs,
                    rk,
                    l0.len() as int,
                    0,
                    #[trigger] cur.symbols@[rk],
                )
            }
    }
}

/// What the pass over the code symbols leaves in the two images: the code
/// symbols of both sides hold their results, and nothing else has changed.
pub open spec fn code_diffed(config: DiffObjConfig, l0: ObjInfo, r0: ObjInfo, l: ObjInfo, r: ObjInfo) -> bool {
    &&& sections_changed(l0, l)
    &&& sections_changed(r0, r)
    &&& forall|s2: int|
        0 <= s2 < l0.sections@.len() ==> left_section_at(
            config,
            l0.sections@,
            r0.sections@,
            s2,
            l0.sections@.len() as int,
            0,
            #[trigger] l.sections@[s2],
        )
    &&& forall|rs: int|
        0 <= rs < r0.sections@.len() ==> right_section_done(
            config,
            l0.sections@,
            r0.sections@,
            rs,
            r0.sections@[rs].symbols@.len() as int,
            #[trigger] r.sections@[rs],
        )
}

/// The same symbols, diffed against an annotated copy of the right symbol,
/// come out as when diffed against the right symbol itself.
pub proof fn lemma_paired_rebase(
    config: DiffObjConfig,
    l: ObjSymbol,
    r0: ObjSymbol,
    rc: ObjSymbol,
    l1: ObjSymbol,
    r1: ObjSymbol,
)
    requires
        symbol_annotated(r0, rc),
        rc.pairing == r0.pairing,
        paired_left(config, l, rc, l1),
        paired_right(config, l, rc, r1),
    ensures
        paired_left(config, l, r0, l1),
        paired_right(config, l, r0, r1),
{
    lemma_instructions_annotated_tokens(r0.instructions@, rc.instructions@);
    lemma_symbol_annotated_trans(r0, rc, r1);
}

/// What is found as the last code symbol of a name is one, and nothing is
/// found only where there is none.
pub proof fn lemma_last_in_sections(sections: Seq<ObjSection>, name: Seq<char>, upto: int)
    requires
        upto <= sections.len(),
    ensures
        match last_in_sections(sections, name, upto) {
            Some((s, k)) => s < upto && is_code_symbol(sections, s, k, name),
            None => forall|s2: int, k2: int|
                s2 < upto ==> !#[trigger] is_code_symbol(sections, s2, k2, name),
        },
    decreases upto,
{
    if upto > 0 {
        let s = upto - 1;
        lemma_last_symbol_index(sections[s].symbols@, name, sections[s].symbols@.len() as int);
        lemma_last_in_sections(sections, name, upto - 1);
    }
}

/// The image has a first code symbol of a name exactly where it has a last one.
pub proof fn lemma_first_and_last(sections: Seq<ObjSection>, name: Seq<char>)
    ensures
        resolve_from(sections, name, 0) is Some <==> last_in_sections(
            sections,
            name,
            sections.len() as int,
        ) is Some,
{
    lemma_resolve_from(sections, name, 0);
    lemma_last_in_sections(sections, name, sections.len() as int);
    match resolve_from(sections, name, 0) {
        Some((s, k)) => {
            assert(is_code_symbol(sections, s, k, name));
        },
        None => {
            match last_in_sections(sections, name, sections.len() as int) {
                Some((s, k)) => {
                    assert(is_code_symbol(sections, s, k, name));
                },
                None => {},
            }
        },
    }
}

/// The image `o2` is the image `o` with nothing changed but the symbol `k`
/// of section `s`.
pub open spec fn symbol_replaced(o: ObjInfo, o2: ObjInfo, s: int, k: int) -> bool {
    &&& sections_changed(o, o2)
    &&& forall|s2: int|
        0 <= s2 < o.sections@.len() && s2 != s ==> #[trigger] o2.sections@[s2] == o.sections@[s2]
    &&& symbols_changed(o.sections@[s], o2.sections@[s])
    &&& forall|k2: int|
        0 <= k2 < o.sections@[s].symbols@.len() && k2 != k ==> #[trigger] o2.sections@[s].symbols@[k2]
            == o.sections@[s].symbols@[k2]
}

/// During the pass every section of the right image is the section it was,
/// annotated.
proof fn lemma_right_annotated(
    config: DiffObjConfig,
    l0: ObjInfo,
    r0: ObjInfo,
    s: int,
    k: int,
    l: ObjInfo,
    r: ObjInfo,
)
    requires
        code_pass_at(config, l0, r0, s, k, l, r),
    ensures
        forall|rs: int|
            0 <= rs < r0.sections@.len() ==> section_annotated(
                r0.sections@[rs],
                #[trigger] r.sections@[rs],
            ),
{
    assert forall|rs: int| 0 <= rs < r0.sections@.len() implies section_annotated(
        r0.sections@[rs],
        #[trigger] r.sections@[rs],
    ) by {
        let cur = r.sections@[rs];
        assert(right_section_at(config, l0.sections@, r0.sections@, rs, s, k, cur));
        if r0.sections@[rs].kind == ObjSectionKind::Code {
            assert forall|rk: int| 0 <= rk < r0.sections@[rs].symbols@.len() implies symbol_annotated(
                r0.sections@[rs].symbols@[rk],
                #[trigger] cur.symbols@[rk],
            ) by {
                assert(code_right_so_far(
                    config,
                    l0.sections@,
                    r0.sections@,
                    rs,
                    rk,
                    s,
                    k,
                    cur.symbols@[rk],
                ));
            }
        }
    }
}

/// When the pass over the left symbols is done every section of the left
/// image is the section it was, annotated.
proof fn lemma_left_annotated(
    config: DiffObjConfig,
    l0: ObjInfo,
    r0: ObjInfo,
    s: int,
    k: int,
    l: ObjInfo,
    r: ObjInfo,
)
    requires
        code_pass_at(config, l0, r0, s, k, l, r),
    ensures
        forall|s2: int|
            0 <= s2 < l0.sections@.len() ==> section_annotated(
                l0.sections@[s2],
                #[trigger] l.sections@[s2],
            ),
{
    assert forall|s2: int| 0 <= s2 < l0.sections@.len() implies section_annotated(
        l0.sections@[s2],
        #[trigger] l.sections@[s2],
    ) by {
        let cur = l.sections@[s2];
        assert(left_section_at(config, l0.sections@, r0.sections@, s2, s, k, cur));
        if l0.sections@[s2].kind == ObjSectionKind::Code && s2 <= s {
            assert forall|k2: int| 0 <= k2 < l0.sections@[s2].symbols@.len() implies symbol_annotated(
                l0.sections@[s2].symbols@[k2],
                #[trigger] cur.symbols@[k2],
            ) by {
                if s2 < s || k2 < k {
                    assert(code_left_result(
                        config,
                        l0.sections@,
                        r0.sections@,
                        s2,
                        k2,
                        cur.symbols@[k2],
                    ));
                }
            }
        }
    }
}

/// Handling the left symbol `(s, k)` leaves the right symbols as the state
/// for position `(s, k + 1)` asks, where the one right symbol that the left
/// symbol resolves to, if any, holds the new diff.
proof fn lemma_right_step(
    config: DiffObjConfig,
    l0: ObjInfo,
    r0: ObjInfo,
    s: int,
    k: int,
    rs: int,
    rk: int,
    old_sym: ObjSymbol,
    new_sym: ObjSymbol,
    hit: Option<(int, int)>,
)
    requires
        0 <= s < l0.sections@.len(),
        l0.sections@[s].kind == ObjSectionKind::Code,
        0 <= k < l0.sections@[s].symbols@.len(),
        0 <= rs < r0.sections@.len(),
        r0.sections@[rs].kind == ObjSectionKind::Code,
        0 <= rk < r0.sections@[rs].symbols@.len(),
        hit == resolve_from(r0.sections@, l0.sections@[s].symbols@[k].name@, 0),
        code_right_so_far(config, l0.sections@, r0.sections@, rs, rk, s, k, old_sym),
        hit == Some((rs, rk)) ==> paired_right(
            config,
            l0.sections@[s].symbols@[k],
            r0.sections@[rs].symbols@[rk],
            new_sym,
        ),
        hit != Some((rs, rk)) ==> new_sym == old_sym,
    ensures
        code_right_so_far(config, l0.sections@, r0.sections@, rs, rk, s, k + 1, new_sym),
{
    let name = l0.sections@[s].symbols@[k].name@;
    let own = r0.sections@[rs].symbols@[rk].name@;
    lemma_resolve_from(r0.sections@, name, 0);
    if own != name {
        assert(last_symbol_index(l0.sections@[s].symbols@, own, k + 1) == last_symbol_index(
            l0.sections@[s].symbols@,
            own,
            k,
        ));
    } else {
        assert(last_symbol_index(l0.sections@[s].symbols@, own, k + 1) == Some(k));
    }
}

/// The state for the end of a section is the state for the start of the
/// next, and a section that holds no code changes nothing.
proof fn lemma_next_section(
    config: DiffObjConfig,
    l0: ObjInfo,
    r0: ObjInfo,
    s: int,
    k: int,
    l: ObjInfo,
    r: ObjInfo,
)
    requires
        0 <= s < l0.sections@.len(),
        code_pass_at(config, l0, r0, s, k, l, r),
        if l0.sections@[s].kind == ObjSectionKind::Code {
            k == l0.sections@[s].symbols@.len()
        } else {
            k == 0
        },
    ensures
        code_pass_at(config, l0, r0, s + 1, 0, l, r),
{
    assert forall|s2: int| 0 <= s2 < l0.sections@.len() implies left_section_at(
        config,
        l0.sections@,
        r0.sections@,
        s2,
        s + 1,
        0,
        #[trigger] l.sections@[s2],
    ) by {
        assert(left_section_at(config, l0.sections@, r0.sections@, s2, s, k, l.sections@[s2]));
    }
    assert forall|rs: int| 0 <= rs < r0.sections@.len() implies right_section_at(
        config,
        l0.sections@,
        r0.sections@,
        rs,
        s + 1,
        0,
        #[trigger] r.sections@[rs],
    ) by {
        let cur = r.sections@[rs];
        assert(right_section_at(config, l0.sections@, r0.sections@, rs, s, k, cur));
        if r0.sections@[rs].kind == ObjSectionKind::Code {
            assert forall|rk: int| 0 <= rk < r0.sections@[rs].symbols@.len() implies code_right_so_far(
                config,
                l0.sections@,
                r0.sections@,
                rs,
                rk,
                s + 1,
                0,
                #[trigger] cur.symbols@[rk],
            ) by {
                let own = r0.sections@[rs].symbols@[rk].name@;
                assert(code_right_so_far(
                    config,
                    l0.sections@,
                    r0.sections@,
                    rs,
                    rk,
                    s,
                    k,
                    cur.symbols@[rk],
                ));
                assert(last_at(l0.sections@, own, s + 1, 0) == last_in_sections(
                    l0.sections@,
                    own,
                    s + 1,
                ));
                assert(last_at(l0.sections@, own, s, k) == last_in_sections(l0.sections@, own, s + 1));
            }
        }
    }
}

/// The state after the left symbol `(s, k)` has been handled.
proof fn lemma_symbol_step(
    config: DiffObjConfig,
    l0: ObjInfo,
    r0: ObjInfo,
    s: int,
    k: int,
    l: ObjInfo,
    r: ObjInfo,
    l2: ObjInfo,
    r2: ObjInfo,
)
    requires
        code_pass_at(config, l0, r0, s, k, l, r),
        0 <= s < l0.sections@.len(),
        l0.sections@[s].kind == ObjSectionKind::Code,
        0 <= k < l0.sections@[s].symbols@.len(),
        symbol_replaced(l, l2, s, k),
        code_left_result(config, l0.sections@, r0.sections@, s, k, l2.sections@[s].symbols@[k]),
        match resolve_from(r0.sections@, l0.sections@[s].symbols@[k].name@, 0) {
            Some((rs, rk)) => symbol_replaced(r, r2, rs, rk) && paired_right(
                config,
                l0.sections@[s].symbols@[k],
                r0.sections@[rs].symbols@[rk],
                r2.sections@[rs].symbols@[rk],
            ),
            None => r2 == r,
        },
    ensures
        code_pass_at(config, l0, r0, s, k + 1, l2, r2),
{
    let name = l0.sections@[s].symbols@[k].name@;
    let hit = resolve_from(r0.sections@, name, 0);
    lemma_resolve_from(r0.sections@, name, 0);
    assert forall|s2: int| 0 <= s2 < l0.sections@.len() implies left_section_at(
        config,
        l0.sections@,
        r0.sections@,
        s2,
        s,
        k + 1,
        #[trigger] l2.sections@[s2],
    ) by {
        assert(left_section_at(config, l0.sections@, r0.sections@, s2, s, k, l.sections@[s2]));
        if s2 == s {
            let cur = l2.sections@[s];
            assert forall|k2: int| 0 <= k2 < l0.sections@[s].symbols@.len() implies if k2 < k + 1 {
                code_left_result(config, l0.sections@, r0.sections@, s, k2, #[trigger] cur.symbols@[k2])
            } else {
                cur.symbols@[k2] == l0.sections@[s].symbols@[k2]
            } by {
                if k2 != k {
                    assert(cur.symbols@[k2] == l.sections@[s].symbols@[k2]);
                }
            }
        } else {
            assert(l2.sections@[s2] == l.sections@[s2]);
        }
    }
    assert forall|rs: int| 0 <= rs < r0.sections@.len() implies right_section_at(
        config,
        l0.sections@,
        r0.sections@,
        rs,
        s,
        k + 1,
        #[trigger] r2.sections@[rs],
    ) by {
        let before = r.sections@[rs];
        let cur = r2.sections@[rs];
        assert(right_section_at(config, l0.sections@, r0.sections@, rs, s, k, before));
        if r0.sections@[rs].kind == ObjSectionKind::Code {
            assert forall|rk: int| 0 <= rk < r0.sections@[rs].symbols@.len() implies code_right_so_far(
                config,
                l0.sections@,
                r0.sections@,
                rs,
                rk,
                s,
                k + 1,
                #[trigger] cur.symbols@[rk],
            ) by {
                assert(code_right_so_far(
                    config,
                    l0.sections@,
                    r0.sections@,
                    rs,
                    rk,
                    s,
                    k,
                    before.symbols@[rk],
                ));
                lemma_right_step(
                    config,
                    l0,
                    r0,
                    s,
                    k,
                    rs,
                    rk,
                    before.symbols@[rk],
                    cur.symbols@[rk],
                    hit,
                );
            }
        }
    }
}

/// Handles the code symbols of the left section `s`.
fn diff_code_section(
    config: &DiffObjConfig,
    left: &mut ObjInfo,
    right: &mut ObjInfo,
    s: usize,
    Ghost(l0): Ghost<ObjInfo>,
    Ghost(r0): Ghost<ObjInfo>,
)
    requires
        code_pass_at(*config, l0, r0, s as int, 0, *old(left), *old(right)),
        s < l0.sections@.len(),
        l0.sections@[s as int].kind == ObjSectionKind::Code,
        code_fits(l0.sections@, r0.sections@),
    ensures
        code_pass_at(*config, l0, r0, s + 1, 0, *final(left), *final(right)),
{
    proof {
        assert(left_section_at(
            *config,
            l0.sections@,
            r0.sections@,
            s as int,
            s as int,
            0,
            left.sections@[s as int],
        ));
    }
    let n = left.sections[s].symbols.len();
    let mut k: usize = 0;
    while k < n
        invariant
            k <= n,
            n == l0.sections@[s as int].symbols@.len(),
            s < l0.sections@.len(),
            l0.sections@[s as int].kind == ObjSectionKind::Code,
            code_fits(l0.sections@, r0.sections@),
            code_pass_at(*config, l0, r0, s as int, k as int, *left, *right),
        decreases n - k,
    {
        let ghost l_before = *left;
        let ghost r_before = *right;
        let ghost name = l0.sections@[s as int].symbols@[k as int].name@;
        proof {
            assert(left_section_at(
                *config,
                l0.sections@,
                r0.sections@,
                s as int,
                s as int,
                k as int,
                left.sections@[s as int],
            ));
            assert(left.sections@[s as int].symbols@[k as int] == l0.sections@[s as int].symbols@[k as int]);
            lemma_right_annotated(*config, l0, r0, s as int, k as int, *left, *right);
            lemma_resolve_annotated(r0.sections@, right.sections@, name, 0);
            lemma_resolve_from(r0.sections@, name, 0);
            assert(symbol_fits(l0.sections@, r0.sections@, s as int, k as int));
        }
        match find_section_and_symbol(right, &left.sections[s].symbols[k].name) {
            Some((rs, rk)) => {
                proof {
                    assert(right_section_at(
                        *config,
                        l0.sections@,
                        r0.sections@,
                        rs as int,
                        s as int,
                        k as int,
                        right.sections@[rs as int],
                    ));
                    assert(code_right_so_far(
                        *config,
                        l0.sections@,
                        r0.sections@,
                        rs as int,
                        rk as int,
                        s as int,
                        k as int,
                        right.sections@[rs as int].symbols@[rk as int],
                    ));
                }
                let _ = diff_code(
                    config,
                    &mut left.sections[s].symbols[k],
                    &mut right.sections[rs].symbols[rk],
                );
                proof {
                    lemma_paired_rebase(
                        *config,
                        l0.sections@[s as int].symbols@[k as int],
                        r0.sections@[rs as int].symbols@[rk as int],
                        r_before.sections@[rs as int].symbols@[rk as int],
                        left.sections@[s as int].symbols@[k as int],
                        right.sections@[rs as int].symbols@[rk as int],
                    );
                }
            },
            None => {
                no_diff_code(&mut left.sections[s].symbols[k], DiffSide::Left);
            },
        }
        proof {
            lemma_symbol_step(*config, l0, r0, s as int, k as int, l_before, r_before, *left, *right);
        }
        k = k + 1;
    }
    proof {
        lemma_next_section(*config, l0, r0, s as int, k as int, *left, *right);
    }
}

/// Handles every code symbol of the left image, in order: it is diffed
/// against its counterpart in the right image, or falls back where it has none.
fn diff_left_code(config: &DiffObjConfig, left: &mut ObjInfo, right: &mut ObjInfo)
    requires
        code_fits(old(left).sections@, old(right).sections@),
    ensures
        code_pass_at(
            *config,
            *old(left),
            *old(right),
            old(left).sections@.len() as int,
            0,
            *final(left),
            *final(right),
        ),
{
    let ghost l0 = *left;
    let ghost r0 = *right;
    let count = left.sections.len();
    let mut s: usize = 0;
    while s < count
        invariant
            s <= count,
            count == l0.sections@.len(),
            code_fits(l0.sections@, r0.sections@),
            code_pass_at(*config, l0, r0, s as int, 0, *left, *right),
        decreases count - s,
    {
        proof {
            assert(left_section_at(
                *config,
                l0.sections@,
                r0.sections@,
                s as int,
                s as int,
                0,
                left.sections@[s as int],
            ));
        }
        if left.sections[s].kind == ObjSectionKind::Code {
            diff_code_section(config, left, right, s, Ghost(l0), Ghost(r0));
        } else {
            proof {
                lemma_next_section(*config, l0, r0, s as int, 0, *left, *right);
            }
        }
        s = s + 1;
    }
}

/// How many symbols of the right section `rs` have been swept when the
/// sweep stands at symbol `rk_at` of section `rs_at`.
pub open spec fn swept(rs: int, rs_at: int, rk_at: int, len: int) -> int {
    if rs < rs_at {
        len
    } else if rs == rs_at {
        rk_at
    } else {
        0
    }
}

/// The state of the right image when the sweep stands at symbol `rk_at` of
/// section `rs_at`.
pub open spec fn sweep_at(
    config: DiffObjConfig,
    l0: ObjInfo,
    r0: ObjInfo,
    rs_at: int,
    rk_at: int,
    r: ObjInfo,
) -> bool {
    &&& sections_changed(r0, r)
    &&& forall|rs: int|
        0 <= rs < r0.sections@.len() ==> right_section_done(
            config,
            l0.sections@,
            r0.sections@,
            rs,
            swept(rs, rs_at, rk_at, r0.sections@[rs].symbols@.len() as int),
            #[trigger] r.sections@[rs],
        )
}

proof fn lemma_sweep_annotated(
    config: DiffObjConfig,
    l0: ObjInfo,
    r0: ObjInfo,
    rs_at: int,
    rk_at: int,
    r: ObjInfo,
)
    requires
        sweep_at(config, l0, r0, rs_at, rk_at, r),
    ensures
        forall|rs: int|
            0 <= rs < r0.sections@.len() ==> section_annotated(
                r0.sections@[rs],
                #[trigger] r.sections@[rs],
            ),
{
    assert forall|rs: int| 0 <= rs < r0.sections@.len() implies section_annotated(
        r0.sections@[rs],
        #[trigger] r.sections@[rs],
    ) by {
        let cur = r.sections@[rs];
        let upto = swept(rs, rs_at, rk_at, r0.sections@[rs].symbols@.len() as int);
        assert(right_section_done(config, l0.sections@, r0.sections@, rs, upto, cur));
        if r0.sections@[rs].kind == ObjSectionKind::Code {
            assert forall|rk: int| 0 <= rk < r0.sections@[rs].symbols@.len() implies symbol_annotated(
                r0.sections@[rs].symbols@[rk],
                #[trigger] cur.symbols@[rk],
            ) by {
                if upto > rk {
                    assert(code_right_result(
                        config,
                        l0.sections@,
                        r0.sections@,
                        rs,
                        rk,
                        cur.symbols@[rk],
                    ));
                } else {
                    assert(code_right_so_far(
                        config,
                        l0.sections@,
                        r0.sections@,
                        rs,
                        rk,
                        l0.sections@.len() as int,
                        0,
                        cur.symbols@[rk],
                    ));
                }
            }
        }
    }
}

/// The state after the right symbol `(rs, rk)` has been swept.
proof fn lemma_sweep_step(
    config: DiffObjConfig,
    l0: ObjInfo,
    r0: ObjInfo,
    rs: int,
    rk: int,
    r: ObjInfo,
    r2: ObjInfo,
)
    requires
        sweep_at(config, l0, r0, rs, rk, r),
        0 <= rs < r0.sections@.len(),
        r0.sections@[rs].kind == ObjSectionKind::Code,
        0 <= rk < r0.sections@[rs].symbols@.len(),
        symbol_replaced(r, r2, rs, rk),
        code_right_result(config, l0.sections@, r0.sections@, rs, rk, r2.sections@[rs].symbols@[rk]),
    ensures
        sweep_at(config, l0, r0, rs, rk + 1, r2),
{
    assert forall|rs2: int| 0 <= rs2 < r0.sections@.len() implies right_section_done(
        config,
        l0.sections@,
        r0.sections@,
        rs2,
        swept(rs2, rs, rk + 1, r0.sections@[rs2].symbols@.len() as int),
        #[trigger] r2.sections@[rs2],
    ) by {
        let before = r.sections@[rs2];
        let cur = r2.sections@[rs2];
        assert(right_section_done(
            config,
            l0.sections@,
            r0.sections@,
            rs2,
            swept(rs2, rs, rk, r0.sections@[rs2].symbols@.len() as int),
            before,
        ));
        if rs2 == rs {
            assert forall|rk2: int| 0 <= rk2 < r0.sections@[rs].symbols@.len() implies if rk + 1 > rk2 {
                code_right_result(config, l0.sections@, r0.sections@, rs, rk2, #[trigger] cur.symbols@[rk2])
            } else {
                code_right_so_far(
                    config,
                    l0.sections@,
                    r0.sections@,
                    rs,
                    rk2,
                    l0.sections@.len() as int,
                    0,
                    #[trigger] cur.symbols@[rk2],
                )
            } by {
                if rk2 != rk {
                    assert(cur.symbols@[rk2] == before.symbols@[rk2]);
                }
            }
        } else {
            assert(cur == before);
        }
    }
}

/// Sweeps the symbols of the right code section `rs`.
fn sweep_code_section(
    config: &DiffObjConfig,
    left: &ObjInfo,
    right: &mut ObjInfo,
    rs: usize,
    Ghost(l0): Ghost<ObjInfo>,
    Ghost(r0): Ghost<ObjInfo>,
    Ghost(r_mid): Ghost<ObjInfo>,
)
    requires
        code_pass_at(*config, l0, r0, l0.sections@.len() as int, 0, *left, r_mid),
        sweep_at(*config, l0, r0, rs as int, 0, *old(right)),
        rs < r0.sections@.len(),
        r0.sections@[rs as int].kind == ObjSectionKind::Code,
    ensures
        sweep_at(*config, l0, r0, rs + 1, 0, *final(right)),
{
    proof {
        assert(right_section_done(
            *config,
            l0.sections@,
            r0.sections@,
            rs as int,
            0,
            right.sections@[rs as int],
        ));
    }
    let n = right.sections[rs].symbols.len();
    let mut rk: usize = 0;
    while rk < n
        invariant
            rk <= n,
            n == r0.sections@[rs as int].symbols@.len(),
            rs < r0.sections@.len(),
            r0.sections@[rs as int].kind == ObjSectionKind::Code,
            code_pass_at(*config, l0, r0, l0.sections@.len() as int, 0, *left, r_mid),
            sweep_at(*config, l0, r0, rs as int, rk as int, *right),
        decreases n - rk,
    {
        let ghost r_before = *right;
        let ghost name = r0.sections@[rs as int].symbols@[rk as int].name@;
        proof {
            assert(right_section_done(
                *config,
                l0.sections@,
                r0.sections@,
                rs as int,
                rk as int,
                right.sections@[rs as int],
            ));
            assert(code_right_so_far(
                *config,
                l0.sections@,
                r0.sections@,
                rs as int,
                rk as int,
                l0.sections@.len() as int,
                0,
                right.sections@[rs as int].symbols@[rk as int],
            ));
            lemma_sweep_annotated(*config, l0, r0, rs as int, rk as int, *right);
            lemma_resolve_annotated(r0.sections@, right.sections@, name, 0);
            lemma_left_annotated(*config, l0, r0, l0.sections@.len() as int, 0, *left, r_mid);
            lemma_resolve_annotated(l0.sections@, left.sections@, name, 0);
            lemma_first_and_last(l0.sections@, name);
        }
        let is_first = match find_section_and_symbol(right, &right.sections[rs].symbols[rk].name) {
            Some((fs, fk)) => fs == rs && fk == rk,
            None => false,
        };
        let has_left = find_section_and_symbol(left, &right.sections[rs].symbols[rk].name).is_some();
        if !(is_first && has_left) {
            no_diff_code(&mut right.sections[rs].symbols[rk], DiffSide::Right);
        }
        proof {
            lemma_sweep_step(*config, l0, r0, rs as int, rk as int, r_before, *right);
        }
        rk = rk + 1;
    }
    proof {
        assert forall|rs2: int| 0 <= rs2 < r0.sections@.len() implies right_section_done(
            *config,
            l0.sections@,
            r0.sections@,
            rs2,
            swept(rs2, rs + 1, 0, r0.sections@[rs2].symbols@.len() as int),
            #[trigger] right.sections@[rs2],
        ) by {
            assert(right_section_done(
                *config,
                l0.sections@,
                r0.sections@,
                rs2,
                swept(rs2, rs as int, rk as int, r0.sections@[rs2].symbols@.len() as int),
                right.sections@[rs2],
            ));
        }
    }
}

/// Lets every right code symbol without a counterpart fall back.
fn sweep_right_code(
    config: &DiffObjConfig,
    left: &ObjInfo,
    right: &mut ObjInfo,
    Ghost(l0): Ghost<ObjInfo>,
    Ghost(r0): Ghost<ObjInfo>,
)
    requires
        code_pass_at(*config, l0, r0, l0.sections@.len() as int, 0, *left, *old(right)),
    ensures
        code_diffed(*config, l0, r0, *left, *final(right)),
{
    let ghost r_mid = *right;
    let count = right.sections.len();
    let mut rs: usize = 0;
    proof {
        assert forall|rs2: int| 0 <= rs2 < r0.sections@.len() implies right_section_done(
            *config,
            l0.sections@,
            r0.sections@,
            rs2,
            swept(rs2, 0, 0, r0.sections@[rs2].symbols@.len() as int),
            #[trigger] right.sections@[rs2],
        ) by {
            assert(right_section_at(
                *config,
                l0.sections@,
                r0.sections@,
                rs2,
                l0.sections@.len() as int,
                0,
                right.sections@[rs2],
            ));
        }
    }
    while rs < count
        invariant
            rs <= count,
            count == r0.sections@.len(),
            code_pass_at(*config, l0, r0, l0.sections@.len() as int, 0, *left, r_mid),
            sweep_at(*config, l0, r0, rs as int, 0, *right),
        decreases count - rs,
    {
        proof {
            assert(right_section_done(
                *config,
                l0.sections@,
                r0.sections@,
                rs as int,
                0,
                right.sections@[rs as int],
            ));
        }
        if right.sections[rs].kind == ObjSectionKind::Code {
            sweep_code_section(config, left, right, rs, Ghost(l0), Ghost(r0), Ghost(r_mid));
        } else {
            proof {
                assert forall|rs2: int| 0 <= rs2 < r0.sections@.len() implies right_section_done(
                    *config,
                    l0.sections@,
                    r0.sections@,
                    rs2,
                    swept(rs2, rs + 1, 0, r0.sections@[rs2].symbols@.len() as int),
                    #[trigger] right.sections@[rs2],
                ) by {
                    assert(right_section_done(
                        *config,
                        l0.sections@,
                        r0.sections@,
                        rs2,
                        swept(rs2, rs as int, 0, r0.sections@[rs2].symbols@.len() as int),
                        right.sections@[rs2],
                    ));
                }
            }
        }
        rs = rs + 1;
    }
    proof {
        assert forall|rs2: int| 0 <= rs2 < r0.sections@.len() implies right_section_done(
            *config,
            l0.sections@,
            r0.sections@,
            rs2,
            r0.sections@[rs2].symbols@.len() as int,
            #[trigger] right.sections@[rs2],
        ) by {
            assert(right_section_done(
                *config,
                l0.sections@,
                r0.sections@,
                rs2,
                swept(rs2, rs as int, 0, r0.sections@[rs2].symbols@.len() as int),
                right.sections@[rs2],
            ));
        }
    }
}

/// Diffs the code symbols of two images. Every left code symbol is diffed
/// against the first right code symbol of its name and falls back where
/// there is none; every right code symbol that no left symbol was diffed
/// against falls back. Nothing but the code symbols changes.
pub fn diff_code_symbols(config: &DiffObjConfig, left: &mut ObjInfo, right: &mut ObjInfo)
    requires
        code_fits(old(left).sections@, old(right).sections@),
    ensures
        code_diffed(*config, *old(left), *old(right), *final(left), *final(right)),
{
    let ghost l0 = *left;
    let ghost r0 = *right;
    diff_left_code(config, left, right);
    sweep_right_code(config, left, right, Ghost(l0), Ghost(r0));
}

/// Whether every pair of code symbols that a pass over the two images
/// diffs is within the limit of the alignment.
pub fn check_code_fits(left: &ObjInfo, right: &ObjInfo) -> (ok: bool)
    ensures
        ok == code_fits(left.sections@, right.sections@),
{
    let mut s: usize = 0;
    while s < left.sections.len()
        invariant
            s <= left.sections.len(),
            forall|s2: int, k2: int|
                0 <= s2 < s && left.sections@[s2].kind == ObjSectionKind::Code && 0 <= k2
                    < left.sections@[s2].symbols@.len() ==> #[trigger] symbol_fits(
                    left.sections@,
                    right.sections@,
                    s2,
                    k2,
                ),
        decreases left.sections.len() - s,
    {
        if left.sections[s].kind == ObjSectionKind::Code {
            let mut k: usize = 0;
            while k < left.sections[s].symbols.len()
                invariant
                    s < left.sections.len(),
                    left.sections@[s as int].kind == ObjSectionKind::Code,
                    k <= left.sections@[s as int].symbols@.len(),
                    forall|s2: int, k2: int|
                        0 <= s2 < s && left.sections@[s2].kind == ObjSectionKind::Code && 0 <= k2
                            < left.sections@[s2].symbols@.len() ==> #[trigger] symbol_fits(
                            left.sections@,
                            right.sections@,
                            s2,
                            k2,
                        ),
                    forall|k2: int|
                        0 <= k2 < k ==> #[trigger] symbol_fits(
                            left.sections@,
                            right.sections@,
                            s as int,
                            k2,
                        ),
                decreases left.sections@[s as int].symbols@.len() - k,
            {
                proof {
                    lemma_resolve_from(
                        right.sections@,
                        left.sections@[s as int].symbols@[k as int].name@,
                        0,
                    );
                }
                match find_section_and_symbol(right, &left.sections[s].symbols[k].name) {
                    Some((rs, rk)) => {
                        if left.sections[s].symbols[k].instructions.len() > MAX_TOKENS
                            || right.sections[rs].symbols[rk].instructions.len() > MAX_TOKENS {
                            proof {
                                assert(!symbol_fits(
                                    left.sections@,
                                    right.sections@,
                                    s as int,
                                    k as int,
                                ));
                            }
                            return false;
                        }
                    },
                    None => {},
                }
                proof {
                    assert(symbol_fits(left.sections@, right.sections@, s as int, k as int));
                }
                k = k + 1;
            }
        }
        s = s + 1;
    }
    true
}

} // verus!
