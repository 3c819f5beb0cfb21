//! Alignment, scoring and annotation of two object images.

pub mod align;
pub mod code;
pub mod data;
pub mod editops;
pub mod lcs;
pub mod levenshtein;
pub mod myers;
pub mod patience;
pub mod results;
pub mod sections;
pub mod stable;
pub mod symbols;

use crate::diff::code::{
    code_score, is_code_symbol, symbol_index, lemma_resolve_from, lemma_score_rises, no_diff_code, resolve_from,
    unpaired, DiffSide,
};
use crate::diff::data::{
    bss_diffed, bss_left_result, bss_one_sided, bss_right_has_pair, bss_right_result,
    diff_bss_symbols, last_symbol_index, lemma_bss_left_mutual, lemma_bss_right_mutual,
    no_diff_bss, no_diff_data,
};
use crate::diff::sections::{
    check_data_fits, data_fits, diff_sections, left_partner, lemma_left_result_touched,
    lemma_partners, lemma_right_result_touched, lemma_section_index,
    lemma_section_index_same_names, pairing_changed, right_partner,
    section_fits, section_left_result, section_right_result, section_unpaired, sections_diffed,
};
use crate::diff::symbols::{
    check_code_fits, code_diffed, code_fits, code_left_result, code_right_result,
    diff_code_symbols, last_in_sections, left_section_at, lemma_last_in_sections,
    right_section_done, sections_changed, symbols_changed,
};
use crate::obj::{
    diff_kinds, image_annotated, opcodes, section_annotated, symbol_annotated, symbols_annotated,
    ObjInfo, ObjIns, ObjInsDiffKind, ObjSection, ObjSectionKind, ObjSymbol, SCORE_FULL,
};
use vstd::prelude::*;

verus! {

/// The strategy by which two token sequences are aligned.
#[derive(Clone, Copy, Debug, PartialEq, Eq, Structural)]
pub enum DiffAlg {
    /// Along the tokens that occur once on both sides.
    Patience,
    /// At the least cost in insertions, deletions and replacements.
    Levenshtein,
    /// By the greedy search for the fewest insertions and deletions.
    Myers,
    /// By the table of the longest common subsequences.
    Lcs,
}

impl Default for DiffAlg {
    fn default() -> (alg: DiffAlg)
        ensures
            alg == DiffAlg::Patience,
    {
        DiffAlg::Patience
    }
}

/// How a diff pass is to be run.
#[derive(Clone, Copy, Debug, PartialEq, Eq, Structural)]
pub struct DiffObjConfig {
    pub code_alg: DiffAlg,
    pub data_alg: DiffAlg,
    pub relax_reloc_diffs: bool,
}

impl Default for DiffObjConfig {
    fn default() -> (config: DiffObjConfig)
        ensures
            config == (DiffObjConfig {
                code_alg: DiffAlg::Patience,
                data_alg: DiffAlg::Patience,
                relax_reloc_diffs: false,
            }),
    {
        DiffObjConfig {
            code_alg: DiffAlg::Patience,
            data_alg: DiffAlg::Patience,
            relax_reloc_diffs: false,
        }
    }
}

/// Why a diff pass gave no result.
#[derive(Clone, Copy, Debug, PartialEq, Eq, Structural)]
pub enum DiffError {
    /// No full-covering script can be produced: one of the two sequences is
    /// longer than `MAX_TOKENS`.
    AlignmentFailure,
}

/// The instructions of a symbol together with their opcodes, the keys by
/// which they are aligned.
#[derive(Clone, Debug, PartialEq, Eq)]
pub struct ProcessCodeResult {
    pub ops: Vec<u8>,
    pub insts: Vec<ObjIns>,
}

impl ProcessCodeResult {
    /// Every instruction stands beside its opcode.
    pub open spec fn wf(self) -> bool {
        self.ops@ == opcodes(self.insts@)
    }
}

/// The result of a pass over both images for the left section `s`: the
/// symbols of a code section hold their diffs or have fallen back, a data
/// section holds its data diff, the symbols of a section of uninitialized
/// memory are paired.
pub open spec fn left_result(
    config: DiffObjConfig,
    l0: Seq<ObjSection>,
    r0: Seq<ObjSection>,
    s: int,
    l1: ObjSection,
) -> bool {
    if l0[s].kind == ObjSectionKind::Code {
        left_section_at(config, l0, r0, s, l0.len() as int, 0, l1)
    } else {
        section_left_result(config, l0, r0, s, l1)
    }
}

/// The result of a pass over both images for the right section `rs`.
pub open spec fn right_result(
    config: DiffObjConfig,
    l0: Seq<ObjSection>,
    r0: Seq<ObjSection>,
    rs: int,
    r1: ObjSection,
) -> bool {
    if r0[rs].kind == ObjSectionKind::Code {
        right_section_done(config, l0, r0, rs, r0[rs].symbols@.len() as int, r1)
    } else {
        section_right_result(config, l0, r0, rs, r1)
    }
}

/// Nothing of the image changed but its sections and its common symbols,
/// and no section was added or removed.
pub open spec fn contents_changed(o0: ObjInfo, o1: ObjInfo) -> bool {
    &&& o1 == (ObjInfo { sections: o1.sections, common: o1.common, ..o0 })
    &&& o1.sections@.len() == o0.sections@.len()
}

/// What a pass over both images leaves in them. A pass only runs where
/// every pair that it has to align is within the limit of the alignment.
pub open spec fn images_diffed(
    config: DiffObjConfig,
    l0: ObjInfo,
    r0: ObjInfo,
    l1: ObjInfo,
    r1: ObjInfo,
) -> bool {
    &&& code_fits(l0.sections@, r0.sections@)
    &&& data_fits(l0.sections@, r0.sections@)
    &&& contents_changed(l0, l1)
    &&& contents_changed(r0, r1)
    &&& forall|s: int|
        0 <= s < l0.sections@.len() ==> left_result(
            config,
            l0.sections@,
            r0.sections@,
            s,
            #[trigger] l1.sections@[s],
        )
    &&& forall|rs: int|
        0 <= rs < r0.sections@.len() ==> right_result(
            config,
            l0.sections@,
            r0.sections@,
            rs,
            #[trigger] r1.sections@[rs],
        )
    &&& bss_diffed(l0.common@, r0.common@, l1.common@, r1.common@)
}

/// What is left in a section of an image that has no counterpart image:
/// every code symbol and every data section has fallen back, every symbol
/// of a section of uninitialized memory is one-sided, and nothing else has
/// changed.
pub open spec fn alone_result(s0: ObjSection, s1: ObjSection, side: DiffSide) -> bool {
    if s0.kind == ObjSectionKind::Code {
        &&& symbols_changed(s0, s1)
        &&& forall|k: int|
            0 <= k < s0.symbols@.len() ==> unpaired(s0.symbols@[k], #[trigger] s1.symbols@[k], side)
    } else {
        section_unpaired(s0, s1, side)
    }
}

/// What a pass leaves in an image that has no counterpart image: every
/// section holds its result, and every common symbol is one-sided.
pub open spec fn image_alone(o0: ObjInfo, o1: ObjInfo, side: DiffSide) -> bool {
    &&& contents_changed(o0, o1)
    &&& forall|s: int|
        0 <= s < o0.sections@.len() ==> alone_result(
            o0.sections@[s],
            #[trigger] o1.sections@[s],
            side,
        )
    &&& o1.common@.len() == o0.common@.len()
    &&& forall|k: int|
        0 <= k < o0.common@.len() ==> bss_one_sided(o0.common@[k], #[trigger] o1.common@[k])
}

/// The pass over the code symbols and the pass over the other sections do
/// not get in each other's way: after both, every section holds the result
/// that the images from before the first pass ask for.
proof fn lemma_passes_compose(
    config: DiffObjConfig,
    l0: ObjInfo,
    r0: ObjInfo,
    la: ObjInfo,
    ra: ObjInfo,
    lb: ObjInfo,
    rb: ObjInfo,
)
    requires
        code_diffed(config, l0, r0, la, ra),
        sections_diffed(config, la, ra, lb, rb),
    ensures
        sections_changed(l0, lb),
        sections_changed(r0, rb),
        forall|s: int|
            0 <= s < l0.sections@.len() ==> left_result(
                config,
                l0.sections@,
                r0.sections@,
                s,
                #[trigger] lb.sections@[s],
            ),
        forall|rs: int|
            0 <= rs < r0.sections@.len() ==> right_result(
                config,
                l0.sections@,
                r0.sections@,
                rs,
                #[trigger] rb.sections@[rs],
            ),
{
    let l0s = l0.sections@;
    let r0s = r0.sections@;
    let las = la.sections@;
    let ras = ra.sections@;
    assert forall|t: int| 0 <= t < l0s.len() implies (#[trigger] las[t]).kind == l0s[t].kind
        && las[t].name@ == l0s[t].name@ && (l0s[t].kind != ObjSectionKind::Code ==> las[t]
        == l0s[t]) by {
        assert(left_section_at(config, l0s, r0s, t, l0s.len() as int, 0, las[t]));
    }
    assert forall|t: int| 0 <= t < r0s.len() implies (#[trigger] ras[t]).kind == r0s[t].kind
        && ras[t].name@ == r0s[t].name@ && (r0s[t].kind != ObjSectionKind::Code ==> ras[t]
        == r0s[t]) by {
        assert(right_section_done(config, l0s, r0s, t, r0s[t].symbols@.len() as int, ras[t]));
    }
    assert forall|s: int| 0 <= s < l0s.len() implies left_result(
        config,
        l0s,
        r0s,
        s,
        #[trigger] lb.sections@[s],
    ) by {
        assert(section_left_result(config, las, ras, s, lb.sections@[s]));
        assert(left_section_at(config, l0s, r0s, s, l0s.len() as int, 0, las[s]));
        if l0s[s].kind != ObjSectionKind::Code {
            lemma_section_index_same_names(ras, r0s, l0s[s].kind, l0s[s].name@, 0);
            lemma_section_index_same_names(las, l0s, l0s[s].kind, l0s[s].name@, 0);
            lemma_section_index(r0s, l0s[s].kind, l0s[s].name@, 0);
        }
    }
    assert forall|rs: int| 0 <= rs < r0s.len() implies right_result(
        config,
        l0s,
        r0s,
        rs,
        #[trigger] rb.sections@[rs],
    ) by {
        assert(section_right_result(config, las, ras, rs, rb.sections@[rs]));
        assert(right_section_done(config, l0s, r0s, rs, r0s[rs].symbols@.len() as int, ras[rs]));
        if r0s[rs].kind != ObjSectionKind::Code {
            let kind = r0s[rs].kind;
            let name = r0s[rs].name@;
            lemma_section_index_same_names(ras, r0s, kind, name, 0);
            lemma_section_index_same_names(las, l0s, kind, name, 0);
            lemma_section_index(l0s, kind, name, 0);
        }
    }
}

/// Lets every code symbol and every data section of an image fall back,
/// and marks its uninitialized symbols as one-sided.
fn fallback_image(obj: &mut ObjInfo, side: DiffSide)
    ensures
        image_alone(*old(obj), *final(obj), side),
{
    let ghost o0 = *obj;
    let count = obj.sections.len();
    let mut s: usize = 0;
    while s < count
        invariant
            s <= count,
            count == o0.sections@.len(),
            sections_changed(o0, *obj),
            forall|t: int|
                0 <= t < s ==> alone_result(o0.sections@[t], #[trigger] obj.sections@[t], side),
            forall|t: int| s <= t < count ==> obj.sections@[t] == o0.sections@[t],
        decreases count - s,
    {
        let kind = obj.sections[s].kind;
        if kind == ObjSectionKind::Code {
            let n = obj.sections[s].symbols.len();
            let mut k: usize = 0;
            while k < n
                invariant
                    k <= n,
                    s < count,
                    count == o0.sections@.len(),
                    n == o0.sections@[s as int].symbols@.len(),
                    o0.sections@[s as int].kind == ObjSectionKind::Code,
                    sections_changed(o0, *obj),
                    symbols_changed(o0.sections@[s as int], obj.sections@[s as int]),
                    forall|t: int|
                        0 <= t < s ==> alone_result(
                            o0.sections@[t],
                            #[trigger] obj.sections@[t],
                            side,
                        ),
                    forall|t: int| s < t < count ==> obj.sections@[t] == o0.sections@[t],
                    forall|t: int|
                        0 <= t < k ==> unpaired(
                            o0.sections@[s as int].symbols@[t],
                            #[trigger] obj.sections@[s as int].symbols@[t],
                            side,
                        ),
                    forall|t: int|
                        k <= t < n ==> obj.sections@[s as int].symbols@[t]
                            == o0.sections@[s as int].symbols@[t],
                decreases n - k,
            {
                no_diff_code(&mut obj.sections[s].symbols[k], side);
                k = k + 1;
            }
        } else if kind == ObjSectionKind::Data {
            no_diff_data(&mut obj.sections[s], side);
        } else if kind == ObjSectionKind::Bss {
            no_diff_bss(&mut obj.sections[s].symbols);
        }
        s = s + 1;
    }
    no_diff_bss(&mut obj.common);
}

/// Diffs two builds of an object file, each of which may be absent, and
/// leaves the results in the images.
///
/// With both images, every left code symbol is diffed against the right code
/// symbol of its name or falls back where there is none, and the right code
/// symbols that are left over fall back. Data sections and sections of
/// uninitialized memory are paired one to one by kind and name: the data of
/// a pair is diffed and the symbols of a pair are paired by name; a section
/// without a counterpart falls back. The common symbols of the two images
/// are paired by name. With one image, every code symbol and every data
/// section of it falls back, and its uninitialized symbols are one-sided.
///
/// The pass fails only where two code symbols or two data sections that it
/// has to align are over the limit of the alignment, and then it changes
/// nothing. No section, symbol or instruction is ever added, removed or moved.
pub fn diff_objs(
    config: &DiffObjConfig,
    left: Option<&mut ObjInfo>,
    right: Option<&mut ObjInfo>,
) -> (r: Result<(), DiffError>)
    ensures
        left is Some && right is Some ==> (r is Err <==> !(code_fits(
            left.unwrap().sections@,
            right.unwrap().sections@,
        ) && data_fits(left.unwrap().sections@, right.unwrap().sections@))),
        left is Some && right is Some && r is Err ==> *final(left.unwrap()) == *left.unwrap()
            && *final(right.unwrap()) == *right.unwrap(),
        left is Some && right is Some && r is Ok ==> images_diffed(
            *config,
            *left.unwrap(),
            *right.unwrap(),
            *final(left.unwrap()),
            *final(right.unwrap()),
        ),
        left is None || right is None ==> r is Ok,
        left is Some && right is None ==> image_alone(
            *left.unwrap(),
            *final(left.unwrap()),
            DiffSide::Left,
        ),
        left is None && right is Some ==> image_alone(
            *right.unwrap(),
            *final(right.unwrap()),
            DiffSide::Right,
        ),
{
    match left {
        Some(left) => match right {
            Some(right) => {
                if !(check_code_fits(left, right) && check_data_fits(left, right)) {
                    return Err(DiffError::AlignmentFailure);
                }
                let ghost l0 = *left;
                let ghost r0 = *right;
                diff_code_symbols(config, left, right);
                let ghost la = *left;
                let ghost ra = *right;
                proof {
                    assert forall|t: int| 0 <= t < l0.sections@.len() implies (
                    #[trigger] la.sections@[t]).kind == l0.sections@[t].kind && la.sections@[t].name@
                        == l0.sections@[t].name@ && la.sections@[t].data == l0.sections@[t].data by {
                        assert(left_section_at(
                            *config,
                            l0.sections@,
                            r0.sections@,
                            t,
                            l0.sections@.len() as int,
                            0,
                            la.sections@[t],
                        ));
                    }
                    assert forall|t: int| 0 <= t < r0.sections@.len() implies (
                    #[trigger] ra.sections@[t]).kind == r0.sections@[t].kind && ra.sections@[t].name@
                        == r0.sections@[t].name@ && ra.sections@[t].data == r0.sections@[t].data by {
                        assert(right_section_done(
                            *config,
                            l0.sections@,
                            r0.sections@,
                            t,
                            r0.sections@[t].symbols@.len() as int,
                            ra.sections@[t],
                        ));
                    }
                    assert forall|s: int|
                        0 <= s < la.sections@.len() && la.sections@[s].kind
                            == ObjSectionKind::Data implies #[trigger] section_fits(
                        la.sections@,
                        ra.sections@,
                        s,
                    ) by {
                        assert(section_fits(l0.sections@, r0.sections@, s));
                        lemma_section_index_same_names(
                            ra.sections@,
                            r0.sections@,
                            ObjSectionKind::Data,
                            l0.sections@[s].name@,
                            0,
                        );
                        lemma_section_index_same_names(
                            la.sections@,
                            l0.sections@,
                            ObjSectionKind::Data,
                            l0.sections@[s].name@,
                            0,
                        );
                        lemma_section_index(
                            r0.sections@,
                            ObjSectionKind::Data,
                            l0.sections@[s].name@,
                            0,
                        );
                    }
                }
                diff_sections(config, left, right);
                proof {
                    lemma_passes_compose(*config, l0, r0, la, ra, *left, *right);
                }
                diff_bss_symbols(&mut left.common, &mut right.common);
                Ok(())
            },
            None => {
                fallback_image(left, DiffSide::Left);
                Ok(())
            },
        },
        None => match right {
            Some(right) => {
                fallback_image(right, DiffSide::Right);
                Ok(())
            },
            None => Ok(()),
        },
    }
}

/// After a pass over both images, a code symbol of the left image whose
/// name no code symbol of the right image has is without cross-reference,
/// has a score of zero, and every one of its instructions is classified as
/// present on the left side only.
pub proof fn lemma_left_only_symbol(
    config: DiffObjConfig,
    l0: ObjInfo,
    r0: ObjInfo,
    l1: ObjInfo,
    r1: ObjInfo,
    s: int,
    k: int,
)
    requires
        images_diffed(config, l0, r0, l1, r1),
        0 <= s < l0.sections@.len(),
        l0.sections@[s].kind == ObjSectionKind::Code,
        0 <= k < l0.sections@[s].symbols@.len(),
        forall|rs: int, rk: int|
            !#[trigger] is_code_symbol(r0.sections@, rs, rk, l0.sections@[s].symbols@[k].name@),
    ensures
        l1.sections@[s].symbols@[k].diff_symbol is None,
        l1.sections@[s].symbols@[k].match_score == 0,
        l1.sections@[s].symbols@[k].instructions@.len()
            == l0.sections@[s].symbols@[k].instructions@.len(),
        forall|t: int|
            0 <= t < l1.sections@[s].symbols@[k].instructions@.len()
                ==> (#[trigger] l1.sections@[s].symbols@[k].instructions@[t]).diff_kind
                == ObjInsDiffKind::Delete,
{
    let name = l0.sections@[s].symbols@[k].name@;
    let after = l1.sections@[s].symbols@[k];
    assert(left_result(config, l0.sections@, r0.sections@, s, l1.sections@[s]));
    assert(code_left_result(config, l0.sections@, r0.sections@, s, k, after));
    lemma_resolve_from(r0.sections@, name, 0);
    match resolve_from(r0.sections@, name, 0) {
        Some((rs, rk)) => {
            assert(is_code_symbol(r0.sections@, rs, rk, name));
        },
        None => {},
    }
    assert forall|t: int| 0 <= t < after.instructions@.len() implies (
    #[trigger] after.instructions@[t]).diff_kind == ObjInsDiffKind::Delete by {
        assert(diff_kinds(after.instructions@)[t] == ObjInsDiffKind::Delete);
    }
}

/// After a pass over both images, cross-references are mutual: a left code
/// symbol that has a counterpart names it, and the counterpart names a
/// symbol of the same name back; a left code symbol without a counterpart
/// names nothing.
pub proof fn lemma_cross_reference(
    config: DiffObjConfig,
    l0: ObjInfo,
    r0: ObjInfo,
    l1: ObjInfo,
    r1: ObjInfo,
    s: int,
    k: int,
)
    requires
        images_diffed(config, l0, r0, l1, r1),
        0 <= s < l0.sections@.len(),
        l0.sections@[s].kind == ObjSectionKind::Code,
        0 <= k < l0.sections@[s].symbols@.len(),
    ensures
        match resolve_from(r0.sections@, l0.sections@[s].symbols@[k].name@, 0) {
            Some((rs, rk)) => {
                &&& 0 <= rs < r1.sections@.len()
                &&& 0 <= rk < r1.sections@[rs].symbols@.len()
                &&& l1.sections@[s].symbols@[k].diff_symbol matches Some(there)
                &&& there@ == r0.sections@[rs].symbols@[rk].name@
                &&& r1.sections@[rs].symbols@[rk].diff_symbol matches Some(back)
                &&& back@ == l0.sections@[s].symbols@[k].name@
            },
            None => l1.sections@[s].symbols@[k].diff_symbol is None,
        },
{
    let name = l0.sections@[s].symbols@[k].name@;
    let after = l1.sections@[s].symbols@[k];
    assert(left_result(config, l0.sections@, r0.sections@, s, l1.sections@[s]));
    assert(code_left_result(config, l0.sections@, r0.sections@, s, k, after));
    lemma_resolve_from(r0.sections@, name, 0);
    match resolve_from(r0.sections@, name, 0) {
        Some((rs, rk)) => {
            assert(is_code_symbol(r0.sections@, rs, rk, name));
            assert(right_result(config, l0.sections@, r0.sections@, rs, r1.sections@[rs]));
            assert(code_right_result(
                config,
                l0.sections@,
                r0.sections@,
                rs,
                rk,
                r1.sections@[rs].symbols@[rk],
            ));
            lemma_last_in_sections(l0.sections@, name, l0.sections@.len() as int);
            match last_in_sections(l0.sections@, name, l0.sections@.len() as int) {
                Some((ls, lk)) => {
                    assert(is_code_symbol(l0.sections@, ls, lk, name));
                },
                None => {
                    assert(is_code_symbol(l0.sections@, s, k, name));
                },
            }
        },
        None => {},
    }
}

/// The pairing of two lists of uninitialized symbols only annotates them.
proof fn lemma_bss_annotated(l0: Seq<ObjSymbol>, r0: Seq<ObjSymbol>, l1: Seq<ObjSymbol>, r1: Seq<ObjSymbol>)
    requires
        bss_diffed(l0, r0, l1, r1),
    ensures
        symbols_annotated(l0, l1),
        symbols_annotated(r0, r1),
{
    assert forall|k: int| 0 <= k < l0.len() implies symbol_annotated(l0[k], #[trigger] l1[k]) by {
        assert(bss_left_result(l0, r0, k, l1[k]));
    }
    assert forall|k: int| 0 <= k < r0.len() implies symbol_annotated(r0[k], #[trigger] r1[k]) by {
        assert(bss_right_result(l0, r0, k, r1[k]));
    }
}

/// A section that holds the result of a pass is the section it was, annotated.
proof fn lemma_result_annotated(
    config: DiffObjConfig,
    l0: Seq<ObjSection>,
    r0: Seq<ObjSection>,
    s: int,
    after: ObjSection,
    left: bool,
)
    requires
        if left {
            0 <= s < l0.len() && left_result(config, l0, r0, s, after)
        } else {
            0 <= s < r0.len() && right_result(config, l0, r0, s, after)
        },
    ensures
        section_annotated(
            if left {
                l0[s]
            } else {
                r0[s]
            },
            after,
        ),
{
    let before = if left {
        l0[s]
    } else {
        r0[s]
    };
    if before.kind == ObjSectionKind::Code {
        assert forall|k: int| 0 <= k < before.symbols@.len() implies symbol_annotated(
            before.symbols@[k],
            #[trigger] after.symbols@[k],
        ) by {
            if left {
                assert(code_left_result(config, l0, r0, s, k, after.symbols@[k]));
            } else {
                assert(code_right_result(config, l0, r0, s, k, after.symbols@[k]));
            }
        }
    } else {
        if left {
            lemma_left_result_touched(config, l0, r0, s, after);
        } else {
            lemma_right_result_touched(config, l0, r0, s, after);
        }
        assert forall|k: int| 0 <= k < before.symbols@.len() implies symbol_annotated(
            before.symbols@[k],
            #[trigger] after.symbols@[k],
        ) by {
            if before.kind == ObjSectionKind::Bss {
                assert(pairing_changed(before.symbols@[k], after.symbols@[k]));
            }
        }
    }
}

/// A pass over both images never adds, removes or moves a section, a symbol
/// or an instruction: each image is the image it was, annotated.
pub proof fn lemma_pass_only_annotates(
    config: DiffObjConfig,
    l0: ObjInfo,
    r0: ObjInfo,
    l1: ObjInfo,
    r1: ObjInfo,
)
    requires
        images_diffed(config, l0, r0, l1, r1),
    ensures
        image_annotated(l0, l1),
        image_annotated(r0, r1),
{
    assert forall|s: int| 0 <= s < l0.sections@.len() implies section_annotated(
        l0.sections@[s],
        #[trigger] l1.sections@[s],
    ) by {
        lemma_result_annotated(config, l0.sections@, r0.sections@, s, l1.sections@[s], true);
    }
    assert forall|s: int| 0 <= s < r0.sections@.len() implies section_annotated(
        r0.sections@[s],
        #[trigger] r1.sections@[s],
    ) by {
        lemma_result_annotated(config, l0.sections@, r0.sections@, s, r1.sections@[s], false);
    }
    lemma_bss_annotated(l0.common@, r0.common@, l1.common@, r1.common@);
}

/// A pass over a single image only annotates it.
pub proof fn lemma_alone_only_annotates(o0: ObjInfo, o1: ObjInfo, side: DiffSide)
    requires
        image_alone(o0, o1, side),
    ensures
        image_annotated(o0, o1),
{
    assert forall|s: int| 0 <= s < o0.sections@.len() implies section_annotated(
        o0.sections@[s],
        #[trigger] o1.sections@[s],
    ) by {
        let before = o0.sections@[s];
        let after = o1.sections@[s];
        assert(alone_result(before, after, side));
        if before.kind == ObjSectionKind::Bss {
            assert forall|k: int| 0 <= k < before.symbols@.len() implies symbol_annotated(
                before.symbols@[k],
                #[trigger] after.symbols@[k],
            ) by {
                assert(bss_one_sided(before.symbols@[k], after.symbols@[k]));
            }
        }
    }
    assert forall|k: int| 0 <= k < o0.common@.len() implies symbol_annotated(
        o0.common@[k],
        #[trigger] o1.common@[k],
    ) by {
        assert(bss_one_sided(o0.common@[k], o1.common@[k]));
    }
}

/// After a pass over both images the match score of every code symbol,
/// left or right, lies between zero and `SCORE_FULL`.
pub proof fn lemma_scores_in_range(
    config: DiffObjConfig,
    l0: ObjInfo,
    r0: ObjInfo,
    l1: ObjInfo,
    r1: ObjInfo,
    s: int,
    k: int,
)
    requires
        images_diffed(config, l0, r0, l1, r1),
    ensures
        0 <= s < l0.sections@.len() && l0.sections@[s].kind == ObjSectionKind::Code && 0 <= k
            < l0.sections@[s].symbols@.len() ==> l1.sections@[s].symbols@[k].match_score
            <= SCORE_FULL,
        0 <= s < r0.sections@.len() && r0.sections@[s].kind == ObjSectionKind::Code && 0 <= k
            < r0.sections@[s].symbols@.len() ==> r1.sections@[s].symbols@[k].match_score
            <= SCORE_FULL,
{
    assert forall|credit: nat, m: nat, n: nat| #[trigger]
        code_score(credit, m, n) <= SCORE_FULL by {
        lemma_score_rises(credit, credit, m, n);
    }
    if 0 <= s < l0.sections@.len() && l0.sections@[s].kind == ObjSectionKind::Code && 0 <= k
        < l0.sections@[s].symbols@.len() {
        assert(left_result(config, l0.sections@, r0.sections@, s, l1.sections@[s]));
        assert(code_left_result(
            config,
            l0.sections@,
            r0.sections@,
            s,
            k,
            l1.sections@[s].symbols@[k],
        ));
    }
    if 0 <= s < r0.sections@.len() && r0.sections@[s].kind == ObjSectionKind::Code && 0 <= k
        < r0.sections@[s].symbols@.len() {
        assert(right_result(config, l0.sections@, r0.sections@, s, r1.sections@[s]));
        assert(code_right_result(
            config,
            l0.sections@,
            r0.sections@,
            s,
            k,
            r1.sections@[s].symbols@[k],
        ));
    }
}

/// After a pass over both images, the cross-reference of a right code
/// symbol is mutual: it names a counterpart exactly where it is the first
/// right code symbol of its name and the left image has a code symbol of
/// that name, and the last such left symbol names it back.
pub proof fn lemma_cross_reference_right(
    config: DiffObjConfig,
    l0: ObjInfo,
    r0: ObjInfo,
    l1: ObjInfo,
    r1: ObjInfo,
    rs: int,
    rk: int,
)
    requires
        images_diffed(config, l0, r0, l1, r1),
        0 <= rs < r0.sections@.len(),
        r0.sections@[rs].kind == ObjSectionKind::Code,
        0 <= rk < r0.sections@[rs].symbols@.len(),
    ensures
        ({
            let name = r0.sections@[rs].symbols@[rk].name@;
            let last = last_in_sections(l0.sections@, name, l0.sections@.len() as int);
            if resolve_from(r0.sections@, name, 0) == Some((rs, rk)) && last is Some {
                let (s, k) = last.unwrap();
                &&& is_code_symbol(l0.sections@, s, k, name)
                &&& l1.sections@[s].symbols@.len() == l0.sections@[s].symbols@.len()
                &&& r1.sections@[rs].symbols@[rk].diff_symbol matches Some(there)
                &&& there@ == name
                &&& l1.sections@[s].symbols@[k].diff_symbol matches Some(back)
                &&& back@ == name
            } else {
                r1.sections@[rs].symbols@[rk].diff_symbol is None
            }
        }),
{
    let l0s = l0.sections@;
    let r0s = r0.sections@;
    let name = r0s[rs].symbols@[rk].name@;
    assert(right_result(config, l0s, r0s, rs, r1.sections@[rs]));
    assert(code_right_result(config, l0s, r0s, rs, rk, r1.sections@[rs].symbols@[rk]));
    lemma_last_in_sections(l0s, name, l0s.len() as int);
    match last_in_sections(l0s, name, l0s.len() as int) {
        Some((s, k)) => {
            assert(is_code_symbol(l0s, s, k, name));
            assert(left_result(config, l0s, r0s, s, l1.sections@[s]));
            assert(code_left_result(config, l0s, r0s, s, k, l1.sections@[s].symbols@[k]));
        },
        None => {},
    }
}

/// After a pass over both images, the cross-references of the common
/// symbols are mutual: a left common symbol whose name the right image has
/// among its common symbols names the first right common symbol of that
/// name, which names a symbol of the same name back; any other left common
/// symbol names nothing. A right common symbol names a counterpart exactly
/// where it is the first of its name and the left image has that name, and
/// the last left common symbol of that name names it back.
pub proof fn lemma_common_cross_reference(
    config: DiffObjConfig,
    l0: ObjInfo,
    r0: ObjInfo,
    l1: ObjInfo,
    r1: ObjInfo,
    i: int,
    k: int,
)
    requires
        images_diffed(config, l0, r0, l1, r1),
    ensures
        0 <= i < l0.common@.len() ==> match symbol_index(r0.common@, l0.common@[i].name@, 0) {
            Some(other) => {
                &&& 0 <= other < r0.common@.len()
                &&& l1.common@[i].diff_symbol matches Some(there)
                &&& there@ == r0.common@[other].name@
                &&& there@ == l0.common@[i].name@
                &&& r1.common@[other].diff_symbol matches Some(back)
                &&& back@ == l0.common@[i].name@
            },
            None => l1.common@[i].diff_symbol is None,
        },
        0 <= k < r0.common@.len() ==> if bss_right_has_pair(
            l0.common@,
            r0.common@,
            k,
            l0.common@.len() as int,
        ) {
            let other = last_symbol_index(
                l0.common@,
                r0.common@[k].name@,
                l0.common@.len() as int,
            ).unwrap();
            &&& 0 <= other < l0.common@.len()
            &&& r1.common@[k].diff_symbol matches Some(there)
            &&& there@ == l0.common@[other].name@
            &&& there@ == r0.common@[k].name@
            &&& l1.common@[other].diff_symbol matches Some(back)
            &&& back@ == r0.common@[k].name@
        } else {
            r1.common@[k].diff_symbol is None
        },
{
    if 0 <= i < l0.common@.len() {
        lemma_bss_left_mutual(l0.common@, r0.common@, l1.common@, r1.common@, i);
    }
    if 0 <= k < r0.common@.len() {
        lemma_bss_right_mutual(l0.common@, r0.common@, l1.common@, r1.common@, k);
    }
}

/// After a pass over both images, the cross-references of the symbols of
/// a left section of uninitialized memory are mutual. Where the section has
/// a counterpart, a symbol whose name the counterpart has names the first
/// symbol of that name there, which names a symbol of the same name back,
/// and any other symbol names nothing. Where the section has no
/// counterpart, none of its symbols names anything.
pub proof fn lemma_bss_cross_reference(
    config: DiffObjConfig,
    l0: ObjInfo,
    r0: ObjInfo,
    l1: ObjInfo,
    r1: ObjInfo,
    s: int,
    i: int,
)
    requires
        images_diffed(config, l0, r0, l1, r1),
        0 <= s < l0.sections@.len(),
        l0.sections@[s].kind == ObjSectionKind::Bss,
        0 <= i < l0.sections@[s].symbols@.len(),
    ensures
        match left_partner(l0.sections@, r0.sections@, s) {
            Some(rs) => {
                &&& 0 <= rs < r0.sections@.len()
                &&& r0.sections@[rs].kind == ObjSectionKind::Bss
                &&& r0.sections@[rs].name@ == l0.sections@[s].name@
                &&& r1.sections@[rs].symbols@.len() == r0.sections@[rs].symbols@.len()
                &&& match symbol_index(
                    r0.sections@[rs].symbols@,
                    l0.sections@[s].symbols@[i].name@,
                    0,
                ) {
                    Some(other) => {
                        &&& 0 <= other < r0.sections@[rs].symbols@.len()
                        &&& l1.sections@[s].symbols@[i].diff_symbol matches Some(there)
                        &&& there@ == l0.sections@[s].symbols@[i].name@
                        &&& there@ == r0.sections@[rs].symbols@[other].name@
                        &&& r1.sections@[rs].symbols@[other].diff_symbol matches Some(back)
                        &&& back@ == l0.sections@[s].symbols@[i].name@
                    },
                    None => l1.sections@[s].symbols@[i].diff_symbol is None,
                }
            },
            None => l1.sections@[s].symbols@[i].diff_symbol is None,
        },
{
    let l0s = l0.sections@;
    let r0s = r0.sections@;
    assert(left_result(config, l0s, r0s, s, l1.sections@[s]));
    match left_partner(l0s, r0s, s) {
        Some(rs) => {
            lemma_section_index(r0s, l0s[s].kind, l0s[s].name@, 0);
            lemma_partners(l0s, r0s, s, rs);
            assert(right_result(config, l0s, r0s, rs, r1.sections@[rs]));
            assert(bss_diffed(
                l0s[s].symbols@,
                r0s[rs].symbols@,
                l1.sections@[s].symbols@,
                r1.sections@[rs].symbols@,
            ));
            lemma_bss_left_mutual(
                l0s[s].symbols@,
                r0s[rs].symbols@,
                l1.sections@[s].symbols@,
                r1.sections@[rs].symbols@,
                i,
            );
        },
        None => {
            assert(bss_one_sided(l0s[s].symbols@[i], l1.sections@[s].symbols@[i]));
        },
    }
}

/// After a pass over both images, the cross-references of the symbols of
/// a right section of uninitialized memory are mutual. A symbol names a
/// counterpart exactly where its section has a counterpart, it is the first
/// symbol of its name in its section and the counterpart has that name;
/// the last symbol of that name there names it back.
pub proof fn lemma_bss_cross_reference_right(
    config: DiffObjConfig,
    l0: ObjInfo,
    r0: ObjInfo,
    l1: ObjInfo,
    r1: ObjInfo,
    rs: int,
    k: int,
)
    requires
        images_diffed(config, l0, r0, l1, r1),
        0 <= rs < r0.sections@.len(),
        r0.sections@[rs].kind == ObjSectionKind::Bss,
        0 <= k < r0.sections@[rs].symbols@.len(),
    ensures
        match right_partner(l0.sections@, r0.sections@, rs, l0.sections@.len() as int) {
            Some(s) => {
                &&& 0 <= s < l0.sections@.len()
                &&& left_partner(l0.sections@, r0.sections@, s) == Some(rs)
                &&& l1.sections@[s].symbols@.len() == l0.sections@[s].symbols@.len()
                &&& if bss_right_has_pair(
                    l0.sections@[s].symbols@,
                    r0.sections@[rs].symbols@,
                    k,
                    l0.sections@[s].symbols@.len() as int,
                ) {
                    let other = last_symbol_index(
                        l0.sections@[s].symbols@,
                        r0.sections@[rs].symbols@[k].name@,
                        l0.sections@[s].symbols@.len() as int,
                    ).unwrap();
                    &&& 0 <= other < l0.sections@[s].symbols@.len()
                    &&& r1.sections@[rs].symbols@[k].diff_symbol matches Some(there)
                    &&& there@ == r0.sections@[rs].symbols@[k].name@
                    &&& there@ == l0.sections@[s].symbols@[other].name@
                    &&& l1.sections@[s].symbols@[other].diff_symbol matches Some(back)
                    &&& back@ == r0.sections@[rs].symbols@[k].name@
                } else {
                    r1.sections@[rs].symbols@[k].diff_symbol is None
                }
            },
            None => r1.sections@[rs].symbols@[k].diff_symbol is None,
        },
{
    let l0s = l0.sections@;
    let r0s = r0.sections@;
    assert(right_result(config, l0s, r0s, rs, r1.sections@[rs]));
    match right_partner(l0s, r0s, rs, l0s.len() as int) {
        Some(s) => {
            lemma_section_index(l0s, r0s[rs].kind, r0s[rs].name@, 0);
            lemma_partners(l0s, r0s, s, rs);
            assert(left_result(config, l0s, r0s, s, l1.sections@[s]));
            assert(bss_diffed(
                l0s[s].symbols@,
                r0s[rs].symbols@,
                l1.sections@[s].symbols@,
                r1.sections@[rs].symbols@,
            ));
            lemma_bss_right_mutual(
                l0s[s].symbols@,
                r0s[rs].symbols@,
                l1.sections@[s].symbols@,
                r1.sections@[rs].symbols@,
                k,
            );
        },
        None => {
            assert(bss_one_sided(r0s[rs].symbols@[k], r1.sections@[rs].symbols@[k]));
        },
    }
}

/// After a pass over a single image no symbol of it names a counterpart:
/// no code symbol, no symbol of a section of uninitialized memory, and no
/// common symbol.
pub proof fn lemma_alone_no_reference(o0: ObjInfo, o1: ObjInfo, side: DiffSide, s: int, k: int)
    requires
        image_alone(o0, o1, side),
    ensures
        0 <= s < o0.sections@.len() && (o0.sections@[s].kind == ObjSectionKind::Code
            || o0.sections@[s].kind == ObjSectionKind::Bss) && 0 <= k
            < o0.sections@[s].symbols@.len() ==> o1.sections@[s].symbols@[k].diff_symbol is None,
        0 <= k < o0.common@.len() ==> o1.common@[k].diff_symbol is None,
{
    if 0 <= s < o0.sections@.len() && 0 <= k < o0.sections@[s].symbols@.len() {
        assert(alone_result(o0.sections@[s], o1.sections@[s], side));
        if o0.sections@[s].kind == ObjSectionKind::Code {
            assert(unpaired(o0.sections@[s].symbols@[k], o1.sections@[s].symbols@[k], side));
        } else if o0.sections@[s].kind == ObjSectionKind::Bss {
            assert(bss_one_sided(o0.sections@[s].symbols@[k], o1.sections@[s].symbols@[k]));
        }
    }
    if 0 <= k < o0.common@.len() {
        assert(bss_one_sided(o0.common@[k], o1.common@[k]));
    }
}

} // verus!
