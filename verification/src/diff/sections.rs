//! The pass over the data sections and the sections of uninitialized memory
//! of two images: sections are paired by kind and name.

use crate::diff::code::{lemma_symbol_index, symbol_index, DiffSide};
use crate::diff::data::{
    bss_diffed, bss_left_result, bss_one_sided, bss_right_result, data_paired_left,
    data_paired_right, data_unpaired, diff_bss_symbols, diff_data, lemma_symbol_index_same_names,
    no_diff_bss, no_diff_data,
};
use crate::diff::editops::MAX_TOKENS;
use crate::diff::symbols::{sections_changed, symbols_changed};
use crate::diff::DiffObjConfig;
use crate::obj::{ObjInfo, ObjSection, ObjSectionKind, ObjSymbol};
use vstd::prelude::*;

verus! {

/// Sections of this kind are paired with the section of the same kind and
/// name on the other side.
pub open spec fn pairs_by_name(kind: ObjSectionKind) -> bool {
    kind == ObjSectionKind::Data || kind == ObjSectionKind::Bss
}

/// The index of the first section at or after `from` that is of the kind
/// `kind` and has the name `name`.
pub open spec fn section_index(
    sections: Seq<ObjSection>,
    kind: ObjSectionKind,
    name: Seq<char>,
    from: int,
) -> Option<int>
    decreases sections.len() - from,
{
    if from < 0 || from >= sections.len() {
        None
    } else if sections[from].kind == kind && sections[from].name@ == name {
        Some(from)
    } else {
        section_index(sections, kind, name, from + 1)
    }
}

/// The symbol `s1` is the symbol `s0` with nothing changed but its
/// cross-reference and its pairing state.
pub open spec fn pairing_changed(s0: ObjSymbol, s1: ObjSymbol) -> bool {
    s1 == (ObjSymbol { diff_symbol: s1.diff_symbol, pairing: s1.pairing, ..s0 })
}

/// The section `s1` is the section `s0` with nothing changed but what this
/// pass writes to a section of its kind.
pub open spec fn section_touched(s0: ObjSection, s1: ObjSection) -> bool {
    match s0.kind {
        ObjSectionKind::Data => s1 == (ObjSection { data_diff: s1.data_diff, ..s0 }),
        ObjSectionKind::Bss => symbols_changed(s0, s1) && forall|k: int|
            0 <= k < s0.symbols@.len() ==> pairing_changed(s0.symbols@[k], #[trigger] s1.symbols@[k]),
        _ => s1 == s0,
    }
}

/// What the pairing of the symbols of the sections `l0` and `r0` leaves in
/// the left section.
pub open spec fn bss_section_left(l0: ObjSection, r0: ObjSection, l1: ObjSection) -> bool {
    &&& symbols_changed(l0, l1)
    &&& forall|i: int|
        0 <= i < l0.symbols@.len() ==> bss_left_result(
            l0.symbols@,
            r0.symbols@,
            i,
            #[trigger] l1.symbols@[i],
        )
}

/// What the pairing of the symbols of the sections `l0` and `r0` leaves in
/// the right section.
pub open spec fn bss_section_right(l0: ObjSection, r0: ObjSection, r1: ObjSection) -> bool {
    &&& symbols_changed(r0, r1)
    &&& forall|k: int|
        0 <= k < r0.symbols@.len() ==> bss_right_result(
            l0.symbols@,
            r0.symbols@,
            k,
            #[trigger] r1.symbols@[k],
        )
}

/// What the pairing of the sections `l0` and `r0` leaves in the left one:
/// the data diff for data sections, the paired symbols for sections of
/// uninitialized memory.
pub open spec fn section_paired_left(
    config: DiffObjConfig,
    l0: ObjSection,
    r0: ObjSection,
    l1: ObjSection,
) -> bool {
    match l0.kind {
        ObjSectionKind::Data => data_paired_left(config.data_alg, l0, r0, l1),
        ObjSectionKind::Bss => bss_section_left(l0, r0, l1),
        _ => l1 == l0,
    }
}

/// What the pairing of the sections `l0` and `r0` leaves in the right one.
pub open spec fn section_paired_right(
    config: DiffObjConfig,
    l0: ObjSection,
    r0: ObjSection,
    r1: ObjSection,
) -> bool {
    match r0.kind {
        ObjSectionKind::Data => data_paired_right(config.data_alg, l0, r0, r1),
        ObjSectionKind::Bss => bss_section_right(l0, r0, r1),
        _ => r1 == r0,
    }
}

/// What is left in a section that has no counterpart: a data section falls
/// back, every symbol of a section of uninitialized memory is one-sided, and
/// any other section stays as it is.
pub open spec fn section_unpaired(s0: ObjSection, s1: ObjSection, side: DiffSide) -> bool {
    match s0.kind {
        ObjSectionKind::Data => data_unpaired(s0, s1, side),
        ObjSectionKind::Bss => symbols_changed(s0, s1) && forall|k: int|
            0 <= k < s0.symbols@.len() ==> bss_one_sided(s0.symbols@[k], #[trigger] s1.symbols@[k]),
        _ => s1 == s0,
    }
}

/// The right section that the left section `s` is paired with. Sections
/// are paired one to one: the first left section of a kind and name with
/// the first right section of that kind and name. A later section of the
/// same kind and name has no counterpart, on either side.
pub open spec fn left_partner(l0: Seq<ObjSection>, r0: Seq<ObjSection>, s: int) -> Option<int> {
    if pairs_by_name(l0[s].kind) && section_index(l0, l0[s].kind, l0[s].name@, 0) == Some(s) {
        section_index(r0, l0[s].kind, l0[s].name@, 0)
    } else {
        None
    }
}

/// The left section before `upto` that the right section `rs` is paired with.
pub open spec fn right_partner(l0: Seq<ObjSection>, r0: Seq<ObjSection>, rs: int, upto: int) -> Option<
    int,
> {
    if pairs_by_name(r0[rs].kind) && section_index(r0, r0[rs].kind, r0[rs].name@, 0) == Some(rs) {
        match section_index(l0, r0[rs].kind, r0[rs].name@, 0) {
            Some(first) => if first < upto {
                Some(first)
            } else {
                None
            },
            None => None,
        }
    } else {
        None
    }
}

/// The result for the left section `s`: a data section or a section of
/// uninitialized memory holds the pairing with its counterpart, and is
/// without counterpart where it has none; any other section is not touched.
pub open spec fn section_left_result(
    config: DiffObjConfig,
    l0: Seq<ObjSection>,
    r0: Seq<ObjSection>,
    s: int,
    l1: ObjSection,
) -> bool {
    match left_partner(l0, r0, s) {
        Some(rs) => section_paired_left(config, l0[s], r0[rs], l1),
        None => section_unpaired(l0[s], l1, DiffSide::Left),
    }
}

/// The state of the right section `rs` when the left sections before `upto`
/// have been handled.
pub open spec fn section_right_so_far(
    config: DiffObjConfig,
    l0: Seq<ObjSection>,
    r0: Seq<ObjSection>,
    rs: int,
    upto: int,
    r1: ObjSection,
) -> bool {
    match right_partner(l0, r0, rs, upto) {
        Some(ls) => section_paired_right(config, l0[ls], r0[rs], r1),
        None => r1 == r0[rs],
    }
}

/// The result for the right section `rs`: it holds the pairing with its
/// counterpart, and is without counterpart where it has none.
pub open spec fn section_right_result(
    config: DiffObjConfig,
    l0: Seq<ObjSection>,
    r0: Seq<ObjSection>,
    rs: int,
    r1: ObjSection,
) -> bool {
    match right_partner(l0, r0, rs, l0.len() as int) {
        Some(ls) => section_paired_right(config, l0[ls], r0[rs], r1),
        None => section_unpaired(r0[rs], r1, DiffSide::Right),
    }
}

/// The left data section `s` and its counterpart, if it has one, are within
/// the limit of the alignment.
pub open spec fn section_fits(l0: Seq<ObjSection>, r0: Seq<ObjSection>, s: int) -> bool {
    match left_partner(l0, r0, s) {
        Some(rs) => l0[s].data@.len() <= MAX_TOKENS && r0[rs].data@.len() <= MAX_TOKENS,
        None => true,
    }
}

/// Every pair of data sections that the pass will diff is within the limit
/// of the alignment.
pub open spec fn data_fits(l0: Seq<ObjSection>, r0: Seq<ObjSection>) -> bool {
    forall|s: int|
        0 <= s < l0.len() && l0[s].kind == ObjSectionKind::Data ==> #[trigger] section_fits(l0, r0, s)
}

/// The state of both images when the left sections before `s` have been
/// handled.
pub open spec fn section_pass_at(
    config: DiffObjConfig,
    l0: ObjInfo,
    r0: ObjInfo,
    s: int,
    l: ObjInfo,
    r: ObjInfo,
) -> bool {
    &&& sections_changed(l0, l)
    &&& sections_changed(r0, r)
    &&& forall|s2: int|
        0 <= s2 < l0.sections@.len() ==> if s2 < s {
            section_left_result(config, l0.sections@, r0.sections@, s2, #[trigger] l.sections@[s2])
        } else {
            l.sections@[s2] == l0.sections@[s2]
        }
    &&& forall|rs: int|
        0 <= rs < r0.sections@.len() ==> section_right_so_far(
            config,
            l0.sections@,
            r0.sections@,
            rs,
            s,
            #[trigger] r.sections@[rs],
        )
}

/// The state of the right image when the right sections before `upto` have
/// been swept.
pub open spec fn section_sweep_at(
    config: DiffObjConfig,
    l0: ObjInfo,
    r0: ObjInfo,
    upto: int,
    r: ObjInfo,
) -> bool {
    &&& sections_changed(r0, r)
    &&& forall|rs: int|
        0 <= rs < r0.sections@.len() ==> if rs < upto {
            section_right_result(config, l0.sections@, r0.sections@, rs, #[trigger] r.sections@[rs])
        } else {
            section_right_so_far(
                config,
                l0.sections@,
                r0.sections@,
                rs,
                l0.sections@.len() as int,
                #[trigger] r.sections@[rs],
            )
        }
}

/// What the pass over the sections leaves in the two images: the data
/// sections and the sections of uninitialized memory of both sides hold
/// their results, and nothing else has changed.
pub open spec fn sections_diffed(
    config: DiffObjConfig,
    l0: ObjInfo,
    r0: ObjInfo,
    l: ObjInfo,
    r: ObjInfo,
) -> bool {
    &&& sections_changed(l0, l)
    &&& sections_changed(r0, r)
    &&& forall|s: int|
        0 <= s < l0.sections@.len() ==> section_left_result(
            config,
            l0.sections@,
            r0.sections@,
            s,
            #[trigger] l.sections@[s],
        )
    &&& forall|rs: int|
        0 <= rs < r0.sections@.len() ==> section_right_result(
            config,
            l0.sections@,
            r0.sections@,
            rs,
            #[trigger] r.sections@[rs],
        )
}

/// The index that is found holds the kind and the name, and no index
/// before it does.
pub proof fn lemma_section_index(
    sections: Seq<ObjSection>,
    kind: ObjSectionKind,
    name: Seq<char>,
    from: int,
)
    requires
        0 <= from,
    ensures
        match section_index(sections, kind, name, from) {
            Some(s) => from <= s < sections.len() && sections[s].kind == kind && sections[s].name@
                == name,
            None => forall|s: int|
                from <= s < sections.len() ==> !((#[trigger] sections[s]).kind == kind
                    && sections[s].name@ == name),
        },
    decreases sections.len() - from,
{
    if from < sections.len() && !(sections[from].kind == kind && sections[from].name@ == name) {
        lemma_section_index(sections, kind, name, from + 1);
    }
}

/// Two lists of sections that agree in kinds and names give the same index.
pub proof fn lemma_section_index_same_names(
    a: Seq<ObjSection>,
    b: Seq<ObjSection>,
    kind: ObjSectionKind,
    name: Seq<char>,
    from: int,
)
    requires
        a.len() == b.len(),
        forall|s: int|
            0 <= s < a.len() ==> (#[trigger] a[s]).kind == b[s].kind && a[s].name@ == b[s].name@,
    ensures
        section_index(a, kind, name, from) == section_index(b, kind, name, from),
    decreases a.len() - from,
{
    if 0 <= from < a.len() {
        assert(a[from].kind == b[from].kind && a[from].name@ == b[from].name@);
        lemma_section_index_same_names(a, b, kind, name, from + 1);
    }
}

/// Pairs are mutual: the left section `s` is paired with the right section
/// `rs` exactly where `rs` is paired with `s`, and the two are of one kind
/// and name.
pub proof fn lemma_partners(l0: Seq<ObjSection>, r0: Seq<ObjSection>, s: int, rs: int)
    requires
        0 <= s < l0.len(),
        0 <= rs < r0.len(),
    ensures
        left_partner(l0, r0, s) == Some(rs) <==> right_partner(l0, r0, rs, l0.len() as int) == Some(
            s,
        ),
        left_partner(l0, r0, s) == Some(rs) ==> l0[s].kind == r0[rs].kind && l0[s].name@
            == r0[rs].name@ && pairs_by_name(l0[s].kind),
        left_partner(l0, r0, s) matches Some(other) ==> 0 <= other < r0.len(),
        right_partner(l0, r0, rs, l0.len() as int) matches Some(other) ==> 0 <= other < l0.len(),
{
    lemma_section_index(r0, l0[s].kind, l0[s].name@, 0);
    lemma_section_index(l0, l0[s].kind, l0[s].name@, 0);
    lemma_section_index(l0, r0[rs].kind, r0[rs].name@, 0);
    lemma_section_index(r0, r0[rs].kind, r0[rs].name@, 0);
}

/// The pairing of two lists of uninitialized symbols comes out the same
/// when the right list has been paired before.
pub proof fn lemma_bss_rebase(
    l0: Seq<ObjSymbol>,
    r0: Seq<ObjSymbol>,
    rc: Seq<ObjSymbol>,
    l1: Seq<ObjSymbol>,
    r1: Seq<ObjSymbol>,
)
    requires
        rc.len() == r0.len(),
        forall|k: int| 0 <= k < r0.len() ==> pairing_changed(r0[k], #[trigger] rc[k]),
        bss_diffed(l0, rc, l1, r1),
    ensures
        bss_diffed(l0, r0, l1, r1),
{
    assert forall|k: int| 0 <= k < rc.len() implies (#[trigger] rc[k]).name@ == r0[k].name@ by {
        assert(pairing_changed(r0[k], rc[k]));
    }
    assert forall|i: int| 0 <= i < l0.len() implies bss_left_result(l0, r0, i, #[trigger] l1[i]) by {
        assert(bss_left_result(l0, rc, i, l1[i]));
        lemma_symbol_index_same_names(rc, r0, l0[i].name@, 0);
        match symbol_index(r0, l0[i].name@, 0) {
            Some(k) => {
                lemma_symbol_index(r0, l0[i].name@, 0);
                assert(pairing_changed(r0[k], rc[k]));
            },
            None => {},
        }
    }
    assert forall|k: int| 0 <= k < r0.len() implies bss_right_result(l0, r0, k, #[trigger] r1[k]) by {
        assert(bss_right_result(l0, rc, k, r1[k]));
        assert(pairing_changed(r0[k], rc[k]));
        lemma_symbol_index_same_names(rc, r0, r0[k].name@, 0);
    }
}

/// The pairing of two sections comes out the same when the right section
/// has been paired before.
pub proof fn lemma_section_rebase(
    config: DiffObjConfig,
    l: ObjSection,
    r0: ObjSection,
    rc: ObjSection,
    l1: ObjSection,
    r1: ObjSection,
)
    requires
        l.kind == r0.kind,
        section_touched(r0, rc),
        section_paired_left(config, l, rc, l1),
        section_paired_right(config, l, rc, r1),
    ensures
        section_paired_left(config, l, r0, l1),
        section_paired_right(config, l, r0, r1),
        section_touched(r0, r1),
{
    if r0.kind == ObjSectionKind::Bss {
        assert(bss_diffed(l.symbols@, rc.symbols@, l1.symbols@, r1.symbols@));
        lemma_bss_rebase(l.symbols@, r0.symbols@, rc.symbols@, l1.symbols@, r1.symbols@);
        assert forall|k: int| 0 <= k < r0.symbols@.len() implies pairing_changed(
            r0.symbols@[k],
            #[trigger] r1.symbols@[k],
        ) by {
            assert(bss_right_result(l.symbols@, r0.symbols@, k, r1.symbols@[k]));
        }
    }
}

/// A section that holds a result of this pass is the section it was but for
/// what the pass writes.
pub proof fn lemma_results_touched(
    config: DiffObjConfig,
    l0: ObjSection,
    r0: ObjSection,
    l1: ObjSection,
    r1: ObjSection,
    side: DiffSide,
)
    ensures
        l0.kind == r0.kind && section_paired_left(config, l0, r0, l1) ==> section_touched(l0, l1),
        l0.kind == r0.kind && section_paired_right(config, l0, r0, r1) ==> section_touched(r0, r1),
        section_unpaired(l0, l1, side) ==> section_touched(l0, l1),
{
    if l0.kind == r0.kind && section_paired_left(config, l0, r0, l1) && l0.kind
        == ObjSectionKind::Bss {
        assert forall|k: int| 0 <= k < l0.symbols@.len() implies pairing_changed(
            l0.symbols@[k],
            #[trigger] l1.symbols@[k],
        ) by {
            assert(bss_left_result(l0.symbols@, r0.symbols@, k, l1.symbols@[k]));
        }
    }
    if l0.kind == r0.kind && section_paired_right(config, l0, r0, r1) && r0.kind
        == ObjSectionKind::Bss {
        assert forall|k: int| 0 <= k < r0.symbols@.len() implies pairing_changed(
            r0.symbols@[k],
            #[trigger] r1.symbols@[k],
        ) by {
            assert(bss_right_result(l0.symbols@, r0.symbols@, k, r1.symbols@[k]));
        }
    }
    if section_unpaired(l0, l1, side) && l0.kind == ObjSectionKind::Bss {
        assert forall|k: int| 0 <= k < l0.symbols@.len() implies pairing_changed(
            l0.symbols@[k],
            #[trigger] l1.symbols@[k],
        ) by {
            assert(bss_one_sided(l0.symbols@[k], l1.symbols@[k]));
        }
    }
}

/// A left section that holds its result is the section it was but for what
/// the pass writes: kind, name, bytes and the number of symbols are kept.
pub proof fn lemma_left_result_touched(
    config: DiffObjConfig,
    l0: Seq<ObjSection>,
    r0: Seq<ObjSection>,
    s: int,
    l1: ObjSection,
)
    requires
        0 <= s < l0.len(),
        section_left_result(config, l0, r0, s, l1),
    ensures
        section_touched(l0[s], l1),
        l1.kind == l0[s].kind,
        l1.name == l0[s].name,
        l1.data == l0[s].data,
        l1.symbols@.len() == l0[s].symbols@.len(),
{
    match left_partner(l0, r0, s) {
        Some(rs) => {
            lemma_section_index(r0, l0[s].kind, l0[s].name@, 0);
            lemma_results_touched(config, l0[s], r0[rs], l1, r0[rs], DiffSide::Left);
        },
        None => {
            lemma_results_touched(config, l0[s], l0[s], l1, l0[s], DiffSide::Left);
        },
    }
}

/// A right section that holds its result is the section it was but for what
/// the pass writes.
pub proof fn lemma_right_result_touched(
    config: DiffObjConfig,
    l0: Seq<ObjSection>,
    r0: Seq<ObjSection>,
    rs: int,
    r1: ObjSection,
)
    requires
        0 <= rs < r0.len(),
        section_right_result(config, l0, r0, rs, r1),
    ensures
        section_touched(r0[rs], r1),
        r1.kind == r0[rs].kind,
        r1.name == r0[rs].name,
        r1.data == r0[rs].data,
        r1.symbols@.len() == r0[rs].symbols@.len(),
{
    match right_partner(l0, r0, rs, l0.len() as int) {
        Some(ls) => {
            lemma_section_index(l0, r0[rs].kind, r0[rs].name@, 0);
            lemma_results_touched(config, l0[ls], r0[rs], l0[ls], r1, DiffSide::Right);
        },
        None => {
            lemma_results_touched(config, r0[rs], r0[rs], r1, r0[rs], DiffSide::Right);
        },
    }
}

/// During the pass every section of the right image is the section it was
/// but for what the pass writes.
proof fn lemma_right_touched(
    config: DiffObjConfig,
    l0: Seq<ObjSection>,
    r0: Seq<ObjSection>,
    rs: int,
    upto: int,
    cur: ObjSection,
)
    requires
        0 <= rs < r0.len(),
        upto <= l0.len(),
        section_right_so_far(config, l0, r0, rs, upto, cur),
    ensures
        section_touched(r0[rs], cur),
        cur.kind == r0[rs].kind,
        cur.name == r0[rs].name,
        cur.data == r0[rs].data,
{
    match right_partner(l0, r0, rs, upto) {
        Some(ls) => {
            lemma_section_index(l0, r0[rs].kind, r0[rs].name@, 0);
            lemma_results_touched(config, l0[ls], r0[rs], l0[ls], cur, DiffSide::Right);
        },
        None => {},
    }
}

/// Handling the left section `s` leaves the right section `rs` as the state
/// for `s + 1` asks, where the one right section that the left section is
/// paired with, if any, holds the new pairing.
proof fn lemma_section_right_step(
    config: DiffObjConfig,
    l0: Seq<ObjSection>,
    r0: Seq<ObjSection>,
    s: int,
    rs: int,
    old_sec: ObjSection,
    new_sec: ObjSection,
)
    requires
        0 <= s < l0.len(),
        0 <= rs < r0.len(),
        section_right_so_far(config, l0, r0, rs, s, old_sec),
        left_partner(l0, r0, s) == Some(rs) ==> section_paired_right(
            config,
            l0[s],
            r0[rs],
            new_sec,
        ),
        left_partner(l0, r0, s) != Some(rs) ==> new_sec == old_sec,
    ensures
        section_right_so_far(config, l0, r0, rs, s + 1, new_sec),
{
    lemma_partners(l0, r0, s, rs);
    lemma_section_index(l0, r0[rs].kind, r0[rs].name@, 0);
}

fn find_section(sections: &Vec<ObjSection>, kind: ObjSectionKind, name: &String) -> (r: Option<usize>)
    ensures
        match r {
            Some(s) => section_index(sections@, kind, name@, 0) == Some(s as int),
            None => section_index(sections@, kind, name@, 0) is None,
        },
{
    let mut s: usize = 0;
    while s < sections.len()
        invariant
            s <= sections.len(),
            section_index(sections@, kind, name@, 0) == section_index(sections@, kind, name@, s as int),
        decreases sections.len() - s,
    {
        if sections[s].kind == kind && sections[s].name == *name {
            return Some(s);
        }
        s = s + 1;
    }
    None
}

/// Pairs two sections of one kind: two data sections are diffed, the symbols
/// of two sections of uninitialized memory are paired.
fn pair_sections(config: &DiffObjConfig, left: &mut ObjSection, right: &mut ObjSection)
    requires
        old(left).kind == old(right).kind,
        pairs_by_name(old(left).kind),
        old(left).kind == ObjSectionKind::Data ==> old(left).data@.len() <= MAX_TOKENS && old(
            right,
        ).data@.len() <= MAX_TOKENS,
    ensures
        section_paired_left(*config, *old(left), *old(right), *final(left)),
        section_paired_right(*config, *old(left), *old(right), *final(right)),
{
    if left.kind == ObjSectionKind::Data {
        let _ = diff_data(config.data_alg, left, right);
    } else {
        diff_bss_symbols(&mut left.symbols, &mut right.symbols);
    }
}

/// Lets a section without a counterpart fall back: the data of a data
/// section is one-sided, and so is every symbol of a section of
/// uninitialized memory.
fn fallback_section(section: &mut ObjSection, side: DiffSide)
    ensures
        section_unpaired(*old(section), *final(section), side),
{
    if section.kind == ObjSectionKind::Data {
        no_diff_data(section, side);
    } else if section.kind == ObjSectionKind::Bss {
        no_diff_bss(&mut section.symbols);
    }
}

/// Handles every left section, in order.
fn diff_left_sections(config: &DiffObjConfig, left: &mut ObjInfo, right: &mut ObjInfo)
    requires
        data_fits(old(left).sections@, old(right).sections@),
    ensures
        section_pass_at(
            *config,
            *old(left),
            *old(right),
            old(left).sections@.len() as int,
            *final(left),
            *final(right),
        ),
{
    let ghost l0 = *left;
    let ghost r0 = *right;
    let count = left.sections.len();
    let mut s: usize = 0;
    proof {
        assert forall|rs: int| 0 <= rs < r0.sections@.len() implies section_right_so_far(
            *config,
            l0.sections@,
            r0.sections@,
            rs,
            0,
            #[trigger] right.sections@[rs],
        ) by {
            lemma_section_index(l0.sections@, r0.sections@[rs].kind, r0.sections@[rs].name@, 0);
        }
    }
    while s < count
        invariant
            s <= count,
            count == l0.sections@.len(),
            data_fits(l0.sections@, r0.sections@),
            section_pass_at(*config, l0, r0, s as int, *left, *right),
        decreases count - s,
    {
        let ghost l_before = *left;
        let ghost r_before = *right;
        let ghost name = l0.sections@[s as int].name@;
        let kind = left.sections[s].kind;
        let ghost hit = left_partner(l0.sections@, r0.sections@, s as int);
        proof {
            assert(left.sections@[s as int] == l0.sections@[s as int]);
            assert forall|rs: int| 0 <= rs < r0.sections@.len() implies (
            #[trigger] right.sections@[rs]).kind == r0.sections@[rs].kind && right.sections@[rs].name@
                == r0.sections@[rs].name@ by {
                assert(section_right_so_far(
                    *config,
                    l0.sections@,
                    r0.sections@,
                    rs,
                    s as int,
                    right.sections@[rs],
                ));
                lemma_right_touched(
                    *config,
                    l0.sections@,
                    r0.sections@,
                    rs,
                    s as int,
                    right.sections@[rs],
                );
            }
            assert forall|t: int| 0 <= t < l0.sections@.len() implies (
            #[trigger] left.sections@[t]).kind == l0.sections@[t].kind && left.sections@[t].name@
                == l0.sections@[t].name@ by {
                if t < s {
                    assert(section_left_result(
                        *config,
                        l0.sections@,
                        r0.sections@,
                        t,
                        left.sections@[t],
                    ));
                    lemma_left_result_touched(
                        *config,
                        l0.sections@,
                        r0.sections@,
                        t,
                        left.sections@[t],
                    );
                }
            }
            lemma_section_index_same_names(right.sections@, r0.sections@, kind, name, 0);
            lemma_section_index_same_names(left.sections@, l0.sections@, kind, name, 0);
            lemma_section_index(r0.sections@, kind, name, 0);
        }
        if kind == ObjSectionKind::Data || kind == ObjSectionKind::Bss {
            let is_first = match find_section(&left.sections, kind, &left.sections[s].name) {
                Some(first) => first == s,
                None => false,
            };
            let found = if is_first {
                find_section(&right.sections, kind, &left.sections[s].name)
            } else {
                None
            };
            match found {
                Some(rs) => {
                    proof {
                        assert(hit == Some(rs as int));
                        assert(section_right_so_far(
                            *config,
                            l0.sections@,
                            r0.sections@,
                            rs as int,
                            s as int,
                            right.sections@[rs as int],
                        ));
                        lemma_right_touched(
                            *config,
                            l0.sections@,
                            r0.sections@,
                            rs as int,
                            s as int,
                            right.sections@[rs as int],
                        );
                        if kind == ObjSectionKind::Data {
                            assert(section_fits(l0.sections@, r0.sections@, s as int));
                        }
                    }
                    pair_sections(config, &mut left.sections[s], &mut right.sections[rs]);
                    proof {
                        lemma_section_rebase(
                            *config,
                            l0.sections@[s as int],
                            r0.sections@[rs as int],
                            r_before.sections@[rs as int],
                            left.sections@[s as int],
                            right.sections@[rs as int],
                        );
                    }
                },
                None => {
                    proof {
                        assert(hit is None);
                    }
                    fallback_section(&mut left.sections[s], DiffSide::Left);
                },
            }
        }
        proof {
            assert forall|s2: int| 0 <= s2 < l0.sections@.len() implies if s2 < s + 1 {
                section_left_result(
                    *config,
                    l0.sections@,
                    r0.sections@,
                    s2,
                    #[trigger] left.sections@[s2],
                )
            } else {
                left.sections@[s2] == l0.sections@[s2]
            } by {
                if s2 != s {
                    assert(left.sections@[s2] == l_before.sections@[s2]);
                }
            }
            assert forall|rs: int| 0 <= rs < r0.sections@.len() implies section_right_so_far(
                *config,
                l0.sections@,
                r0.sections@,
                rs,
                s + 1,
                #[trigger] right.sections@[rs],
            ) by {
                assert(section_right_so_far(
                    *config,
                    l0.sections@,
                    r0.sections@,
                    rs,
                    s as int,
                    r_before.sections@[rs],
                ));
                if hit != Some(rs) {
                    assert(right.sections@[rs] == r_before.sections@[rs]);
                }
                lemma_section_right_step(
                    *config,
                    l0.sections@,
                    r0.sections@,
                    s as int,
                    rs,
                    r_before.sections@[rs],
                    right.sections@[rs],
                );
            }
        }
        s = s + 1;
    }
}

/// Lets every right section without a counterpart fall back.
fn sweep_right_sections(
    config: &DiffObjConfig,
    left: &ObjInfo,
    right: &mut ObjInfo,
    Ghost(l0): Ghost<ObjInfo>,
    Ghost(r0): Ghost<ObjInfo>,
)
    requires
        section_pass_at(*config, l0, r0, l0.sections@.len() as int, *left, *old(right)),
    ensures
        sections_diffed(*config, l0, r0, *left, *final(right)),
{
    let ghost r_mid = *right;
    let count = right.sections.len();
    let mut rs: usize = 0;
    while rs < count
        invariant
            rs <= count,
            count == r0.sections@.len(),
            section_pass_at(*config, l0, r0, l0.sections@.len() as int, *left, r_mid),
            section_sweep_at(*config, l0, r0, rs as int, *right),
        decreases count - rs,
    {
        let ghost r_before = *right;
        let kind = right.sections[rs].kind;
        let ghost name = r0.sections@[rs as int].name@;
        proof {
            assert(section_right_so_far(
                *config,
                l0.sections@,
                r0.sections@,
                rs as int,
                l0.sections@.len() as int,
                right.sections@[rs as int],
            ));
            lemma_right_touched(
                *config,
                l0.sections@,
                r0.sections@,
                rs as int,
                l0.sections@.len() as int,
                right.sections@[rs as int],
            );
        }
        if kind == ObjSectionKind::Data || kind == ObjSectionKind::Bss {
            proof {
                assert forall|t: int| 0 <= t < r0.sections@.len() implies (
                #[trigger] right.sections@[t]).kind == r0.sections@[t].kind && right.sections@[t].name@
                    == r0.sections@[t].name@ by {
                    if t < rs {
                        assert(section_right_result(
                            *config,
                            l0.sections@,
                            r0.sections@,
                            t,
                            right.sections@[t],
                        ));
                        lemma_right_result_touched(
                            *config,
                            l0.sections@,
                            r0.sections@,
                            t,
                            right.sections@[t],
                        );
                    } else {
                        assert(section_right_so_far(
                            *config,
                            l0.sections@,
                            r0.sections@,
                            t,
                            l0.sections@.len() as int,
                            right.sections@[t],
                        ));
                        lemma_right_touched(
                            *config,
                            l0.sections@,
                            r0.sections@,
                            t,
                            l0.sections@.len() as int,
                            right.sections@[t],
                        );
                    }
                }
                assert forall|t: int| 0 <= t < l0.sections@.len() implies (
                #[trigger] left.sections@[t]).kind == l0.sections@[t].kind && left.sections@[t].name@
                    == l0.sections@[t].name@ by {
                    assert(section_left_result(
                        *config,
                        l0.sections@,
                        r0.sections@,
                        t,
                        left.sections@[t],
                    ));
                    lemma_left_result_touched(
                        *config,
                        l0.sections@,
                        r0.sections@,
                        t,
                        left.sections@[t],
                    );
                }
                lemma_section_index_same_names(right.sections@, r0.sections@, kind, name, 0);
                lemma_section_index_same_names(left.sections@, l0.sections@, kind, name, 0);
                lemma_section_index(l0.sections@, kind, name, 0);
            }
            let is_first = match find_section(&right.sections, kind, &right.sections[rs].name) {
                Some(first) => first == rs,
                None => false,
            };
            let has_left = find_section(&left.sections, kind, &right.sections[rs].name).is_some();
            if !(is_first && has_left) {
                fallback_section(&mut right.sections[rs], DiffSide::Right);
            }
        }
        proof {
            assert forall|t: int| 0 <= t < r0.sections@.len() implies if t < rs + 1 {
                section_right_result(
                    *config,
                    l0.sections@,
                    r0.sections@,
                    t,
                    #[trigger] right.sections@[t],
                )
            } else {
                section_right_so_far(
                    *config,
                    l0.sections@,
                    r0.sections@,
                    t,
                    l0.sections@.len() as int,
                    #[trigger] right.sections@[t],
                )
            } by {
                if t != rs {
                    assert(right.sections@[t] == r_before.sections@[t]);
                }
            }
        }
        rs = rs + 1;
    }
}

/// Diffs the data sections of two images and pairs the symbols of their
/// sections of uninitialized memory. Sections are paired one to one, the
/// first left section of a kind and name with the first right section of
/// that kind and name; every other such section falls back on its side.
/// Nothing else changes.
pub fn diff_sections(config: &DiffObjConfig, left: &mut ObjInfo, right: &mut ObjInfo)
    requires
        data_fits(old(left).sections@, old(right).sections@),
    ensures
        sections_diffed(*config, *old(left), *old(right), *final(left), *final(right)),
{
    let ghost l0 = *left;
    let ghost r0 = *right;
    diff_left_sections(config, left, right);
    sweep_right_sections(config, left, right, Ghost(l0), Ghost(r0));
}

/// Whether every pair of data sections that a pass over the two images
/// diffs is within the limit of the alignment.
pub fn check_data_fits(left: &ObjInfo, right: &ObjInfo) -> (ok: bool)
    ensures
        ok == data_fits(left.sections@, right.sections@),
{
    let mut s: usize = 0;
    while s < left.sections.len()
        invariant
            s <= left.sections.len(),
            forall|s2: int|
                0 <= s2 < s && left.sections@[s2].kind == ObjSectionKind::Data
                    ==> #[trigger] section_fits(left.sections@, right.sections@, s2),
        decreases left.sections.len() - s,
    {
        if left.sections[s].kind == ObjSectionKind::Data {
            proof {
                lemma_section_index(
                    right.sections@,
                    ObjSectionKind::Data,
                    left.sections@[s as int].name@,
                    0,
                );
            }
            let is_first = match find_section(
                &left.sections,
                ObjSectionKind::Data,
                &left.sections[s].name,
            ) {
                Some(first) => first == s,
                None => false,
            };
            if is_first {
                match find_section(&right.sections, ObjSectionKind::Data, &left.sections[s].name) {
                    Some(rs) => {
                        if left.sections[s].data.len() > MAX_TOKENS || right.sections[rs].data.len()
                            > MAX_TOKENS {
                            proof {
                                assert(!section_fits(left.sections@, right.sections@, s as int));
                            }
                            return false;
                        }
                    },
                    None => {},
                }
            }
            proof {
                assert(section_fits(left.sections@, right.sections@, s as int));
            }
        }
        s = s + 1;
    }
    true
}

} // verus!
