//! The data differ and the differ of uninitialized symbols.

use crate::diff::align::{diff_runs, lemma_script_aligned, script_ops};
use crate::diff::code::{find_symbol, lemma_symbol_index, symbol_index, DiffSide};
use crate::diff::editops::{
    count_kind, expand, left_len, lemma_aligns_lengths, lemma_count_concat, lemma_count_repeat,
    lemma_expand_first, repeat, right_len, rle, EditKind, EditRun, MAX_TOKENS,
};
use crate::diff::{DiffAlg, DiffError};
use crate::obj::{ObjDataDiff, ObjPairing, ObjSection, ObjSymbol};
use vstd::prelude::*;

verus! {

/// Whether a step of kind `kind` consumes a byte of the given side.
pub open spec fn takes_side(kind: EditKind, side: DiffSide) -> bool {
    match side {
        DiffSide::Left => kind.takes_left(),
        DiffSide::Right => kind.takes_right(),
    }
}

/// How many bytes of the given side the steps `ops` consume.
pub open spec fn side_len(ops: Seq<EditKind>, side: DiffSide) -> nat {
    match side {
        DiffSide::Left => left_len(ops),
        DiffSide::Right => right_len(ops),
    }
}

/// The symbol covers the byte at `offset` of its section.
pub open spec fn covers(symbol: ObjSymbol, offset: int) -> bool {
    symbol.address <= offset < symbol.address + symbol.size
}

/// The index of the first symbol at or after `from` that covers the byte at
/// `offset`.
pub open spec fn owner(symbols: Seq<ObjSymbol>, offset: int, from: int) -> Option<usize>
    decreases symbols.len() - from,
{
    if from < 0 || from >= symbols.len() {
        None
    } else if covers(symbols[from], offset) {
        Some(from as usize)
    } else {
        owner(symbols, offset, from + 1)
    }
}

/// `x` where it lies strictly between `pos` and `acc`, else `acc`.
pub open spec fn clip_cut(acc: int, pos: int, x: int) -> int {
    if pos < x < acc {
        x
    } else {
        acc
    }
}

/// The first offset behind `pos` at which a symbol at or after `from`
/// starts or ends, and `end` where there is none before it.
pub open spec fn next_cut(symbols: Seq<ObjSymbol>, pos: int, end: int, from: int) -> int
    decreases symbols.len() - from,
{
    if from < 0 || from >= symbols.len() {
        end
    } else {
        clip_cut(
            clip_cut(next_cut(symbols, pos, end, from + 1), pos, symbols[from].address as int),
            pos,
            symbols[from].address + symbols[from].size,
        )
    }
}

/// The pieces of a run over the bytes from `pos` to `end`, cut wherever a
/// symbol starts or ends, each with the symbol that covers its first byte.
pub open spec fn split_run(kind: EditKind, symbols: Seq<ObjSymbol>, pos: int, end: int) -> Seq<
    ObjDataDiff,
>
    decreases end - pos,
{
    let cut = next_cut(symbols, pos, end, 0);
    if pos >= end || cut <= pos || cut > end {
        Seq::empty()
    } else {
        seq![ObjDataDiff { kind, len: (cut - pos) as usize, symbol: owner(symbols, pos, 0) }]
            + split_run(kind, symbols, cut, end)
    }
}

/// The runs of a script as one side sees them, from offset `pos` on: a run
/// over bytes of this side is cut at the boundaries of the side's symbols, a
/// run over bytes of the other side alone is kept whole and belongs to no
/// symbol.
pub open spec fn overlay(runs: Seq<EditRun>, symbols: Seq<ObjSymbol>, side: DiffSide, pos: int) -> Seq<
    ObjDataDiff,
>
    decreases runs.len(),
{
    if runs.len() == 0 {
        Seq::empty()
    } else if takes_side(runs[0].kind, side) {
        split_run(runs[0].kind, symbols, pos, pos + runs[0].len) + overlay(
            runs.drop_first(),
            symbols,
            side,
            pos + runs[0].len,
        )
    } else {
        seq![ObjDataDiff { kind: runs[0].kind, len: runs[0].len, symbol: None }] + overlay(
            runs.drop_first(),
            symbols,
            side,
            pos,
        )
    }
}

/// The kind of a run over bytes that the other side does not have.
pub open spec fn one_sided_run_kind(side: DiffSide) -> EditKind {
    match side {
        DiffSide::Left => EditKind::Delete,
        DiffSide::Right => EditKind::Insert,
    }
}

/// The script of a section of `len` bytes that has no counterpart.
pub open spec fn one_sided_runs(len: usize, side: DiffSide) -> Seq<EditRun> {
    if len == 0 {
        Seq::empty()
    } else {
        seq![EditRun { kind: one_sided_run_kind(side), len }]
    }
}

/// What a diff of the data of the sections `l0` and `r0` leaves in the left
/// section.
pub open spec fn data_paired_left(alg: DiffAlg, l0: ObjSection, r0: ObjSection, l1: ObjSection) -> bool {
    &&& l1 == (ObjSection { data_diff: l1.data_diff, ..l0 })
    &&& l1.data_diff@ == overlay(
        rle(script_ops(alg, l0.data@, r0.data@)),
        l0.symbols@,
        DiffSide::Left,
        0,
    )
}

/// What a diff of the data of the sections `l0` and `r0` leaves in the right
/// section.
pub open spec fn data_paired_right(alg: DiffAlg, l0: ObjSection, r0: ObjSection, r1: ObjSection) -> bool {
    &&& r1 == (ObjSection { data_diff: r1.data_diff, ..r0 })
    &&& r1.data_diff@ == overlay(
        rle(script_ops(alg, l0.data@, r0.data@)),
        r0.symbols@,
        DiffSide::Right,
        0,
    )
}

/// What the fallback leaves in a data section that has no counterpart.
pub open spec fn data_unpaired(s0: ObjSection, s1: ObjSection, side: DiffSide) -> bool {
    &&& s1 == (ObjSection { data_diff: s1.data_diff, ..s0 })
    &&& s1.data_diff@ == overlay(one_sided_runs(s0.data.len(), side), s0.symbols@, side, 0)
}

/// The next cut lies behind the position and not behind the end.
pub proof fn lemma_next_cut(symbols: Seq<ObjSymbol>, pos: int, end: int, from: int)
    requires
        pos < end,
    ensures
        pos < next_cut(symbols, pos, end, from) <= end,
    decreases symbols.len() - from,
{
    if 0 <= from < symbols.len() {
        lemma_next_cut(symbols, pos, end, from + 1);
    }
}

/// The bytes that a list of runs consumes are those of its first run and
/// those of the rest.
pub proof fn lemma_side_len_first(runs: Seq<EditRun>, side: DiffSide)
    requires
        runs.len() > 0,
    ensures
        side_len(expand(runs), side) == side_len(expand(runs.drop_first()), side) + if takes_side(
            runs[0].kind,
            side,
        ) {
            runs[0].len as nat
        } else {
            0
        },
{
    lemma_expand_first(runs);
    let head = repeat(runs[0].kind, runs[0].len as nat);
    let tail = expand(runs.drop_first());
    lemma_count_concat(head, tail, EditKind::Match);
    lemma_count_concat(head, tail, EditKind::Insert);
    lemma_count_concat(head, tail, EditKind::Delete);
    lemma_count_concat(head, tail, EditKind::Replace);
    lemma_count_repeat(runs[0].kind, runs[0].len as nat, EditKind::Match);
    lemma_count_repeat(runs[0].kind, runs[0].len as nat, EditKind::Insert);
    lemma_count_repeat(runs[0].kind, runs[0].len as nat, EditKind::Delete);
    lemma_count_repeat(runs[0].kind, runs[0].len as nat, EditKind::Replace);
}

fn consumes_side(kind: EditKind, side: DiffSide) -> (r: bool)
    ensures
        r == takes_side(kind, side),
{
    match side {
        DiffSide::Left => kind.consumes_left(),
        DiffSide::Right => kind.consumes_right(),
    }
}

fn find_owner(symbols: &Vec<ObjSymbol>, offset: usize) -> (r: Option<usize>)
    ensures
        r == owner(symbols@, offset as int, 0),
{
    let mut k: usize = 0;
    while k < symbols.len()
        invariant
            k <= symbols.len(),
            owner(symbols@, offset as int, 0) == owner(symbols@, offset as int, k as int),
        decreases symbols.len() - k,
    {
        let start = symbols[k].address;
        if start <= offset as u64 && (offset as u64 - start) < symbols[k].size {
            return Some(k);
        }
        k = k + 1;
    }
    None
}

fn find_next_cut(symbols: &Vec<ObjSymbol>, pos: usize, end: usize) -> (cut: usize)
    requires
        pos < end,
    ensures
        cut == next_cut(symbols@, pos as int, end as int, 0),
        pos < cut <= end,
{
    let mut acc = end;
    let mut k = symbols.len();
    while k > 0
        invariant
            k <= symbols.len(),
            pos < end,
            acc == next_cut(symbols@, pos as int, end as int, k as int),
            pos < acc <= end,
        decreases k,
    {
        k = k - 1;
        proof {
            lemma_next_cut(symbols@, pos as int, end as int, k as int);
            lemma_next_cut(symbols@, pos as int, end as int, k + 1);
        }
        let start = symbols[k].address;
        if (pos as u64) < start && start < acc as u64 {
            acc = start as usize;
        }
        match start.checked_add(symbols[k].size) {
            Some(stop) => {
                if (pos as u64) < stop && stop < acc as u64 {
                    acc = stop as usize;
                }
            },
            None => {},
        }
    }
    acc
}

fn split_into(out: &mut Vec<ObjDataDiff>, kind: EditKind, symbols: &Vec<ObjSymbol>, pos: usize, end: usize)
    requires
        pos <= end,
    ensures
        final(out)@ == old(out)@ + split_run(kind, symbols@, pos as int, end as int),
{
    let mut at = pos;
    while at < end
        invariant
            pos <= at <= end,
            out@ + split_run(kind, symbols@, at as int, end as int) == old(out)@ + split_run(
                kind,
                symbols@,
                pos as int,
                end as int,
            ),
        decreases end - at,
    {
        let ghost before = out@;
        let ghost rest = split_run(kind, symbols@, at as int, end as int);
        let cut = find_next_cut(symbols, at, end);
        let piece = ObjDataDiff { kind, len: cut - at, symbol: find_owner(symbols, at) };
        out.push(piece);
        proof {
            assert(out@ + split_run(kind, symbols@, cut as int, end as int) =~= before + rest);
        }
        at = cut;
    }
    proof {
        assert(out@ + Seq::<ObjDataDiff>::empty() =~= out@);
    }
}

/// Lays the runs of a script over the symbols of one side.
fn overlay_runs(runs: &Vec<EditRun>, symbols: &Vec<ObjSymbol>, side: DiffSide, total: usize) -> (out:
    Vec<ObjDataDiff>)
    requires
        side_len(expand(runs@), side) == total,
    ensures
        out@ == overlay(runs@, symbols@, side, 0),
{
    let mut out: Vec<ObjDataDiff> = Vec::new();
    let mut pos: usize = 0;
    let mut k: usize = 0;
    proof {
        assert(runs@.skip(0) =~= runs@);
    }
    while k < runs.len()
        invariant
            k <= runs.len(),
            pos + side_len(expand(runs@.skip(k as int)), side) == total,
            out@ + overlay(runs@.skip(k as int), symbols@, side, pos as int) == overlay(
                runs@,
                symbols@,
                side,
                0,
            ),
        decreases runs.len() - k,
    {
        let ghost before = out@;
        let ghost rest = overlay(runs@.skip(k as int), symbols@, side, pos as int);
        let run = runs[k];
        proof {
            lemma_side_len_first(runs@.skip(k as int), side);
            assert(runs@.skip(k as int)[0] == run);
            assert(runs@.skip(k as int).drop_first() =~= runs@.skip(k + 1));
        }
        if consumes_side(run.kind, side) {
            split_into(&mut out, run.kind, symbols, pos, pos + run.len);
            pos = pos + run.len;
            proof {
                assert(out@ + overlay(runs@.skip(k + 1), symbols@, side, pos as int) =~= before
                    + rest);
            }
        } else {
            out.push(ObjDataDiff { kind: run.kind, len: run.len, symbol: None });
            proof {
                assert(out@ + overlay(runs@.skip(k + 1), symbols@, side, pos as int) =~= before
                    + rest);
            }
        }
        k = k + 1;
    }
    proof {
        assert(runs@.skip(k as int) =~= Seq::<EditRun>::empty());
        assert(out@ + Seq::<ObjDataDiff>::empty() =~= out@);
    }
    out
}

/// Aligns the bytes of two data sections with the algorithm `alg` and stores
/// on each section the script as that side sees it, cut at the boundaries of
/// the side's symbols. It fails, and changes nothing, where a section has
/// more than `MAX_TOKENS` bytes.
pub fn diff_data(alg: DiffAlg, left: &mut ObjSection, right: &mut ObjSection) -> (r: Result<
    (),
    DiffError,
>)
    ensures
        r is Err <==> old(left).data.len() > MAX_TOKENS || old(right).data.len() > MAX_TOKENS,
        r is Err ==> *final(left) == *old(left) && *final(right) == *old(right),
        r is Ok ==> data_paired_left(alg, *old(left), *old(right), *final(left)),
        r is Ok ==> data_paired_right(alg, *old(left), *old(right), *final(right)),
{
    match diff_runs(alg, left.data.as_slice(), right.data.as_slice()) {
        Err(e) => Err(e),
        Ok(runs) => {
            proof {
                let ops = script_ops(alg, left.data@, right.data@);
                lemma_script_aligned(alg, left.data@, right.data@);
                lemma_aligns_lengths(
                    ops,
                    left.data@,
                    0,
                    left.data@.len() as int,
                    right.data@,
                    0,
                    right.data@.len() as int,
                );
            }
            let left_diff = overlay_runs(&runs, &left.symbols, DiffSide::Left, left.data.len());
            let right_diff = overlay_runs(&runs, &right.symbols, DiffSide::Right, right.data.len());
            left.data_diff = left_diff;
            right.data_diff = right_diff;
            Ok(())
        },
    }
}

/// Fills in the results for a data section that has no counterpart: all of
/// its bytes form one run that is one-sided for the section's own side, cut
/// at the boundaries of its symbols.
pub fn no_diff_data(section: &mut ObjSection, side: DiffSide)
    ensures
        data_unpaired(*old(section), *final(section), side),
{
    let len = section.data.len();
    let kind = match side {
        DiffSide::Left => EditKind::Delete,
        DiffSide::Right => EditKind::Insert,
    };
    let mut runs: Vec<EditRun> = Vec::new();
    if len > 0 {
        runs.push(EditRun { kind, len });
    }
    proof {
        let none = Seq::<EditKind>::empty();
        assert(runs@ =~= one_sided_runs(len, side));
        assert(count_kind(none, EditKind::Match) == 0);
        assert(count_kind(none, EditKind::Insert) == 0);
        assert(count_kind(none, EditKind::Delete) == 0);
        assert(count_kind(none, EditKind::Replace) == 0);
        if len > 0 {
            lemma_side_len_first(runs@, side);
            assert(runs@.drop_first() =~= Seq::<EditRun>::empty());
            assert(expand(Seq::<EditRun>::empty()) =~= none);
        } else {
            assert(expand(runs@) =~= none);
        }
    }
    let diff = overlay_runs(&runs, &section.symbols, side, len);
    section.data_diff = diff;
}

/// The index of the last symbol before `upto` that has the name `name`.
pub open spec fn last_symbol_index(symbols: Seq<ObjSymbol>, name: Seq<char>, upto: int) -> Option<int>
    decreases upto,
{
    if upto <= 0 || upto > symbols.len() {
        None
    } else if symbols[upto - 1].name@ == name {
        Some(upto - 1)
    } else {
        last_symbol_index(symbols, name, upto - 1)
    }
}

/// The pairing state of an uninitialized symbol whose counterpart was found
/// by its name: the sizes decide between a match and a size mismatch.
pub open spec fn bss_pairing(own_size: u64, other_size: u64) -> ObjPairing {
    if own_size == other_size {
        ObjPairing::Matched
    } else {
        ObjPairing::SizeMismatch
    }
}

/// What the pairing with `other` leaves in the symbol `s0`.
pub open spec fn bss_paired(s0: ObjSymbol, other: ObjSymbol, s1: ObjSymbol) -> bool {
    &&& s1 == (ObjSymbol { diff_symbol: s1.diff_symbol, pairing: s1.pairing, ..s0 })
    &&& s1.diff_symbol matches Some(name) && name@ == other.name@
    &&& s1.pairing == bss_pairing(s0.size, other.size)
}

/// What is left in a symbol `s0` that has no counterpart.
pub open spec fn bss_one_sided(s0: ObjSymbol, s1: ObjSymbol) -> bool {
    &&& s1 == (ObjSymbol { diff_symbol: s1.diff_symbol, pairing: s1.pairing, ..s0 })
    &&& s1.diff_symbol is None
    &&& s1.pairing == ObjPairing::OneSided
}

/// The result for the left symbol `i`: it is paired with the first right
/// symbol of its name, whatever the sizes, and is one-sided where the right
/// side has no symbol of its name.
pub open spec fn bss_left_result(l0: Seq<ObjSymbol>, r0: Seq<ObjSymbol>, i: int, l1: ObjSymbol) -> bool {
    match symbol_index(r0, l0[i].name@, 0) {
        Some(k) => bss_paired(l0[i], r0[k], l1),
        None => bss_one_sided(l0[i], l1),
    }
}

/// The right symbol `k` has a counterpart: it is the first right symbol of
/// its name, and the left side has a symbol of that name.
pub open spec fn bss_right_has_pair(l0: Seq<ObjSymbol>, r0: Seq<ObjSymbol>, k: int, upto: int) -> bool {
    &&& symbol_index(r0, r0[k].name@, 0) == Some(k)
    &&& last_symbol_index(l0, r0[k].name@, upto) is Some
}

/// The state of the right symbol `k` when the left symbols before `upto`
/// have been paired.
pub open spec fn bss_right_so_far(
    l0: Seq<ObjSymbol>,
    r0: Seq<ObjSymbol>,
    k: int,
    upto: int,
    r1: ObjSymbol,
) -> bool {
    if bss_right_has_pair(l0, r0, k, upto) {
        bss_paired(r0[k], l0[last_symbol_index(l0, r0[k].name@, upto).unwrap()], r1)
    } else {
        r1 == r0[k]
    }
}

/// The result for the right symbol `k`: where it has a counterpart it is
/// paired with the last left symbol of its name, else it is one-sided.
pub open spec fn bss_right_result(l0: Seq<ObjSymbol>, r0: Seq<ObjSymbol>, k: int, r1: ObjSymbol) -> bool {
    if bss_right_has_pair(l0, r0, k, l0.len() as int) {
        bss_paired(r0[k], l0[last_symbol_index(l0, r0[k].name@, l0.len() as int).unwrap()], r1)
    } else {
        bss_one_sided(r0[k], r1)
    }
}

/// What the pairing of two lists of uninitialized symbols leaves in them.
pub open spec fn bss_diffed(
    l0: Seq<ObjSymbol>,
    r0: Seq<ObjSymbol>,
    l1: Seq<ObjSymbol>,
    r1: Seq<ObjSymbol>,
) -> bool {
    &&& l1.len() == l0.len()
    &&& r1.len() == r0.len()
    &&& forall|i: int| 0 <= i < l0.len() ==> bss_left_result(l0, r0, i, #[trigger] l1[i])
    &&& forall|k: int| 0 <= k < r0.len() ==> bss_right_result(l0, r0, k, #[trigger] r1[k])
}

/// The last index that is found holds the name, and no index behind it
/// does.
pub proof fn lemma_last_symbol_index(symbols: Seq<ObjSymbol>, name: Seq<char>, upto: int)
    requires
        upto <= symbols.len(),
    ensures
        match last_symbol_index(symbols, name, upto) {
            Some(k) => 0 <= k < upto && symbols[k].name@ == name && forall|t: int|
                k < t < upto ==> (#[trigger] symbols[t]).name@ != name,
            None => forall|t: int| 0 <= t < upto ==> (#[trigger] symbols[t]).name@ != name,
        },
    decreases upto,
{
    if upto > 0 && symbols[upto - 1].name@ != name {
        lemma_last_symbol_index(symbols, name, upto - 1);
    }
}

/// Two lists of symbols with the same names give the same index.
pub proof fn lemma_symbol_index_same_names(
    a: Seq<ObjSymbol>,
    b: Seq<ObjSymbol>,
    name: Seq<char>,
    from: int,
)
    requires
        a.len() == b.len(),
        forall|k: int| 0 <= k < a.len() ==> (#[trigger] a[k]).name@ == b[k].name@,
    ensures
        symbol_index(a, name, from) == symbol_index(b, name, from),
    decreases a.len() - from,
{
    if 0 <= from < a.len() {
        assert(a[from].name@ == b[from].name@);
        lemma_symbol_index_same_names(a, b, name, from + 1);
    }
}

/// Pairs the left symbols with the right ones, in order.
fn pair_bss_left(left: &mut Vec<ObjSymbol>, right: &mut Vec<ObjSymbol>)
    ensures
        final(left)@.len() == old(left)@.len(),
        final(right)@.len() == old(right)@.len(),
        forall|i: int|
            0 <= i < old(left)@.len() ==> bss_left_result(
                old(left)@,
                old(right)@,
                i,
                #[trigger] final(left)@[i],
            ),
        forall|k: int|
            0 <= k < old(right)@.len() ==> bss_right_so_far(
                old(left)@,
                old(right)@,
                k,
                old(left)@.len() as int,
                #[trigger] final(right)@[k],
            ),
{
    let ghost l0 = left@;
    let ghost r0 = right@;
    let mut i: usize = 0;
    while i < left.len()
        invariant
            i <= left.len(),
            left.len() == l0.len(),
            right.len() == r0.len(),
            forall|t: int| 0 <= t < i ==> bss_left_result(l0, r0, t, #[trigger] left@[t]),
            forall|t: int| i <= t < l0.len() ==> left@[t] == l0[t],
            forall|k: int|
                0 <= k < r0.len() ==> bss_right_so_far(l0, r0, k, i as int, #[trigger] right@[k]),
        decreases left.len() - i,
    {
        let ghost right_before = right@;
        let ghost name = l0[i as int].name@;
        proof {
            assert forall|k: int| 0 <= k < r0.len() implies (#[trigger] right@[k]).name@
                == r0[k].name@ by {
                assert(bss_right_so_far(l0, r0, k, i as int, right@[k]));
            }
            lemma_symbol_index_same_names(right@, r0, name, 0);
            lemma_symbol_index(r0, name, 0);
        }
        match find_symbol(right, &left[i].name) {
            Some(k) => {
                let pairing = if left[i].size == right[k].size {
                    ObjPairing::Matched
                } else {
                    ObjPairing::SizeMismatch
                };
                proof {
                    assert(bss_right_so_far(l0, r0, k as int, i as int, right@[k as int]));
                }
                let left_name = left[i].name.clone();
                let right_name = right[k].name.clone();
                left[i].diff_symbol = Some(right_name);
                left[i].pairing = pairing;
                right[k].diff_symbol = Some(left_name);
                right[k].pairing = pairing;
                proof {
                    assert forall|t: int| 0 <= t < r0.len() implies bss_right_so_far(
                        l0,
                        r0,
                        t,
                        i + 1,
                        #[trigger] right@[t],
                    ) by {
                        assert(bss_right_so_far(l0, r0, t, i as int, right_before[t]));
                        if t != k {
                            assert(right@[t] == right_before[t]);
                        }
                    }
                }
            },
            None => {
                left[i].diff_symbol = None;
                left[i].pairing = ObjPairing::OneSided;
                proof {
                    assert forall|t: int| 0 <= t < r0.len() implies bss_right_so_far(
                        l0,
                        r0,
                        t,
                        i + 1,
                        #[trigger] right@[t],
                    ) by {
                        assert(bss_right_so_far(l0, r0, t, i as int, right_before[t]));
                        assert(right@[t] == right_before[t]);
                    }
                }
            },
        }
        i = i + 1;
    }
}

/// Pairs two lists of symbols of uninitialized memory by identity. A symbol
/// is paired with the symbol of the same name on the other side: of several
/// right symbols of one name the first is taken, and it keeps the pairing
/// with the last left symbol of that name. The sizes do not decide who is
/// paired, only whether the pair counts as a match or as a size mismatch. A
/// symbol whose name the other side does not have is one-sided, whatever its
/// size.
pub fn diff_bss_symbols(left: &mut Vec<ObjSymbol>, right: &mut Vec<ObjSymbol>)
    ensures
        bss_diffed(old(left)@, old(right)@, final(left)@, final(right)@),
{
    let ghost l0 = left@;
    let ghost r0 = right@;
    pair_bss_left(left, right);
    let ghost r_mid = right@;
    let mut k: usize = 0;
    while k < right.len()
        invariant
            k <= right.len(),
            right.len() == r0.len(),
            left.len() == l0.len(),
            forall|i: int| 0 <= i < l0.len() ==> bss_left_result(l0, r0, i, #[trigger] left@[i]),
            forall|t: int| 0 <= t < k ==> bss_right_result(l0, r0, t, #[trigger] right@[t]),
            forall|t: int|
                k <= t < r0.len() ==> bss_right_so_far(
                    l0,
                    r0,
                    t,
                    l0.len() as int,
                    #[trigger] right@[t],
                ),
        decreases right.len() - k,
    {
        let ghost right_before = right@;
        let ghost name = r0[k as int].name@;
        proof {
            assert forall|t: int| 0 <= t < r0.len() implies (#[trigger] right@[t]).name@
                == r0[t].name@ by {
                if t < k {
                    assert(bss_right_result(l0, r0, t, right@[t]));
                } else {
                    assert(bss_right_so_far(l0, r0, t, l0.len() as int, right@[t]));
                }
            }
            assert forall|t: int| 0 <= t < l0.len() implies (#[trigger] left@[t]).name@
                == l0[t].name@ by {
                assert(bss_left_result(l0, r0, t, left@[t]));
            }
            lemma_symbol_index_same_names(right@, r0, name, 0);
            lemma_symbol_index_same_names(left@, l0, name, 0);
            lemma_symbol_index(l0, name, 0);
            lemma_last_symbol_index(l0, name, l0.len() as int);
            assert(bss_right_so_far(l0, r0, k as int, l0.len() as int, right@[k as int]));
        }
        let first = find_symbol(right, &right[k].name);
        let is_first = match first {
            Some(f) => f == k,
            None => false,
        };
        let has_left = find_symbol(left, &right[k].name).is_some();
        if !(is_first && has_left) {
            right[k].diff_symbol = None;
            right[k].pairing = ObjPairing::OneSided;
        }
        proof {
            assert forall|t: int| k < t < r0.len() implies bss_right_so_far(
                l0,
                r0,
                t,
                l0.len() as int,
                #[trigger] right@[t],
            ) by {
                assert(bss_right_so_far(l0, r0, t, l0.len() as int, right_before[t]));
                assert(right@[t] == right_before[t]);
            }
            assert forall|t: int| 0 <= t < k implies bss_right_result(
                l0,
                r0,
                t,
                #[trigger] right@[t],
            ) by {
                assert(bss_right_result(l0, r0, t, right_before[t]));
                assert(right@[t] == right_before[t]);
            }
        }
        k = k + 1;
    }
}

/// Marks every symbol of a list of uninitialized symbols that has no
/// counterpart list as one-sided: it has no cross-reference.
pub fn no_diff_bss(symbols: &mut Vec<ObjSymbol>)
    ensures
        final(symbols)@.len() == old(symbols)@.len(),
        forall|k: int|
            0 <= k < old(symbols)@.len() ==> bss_one_sided(
                old(symbols)@[k],
                #[trigger] final(symbols)@[k],
            ),
{
    let ghost s0 = symbols@;
    let mut k: usize = 0;
    while k < symbols.len()
        invariant
            k <= symbols.len(),
            symbols.len() == s0.len(),
            forall|t: int| 0 <= t < k ==> bss_one_sided(s0[t], #[trigger] symbols@[t]),
            forall|t: int| k <= t < s0.len() ==> symbols@[t] == s0[t],
        decreases symbols.len() - k,
    {
        symbols[k].diff_symbol = None;
        symbols[k].pairing = ObjPairing::OneSided;
        k = k + 1;
    }
}

/// After two lists of uninitialized symbols were paired, the
/// cross-reference of a left symbol is mutual: where the right list has its
/// name, the left symbol names the first right symbol of that name and that
/// symbol names a symbol of the same name back; where the right list does
/// not have its name, the left symbol names nothing.
pub proof fn lemma_bss_left_mutual(
    l0: Seq<ObjSymbol>,
    r0: Seq<ObjSymbol>,
    l1: Seq<ObjSymbol>,
    r1: Seq<ObjSymbol>,
    i: int,
)
    requires
        bss_diffed(l0, r0, l1, r1),
        0 <= i < l0.len(),
    ensures
        match symbol_index(r0, l0[i].name@, 0) {
            Some(k) => {
                &&& 0 <= k < r0.len()
                &&& r0[k].name@ == l0[i].name@
                &&& l1[i].diff_symbol matches Some(there)
                &&& there@ == r0[k].name@
                &&& r1[k].diff_symbol matches Some(back)
                &&& back@ == l0[i].name@
            },
            None => l1[i].diff_symbol is None,
        },
{
    let name = l0[i].name@;
    assert(bss_left_result(l0, r0, i, l1[i]));
    lemma_symbol_index(r0, name, 0);
    match symbol_index(r0, name, 0) {
        Some(k) => {
            assert(bss_right_result(l0, r0, k, r1[k]));
            lemma_last_symbol_index(l0, name, l0.len() as int);
        },
        None => {},
    }
}

/// After two lists of uninitialized symbols were paired, the
/// cross-reference of a right symbol is mutual: a right symbol that names a
/// counterpart is the first right symbol of its name, and the last left
/// symbol of that name names it back.
pub proof fn lemma_bss_right_mutual(
    l0: Seq<ObjSymbol>,
    r0: Seq<ObjSymbol>,
    l1: Seq<ObjSymbol>,
    r1: Seq<ObjSymbol>,
    k: int,
)
    requires
        bss_diffed(l0, r0, l1, r1),
        0 <= k < r0.len(),
    ensures
        if bss_right_has_pair(l0, r0, k, l0.len() as int) {
            let i = last_symbol_index(l0, r0[k].name@, l0.len() as int).unwrap();
            &&& 0 <= i < l0.len()
            &&& l0[i].name@ == r0[k].name@
            &&& r1[k].diff_symbol matches Some(there)
            &&& there@ == l0[i].name@
            &&& l1[i].diff_symbol matches Some(back)
            &&& back@ == r0[k].name@
        } else {
            r1[k].diff_symbol is None
        },
{
    let name = r0[k].name@;
    assert(bss_right_result(l0, r0, k, r1[k]));
    lemma_last_symbol_index(l0, name, l0.len() as int);
    if bss_right_has_pair(l0, r0, k, l0.len() as int) {
        let i = last_symbol_index(l0, name, l0.len() as int).unwrap();
        assert(bss_left_result(l0, r0, i, l1[i]));
    }
}

} // verus!
