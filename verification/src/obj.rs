//! The object model: what one build of an object file holds, and the fields
//! in which a diff pass leaves its results.

use crate::diff::editops::EditKind;
use vstd::prelude::*;

verus! {

/// The instruction set of an object image.
#[derive(Clone, Copy, Debug, PartialEq, Eq, Structural)]
pub enum ObjArchitecture {
    PowerPc,
    Mips,
}

/// What a section holds.
#[derive(Clone, Copy, Debug, PartialEq, Eq, Structural)]
pub enum ObjSectionKind {
    Code,
    Data,
    Bss,
    Other,
}

/// How a diff pass classified an instruction.
#[derive(Clone, Copy, Debug, PartialEq, Eq, Structural)]
pub enum ObjInsDiffKind {
    /// No diff pass has looked at the instruction.
    Unclassified,
    /// Paired with an instruction that has the same mnemonic, operands and relocation.
    Matched,
    /// Paired with an instruction of the same opcode that differs otherwise.
    OperandMismatch,
    /// Present on the right side only.
    Insert,
    /// Present on the left side only.
    Delete,
}

/// How a diff pass paired a symbol of uninitialized memory.
#[derive(Clone, Copy, Debug, PartialEq, Eq, Structural)]
pub enum ObjPairing {
    /// No diff pass has looked at the symbol.
    Unpaired,
    /// A symbol of the same name and the same size is on the other side.
    Matched,
    /// A symbol of the same name and another size is on the other side.
    SizeMismatch,
    /// No symbol of this name is on the other side.
    OneSided,
}

/// A relocation: a patch record that points a place in a section at a symbol.
#[derive(Clone, Debug, PartialEq, Eq)]
pub struct ObjReloc {
    /// The kind of patch, as the object format numbers it.
    pub kind: u32,
    /// Where in the section the patch is applied.
    pub address: u64,
    /// The name of the symbol that the patch points at.
    pub target: String,
    /// The address that the linker gave the target.
    pub target_address: u64,
    pub addend: i64,
}

/// An operand of an instruction.
#[derive(Clone, Debug, PartialEq, Eq)]
pub enum ObjInsArg {
    /// A register, an immediate or any other operand, by its text.
    Plain(String),
    /// The operand that the instruction's relocation fills in.
    Reloc,
    /// A branch target, relative to the start of the symbol.
    BranchOffset(i32),
}

/// A decoded instruction.
#[derive(Clone, Debug, PartialEq, Eq)]
pub struct ObjIns {
    /// The offset of the instruction from the start of its symbol.
    pub address: u64,
    /// The opcode: the key by which instruction streams are aligned.
    pub op: u8,
    pub mnemonic: String,
    pub args: Vec<ObjInsArg>,
    /// The relocation at the place of the instruction, if there is one.
    pub reloc: Option<ObjReloc>,
    /// The source line of the instruction, where the line table knows it.
    pub line: Option<u32>,
    /// How the last diff pass classified the instruction.
    pub diff_kind: ObjInsDiffKind,
}

/// A named, sized region of a section, or a common symbol of an image.
#[derive(Clone, Debug, PartialEq, Eq)]
pub struct ObjSymbol {
    pub name: String,
    /// The offset of the symbol from the start of its section.
    pub address: u64,
    /// The number of bytes that the symbol covers.
    pub size: u64,
    /// The decoded instructions of a code symbol, in order.
    pub instructions: Vec<ObjIns>,
    /// The name of the symbol on the other side that this one was paired with.
    pub diff_symbol: Option<String>,
    /// The match score in hundredths of a percent, from 0 to `SCORE_FULL`.
    pub match_score: u32,
    /// How the last diff pass paired the symbol, where it is a symbol of
    /// uninitialized memory.
    pub pairing: ObjPairing,
}

/// A run of a data section's byte-level edit script, cut at the boundaries of
/// the section's symbols.
#[derive(Clone, Copy, Debug, PartialEq, Eq, Structural)]
pub struct ObjDataDiff {
    pub kind: EditKind,
    pub len: usize,
    /// The index of the symbol that the bytes of this run belong to, if any.
    pub symbol: Option<usize>,
}

/// A section of an object image.
#[derive(Clone, Debug, PartialEq, Eq)]
pub struct ObjSection {
    pub name: String,
    pub kind: ObjSectionKind,
    pub address: u64,
    /// The bytes of a code or data section.
    pub data: Vec<u8>,
    pub symbols: Vec<ObjSymbol>,
    pub relocations: Vec<ObjReloc>,
    /// The byte-level edit script of a data section as this side sees it,
    /// once a diff pass has run.
    pub data_diff: Vec<ObjDataDiff>,
}

/// One entry of a line table: the source line of the code from an address on.
#[derive(Clone, Copy, Debug, PartialEq, Eq, Structural)]
pub struct ObjLine {
    pub address: u64,
    pub line: u32,
}

/// One build of an object file.
#[derive(Clone, Debug, PartialEq, Eq)]
pub struct ObjInfo {
    pub architecture: ObjArchitecture,
    pub sections: Vec<ObjSection>,
    /// The uninitialized symbols that belong to no section.
    pub common: Vec<ObjSymbol>,
    /// The line table; it is carried along and never compared.
    pub line_info: Option<Vec<ObjLine>>,
}

/// A full match score: one hundred percent, in hundredths of a percent.
pub const SCORE_FULL: u32 = 10_000;

/// What of a relocation takes part in a comparison.
pub struct RelocToken {
    pub kind: u32,
    pub target: Seq<char>,
    pub target_address: u64,
    pub addend: i64,
}

/// What of an operand takes part in a comparison.
pub enum ArgToken {
    Plain(Seq<char>),
    Reloc,
    BranchOffset(i32),
}

/// What of an instruction takes part in a comparison: its opcode and
/// mnemonic, its operands and its relocation.
pub struct InsToken {
    pub op: u8,
    pub mnemonic: Seq<char>,
    pub args: Seq<ArgToken>,
    pub reloc: Option<RelocToken>,
}

impl ObjReloc {
    /// The relocation as a comparison sees it.
    pub open spec fn token(self) -> RelocToken {
        RelocToken {
            kind: self.kind,
            target: self.target@,
            target_address: self.target_address,
            addend: self.addend,
        }
    }
}

impl ObjInsArg {
    /// The operand as a comparison sees it.
    pub open spec fn token(self) -> ArgToken {
        match self {
            ObjInsArg::Plain(text) => ArgToken::Plain(text@),
            ObjInsArg::Reloc => ArgToken::Reloc,
            ObjInsArg::BranchOffset(offset) => ArgToken::BranchOffset(offset),
        }
    }
}

/// The relocation of an instruction as a comparison sees it.
pub open spec fn reloc_token(reloc: Option<ObjReloc>) -> Option<RelocToken> {
    match reloc {
        Some(r) => Some(r.token()),
        None => None,
    }
}

/// The operands of an instruction as a comparison sees them.
pub open spec fn arg_tokens(args: Seq<ObjInsArg>) -> Seq<ArgToken> {
    Seq::new(args.len(), |k: int| args[k].token())
}

impl ObjIns {
    /// The instruction as a comparison sees it.
    pub open spec fn token(self) -> InsToken {
        InsToken {
            op: self.op,
            mnemonic: self.mnemonic@,
            args: arg_tokens(self.args@),
            reloc: reloc_token(self.reloc),
        }
    }

    /// This instruction with another classification.
    pub open spec fn with_kind(self, kind: ObjInsDiffKind) -> ObjIns {
        ObjIns { diff_kind: kind, ..self }
    }
}

/// The instructions of a symbol as a comparison sees them.
pub open spec fn tokens(instructions: Seq<ObjIns>) -> Seq<InsToken> {
    Seq::new(instructions.len(), |k: int| instructions[k].token())
}

/// The opcodes of a list of instructions: the keys by which two instruction
/// streams are aligned.
pub open spec fn opcodes(instructions: Seq<ObjIns>) -> Seq<u8> {
    Seq::new(instructions.len(), |k: int| instructions[k].op)
}

/// The classifications of a list of instructions.
pub open spec fn diff_kinds(instructions: Seq<ObjIns>) -> Seq<ObjInsDiffKind> {
    Seq::new(instructions.len(), |k: int| instructions[k].diff_kind)
}

/// `after` holds the instructions of `before`, classified anew or not.
pub open spec fn instructions_annotated(before: Seq<ObjIns>, after: Seq<ObjIns>) -> bool {
    &&& after.len() == before.len()
    &&& forall|k: int|
        0 <= k < before.len() ==> #[trigger] after[k] == before[k].with_kind(after[k].diff_kind)
}

/// `after` is the symbol `before` with nothing changed but the results of a
/// diff pass.
pub open spec fn symbol_annotated(before: ObjSymbol, after: ObjSymbol) -> bool {
    &&& after.name == before.name
    &&& after.address == before.address
    &&& after.size == before.size
    &&& instructions_annotated(before.instructions@, after.instructions@)
}

/// `after` holds the symbols of `before`, each with nothing changed but the
/// results of a diff pass.
pub open spec fn symbols_annotated(before: Seq<ObjSymbol>, after: Seq<ObjSymbol>) -> bool {
    &&& after.len() == before.len()
    &&& forall|k: int| 0 <= k < before.len() ==> symbol_annotated(before[k], #[trigger] after[k])
}

/// `after` is the section `before` with nothing changed but the results of a
/// diff pass.
pub open spec fn section_annotated(before: ObjSection, after: ObjSection) -> bool {
    &&& after.name == before.name
    &&& after.kind == before.kind
    &&& after.address == before.address
    &&& after.data == before.data
    &&& after.relocations == before.relocations
    &&& symbols_annotated(before.symbols@, after.symbols@)
}

/// `after` is the image `before` with nothing changed but the results of a
/// diff pass: no section, symbol or instruction is added, removed or moved.
pub open spec fn image_annotated(before: ObjInfo, after: ObjInfo) -> bool {
    &&& after.architecture == before.architecture
    &&& after.line_info == before.line_info
    &&& after.sections.len() == before.sections.len()
    &&& forall|s: int|
        0 <= s < before.sections.len() ==> section_annotated(
            before.sections[s],
            #[trigger] after.sections[s],
        )
    &&& symbols_annotated(before.common@, after.common@)
}

/// Annotating instructions changes nothing that a comparison looks at.
pub proof fn lemma_instructions_annotated_tokens(before: Seq<ObjIns>, after: Seq<ObjIns>)
    requires
        instructions_annotated(before, after),
    ensures
        tokens(after) == tokens(before),
        opcodes(after) == opcodes(before),
{
    assert forall|k: int| 0 <= k < before.len() implies after[k].token() == before[k].token() by {
        assert(after[k] == before[k].with_kind(after[k].diff_kind));
    }
    assert(tokens(after) =~= tokens(before));
    assert forall|k: int| 0 <= k < before.len() implies after[k].op == before[k].op by {
        assert(after[k] == before[k].with_kind(after[k].diff_kind));
    }
    assert(opcodes(after) =~= opcodes(before));
}

/// Instructions that were annotated twice are the first instructions,
/// annotated.
pub proof fn lemma_instructions_annotated_trans(a: Seq<ObjIns>, b: Seq<ObjIns>, c: Seq<ObjIns>)
    requires
        instructions_annotated(a, b),
        instructions_annotated(b, c),
    ensures
        instructions_annotated(a, c),
{
    assert forall|k: int| 0 <= k < a.len() implies #[trigger] c[k] == a[k].with_kind(
        c[k].diff_kind,
    ) by {
        assert(b[k] == a[k].with_kind(b[k].diff_kind));
        assert(c[k] == b[k].with_kind(c[k].diff_kind));
    }
}

/// A symbol that was annotated twice is the first symbol, annotated.
pub proof fn lemma_symbol_annotated_trans(a: ObjSymbol, b: ObjSymbol, c: ObjSymbol)
    requires
        symbol_annotated(a, b),
        symbol_annotated(b, c),
    ensures
        symbol_annotated(a, c),
{
    lemma_instructions_annotated_trans(a.instructions@, b.instructions@, c.instructions@);
}

} // verus!
