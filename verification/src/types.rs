//! Data model: sections, symbols and relocations of the input object file,
//! and the items produced for the consolidated two-object view.

use vstd::prelude::*;

verus! {

/// Kind of an input section; only the first four take part in consolidation.
#[derive(Clone, Copy, PartialEq, Eq, Structural, Debug)]
pub enum SectionKind {
    Text,
    Data,
    ReadOnlyData,
    UninitializedData,
    Other,
}

/// Kind of an input symbol; only `Text` and `Data` symbols are carried over.
#[derive(Clone, Copy, PartialEq, Eq, Structural, Debug)]
pub enum SymbolKind {
    Text,
    Data,
    Section,
    Label,
    Other,
}

/// Relocation kind; the fixup encoder supports the first three.
#[derive(Clone, Copy, PartialEq, Eq, Structural, Debug)]
pub enum RelocKind {
    Absolute,
    Relative,
    PltRelative,
    Other,
}

/// Relocation encoding, carried through unchanged when relocations are
/// rewritten; the fixup encoder does not read it.
#[derive(Clone, Copy, PartialEq, Eq, Structural, Debug)]
pub enum RelocEncoding {
    Generic,
    X86Branch,
    Other,
}

/// The two output objects of the LE file: object 1 holds code, object 2 data.
#[derive(Clone, Copy, PartialEq, Eq, Structural, Debug)]
pub enum ObjectId {
    Text,
    Data,
}

impl ObjectId {
    /// Object number as it appears in fixup records: 1 for code, 2 for data.
    pub open spec fn spec_number(self) -> u8 {
        match self {
            ObjectId::Text => 1,
            ObjectId::Data => 2,
        }
    }

    /// Object number as it appears in fixup records: 1 for code, 2 for data.
    pub fn number(self) -> (n: u8)
        ensures
            n == self.spec_number(),
    {
        match self {
            ObjectId::Text => 1,
            ObjectId::Data => 2,
        }
    }
}

/// One relocation of an input section, in that section's own coordinates.
#[derive(Clone, Copy, PartialEq, Eq, Debug)]
pub struct InputReloc {
    /// Offset of the relocated field within the section.
    pub src_off: u32,
    pub kind: RelocKind,
    pub encoding: RelocEncoding,
    /// Field width in bits; only size 32 is supported by the fixup encoder.
    pub size: u8,
    /// Whether the addend is stored inline at the relocation site.
    pub has_implicit_addend: bool,
    /// Explicit addend (zero for inline-addend relocations).
    pub addend: i64,
    /// Index of the target symbol in the input symbol table, or `None` for a
    /// section or absolute target (which the rewriter rejects).
    pub target_symbol: Option<usize>,
}

/// One section of the input object file.
pub struct InputSection {
    pub name: Vec<u8>,
    pub kind: SectionKind,
    /// Section contents; empty for uninitialized-data sections.
    pub data: Vec<u8>,
    /// Declared size; read only for uninitialized-data sections, whose
    /// contribution to the consolidated object is this many zero bytes.
    pub size: u32,
    pub relocs: Vec<InputReloc>,
}

/// One symbol of the input object file.
pub struct InputSymbol {
    pub name: Vec<u8>,
    pub kind: SymbolKind,
    /// Index of the containing section, if any.
    pub section: Option<usize>,
    /// Address within the containing section.
    pub address: u32,
    pub size: u32,
}

/// Where a consolidated input section landed: which output object, and the
/// byte offset of its first byte within that object.
#[derive(Clone, Copy, PartialEq, Eq, Structural, Debug)]
pub struct Placement {
    pub obj: ObjectId,
    pub base: usize,
}

/// A symbol of the consolidated view, addressed within one of the two
/// output objects.
pub struct NewSymbol {
    pub name: Vec<u8>,
    pub object: ObjectId,
    /// Address within the output object.
    pub value: u64,
    pub size: u32,
}

/// Ghost model of a [`NewSymbol`].
pub struct SymModel {
    pub name: Seq<u8>,
    pub object: ObjectId,
    pub value: int,
    pub size: int,
}

impl View for NewSymbol {
    type V = SymModel;

    open spec fn view(&self) -> SymModel {
        SymModel {
            name: self.name@,
            object: self.object,
            value: self.value as int,
            size: self.size as int,
        }
    }
}

/// A relocation rewritten into the coordinates of a consolidated object.
#[derive(Clone, Copy, PartialEq, Eq, Debug)]
pub struct NewReloc {
    /// Object that holds the relocation site.
    pub object: ObjectId,
    /// Offset within the consolidated object that contains the relocation.
    pub off: u64,
    pub kind: RelocKind,
    pub encoding: RelocEncoding,
    pub size: u8,
    pub has_implicit_addend: bool,
    pub addend: i64,
    /// Index of the target symbol in the new symbol table.
    pub symbol: usize,
}

/// Fatal conversion errors. A relocation that is merely skipped (an
/// unresolvable or sectionless target) is not an error: it is left out of
/// the output.
#[derive(Clone, Copy, PartialEq, Eq, Structural, Debug)]
pub enum ConvertError {
    /// A relocation targets a section or an absolute address rather than a
    /// symbol.
    UnsupportedRelocationTarget,
    /// A relocation names a symbol index that is out of range.
    MissingSymbol,
    /// The stub template is too short to hold the LE header and tables.
    StubTooSmall,
    /// A size or offset does not fit the 32-bit fields of the LE format.
    OutputTooLarge,
}

} // verus!
