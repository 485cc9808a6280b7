//! Claims: a byte span plus what those bytes mean.

use vstd::prelude::*;

use crate::span::Span;
use crate::text;

verus! {

/// Index of a [`Claim`] within its [`Coverage`](crate::Coverage).
///
/// Ids are minted by [`CoverageBuilder::push`](crate::CoverageBuilder::push) and are only
/// meaningful against the coverage that produced them.
#[derive(Clone, Copy, PartialEq, Eq, PartialOrd, Ord, Hash, Debug, Structural)]
pub struct ClaimId(pub u32);

impl ClaimId {
    /// How the id is written: `#` and its number.
    pub open spec fn text(self) -> Seq<char> {
        "#"@ + text::dec(self.0 as int)
    }

    /// The id as text: `#` and its number.
    pub fn to_text(self) -> (r: String)
        ensures
            r@ == self.text(),
    {
        let mut r = "#".to_string();
        text::push_number(&mut r, self.0 as u64, 10);
        r
    }
}

/// One byte range with one meaning.
///
/// Claims nest: a [`ClaimKind::ProgramHeader`] is the parent of its field claims. Only
/// *leaf* claims participate in the coverage partition.
#[derive(Clone, Debug)]
pub struct Claim {
    pub span: Span,
    pub kind: ClaimKind,
    pub parent: Option<ClaimId>,
    pub value: Value,
    /// Short editorial note surfaced in the UI: "PT_INTERP, hence dynamically linked".
    pub note: Option<String>,
}

/// What a [`Claim`] says, with its texts as character sequences.
pub struct ClaimView {
    pub span: Span,
    pub kind: ClaimKind,
    pub parent: Option<ClaimId>,
    pub value: ValueView,
    pub note: Option<Seq<char>>,
}

impl View for Claim {
    type V = ClaimView;

    open spec fn view(&self) -> ClaimView {
        ClaimView {
            span: self.span,
            kind: self.kind,
            parent: self.parent,
            value: self.value@,
            note: text::opt_view(self.note),
        }
    }
}

impl ClaimView {
    /// A claim with nothing but its bytes and their kind.
    pub open spec fn bare(span: Span, kind: ClaimKind) -> ClaimView {
        ClaimView { span, kind, parent: None, value: ValueView::Nothing, note: None }
    }

    pub open spec fn under(self, parent: ClaimId) -> ClaimView {
        ClaimView { parent: Some(parent), ..self }
    }

    pub open spec fn valued(self, value: ValueView) -> ClaimView {
        ClaimView { value, ..self }
    }

    pub open spec fn noted(self, note: Seq<char>) -> ClaimView {
        ClaimView { note: Some(note), ..self }
    }
}

impl Claim {
    #[must_use]
    pub fn new(span: Span, kind: ClaimKind) -> (r: Self)
        ensures
            r@ == ClaimView::bare(span, kind),
    {
        Self { span, kind, parent: None, value: Value::Nothing, note: None }
    }

    #[must_use]
    pub fn child_of(self, parent: ClaimId) -> (r: Self)
        ensures
            r@ == self@.under(parent),
    {
        Self { parent: Some(parent), ..self }
    }

    #[must_use]
    pub fn with_value(self, value: Value) -> (r: Self)
        ensures
            r@ == self@.valued(value@),
    {
        Self { value, ..self }
    }

    #[must_use]
    pub fn with_note(self, note: &str) -> (r: Self)
        ensures
            r@ == self@.noted(note@),
    {
        Self { note: Some(note.to_string()), ..self }
    }
}

/// What a span of bytes is.
///
/// Field-level variants carry the field's name as a `&'static str` rather than a per-struct
/// enum: the set is large, entirely descriptive, and never matched on.
#[allow(inconsistent_fields)]
#[derive(Clone, PartialEq, Eq, Debug)]
pub enum ClaimKind {
    FileHeader,
    FileHeaderField { name: &'static str },
    ProgramHeaderTable,
    ProgramHeader { idx: u32 },
    ProgramHeaderField { idx: u32, name: &'static str },
    SectionHeaderTable,
    SectionHeader { idx: u32 },
    SectionHeaderField { idx: u32, name: &'static str },
    /// The bytes a section header points at, as opposed to the header itself.
    SectionBody { idx: u32 },
    DynamicTable,
    DynamicEntry { idx: u32, tag: u64 },
    RelocationTable { kind: RelocTableKind },
    RelocationEntry { table: u32, idx: u32, r_type: u32 },
    /// One word of a `DT_RELR` bitmap. Expands to many relocations.
    RelrWord { table: u32, idx: u32 },
    SymbolTable { dynamic: bool },
    SymbolEntry { table: u32, idx: u32 },
    StringTable { table: u32 },
    StringEntry { table: u32, offset: u32 },
    HashTable { gnu: bool },
    VersionTable { kind: VersionTableKind },
    Note { idx: u32 },
    /// The interpreter path from `PT_INTERP`: the string that makes a program dynamic.
    Interp,
    Padding { reason: PadReason },
    /// Bytes no structure accounts for. Produced by
    /// [`CoverageBuilder::fill_unclaimed`](crate::CoverageBuilder::fill_unclaimed), never
    /// by the parser directly.
    Unclaimed,
}

impl ClaimKind {
    /// Stable short label for UI and snapshot tests.
    pub open spec fn spec_label(&self) -> &'static str {
        match self {
            Self::FileHeader => "ehdr",
            Self::FileHeaderField { .. } => "ehdr.field",
            Self::ProgramHeaderTable => "phdr.table",
            Self::ProgramHeader { .. } => "phdr",
            Self::ProgramHeaderField { .. } => "phdr.field",
            Self::SectionHeaderTable => "shdr.table",
            Self::SectionHeader { .. } => "shdr",
            Self::SectionHeaderField { .. } => "shdr.field",
            Self::SectionBody { .. } => "section",
            Self::DynamicTable => "dynamic",
            Self::DynamicEntry { .. } => "dynamic.entry",
            Self::RelocationTable { .. } => "reloc.table",
            Self::RelocationEntry { .. } => "reloc",
            Self::RelrWord { .. } => "relr.word",
            Self::SymbolTable { .. } => "symtab",
            Self::SymbolEntry { .. } => "symbol",
            Self::StringTable { .. } => "strtab",
            Self::StringEntry { .. } => "string",
            Self::HashTable { .. } => "hash",
            Self::VersionTable { .. } => "version",
            Self::Note { .. } => "note",
            Self::Interp => "interp",
            Self::Padding { .. } => "padding",
            Self::Unclaimed => "unclaimed",
        }
    }

    /// Stable short label for UI and snapshot tests.
    #[must_use]
    pub fn label(&self) -> (r: &'static str)
        ensures
            r == self.spec_label(),
    {
        match self {
            Self::FileHeader => "ehdr",
            Self::FileHeaderField { .. } => "ehdr.field",
            Self::ProgramHeaderTable => "phdr.table",
            Self::ProgramHeader { .. } => "phdr",
            Self::ProgramHeaderField { .. } => "phdr.field",
            Self::SectionHeaderTable => "shdr.table",
            Self::SectionHeader { .. } => "shdr",
            Self::SectionHeaderField { .. } => "shdr.field",
            Self::SectionBody { .. } => "section",
            Self::DynamicTable => "dynamic",
            Self::DynamicEntry { .. } => "dynamic.entry",
            Self::RelocationTable { .. } => "reloc.table",
            Self::RelocationEntry { .. } => "reloc",
            Self::RelrWord { .. } => "relr.word",
            Self::SymbolTable { .. } => "symtab",
            Self::SymbolEntry { .. } => "symbol",
            Self::StringTable { .. } => "strtab",
            Self::StringEntry { .. } => "string",
            Self::HashTable { .. } => "hash",
            Self::VersionTable { .. } => "version",
            Self::Note { .. } => "note",
            Self::Interp => "interp",
            Self::Padding { .. } => "padding",
            Self::Unclaimed => "unclaimed",
        }
    }

    /// The struct field this claim is, when it is one.
    pub open spec fn spec_field_name(&self) -> Option<&'static str> {
        match self {
            Self::FileHeaderField { name } => Some(*name),
            Self::ProgramHeaderField { idx, name } => Some(*name),
            Self::SectionHeaderField { idx, name } => Some(*name),
            _ => None,
        }
    }

    /// The struct field this claim is, when it is one.
    ///
    /// `label` groups claims by kind, which is what a renderer colours by. This is what a
    /// reader needs: `e_phoff` and `e_shoff` are both `ehdr.field`, and the difference
    /// between them is the entire point of looking.
    #[must_use]
    pub fn field_name(&self) -> (r: Option<&'static str>)
        ensures
            r == self.spec_field_name(),
    {
        match self {
            Self::FileHeaderField { name } => Some(*name),
            Self::ProgramHeaderField { name, .. } => Some(*name),
            Self::SectionHeaderField { name, .. } => Some(*name),
            _ => None,
        }
    }

    /// Alignment padding, or bytes that nothing explains.
    pub open spec fn filler(&self) -> bool {
        self is Padding || self is Unclaimed
    }

    /// True for bytes that exist only to satisfy alignment or that nothing explains.
    /// These are the regions the byte river renders as absence.
    #[must_use]
    pub fn is_filler(&self) -> (r: bool)
        ensures
            r == self.filler(),
    {
        match self {
            Self::Padding { .. } => true,
            Self::Unclaimed => true,
            _ => false,
        }
    }
}

#[derive(Clone, Copy, PartialEq, Eq, Debug, Structural)]
pub enum RelocTableKind {
    /// `DT_REL` / `SHT_REL`: implicit addend.
    Rel,
    /// `DT_RELA` / `SHT_RELA`: explicit addend.
    Rela,
    /// `DT_RELR`: compressed relative relocations, a bitmap rather than a table.
    Relr,
    /// `DT_JMPREL`: the PLT relocations, processed eagerly under `BIND_NOW`.
    JmpRel,
}

#[derive(Clone, Copy, PartialEq, Eq, Debug, Structural)]
pub enum VersionTableKind {
    VerDef,
    VerNeed,
    VerSym,
}

#[derive(Clone, Copy, PartialEq, Eq, Debug, Structural)]
pub enum PadReason {
    /// Inserted to satisfy an alignment constraint we can name.
    Alignment { to: u64 },
    /// Between two sections, for reasons only the linker knows.
    LinkerGap,
    /// Inside a section, past its meaningful content.
    SectionSlack,
}

/// A decoded field value, alongside the raw bytes the claim already points at.
#[derive(Clone, PartialEq, Eq, Debug)]
pub enum Value {
    /// No decoded value.
    Nothing,
    Unsigned(u64),
    Signed(i64),
    /// A virtual address. Rendered differently from a file offset, because conflating the
    /// two is the single most common source of confusion about ELF.
    Address(u64),
    FileOffset(u64),
    Flags(u64),
    Text(String),
    /// Bulk content; read from the file through the claim's span when needed.
    Raw,
}

/// A [`Value`] with its text as a character sequence.
pub enum ValueView {
    Nothing,
    Unsigned(u64),
    Signed(i64),
    Address(u64),
    FileOffset(u64),
    Flags(u64),
    Text(Seq<char>),
    Raw,
}

impl View for Value {
    type V = ValueView;

    open spec fn view(&self) -> ValueView {
        match self {
            Value::Nothing => ValueView::Nothing,
            Value::Unsigned(v) => ValueView::Unsigned(*v),
            Value::Signed(v) => ValueView::Signed(*v),
            Value::Address(v) => ValueView::Address(*v),
            Value::FileOffset(v) => ValueView::FileOffset(*v),
            Value::Flags(v) => ValueView::Flags(*v),
            Value::Text(t) => ValueView::Text(t@),
            Value::Raw => ValueView::Raw,
        }
    }
}

} // verus!
