//! The ELF64 parser.
//!
//! Produces a [`Coverage`] in which every byte of the file is accounted for. Structures
//! are claimed at three levels (table, entry, field) so the UI can zoom from "this is
//! the program header table" to "these eight bytes are `p_memsz`, and they are why there
//! is a region of memory with no file behind it".
//!
//! Only ELF64 little-endian is read. Other classes and byte orders are rejected by name
//! rather than misparsed.

use vstd::prelude::*;

use crate::claim::{
    Claim, ClaimId, ClaimKind, ClaimView, RelocTableKind, Value, VersionTableKind,
};
use crate::coverage;
use crate::coverage::{Coverage, CoverageBuilder, CoverageError, Ledger};
use crate::elf;
use crate::layout;
use crate::reader;
use crate::reader::Reader;
use crate::span;
use crate::span::{FileId, Span};
use crate::text;

verus! {

/// Why a file could not be parsed at all.
///
/// Note how few of these there are. Structural nonsense *inside* a file is not an error:
/// it becomes an `Unclaimed` region or a coverage failure that `elfa verify` reports. Only
/// "this is not an ELF64 LE file" stops the parse.
#[derive(Clone, PartialEq, Eq, Debug)]
pub enum ParseError {
    TooSmall { len: u64 },
    BadMagic { found: [u8; 4] },
    UnsupportedClass { class: u8 },
    UnsupportedData { data: u8 },
    Truncated { what: &'static str, off: u64 },
    Coverage(CoverageError),
}

/// A [`ParseError`] with its bytes as a sequence.
pub enum ParseErrorView {
    TooSmall { len: u64 },
    BadMagic { found: Seq<u8> },
    UnsupportedClass { class: u8 },
    UnsupportedData { data: u8 },
    Truncated { what: &'static str, off: u64 },
    Coverage(CoverageError),
}

impl View for ParseError {
    type V = ParseErrorView;

    open spec fn view(&self) -> ParseErrorView {
        match self {
            Self::TooSmall { len } => ParseErrorView::TooSmall { len: *len },
            Self::BadMagic { found } => ParseErrorView::BadMagic { found: found@ },
            Self::UnsupportedClass { class } => ParseErrorView::UnsupportedClass { class: *class },
            Self::UnsupportedData { data } => ParseErrorView::UnsupportedData { data: *data },
            Self::Truncated { what, off } => ParseErrorView::Truncated { what: *what, off: *off },
            Self::Coverage(e) => ParseErrorView::Coverage(*e),
        }
    }
}

/// A byte as two hexadecimal digits.
pub open spec fn byte_text(b: u8) -> Seq<char> {
    seq![text::digit((b / 16) as int), text::digit((b % 16) as int)]
}

impl ParseErrorView {
    /// The error in words.
    pub open spec fn text(self) -> Seq<char> {
        match self {
            Self::TooSmall { len } => "file is "@ + text::dec(len as int)
                + " bytes; an ELF64 header needs 64"@,
            Self::BadMagic { found } => "not an ELF file: magic is ["@ + byte_text(found[0])
                + ", "@ + byte_text(found[1]) + ", "@ + byte_text(found[2]) + ", "@ + byte_text(
                found[3],
            ) + "], expected [7f, 45, 4c, 46]"@,
            Self::UnsupportedClass { class } => if class == elf::ELFCLASS32 {
                "ELF32 is not supported yet (phase 5)"@
            } else {
                "unknown EI_CLASS "@ + text::dec(class as int)
            },
            Self::UnsupportedData { data } => if data == elf::ELFDATA2MSB {
                "big-endian ELF is not supported yet (phase 5)"@
            } else {
                "unknown EI_DATA "@ + text::dec(data as int)
            },
            Self::Truncated { what, off } => "file ends inside "@ + what@ + " at offset "@
                + text::hex(off as int),
            Self::Coverage(e) => "coverage: "@ + e.text(),
        }
    }
}

fn push_byte(r: &mut String, b: u8)
    ensures
        final(r)@ == old(r)@ + byte_text(b),
{
    text::push_digit(r, b / 16);
    text::push_digit(r, b % 16);
    assert(r@ =~= old(r)@ + byte_text(b));
}

impl ParseError {
    /// The error in words.
    pub fn to_text(&self) -> (r: String)
        ensures
            r@ == self@.text(),
    {
        match self {
            Self::TooSmall { len } => {
                let mut r = "file is ".to_string();
                r.append(text::dec_text(*len).as_str());
                r.append(" bytes; an ELF64 header needs 64");
                r
            },
            Self::BadMagic { found } => {
                let mut r = "not an ELF file: magic is [".to_string();
                push_byte(&mut r, found[0]);
                r.append(", ");
                push_byte(&mut r, found[1]);
                r.append(", ");
                push_byte(&mut r, found[2]);
                r.append(", ");
                push_byte(&mut r, found[3]);
                r.append("], expected [7f, 45, 4c, 46]");
                r
            },
            Self::UnsupportedClass { class } => if *class == elf::ELFCLASS32 {
                "ELF32 is not supported yet (phase 5)".to_string()
            } else {
                let mut r = "unknown EI_CLASS ".to_string();
                r.append(text::dec_text(*class as u64).as_str());
                r
            },
            Self::UnsupportedData { data } => if *data == elf::ELFDATA2MSB {
                "big-endian ELF is not supported yet (phase 5)".to_string()
            } else {
                let mut r = "unknown EI_DATA ".to_string();
                r.append(text::dec_text(*data as u64).as_str());
                r
            },
            Self::Truncated { what, off } => {
                let mut r = "file ends inside ".to_string();
                r.append(what);
                r.append(" at offset ");
                r.append(text::hex_text(*off).as_str());
                r
            },
            Self::Coverage(e) => {
                let mut r = "coverage: ".to_string();
                r.append(e.to_text().as_str());
                r
            },
        }
    }
}

/// One program header, decoded.
///
/// The loader model needs these as values, not as claims: walking the claim tree to
/// recover `p_vaddr` would mean parsing the parse output.
#[derive(Clone, Copy, PartialEq, Eq, Debug, Structural)]
pub struct Segment {
    pub p_type: u32,
    pub flags: u32,
    pub offset: u64,
    pub vaddr: u64,
    pub filesz: u64,
    pub memsz: u64,
    pub align: u64,
}

impl Segment {
    /// Bytes the kernel zero-fills because they are in `p_memsz` but not `p_filesz`.
    /// This is `.bss`, and it is the part of a process that exists in no file.
    #[must_use]
    pub fn zero_fill(&self) -> (r: u64)
        ensures
            r == if self.memsz > self.filesz {
                self.memsz - self.filesz
            } else {
                0
            },
    {
        self.memsz.saturating_sub(self.filesz)
    }
}

/// One relocation, decoded.
///
/// `DT_RELR` entries are expanded here: a bitmap word encodes up to 63 relative
/// relocations, and the loader applies them individually, so the model must see them
/// individually. `file_span` points at the entry (or the bitmap word) that produced this.
#[derive(Clone, PartialEq, Eq, Debug)]
pub struct Reloc {
    pub table: RelocTableKind,
    /// `r_offset`: the address to be written.
    pub offset: u64,
    pub r_type: u32,
    pub addend: i64,
    pub symbol: Option<String>,
    /// The referenced symbol is weak-undefined. The loader does not fail on these and
    /// does not report binding them: they resolve to zero and nothing happens.
    pub weak: bool,
    pub file_span: Span,
}

/// A [`Reloc`] with its symbol as a character sequence.
pub struct RelocView {
    pub table: RelocTableKind,
    pub offset: u64,
    pub r_type: u32,
    pub addend: i64,
    pub symbol: Option<Seq<char>>,
    pub weak: bool,
    pub file_span: Span,
}

impl View for Reloc {
    type V = RelocView;

    open spec fn view(&self) -> RelocView {
        RelocView {
            table: self.table,
            offset: self.offset,
            r_type: self.r_type,
            addend: self.addend,
            symbol: text::opt_view(self.symbol),
            weak: self.weak,
            file_span: self.file_span,
        }
    }
}

/// Header-level facts, pulled out so callers do not have to walk the claim tree to print
/// a one-line description of a file.
#[derive(Clone, Debug)]
pub struct Summary {
    pub e_type: u16,
    pub machine: u16,
    pub entry: u64,
    pub phnum: u64,
    pub shnum: u64,
    pub interp: Option<String>,
    pub needed: Vec<String>,
    pub soname: Option<String>,
    pub bind_now: bool,
    pub has_relr: bool,
    pub has_dynamic: bool,
    pub segments: Vec<Segment>,
    pub relocs: Vec<Reloc>,
    /// `DT_INIT`, and `DT_INIT_ARRAY` with its size: the code that runs before `main`.
    pub init: Option<u64>,
    pub init_array: Option<(u64, u64)>,
}

/// A [`Summary`] with its texts as character sequences.
#[verifier::ext_equal]
pub struct SummaryView {
    pub e_type: u16,
    pub machine: u16,
    pub entry: u64,
    pub phnum: u64,
    pub shnum: u64,
    pub interp: Option<Seq<char>>,
    pub needed: Seq<Seq<char>>,
    pub soname: Option<Seq<char>>,
    pub bind_now: bool,
    pub has_relr: bool,
    pub has_dynamic: bool,
    pub segments: Seq<Segment>,
    pub relocs: Seq<RelocView>,
    pub init: Option<u64>,
    pub init_array: Option<(u64, u64)>,
}

impl SummaryView {
    /// Nothing known.
    pub open spec fn blank() -> SummaryView {
        SummaryView {
            e_type: 0,
            machine: 0,
            entry: 0,
            phnum: 0,
            shnum: 0,
            interp: None,
            needed: Seq::empty(),
            soname: None,
            bind_now: false,
            has_relr: false,
            has_dynamic: false,
            segments: Seq::empty(),
            relocs: Seq::empty(),
            init: None,
            init_array: None,
        }
    }
}

/// The decoded relocations as views.
pub open spec fn reloc_views(relocs: Seq<Reloc>) -> Seq<RelocView> {
    relocs.map_values(|r: Reloc| r@)
}

impl View for Summary {
    type V = SummaryView;

    open spec fn view(&self) -> SummaryView {
        SummaryView {
            e_type: self.e_type,
            machine: self.machine,
            entry: self.entry,
            phnum: self.phnum,
            shnum: self.shnum,
            interp: text::opt_view(self.interp),
            needed: text::views(self.needed@),
            soname: text::opt_view(self.soname),
            bind_now: self.bind_now,
            has_relr: self.has_relr,
            has_dynamic: self.has_dynamic,
            segments: self.segments@,
            relocs: reloc_views(self.relocs@),
            init: self.init,
            init_array: self.init_array,
        }
    }
}

impl Default for Summary {
    fn default() -> (r: Self)
        ensures
            r@ == SummaryView::blank(),
    {
        let r = Summary {
            e_type: 0,
            machine: 0,
            entry: 0,
            phnum: 0,
            shnum: 0,
            interp: None,
            needed: Vec::new(),
            soname: None,
            bind_now: false,
            has_relr: false,
            has_dynamic: false,
            segments: Vec::new(),
            relocs: Vec::new(),
            init: None,
            init_array: None,
        };
        assert(r@ =~= SummaryView::blank());
        r
    }
}

#[derive(Clone, Debug)]
pub struct Parsed {
    pub coverage: Coverage,
    pub summary: Summary,
}

/// One section header, as far as the parser needs it.
#[derive(Clone, Copy, Debug)]
pub struct SectionInfo {
    pub name_off: u32,
    pub sh_type: u32,
    pub offset: u64,
    pub size: u64,
    pub link: u32,
    pub entsize: u64,
}

/// The claims of `v` as views.
pub open spec fn views(v: Seq<Claim>) -> Seq<ClaimView> {
    v.map_values(|c: Claim| c@)
}

fn sat_mul(a: u64, b: u64) -> (r: u64)
    ensures
        r == layout::sat_mul(a, b),
{
    match a.checked_mul(b) {
        Some(v) => v,
        None => u64::MAX,
    }
}

fn narrow(n: u64) -> (r: u32)
    ensures
        r == layout::narrow(n as int),
{
    if n > u32::MAX as u64 {
        u32::MAX
    } else {
        n as u32
    }
}

/// Where row `i` of a table at `off` starts.
fn row(off: u64, i: u64, size: u64) -> (r: u64)
    ensures
        r == layout::row(off, i as int, size),
{
    off.saturating_add(sat_mul(i, size))
}

fn at(start: u64, len: u64) -> (r: Span)
    ensures
        r == layout::at(start, len),
{
    Span::new(FileId::primary(), start, len)
}

/// The id of the claim that the next push onto `out` makes.
fn next_id(start: usize, out: &Vec<Claim>) -> (r: ClaimId)
    ensures
        r == coverage::mint(start + out@.len()),
{
    coverage::mint_id((start as u64).saturating_add(out.len() as u64))
}

fn push(out: &mut Vec<Claim>, c: Claim)
    ensures
        views(final(out)@) == views(old(out)@).push(c@),
{
    out.push(c);
    assert(views(out@) =~= views(old(out)@).push(c@));
}

/// Adds a field of a structure of `size` bytes, if it fits.
fn field(
    out: &mut Vec<Claim>,
    size: u64,
    parent: ClaimId,
    kind: ClaimKind,
    base: u64,
    off: u64,
    len: u64,
    value: Value,
    note: Option<String>,
)
    requires
        off + len <= u64::MAX,
    ensures
        views(final(out)@) == layout::fit(
            views(old(out)@),
            (off + len) as u64,
            size,
            layout::field(
                parent,
                kind,
                layout::at(span::sat_add(base, off), len),
                value@,
                text::opt_view(note),
            ),
        ),
{
    proof {
        reveal(layout::fit);
    }
    if off + len <= size {
        push(
            out,
            Claim { span: at(base.saturating_add(off), len), kind, parent: Some(parent), value, note },
        );
    }
}

fn named(value: u64, name: Option<&'static str>) -> (r: String)
    ensures
        r@ == layout::named(value, name),
{
    match name {
        Some(n) => n.to_string(),
        None => {
            let mut r = "unknown (".to_string();
            r.append(text::hex_text(value).as_str());
            r.append(")");
            r
        },
    }
}

fn string_at(r: &Reader<'_>, off: u64, max: u64) -> (s: String)
    ensures
        s@ == layout::string_at(r.all(), off, max),
{
    match r.cstr_at(off, max) {
        Some(bytes) => match text::from_utf8(bytes) {
            Some(t) => t.to_string(),
            None => String::new(),
        },
        None => String::new(),
    }
}

/// A field of the file header.
fn header_field(
    out: &mut Vec<Claim>,
    parent: ClaimId,
    name: &'static str,
    off: u64,
    len: u64,
    value: Value,
    note: Option<String>,
)
    requires
        off + len <= 64,
    ensures
        views(final(out)@) == views(old(out)@).push(
            layout::header_field(parent, name, off, len, value@, text::opt_view(note)),
        ),
{
    proof {
        reveal(layout::fit);
    }
    field(out, 64, parent, ClaimKind::FileHeaderField { name }, 0, off, len, value, note);
}

/// The file header and its fields.
fn parse_ehdr(r: &Reader<'_>, summary: &mut Summary) -> (out: Vec<Claim>)
    requires
        r.little(),
    ensures
        views(out@) == layout::header(r.all()),
        final(summary)@ == (SummaryView {
            e_type: reader::le16(r.all(), 16),
            machine: reader::le16(r.all(), 18),
            entry: reader::le64(r.all(), 24),
            ..old(summary)@
        }),
{
    let ehdr = ClaimId(0);
    let ident = ClaimId(1);
    let mut out: Vec<Claim> = Vec::new();
    assert(views(out@) =~= Seq::<ClaimView>::empty());
    push(
        &mut out,
        Claim::new(at(0, elf::EHDR64_SIZE), ClaimKind::FileHeader).with_note(
            "the only structure at a fixed location; everything else is found through it",
        ),
    );
    push(
        &mut out,
        Claim::new(at(0, 16), ClaimKind::FileHeaderField { name: "e_ident" }).child_of(ehdr),
    );
    let o = &mut out;
    header_field(o, ident, "ei_mag", 0, 4, Value::Raw, Some("\\x7fELF".to_string()));
    let class = Value::Unsigned(r.u8_or_zero(4) as u64);
    header_field(o, ident, "ei_class", 4, 1, class, Some("ELFCLASS64".to_string()));
    let data = Value::Unsigned(r.u8_or_zero(5) as u64);
    header_field(o, ident, "ei_data", 5, 1, data, Some("ELFDATA2LSB".to_string()));
    header_field(o, ident, "ei_version", 6, 1, Value::Unsigned(r.u8_or_zero(6) as u64), None);
    header_field(o, ident, "ei_osabi", 7, 1, Value::Unsigned(r.u8_or_zero(7) as u64), None);
    header_field(o, ident, "ei_abiversion", 8, 1, Value::Unsigned(r.u8_or_zero(8) as u64), None);
    header_field(o, ident, "ei_pad", 9, 7, Value::Raw, Some("reserved, must be zero".to_string()));

    let e_type: u16 = r.u16_or_zero(16);
    let machine: u16 = r.u16_or_zero(18);
    let entry: u64 = r.u64_or_zero(24);
    summary.e_type = e_type;
    summary.machine = machine;
    summary.entry = entry;

    header_field(
        o,
        ehdr,
        "e_type",
        16,
        2,
        Value::Unsigned(e_type as u64),
        Some(named(e_type as u64, elf::et_name(e_type))),
    );
    header_field(
        o,
        ehdr,
        "e_machine",
        18,
        2,
        Value::Unsigned(machine as u64),
        Some(named(machine as u64, elf::em_name(machine))),
    );
    header_field(o, ehdr, "e_version", 20, 4, Value::Unsigned(r.u32_or_zero(20) as u64), None);
    let entry_note = if e_type == 3 {
        "first instruction, relative to the load base".to_string()
    } else {
        "first instruction".to_string()
    };
    header_field(o, ehdr, "e_entry", 24, 8, Value::Address(entry), Some(entry_note));
    header_field(o, ehdr, "e_phoff", 32, 8, Value::FileOffset(r.u64_or_zero(32)), None);
    header_field(o, ehdr, "e_shoff", 40, 8, Value::FileOffset(r.u64_or_zero(40)), None);
    header_field(o, ehdr, "e_flags", 48, 4, Value::Flags(r.u32_or_zero(48) as u64), None);
    header_field(o, ehdr, "e_ehsize", 52, 2, Value::Unsigned(r.u16_or_zero(52) as u64), None);
    header_field(o, ehdr, "e_phentsize", 54, 2, Value::Unsigned(r.u16_or_zero(54) as u64), None);
    header_field(o, ehdr, "e_phnum", 56, 2, Value::Unsigned(r.u16_or_zero(56) as u64), None);
    header_field(o, ehdr, "e_shentsize", 58, 2, Value::Unsigned(r.u16_or_zero(58) as u64), None);
    header_field(o, ehdr, "e_shnum", 60, 2, Value::Unsigned(r.u16_or_zero(60) as u64), None);
    header_field(o, ehdr, "e_shstrndx", 62, 2, Value::Unsigned(r.u16_or_zero(62) as u64), None);
    out
}

/// The section headers, decoded.
///
/// A section header's name lives in a string table named by another section header, so no
/// name is knowable until every header has been read.
fn section_infos(r: &Reader<'_>, shoff: u64, shnum: u64, shentsize: u64) -> (out: Vec<SectionInfo>)
    requires
        r.little(),
        shoff == layout::shoff(r.all()),
        shentsize == layout::shentsize(r.all()),
    ensures
        out@ == layout::section_infos(r.all(), shnum as nat),
{
    let mut out: Vec<SectionInfo> = Vec::new();
    let mut i: u64 = 0;
    while i < shnum
        invariant
            i <= shnum,
            r.little(),
            shoff == layout::shoff(r.all()),
            shentsize == layout::shentsize(r.all()),
            out@ =~= layout::section_infos(r.all(), i as nat),
        decreases shnum - i,
    {
        let base: u64 = row(shoff, i, shentsize);
        out.push(
            SectionInfo {
                name_off: r.u32_or_zero(base),
                sh_type: r.u32_or_zero(base.saturating_add(4)),
                offset: r.u64_or_zero(base.saturating_add(24)),
                size: r.u64_or_zero(base.saturating_add(32)),
                link: r.u32_or_zero(base.saturating_add(40)),
                entsize: r.u64_or_zero(base.saturating_add(56)),
            },
        );
        i += 1;
    }
    out
}

fn section_at(secs: &Vec<SectionInfo>, i: u64) -> (r: Option<SectionInfo>)
    ensures
        r == layout::section_at(secs@, i),
{
    if i < secs.len() as u64 {
        Some(secs[i as usize])
    } else {
        None
    }
}

fn lookup(r: &Reader<'_>, strtab: Option<SectionInfo>, off: u32) -> (s: String)
    ensures
        s@ == layout::lookup(r.all(), strtab, off),
{
    match strtab {
        Some(t) => string_at(r, t.offset.saturating_add(off as u64), t.size),
        None => String::new(),
    }
}

fn section_name(r: &Reader<'_>, secs: &Vec<SectionInfo>, strndx: u64, off: u32) -> (s: String)
    ensures
        s@ == layout::section_name(r.all(), secs@, strndx, off),
{
    lookup(r, section_at(secs, strndx), off)
}

/// A field of a section header of `size` bytes, if it fits.
fn section_field(
    out: &mut Vec<Claim>,
    size: u64,
    entry: ClaimId,
    idx: u32,
    name: &'static str,
    base: u64,
    off: u64,
    len: u64,
    value: Value,
)
    requires
        off + len <= u64::MAX,
    ensures
        views(final(out)@) == layout::fit(
            views(old(out)@),
            (off + len) as u64,
            size,
            layout::section_field(entry, idx, name, base, off, len, value@),
        ),
{
    field(
        out,
        size,
        entry,
        ClaimKind::SectionHeaderField { idx, name },
        base,
        off,
        len,
        value,
        None,
    );
}

/// The entry of one section header and its fields.
fn section_row(
    out: &mut Vec<Claim>,
    r: &Reader<'_>,
    secs: &Vec<SectionInfo>,
    i: usize,
    table: ClaimId,
    entry: ClaimId,
)
    requires
        r.little(),
        i < secs@.len(),
    ensures
        views(final(out)@) == layout::section_row(
            views(old(out)@),
            r.all(),
            secs@,
            i as int,
            table,
            entry,
        ),
{
    let size: u64 = r.u16_or_zero(58) as u64;
    let base: u64 = row(r.u64_or_zero(40), i as u64, size);
    let idx: u32 = narrow(i as u64);
    let info = secs[i];
    let kind = named(info.sh_type as u64, elf::sht_name(info.sh_type));
    let name = section_name(r, secs, r.u16_or_zero(62) as u64, info.name_off);
    let note = if text::is_blank(name.as_str()) {
        kind
    } else {
        let mut n = name;
        n.append("  ");
        n.append(kind.as_str());
        n
    };
    push(
        out,
        Claim::new(at(base, size), ClaimKind::SectionHeader { idx }).child_of(table).with_note(
            note.as_str(),
        ),
    );
    let v = Value::Unsigned(info.name_off as u64);
    section_field(out, size, entry, idx, "sh_name", base, 0, 4, v);
    let v = Value::Unsigned(info.sh_type as u64);
    section_field(out, size, entry, idx, "sh_type", base, 4, 4, v);
    let v = Value::Flags(r.u64_or_zero(base.saturating_add(8)));
    section_field(out, size, entry, idx, "sh_flags", base, 8, 8, v);
    let v = Value::Address(r.u64_or_zero(base.saturating_add(16)));
    section_field(out, size, entry, idx, "sh_addr", base, 16, 8, v);
    let v = Value::FileOffset(info.offset);
    section_field(out, size, entry, idx, "sh_offset", base, 24, 8, v);
    let v = Value::Unsigned(info.size);
    section_field(out, size, entry, idx, "sh_size", base, 32, 8, v);
    let v = Value::Unsigned(info.link as u64);
    section_field(out, size, entry, idx, "sh_link", base, 40, 4, v);
    let v = Value::Unsigned(r.u32_or_zero(base.saturating_add(44)) as u64);
    section_field(out, size, entry, idx, "sh_info", base, 44, 4, v);
    let v = Value::Unsigned(r.u64_or_zero(base.saturating_add(48)));
    section_field(out, size, entry, idx, "sh_addralign", base, 48, 8, v);
    let v = Value::Unsigned(info.entsize);
    section_field(out, size, entry, idx, "sh_entsize", base, 56, 8, v);
}

/// The section header table, its entries and their fields.
fn parse_shdrs(r: &Reader<'_>, secs: &Vec<SectionInfo>, shnum: u64, start: usize) -> (out: Vec<
    Claim,
>)
    requires
        r.little(),
        shnum == layout::shnum(r.all()),
        secs@ == layout::sections(r.all()),
    ensures
        views(out@) == layout::section_table(r.all(), start as int),
{
    let shoff: u64 = r.u64_or_zero(40);
    let shentsize: u64 = r.u16_or_zero(58) as u64;
    let mut out: Vec<Claim> = Vec::new();
    assert(views(out@) =~= Seq::<ClaimView>::empty());
    if shoff == 0 || shnum == 0 || shentsize == 0 {
        return out;
    }
    let table = next_id(start, &out);
    push(
        &mut out,
        Claim::new(
            at(shoff, sat_mul(shnum, shentsize)),
            ClaimKind::SectionHeaderTable,
        ).with_note("not loaded into memory; `strip` removes most of what it describes"),
    );
    assert(views(out@) =~= layout::section_rows(r.all(), secs@, 0, start as int));
    let mut i: usize = 0;
    while i < secs.len()
        invariant
            i <= secs@.len(),
            secs@.len() == layout::shnum(r.all()),
            r.little(),
            table == coverage::mint(start as int),
            views(out@) == layout::section_rows(r.all(), secs@, i as int, start as int),
        decreases secs.len() - i,
    {
        let entry = next_id(start, &out);
        section_row(&mut out, r, secs, i, table, entry);
        i += 1;
    }
    out
}

/// The program header at `base`, decoded.
fn segment(r: &Reader<'_>, base: u64) -> (seg: Segment)
    requires
        r.little(),
    ensures
        seg == layout::segment(r.all(), base),
{
    Segment {
        p_type: r.u32_or_zero(base),
        flags: r.u32_or_zero(base.saturating_add(4)),
        offset: r.u64_or_zero(base.saturating_add(8)),
        vaddr: r.u64_or_zero(base.saturating_add(16)),
        filesz: r.u64_or_zero(base.saturating_add(32)),
        memsz: r.u64_or_zero(base.saturating_add(40)),
        align: r.u64_or_zero(base.saturating_add(48)),
    }
}

/// A field of a program header of `size` bytes, if it fits.
fn program_field(
    out: &mut Vec<Claim>,
    size: u64,
    entry: ClaimId,
    idx: u32,
    name: &'static str,
    base: u64,
    off: u64,
    len: u64,
    value: Value,
    note: Option<String>,
)
    requires
        off + len <= u64::MAX,
    ensures
        views(final(out)@) == layout::fit(
            views(old(out)@),
            (off + len) as u64,
            size,
            layout::program_field(
                entry,
                idx,
                name,
                base,
                off,
                len,
                value@,
                text::opt_view(note),
            ),
        ),
{
    field(
        out,
        size,
        entry,
        ClaimKind::ProgramHeaderField { idx, name },
        base,
        off,
        len,
        value,
        note,
    );
}

/// The entry of one program header and its fields.
fn program_row(
    out: &mut Vec<Claim>,
    r: &Reader<'_>,
    i: u64,
    seg: Segment,
    table: ClaimId,
    entry: ClaimId,
)
    requires
        r.little(),
        seg == layout::segment(
            r.all(),
            layout::row(layout::phoff(r.all()), i as int, layout::phentsize(r.all())),
        ),
    ensures
        views(final(out)@) == layout::program_row(
            views(old(out)@),
            r.all(),
            i as int,
            table,
            entry,
        ),
{
    let size: u64 = r.u16_or_zero(54) as u64;
    let base: u64 = row(r.u64_or_zero(32), i, size);
    let idx: u32 = narrow(i);
    let kind = named(seg.p_type as u64, elf::pt_name(seg.p_type));
    push(
        out,
        Claim::new(at(base, size), ClaimKind::ProgramHeader { idx }).child_of(table).with_note(
            kind.as_str(),
        ),
    );
    let v = Value::Unsigned(seg.p_type as u64);
    program_field(out, size, entry, idx, "p_type", base, 0, 4, v, None);
    let v = Value::Flags(seg.flags as u64);
    program_field(out, size, entry, idx, "p_flags", base, 4, 4, v, None);
    let v = Value::FileOffset(seg.offset);
    program_field(out, size, entry, idx, "p_offset", base, 8, 8, v, None);
    let v = Value::Address(seg.vaddr);
    program_field(out, size, entry, idx, "p_vaddr", base, 16, 8, v, None);
    let v = Value::Address(r.u64_or_zero(base.saturating_add(24)));
    program_field(out, size, entry, idx, "p_paddr", base, 24, 8, v, None);
    let v = Value::Unsigned(seg.filesz);
    program_field(out, size, entry, idx, "p_filesz", base, 32, 8, v, None);
    // The one field pair the whole project is about.
    let note: Option<String> = if seg.memsz > seg.filesz {
        let mut n = text::dec_text(seg.memsz - seg.filesz);
        n.append(" bytes beyond p_filesz are zero-filled at load: .bss, present in no file");
        Some(n)
    } else {
        None
    };
    let v = Value::Unsigned(seg.memsz);
    program_field(out, size, entry, idx, "p_memsz", base, 40, 8, v, note);
    let v = Value::Unsigned(seg.align);
    program_field(out, size, entry, idx, "p_align", base, 48, 8, v, None);
}

/// The program header table, its entries and their fields.
fn parse_phdrs(r: &Reader<'_>, phnum: u64, start: usize, summary: &mut Summary) -> (out: Vec<Claim>)
    requires
        r.little(),
        phnum == layout::phnum(r.all()),
        old(summary)@.interp is None,
        !old(summary)@.has_dynamic,
        old(summary)@.segments.len() == 0,
    ensures
        views(out@) == layout::program_table(r.all(), start as int),
        ({
            let n = if layout::has_programs(r.all()) {
                phnum
            } else {
                0
            };
            final(summary)@ == (SummaryView {
                interp: layout::interp(r.all(), n as int),
                has_dynamic: layout::any_dynamic(layout::segments(r.all(), n as nat)),
                segments: layout::segments(r.all(), n as nat),
                ..old(summary)@
            })
        }),
{
    let phoff: u64 = r.u64_or_zero(32);
    let phentsize: u64 = r.u16_or_zero(54) as u64;
    let mut out: Vec<Claim> = Vec::new();
    assert(views(out@) =~= Seq::<ClaimView>::empty());
    assert(summary.segments@ =~= layout::segments(r.all(), 0));
    if phoff == 0 || phnum == 0 || phentsize == 0 {
        return out;
    }
    let table = next_id(start, &out);
    push(
        &mut out,
        Claim::new(at(phoff, sat_mul(phnum, phentsize)), ClaimKind::ProgramHeaderTable).with_note(
            "what the kernel reads; the section headers below are for tools, not for loading",
        ),
    );
    assert(views(out@) =~= layout::program_rows(r.all(), 0, start as int));
    let mut i: u64 = 0;
    while i < phnum
        invariant
            i <= phnum,
            phoff == layout::phoff(r.all()),
            phentsize == layout::phentsize(r.all()),
            phnum == layout::phnum(r.all()),
            r.little(),
            table == coverage::mint(start as int),
            views(out@) == layout::program_rows(r.all(), i as int, start as int),
            summary@ == (SummaryView {
                interp: layout::interp(r.all(), i as int),
                has_dynamic: layout::any_dynamic(layout::segments(r.all(), i as nat)),
                segments: layout::segments(r.all(), i as nat),
                ..old(summary)@
            }),
        decreases phnum - i,
    {
        let seg = segment(r, row(phoff, i, phentsize));
        let entry = next_id(start, &out);
        program_row(&mut out, r, i, seg, table, entry);
        proof {
            let was = layout::segments(r.all(), i as nat);
            let now = layout::segments(r.all(), (i + 1) as nat);
            assert(now =~= was.push(seg));
            if layout::any_dynamic(was) {
                let k = choose|k: int| 0 <= k < was.len() && (#[trigger] was[k]).p_type == 2;
                assert(now[k].p_type == 2);
            }
            if seg.p_type == 2 {
                assert(now[i as int].p_type == 2);
            }
            if layout::any_dynamic(now) {
                let k = choose|k: int| 0 <= k < now.len() && (#[trigger] now[k]).p_type == 2;
                if k < i {
                    assert(was[k].p_type == 2);
                }
            }
        }
        summary.segments.push(seg);
        if seg.p_type == 2 {
            summary.has_dynamic = true;
        }
        if seg.p_type == 3 && summary.interp.is_none() {
            if let Some(s) = r.cstr_at(seg.offset, seg.filesz) {
                summary.interp = match text::from_utf8(s) {
                    Some(t) => Some(t.to_string()),
                    None => None,
                };
            }
        }
        i += 1;
    }
    out
}

/// The strings of a string table, one claim each.
fn parse_strtab(
    out: &mut Vec<Claim>,
    r: &Reader<'_>,
    parent: ClaimId,
    sec: SectionInfo,
    idx: u32,
)
    ensures
        views(final(out)@) == layout::strings(views(old(out)@), r.all(), sec, idx, parent, 0),
{
    let ghost all = layout::strings(views(out@), r.all(), sec, idx, parent, 0);
    let mut off: u64 = 0;
    while off < sec.size
        invariant
            off <= sec.size,
            layout::strings(views(out@), r.all(), sec, idx, parent, off) == all,
        decreases sec.size - off,
    {
        let base: u64 = sec.offset.saturating_add(off);
        let remaining: u64 = sec.size - off;
        let found: Option<&[u8]> = r.cstr_at(base, remaining);
        let len: u64 = match found {
            Some(s) => s.len() as u64,
            None => 0,
        };
        proof {
            if found is Some {
                reader::law_cstr_stops_at_nul_or_cap(r.all(), base as int, remaining as int);
            }
        }
        // Include the NUL, unless the table is truncated and there isn't one.
        let claim_len: u64 = if len < remaining {
            len + 1
        } else {
            remaining
        };
        let mut claim = Claim::new(
            at(base, claim_len),
            ClaimKind::StringEntry { table: idx, offset: narrow(off) },
        ).child_of(parent);
        if let Some(s) = found {
            if let Some(t) = text::from_utf8(s) {
                if !text::is_blank(t) {
                    claim = claim.with_value(Value::Text(t.to_string()));
                }
            }
        } else {
            proof {
                text::lemma_utf8_of_nothing();
            }
        }
        push(out, claim);
        off = off + claim_len;
    }
}

/// The symbols of a symbol table, one claim each.
fn parse_symtab(
    out: &mut Vec<Claim>,
    r: &Reader<'_>,
    parent: ClaimId,
    sec: SectionInfo,
    secs: &Vec<SectionInfo>,
    idx: u32,
)
    requires
        r.little(),
    ensures
        views(final(out)@) == layout::symbols(
            views(old(out)@),
            r.all(),
            secs@,
            sec,
            idx,
            parent,
            layout::entry_count(sec, layout::entry_size(sec, elf::SYM64_SIZE)) as int,
        ),
{
    let size: u64 = entry_size(sec, elf::SYM64_SIZE);
    let strtab = section_at(secs, sec.link as u64);
    let count: u64 = sec.size / size;
    let ghost before = views(out@);
    let mut i: u64 = 0;
    while i < count
        invariant
            i <= count,
            r.little(),
            size == layout::entry_size(sec, elf::SYM64_SIZE),
            strtab == layout::section_at(secs@, sec.link as u64),
            views(out@) == layout::symbols(before, r.all(), secs@, sec, idx, parent, i as int),
        decreases count - i,
    {
        let base: u64 = row(sec.offset, i, size);
        let name = lookup(r, strtab, r.u32_or_zero(base));
        let kind: &'static str = match elf::st_type_name(r.u8_or_zero(base.saturating_add(4))) {
            Some(k) => k,
            None => "?",
        };
        let mut note = kind.to_string();
        if text::is_blank(name.as_str()) {
            note.append(" (unnamed)");
        } else {
            note.append(" ");
            note.append(name.as_str());
        }
        push(
            out,
            Claim::new(
                at(base, size),
                ClaimKind::SymbolEntry { table: idx, idx: narrow(i) },
            ).child_of(parent).with_value(
                Value::Address(r.u64_or_zero(base.saturating_add(8))),
            ).with_note(note.as_str()),
        );
        i += 1;
    }
}

/// The size of a table's entries: what the section says, or what the format says.
fn entry_size(sec: SectionInfo, default: u64) -> (r: u64)
    requires
        default != 0,
    ensures
        r == layout::entry_size(sec, default),
        r != 0,
{
    if sec.entsize == 0 {
        default
    } else {
        sec.entsize
    }
}

fn push_reloc(relocs: &mut Vec<Reloc>, reloc: Reloc)
    ensures
        reloc_views(final(relocs)@) == reloc_views(old(relocs)@).push(reloc@),
{
    relocs.push(reloc);
    assert(reloc_views(relocs@) =~= reloc_views(old(relocs)@).push(reloc@));
}

/// Relocation `i` of a section, decoded.
fn reloc(
    r: &Reader<'_>,
    sec: SectionInfo,
    secs: &Vec<SectionInfo>,
    rela: bool,
    table: RelocTableKind,
    i: u64,
) -> (out: Reloc)
    requires
        r.little(),
    ensures
        forall|name: Seq<char>|
            table == layout::reloc_kind(rela, name) ==> out@ == #[trigger] layout::reloc(
                r.all(),
                secs@,
                sec,
                rela,
                name,
                i as int,
            ),
{
    let size: u64 = entry_size(
        sec,
        if rela {
            elf::RELA64_SIZE
        } else {
            elf::REL64_SIZE
        },
    );
    let base: u64 = row(sec.offset, i, size);
    let info: u64 = r.u64_or_zero(base.saturating_add(8));
    let sym_idx: u64 = info / 0x1_0000_0000;
    // sh_link on a relocation section names the symbol table its indices refer to.
    let symtab = section_at(secs, sec.link as u64);
    let mut symbol: Option<String> = None;
    let mut weak: bool = false;
    if sym_idx != 0 {
        if let Some(st) = symtab {
            let symstr = section_at(secs, st.link as u64);
            let sym_at: u64 = st.offset.saturating_add(
                sat_mul(sym_idx, entry_size(st, elf::SYM64_SIZE)),
            );
            let name = lookup(r, symstr, r.u32_or_zero(sym_at));
            if !text::is_blank(name.as_str()) {
                symbol = Some(name);
                // The binding is the high half of st_info; STB_WEAK is 2.
                let st_info: u8 = r.u8_or_zero(sym_at.saturating_add(4));
                let shndx: u16 = r.u16_or_zero(sym_at.saturating_add(6));
                weak = st_info / 16 == 2 && shndx == 0;
            }
        }
    }
    Reloc {
        table,
        offset: r.u64_or_zero(base),
        r_type: (info % 0x1_0000_0000) as u32,
        addend: if rela {
            match r.i64_at(base.saturating_add(16)) {
                Some(v) => v,
                None => 0,
            }
        } else {
            0
        },
        symbol,
        weak,
        file_span: at(base, size),
    }
}

/// The claim of a decoded relocation.
fn reloc_claim(reloc: &Reloc, table: u32, parent: ClaimId, i: u64) -> (c: Claim)
    ensures
        c@ == layout::reloc_claim(reloc@, table, parent, i as int),
{
    let mut note = match elf::r_x86_64_name(reloc.r_type) {
        Some(n) => n.to_string(),
        None => {
            let mut n = "type ".to_string();
            n.append(text::dec_text(reloc.r_type as u64).as_str());
            n
        },
    };
    if let Some(name) = &reloc.symbol {
        note.append(" → ");
        note.append(name.as_str());
    }
    Claim::new(
        reloc.file_span,
        ClaimKind::RelocationEntry { table, idx: narrow(i), r_type: reloc.r_type },
    ).child_of(parent).with_value(Value::Address(reloc.offset)).with_note(note.as_str())
}

/// The relocations of a section, one claim each, and decoded.
fn parse_relocs(
    out: &mut Vec<Claim>,
    r: &Reader<'_>,
    parent: ClaimId,
    sec: SectionInfo,
    secs: &Vec<SectionInfo>,
    idx: u32,
    rela: bool,
    name: &str,
    relocs: &mut Vec<Reloc>,
)
    requires
        r.little(),
    ensures
        ({
            let n = layout::entry_count(sec, layout::reloc_size(sec, rela));
            &&& views(final(out)@) == layout::reloc_claims(
                views(old(out)@),
                r.all(),
                secs@,
                sec,
                rela,
                name@,
                idx,
                parent,
                n as int,
            )
            &&& reloc_views(final(relocs)@) == reloc_views(old(relocs)@) + layout::relocs(
                r.all(),
                secs@,
                sec,
                rela,
                name@,
                n as nat,
            )
        }),
{
    // `.rela.plt` is DT_JMPREL: the same entry format, processed in its own pass and, on
    // a lazy binary, not processed at startup at all.
    let table = if text::ends_with(name, ".plt") {
        RelocTableKind::JmpRel
    } else if rela {
        RelocTableKind::Rela
    } else {
        RelocTableKind::Rel
    };
    let size: u64 = entry_size(
        sec,
        if rela {
            elf::RELA64_SIZE
        } else {
            elf::REL64_SIZE
        },
    );
    let count: u64 = sec.size / size;
    let ghost before = views(out@);
    let ghost known = reloc_views(relocs@);
    let mut i: u64 = 0;
    assert(known =~= known + layout::relocs(r.all(), secs@, sec, rela, name@, 0));
    while i < count
        invariant
            i <= count,
            r.little(),
            table == layout::reloc_kind(rela, name@),
            views(out@) == layout::reloc_claims(
                before,
                r.all(),
                secs@,
                sec,
                rela,
                name@,
                idx,
                parent,
                i as int,
            ),
            reloc_views(relocs@) == known + layout::relocs(
                r.all(),
                secs@,
                sec,
                rela,
                name@,
                i as nat,
            ),
        decreases count - i,
    {
        let one = reloc(r, sec, secs, rela, table, i);
        push(out, reloc_claim(&one, idx, parent, i));
        push_reloc(relocs, one);
        i += 1;
        assert(reloc_views(relocs@) =~= known + layout::relocs(
            r.all(),
            secs@,
            sec,
            rela,
            name@,
            i as nat,
        ));
    }
}

fn relr_at(offset: u64, file_span: Span) -> (r: Reloc)
    ensures
        r@ == layout::relr_at(offset, file_span),
{
    Reloc {
        table: RelocTableKind::Relr,
        offset,
        r_type: 8,  // R_X86_64_RELATIVE
        addend: 0,
        symbol: None,
        weak: false,
        file_span,
    }
}

/// The relocations one bitmap stands for.
fn relr_bits(relocs: &mut Vec<Reloc>, word: u64, start: u64, file_span: Span) -> (count: u64)
    ensures
        reloc_views(final(relocs)@) == layout::relr_bits(
            reloc_views(old(relocs)@),
            word,
            start,
            file_span,
        ),
        count == layout::ones(word),
{
    let ghost all = layout::relr_bits(reloc_views(relocs@), word, start, file_span);
    let mut bits: u64 = word;
    let mut addr: u64 = start;
    let mut count: u64 = 0;
    proof {
        lemma_ones_bound(word);
    }
    while bits != 0
        invariant
            layout::relr_bits(reloc_views(relocs@), bits, addr, file_span) == all,
            count + layout::ones(bits) == layout::ones(word),
            layout::ones(word) <= word,
        decreases bits,
    {
        if bits % 2 == 1 {
            push_reloc(relocs, relr_at(addr, file_span));
            count = count + 1;
        }
        addr = addr.saturating_add(8);
        bits = bits / 2;
    }
    count
}

proof fn lemma_ones_bound(n: u64)
    ensures
        layout::ones(n) <= n,
    decreases n,
{
    if n > 0 {
        lemma_ones_bound(n / 2);
    }
}

/// The words of a `DT_RELR` section, one claim each, and the relocations they stand for.
///
/// RELR is a run-length scheme: an even word is an address, an odd word is a bitmap of
/// the 63 words that follow it. Expanded here because the loader applies each bit as
/// its own relocation, and a timeline showing "one bitmap word" shows nothing.
fn parse_relr(
    out: &mut Vec<Claim>,
    r: &Reader<'_>,
    parent: ClaimId,
    sec: SectionInfo,
    idx: u32,
    relocs: &mut Vec<Reloc>,
)
    requires
        r.little(),
    ensures
        ({
            let n = layout::entry_count(sec, elf::RELR64_SIZE);
            &&& views(final(out)@) == layout::relr_claims(
                views(old(out)@),
                r.all(),
                sec,
                idx,
                parent,
                n as int,
            )
            &&& reloc_views(final(relocs)@) == layout::relr_relocs(
                reloc_views(old(relocs)@),
                r.all(),
                sec,
                n as int,
            )
        }),
{
    let count: u64 = sec.size / elf::RELR64_SIZE;
    let ghost before = views(out@);
    let ghost known = reloc_views(relocs@);
    let mut cursor: u64 = 0;
    let mut i: u64 = 0;
    while i < count
        invariant
            i <= count,
            r.little(),
            cursor == layout::relr_cursor(r.all(), sec, i as int),
            views(out@) == layout::relr_claims(before, r.all(), sec, idx, parent, i as int),
            reloc_views(relocs@) == layout::relr_relocs(known, r.all(), sec, i as int),
        decreases count - i,
    {
        let base: u64 = row(sec.offset, i, elf::RELR64_SIZE);
        let word: u64 = r.u64_or_zero(base);
        let entry = at(base, elf::RELR64_SIZE);
        let note = if word % 2 == 0 {
            push_reloc(relocs, relr_at(word, entry));
            cursor = word.saturating_add(8);
            let mut n = "base address ".to_string();
            n.append(text::hex_text(word).as_str());
            n
        } else {
            // One 8-byte word can encode 63 relocations that RELA would spend 1512 bytes on.
            let set: u64 = relr_bits(relocs, word / 2, cursor, entry);
            cursor = cursor.saturating_add(504);
            let mut n = "bitmap, ".to_string();
            n.append(text::dec_text(set).as_str());
            n.append(" relocations");
            n
        };
        push(
            out,
            Claim::new(entry, ClaimKind::RelrWord { table: idx, idx: narrow(i) }).child_of(
                parent,
            ).with_value(Value::Unsigned(word)).with_note(note.as_str()),
        );
        i += 1;
    }
}

/// The entries of the dynamic section, one claim each, and what they say.
fn parse_dynamic(
    out: &mut Vec<Claim>,
    r: &Reader<'_>,
    parent: ClaimId,
    sec: SectionInfo,
    secs: &Vec<SectionInfo>,
    summary: &mut Summary,
)
    requires
        r.little(),
    ensures
        ({
            let n = layout::entry_count(sec, layout::entry_size(sec, elf::DYN64_SIZE));
            &&& views(final(out)@) == layout::dyn_claims(
                views(old(out)@),
                r.all(),
                secs@,
                sec,
                parent,
                n as int,
            )
            &&& final(summary)@ == layout::dyn_facts(
                old(summary)@,
                r.all(),
                secs@,
                sec,
                n as int,
            )
        }),
{
    let size: u64 = entry_size(sec, elf::DYN64_SIZE);
    let count: u64 = sec.size / size;
    let ghost before = views(out@);
    let ghost known = summary@;
    let mut ended: bool = false;
    let mut i: u64 = 0;
    while i < count
        invariant
            i <= count,
            r.little(),
            size == layout::entry_size(sec, elf::DYN64_SIZE),
            ended == layout::dyn_ended(r.all(), sec, i as int),
            views(out@) == layout::dyn_claims(before, r.all(), secs@, sec, parent, i as int),
            summary@ == layout::dyn_facts(known, r.all(), secs@, sec, i as int),
        decreases count - i,
    {
        let base: u64 = row(sec.offset, i, size);
        let tag: u64 = r.u64_or_zero(base);
        let val: u64 = r.u64_or_zero(base.saturating_add(8));
        let note = dynamic_entry(r, sec, secs, i, tag, val, ended, summary);
        if tag == elf::DT_NULL {
            ended = true;
        }
        push(
            out,
            Claim::new(at(base, size), ClaimKind::DynamicEntry { idx: narrow(i), tag }).child_of(
                parent,
            ).with_value(Value::Unsigned(val)).with_note(note.as_str()),
        );
        i += 1;
    }
}

/// What one entry of the dynamic section says, as a note and as a fact.
fn dynamic_entry(
    r: &Reader<'_>,
    sec: SectionInfo,
    secs: &Vec<SectionInfo>,
    i: u64,
    tag: u64,
    val: u64,
    ended: bool,
    summary: &mut Summary,
) -> (note: String)
    requires
        tag == layout::dyn_tag(r.all(), sec, i as int),
        val == layout::dyn_val(r.all(), sec, i as int),
        ended == layout::dyn_ended(r.all(), sec, i as int),
    ensures
        note@ == layout::dyn_note(r.all(), secs@, sec, i as int),
        final(summary)@ == layout::dyn_fact(old(summary)@, r.all(), secs@, sec, i as int),
{
    let mut note = match elf::dt_name(tag) {
        Some(n) => n.to_string(),
        None => text::hex_text(tag),
    };
    if tag == elf::DT_NEEDED || tag == elf::DT_SONAME || tag == elf::DT_RPATH || tag
        == elf::DT_RUNPATH {
        let off: u32 = if val > u32::MAX as u64 {
            0
        } else {
            val as u32
        };
        let name = lookup(r, section_at(secs, sec.link as u64), off);
        if !text::is_blank(name.as_str()) {
            note.append(" ");
            note.append(name.as_str());
            if tag == elf::DT_NEEDED {
                let ghost was = summary@;
                let ghost said = name@;
                summary.needed.push(name);
                assert(summary@.needed =~= was.needed.push(said));
            } else if tag == elf::DT_SONAME {
                summary.soname = Some(name);
            }
        }
    } else if tag == elf::DT_FLAGS && (val & elf::DF_BIND_NOW) != 0 {
        summary.bind_now = true;
        note.append(" BIND_NOW");
    } else if tag == elf::DT_INIT {
        summary.init = Some(val);
    } else if tag == elf::DT_INIT_ARRAY {
        let size: u64 = match summary.init_array {
            Some((_, s)) => s,
            None => 0,
        };
        summary.init_array = Some((val, size));
    } else if tag == elf::DT_INIT_ARRAYSZ {
        let base: u64 = match summary.init_array {
            Some((a, _)) => a,
            None => 0,
        };
        summary.init_array = Some((base, val));
    } else if tag == elf::DT_NULL {
        if ended {
            note.append(" (padding past the end)");
        } else {
            note.append(" — end of the table");
        }
    }
    note
}

/// `v` rounded up to a multiple of four.
fn align4(v: u64) -> (r: u64)
    ensures
        r == layout::round4(v),
{
    v.saturating_add(3) / 4 * 4
}

/// The notes of a note section, one claim each.
fn parse_notes(out: &mut Vec<Claim>, r: &Reader<'_>, parent: ClaimId, sec: SectionInfo)
    requires
        r.little(),
    ensures
        views(final(out)@) == layout::notes(views(old(out)@), r.all(), sec, parent, 0, 0),
{
    let ghost all = layout::notes(views(out@), r.all(), sec, parent, 0, 0);
    let mut off: u64 = 0;
    let mut n: u32 = 0;
    loop
        invariant
            r.little(),
            all == layout::notes(views(old(out)@), r.all(), sec, parent, 0, 0),
            layout::notes(views(out@), r.all(), sec, parent, off, n) == all,
        decreases sec.size - off,
    {
        let base: u64 = sec.offset.saturating_add(off);
        let namesz: u64 = r.u32_or_zero(base) as u64;
        let descsz: u64 = r.u32_or_zero(base.saturating_add(4)) as u64;
        let ntype: u32 = r.u32_or_zero(base.saturating_add(8));
        let total: u64 = 12u64.saturating_add(align4(namesz)).saturating_add(align4(descsz));
        if off.saturating_add(12) > sec.size || off.saturating_add(total) > sec.size || off
            >= sec.size || total == 0 {
            return ;
        }
        let mut note = string_at(r, base.saturating_add(12), namesz);
        note.append(" type ");
        note.append(text::dec_text(ntype as u64).as_str());
        push(
            out,
            Claim::new(at(base, total), ClaimKind::Note { idx: n }).child_of(parent).with_value(
                Value::Unsigned(ntype as u64),
            ).with_note(note.as_str()),
        );
        off = off.saturating_add(total);
        n = n.saturating_add(1);
    }
}

/// What a section body is.
fn body_kind(sec: SectionInfo, name: &str, idx: u32) -> (r: ClaimKind)
    ensures
        r == layout::body_kind(sec, name@, idx),
{
    match sec.sh_type {
        elf::SHT_STRTAB => ClaimKind::StringTable { table: idx },
        elf::SHT_SYMTAB => ClaimKind::SymbolTable { dynamic: false },
        elf::SHT_DYNSYM => ClaimKind::SymbolTable { dynamic: true },
        elf::SHT_RELA => ClaimKind::RelocationTable { kind: RelocTableKind::Rela },
        elf::SHT_REL => ClaimKind::RelocationTable { kind: RelocTableKind::Rel },
        elf::SHT_RELR => ClaimKind::RelocationTable { kind: RelocTableKind::Relr },
        elf::SHT_DYNAMIC => ClaimKind::DynamicTable,
        elf::SHT_HASH => ClaimKind::HashTable { gnu: false },
        elf::SHT_GNU_HASH => ClaimKind::HashTable { gnu: true },
        elf::SHT_GNU_VERDEF => ClaimKind::VersionTable { kind: VersionTableKind::VerDef },
        elf::SHT_GNU_VERNEED => ClaimKind::VersionTable { kind: VersionTableKind::VerNeed },
        elf::SHT_GNU_VERSYM => ClaimKind::VersionTable { kind: VersionTableKind::VerSym },
        _ => if text::same(name, ".interp") {
            ClaimKind::Interp
        } else {
            ClaimKind::SectionBody { idx }
        },
    }
}

/// The bodies of the sections, and whatever entries they have.
fn parse_section_bodies(
    r: &Reader<'_>,
    secs: &Vec<SectionInfo>,
    start: usize,
    summary: &mut Summary,
) -> (out: Vec<Claim>)
    requires
        r.little(),
    ensures
        views(out@) == layout::bodies(r.all(), secs@, secs@.len() as int, start as int),
        final(summary)@ == layout::all_body_facts(
            old(summary)@,
            r.all(),
            secs@,
            secs@.len() as int,
        ),
{
    let mut out: Vec<Claim> = Vec::new();
    assert(views(out@) =~= Seq::<ClaimView>::empty());
    let mut i: usize = 0;
    while i < secs.len()
        invariant
            i <= secs@.len(),
            r.little(),
            views(out@) == layout::bodies(r.all(), secs@, i as int, start as int),
            summary@ == layout::all_body_facts(old(summary)@, r.all(), secs@, i as int),
        decreases secs.len() - i,
    {
        section_body(&mut out, r, secs, i, start, summary);
        i += 1;
    }
    out
}

/// The body of one section, and whatever entries it has.
fn section_body(
    out: &mut Vec<Claim>,
    r: &Reader<'_>,
    secs: &Vec<SectionInfo>,
    i: usize,
    start: usize,
    summary: &mut Summary,
)
    requires
        r.little(),
        i < secs@.len(),
    ensures
        views(final(out)@) == layout::body(
            views(old(out)@),
            r.all(),
            secs@,
            i as int,
            start as int,
        ),
        final(summary)@ == layout::body_facts(old(summary)@, r.all(), secs@, i as int),
{
    let sec = secs[i];
    let idx: u32 = narrow(i as u64);
    // NOBITS occupies no file space, and its sh_offset deliberately overlaps the next
    // section, which is exactly the kind of thing the coverage invariant would otherwise
    // flag as a parser bug.
    if sec.sh_type == elf::SHT_NULL || sec.sh_type == elf::SHT_NOBITS || sec.size == 0 {
        return ;
    }
    if r.slice_at(sec.offset, sec.size).is_none() {
        return ;
    }
    let name = section_name(r, secs, r.u16_or_zero(62) as u64, sec.name_off);
    let body = next_id(start, out);
    let claim = Claim::new(at(sec.offset, sec.size), body_kind(sec, name.as_str(), idx));
    if text::is_blank(name.as_str()) {
        let mut note = "section ".to_string();
        note.append(text::dec_text(i as u64).as_str());
        push(out, claim.with_note(note.as_str()));
    } else {
        push(out, claim.with_note(name.as_str()));
    }
    match sec.sh_type {
        elf::SHT_STRTAB => parse_strtab(out, r, body, sec, idx),
        elf::SHT_SYMTAB => parse_symtab(out, r, body, sec, secs, idx),
        elf::SHT_DYNSYM => parse_symtab(out, r, body, sec, secs, idx),
        elf::SHT_RELA => {
            let relocs = &mut summary.relocs;
            parse_relocs(out, r, body, sec, secs, idx, true, name.as_str(), relocs);
        },
        elf::SHT_REL => {
            let relocs = &mut summary.relocs;
            parse_relocs(out, r, body, sec, secs, idx, false, name.as_str(), relocs);
        },
        elf::SHT_RELR => {
            summary.has_relr = true;
            parse_relr(out, r, body, sec, idx, &mut summary.relocs);
        },
        elf::SHT_DYNAMIC => parse_dynamic(out, r, body, sec, secs, summary),
        elf::SHT_NOTE => parse_notes(out, r, body, sec),
        _ => {},
    }
}

/// A fault among the first claims is the fault of all of them.
proof fn lemma_push_all_prefix(l: Ledger, claims: Seq<ClaimView>, n: int)
    requires
        0 <= n <= claims.len(),
        layout::push_all(l, claims.take(n)) is Err,
    ensures
        layout::push_all(l, claims) == layout::push_all(l, claims.take(n)),
    decreases claims.len() - n,
{
    if n < claims.len() {
        assert(claims.take(n + 1).drop_last() =~= claims.take(n));
        lemma_push_all_prefix(l, claims, n + 1);
    } else {
        assert(claims.take(n) =~= claims);
    }
}

/// Adds the claims in order, stopping at the first that cannot be added.
fn push_list(b: &mut CoverageBuilder, claims: Vec<Claim>) -> (r: Result<(), ParseError>)
    requires
        old(b).wf(),
    ensures
        final(b).wf(),
        match layout::push_all(old(b)@, views(claims@)) {
            Ok(l) => r is Ok && final(b)@ == l,
            Err(e) => r is Err && r->Err_0@ == ParseErrorView::Coverage(e),
        },
{
    let ghost before = b@;
    let ghost all = views(claims@);
    assert(all.take(0) =~= Seq::<ClaimView>::empty());
    for claim in it: claims
        invariant
            b.wf(),
            before == old(b)@,
            all == views(claims@),
            it.seq() == claims@,
            layout::push_all(before, all.take(it.index())) == Ok::<Ledger, CoverageError>(b@),
    {
        proof {
            let n = it.index();
            assert(all.take(n + 1).drop_last() =~= all.take(n));
            assert(all.take(n + 1).last() == claim@);
        }
        if let Err(e) = b.push(claim) {
            proof {
                lemma_push_all_prefix(before, all, it.index() + 1);
            }
            return Err(ParseError::Coverage(e));
        }
    }
    assert(all.take(all.len() as int) =~= all);
    Ok(())
}

/// Parse an ELF64 little-endian file into a total coverage.
pub fn parse(bytes: &[u8]) -> (r: Result<Parsed, ParseError>)
    ensures
        match layout::outcome(bytes@) {
            Ok((ledger, facts)) => {
                &&& r is Ok
                &&& r->Ok_0.coverage.wf()
                &&& r->Ok_0.coverage@ == ledger
                &&& r->Ok_0.summary@ == facts
            },
            Err(e) => r is Err && r->Err_0@ == e,
        },
{
    let len: u64 = bytes.len() as u64;
    if len < elf::EHDR64_SIZE {
        return Err(ParseError::TooSmall { len });
    }
    let magic: [u8; 4] = [bytes[0], bytes[1], bytes[2], bytes[3]];
    assert(magic@ =~= bytes@.take(4));
    if magic[0] != elf::ELF_MAGIC[0] || magic[1] != elf::ELF_MAGIC[1] || magic[2]
        != elf::ELF_MAGIC[2] || magic[3] != elf::ELF_MAGIC[3] {
        return Err(ParseError::BadMagic { found: magic });
    }
    assert(magic@ =~= elf::ELF_MAGIC@);
    let class: u8 = bytes[4];
    if class != elf::ELFCLASS64 {
        return Err(ParseError::UnsupportedClass { class });
    }
    let data: u8 = bytes[5];
    if data != elf::ELFDATA2LSB {
        return Err(ParseError::UnsupportedData { data });
    }
    let r = Reader::new(bytes, true);
    let mut b = CoverageBuilder::new();
    b.add_file(FileId::primary(), len);
    assert(b@ =~= layout::blank(bytes@));
    let mut summary = Summary::default();
    match claim_all(&r, &mut b, &mut summary) {
        Ok(()) => {},
        Err(e) => return Err(e),
    }
    proof {
        layout::lemma_claimed_is_one_file(bytes@);
    }
    b.fill_unclaimed();
    match b.finish() {
        Ok(coverage) => Ok(Parsed { coverage, summary }),
        Err(e) => Err(ParseError::Coverage(e)),
    }
}

/// Everything the structures of a file claim, and what they say.
fn claim_all(r: &Reader<'_>, b: &mut CoverageBuilder, summary: &mut Summary) -> (res: Result<
    (),
    ParseError,
>)
    requires
        r.little(),
        old(b).wf(),
        old(b)@ == layout::blank(r.all()),
        old(summary)@ == SummaryView::blank(),
    ensures
        final(b).wf(),
        match layout::claimed(r.all()) {
            Ok(l) => res is Ok && final(b)@ == l && final(summary)@ == layout::facts(r.all()),
            Err(e) => res is Err && res->Err_0@ == e,
        },
{
    let ghost bytes = r.all();
    let header = parse_ehdr(r, summary);
    match push_list(b, header) {
        Ok(()) => {},
        Err(e) => return Err(e),
    }
    let phoff: u64 = r.u64_or_zero(32);
    let shoff: u64 = r.u64_or_zero(40);
    let phentsize: u64 = r.u16_or_zero(54) as u64;
    let shentsize: u64 = r.u16_or_zero(58) as u64;
    let mut phnum: u64 = r.u16_or_zero(56) as u64;
    let mut shnum: u64 = r.u16_or_zero(60) as u64;
    // Both counts have an escape hatch for files with more than 0xffff of a thing; the
    // real value hides in section 0, which is otherwise all zeroes.
    if shoff != 0 && shentsize >= elf::SHDR64_SIZE {
        if shnum == 0 {
            shnum = r.u64_or_zero(shoff.saturating_add(32));
        }
        if phnum == elf::PN_XNUM as u64 {
            phnum = r.u32_or_zero(shoff.saturating_add(44)) as u64;
        }
    }
    summary.phnum = phnum;
    summary.shnum = shnum;

    let has_sections: bool = shoff != 0 && shnum != 0 && shentsize != 0;
    if has_sections && r.slice_at(shoff, sat_mul(shnum, shentsize)).is_none() {
        return Err(ParseError::Truncated { what: "the section header table", off: shoff });
    }
    let listed: u64 = if has_sections {
        shnum
    } else {
        0
    };
    let sections = section_infos(r, shoff, listed, shentsize);
    assert(sections@ =~= layout::sections(bytes));
    let table = parse_shdrs(r, &sections, shnum, b.claim_count());
    match push_list(b, table) {
        Ok(()) => {},
        Err(e) => return Err(e),
    }

    let has_programs: bool = phoff != 0 && phnum != 0 && phentsize != 0;
    if has_programs && r.slice_at(phoff, sat_mul(phnum, phentsize)).is_none() {
        return Err(ParseError::Truncated { what: "the program header table", off: phoff });
    }
    let table = parse_phdrs(r, phnum, b.claim_count(), summary);
    match push_list(b, table) {
        Ok(()) => {},
        Err(e) => return Err(e),
    }
    assert(summary@ =~= layout::header_facts(bytes));

    let bodies = parse_section_bodies(r, &sections, b.claim_count(), summary);
    push_list(b, bodies)
}

} // verus!
