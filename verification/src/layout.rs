//! What an ELF64 file says, structure by structure.
//!
//! Each function here names what one structure of a file contributes: the claims it makes,
//! in order, and the facts it adds to the summary. The parser is proved to produce exactly
//! these. A claim list is extended rather than built afresh, because an entry's parent is
//! known by its position among all claims made so far.

use vstd::arithmetic::power2::{lemma2_to64, lemma2_to64_rest, lemma_pow2_unfold, pow2};
use vstd::prelude::*;

use crate::claim::{ClaimId, ClaimKind, ClaimView, RelocTableKind, ValueView, VersionTableKind};
use crate::coverage;
use crate::coverage::{CoverageError, Ledger};
use crate::elf;
use crate::parse::{ParseErrorView, RelocView, SectionInfo, Segment, SummaryView};
use crate::reader;
use crate::span;
use crate::span::{FileId, Span};
use crate::text;

verus! {

/// `a` times `b`, or `u64::MAX` where it does not fit.
pub open spec fn sat_mul(a: u64, b: u64) -> u64 {
    if a * b > u64::MAX {
        u64::MAX
    } else {
        (a * b) as u64
    }
}

/// `n` as a `u32`, or `u32::MAX` where it does not fit.
pub open spec fn narrow(n: int) -> u32 {
    if n > u32::MAX {
        u32::MAX
    } else {
        n as u32
    }
}

/// `len` bytes at `start` of the parsed file.
pub open spec fn at(start: u64, len: u64) -> Span {
    Span { file: FileId(0), start, len }
}

/// Where row `i` of a table at `off` starts.
pub open spec fn row(off: u64, i: int, size: u64) -> u64 {
    span::sat_add(off, sat_mul(i as u64, size))
}

/// One decoded field of a structure.
pub open spec fn field(
    parent: ClaimId,
    kind: ClaimKind,
    span: Span,
    value: ValueView,
    note: Option<Seq<char>>,
) -> ClaimView {
    ClaimView { span, kind, parent: Some(parent), value, note }
}

/// `s` with `c` added where a field that ends at `end` fits an entry of `size` bytes.
#[verifier::opaque]
pub open spec fn fit(s: Seq<ClaimView>, end: u64, size: u64, c: ClaimView) -> Seq<ClaimView> {
    if end <= size {
        s.push(c)
    } else {
        s
    }
}

/// The name of a value, or the value itself marked as unknown.
pub open spec fn named(value: u64, name: Option<&'static str>) -> Seq<char> {
    match name {
        Some(n) => n@,
        None => "unknown ("@ + text::hex(value as int) + ")"@,
    }
}

/// The text at `off`, up to a NUL or `max` bytes; nothing where it is not text.
pub open spec fn string_at(bytes: Seq<u8>, off: u64, max: u64) -> Seq<char> {
    match reader::cstr(bytes, off as int, max as int) {
        Some(s) => match text::utf8(s) {
            Some(t) => t,
            None => Seq::empty(),
        },
        None => Seq::empty(),
    }
}

// The file header.

pub open spec fn phoff(bytes: Seq<u8>) -> u64 {
    reader::le64(bytes, 32)
}

pub open spec fn shoff(bytes: Seq<u8>) -> u64 {
    reader::le64(bytes, 40)
}

pub open spec fn phentsize(bytes: Seq<u8>) -> u64 {
    reader::le16(bytes, 54) as u64
}

pub open spec fn shentsize(bytes: Seq<u8>) -> u64 {
    reader::le16(bytes, 58) as u64
}

pub open spec fn shstrndx(bytes: Seq<u8>) -> u64 {
    reader::le16(bytes, 62) as u64
}

/// Section 0 exists and is wide enough to hold the counts that did not fit the header.
pub open spec fn has_escape(bytes: Seq<u8>) -> bool {
    shoff(bytes) != 0 && shentsize(bytes) >= elf::SHDR64_SIZE
}

/// How many section headers there are. A header that says none defers to section 0.
pub open spec fn shnum(bytes: Seq<u8>) -> u64 {
    let n = reader::le16(bytes, 60) as u64;
    if has_escape(bytes) && n == 0 {
        reader::le64(bytes, span::sat_add(shoff(bytes), 32) as int)
    } else {
        n
    }
}

/// How many program headers there are. The largest count defers to section 0.
pub open spec fn phnum(bytes: Seq<u8>) -> u64 {
    let n = reader::le16(bytes, 56) as u64;
    if has_escape(bytes) && n == elf::PN_XNUM {
        reader::le32(bytes, span::sat_add(shoff(bytes), 44) as int) as u64
    } else {
        n
    }
}

/// A field of the file header.
pub open spec fn header_field(
    parent: ClaimId,
    name: &'static str,
    off: u64,
    len: u64,
    value: ValueView,
    note: Option<Seq<char>>,
) -> ClaimView {
    field(parent, ClaimKind::FileHeaderField { name }, at(off, len), value, note)
}

/// The file header and its fields.
pub open spec fn header(bytes: Seq<u8>) -> Seq<ClaimView> {
    let ehdr = ClaimId(0);
    let ident = ClaimId(1);
    let e_type = reader::le16(bytes, 16);
    let machine = reader::le16(bytes, 18);
    Seq::<ClaimView>::empty().push(
        ClaimView::bare(at(0, 64), ClaimKind::FileHeader).noted(
            "the only structure at a fixed location; everything else is found through it"@,
        ),
    ).push(
        ClaimView::bare(at(0, 16), ClaimKind::FileHeaderField { name: "e_ident" }).under(ehdr),
    ).push(header_field(ident, "ei_mag", 0, 4, ValueView::Raw, Some("\\x7fELF"@))).push(
        header_field(
            ident,
            "ei_class",
            4,
            1,
            ValueView::Unsigned(reader::byte_or_zero(bytes, 4) as u64),
            Some("ELFCLASS64"@),
        ),
    ).push(
        header_field(
            ident,
            "ei_data",
            5,
            1,
            ValueView::Unsigned(reader::byte_or_zero(bytes, 5) as u64),
            Some("ELFDATA2LSB"@),
        ),
    ).push(
        header_field(
            ident,
            "ei_version",
            6,
            1,
            ValueView::Unsigned(reader::byte_or_zero(bytes, 6) as u64),
            None,
        ),
    ).push(
        header_field(
            ident,
            "ei_osabi",
            7,
            1,
            ValueView::Unsigned(reader::byte_or_zero(bytes, 7) as u64),
            None,
        ),
    ).push(
        header_field(
            ident,
            "ei_abiversion",
            8,
            1,
            ValueView::Unsigned(reader::byte_or_zero(bytes, 8) as u64),
            None,
        ),
    ).push(
        header_field(ident, "ei_pad", 9, 7, ValueView::Raw, Some("reserved, must be zero"@)),
    ).push(
        header_field(
            ehdr,
            "e_type",
            16,
            2,
            ValueView::Unsigned(e_type as u64),
            Some(named(e_type as u64, elf::spec_et_name(e_type))),
        ),
    ).push(
        header_field(
            ehdr,
            "e_machine",
            18,
            2,
            ValueView::Unsigned(machine as u64),
            Some(named(machine as u64, elf::spec_em_name(machine))),
        ),
    ).push(
        header_field(
            ehdr,
            "e_version",
            20,
            4,
            ValueView::Unsigned(reader::le32(bytes, 20) as u64),
            None,
        ),
    ).push(
        header_field(
            ehdr,
            "e_entry",
            24,
            8,
            ValueView::Address(reader::le64(bytes, 24)),
            Some(
                if e_type == 3 {
                    "first instruction, relative to the load base"@
                } else {
                    "first instruction"@
                },
            ),
        ),
    ).push(
        header_field(ehdr, "e_phoff", 32, 8, ValueView::FileOffset(phoff(bytes)), None),
    ).push(header_field(ehdr, "e_shoff", 40, 8, ValueView::FileOffset(shoff(bytes)), None)).push(
        header_field(
            ehdr,
            "e_flags",
            48,
            4,
            ValueView::Flags(reader::le32(bytes, 48) as u64),
            None,
        ),
    ).push(
        header_field(
            ehdr,
            "e_ehsize",
            52,
            2,
            ValueView::Unsigned(reader::le16(bytes, 52) as u64),
            None,
        ),
    ).push(
        header_field(
            ehdr,
            "e_phentsize",
            54,
            2,
            ValueView::Unsigned(reader::le16(bytes, 54) as u64),
            None,
        ),
    ).push(
        header_field(
            ehdr,
            "e_phnum",
            56,
            2,
            ValueView::Unsigned(reader::le16(bytes, 56) as u64),
            None,
        ),
    ).push(
        header_field(
            ehdr,
            "e_shentsize",
            58,
            2,
            ValueView::Unsigned(reader::le16(bytes, 58) as u64),
            None,
        ),
    ).push(
        header_field(
            ehdr,
            "e_shnum",
            60,
            2,
            ValueView::Unsigned(reader::le16(bytes, 60) as u64),
            None,
        ),
    ).push(
        header_field(
            ehdr,
            "e_shstrndx",
            62,
            2,
            ValueView::Unsigned(reader::le16(bytes, 62) as u64),
            None,
        ),
    )
}

// The section header table.

/// There is a section header table.
pub open spec fn has_sections(bytes: Seq<u8>) -> bool {
    shoff(bytes) != 0 && shnum(bytes) != 0 && shentsize(bytes) != 0
}

/// The section header table runs past the end of the file.
pub open spec fn sections_cut(bytes: Seq<u8>) -> bool {
    has_sections(bytes) && shoff(bytes) + sat_mul(shnum(bytes), shentsize(bytes)) > bytes.len()
}

/// The section header at `base`, decoded.
pub open spec fn section_info(bytes: Seq<u8>, base: u64) -> SectionInfo {
    SectionInfo {
        name_off: reader::le32(bytes, base as int),
        sh_type: reader::le32(bytes, span::sat_add(base, 4) as int),
        offset: reader::le64(bytes, span::sat_add(base, 24) as int),
        size: reader::le64(bytes, span::sat_add(base, 32) as int),
        link: reader::le32(bytes, span::sat_add(base, 40) as int),
        entsize: reader::le64(bytes, span::sat_add(base, 56) as int),
    }
}

/// The first `n` section headers, decoded.
pub open spec fn section_infos(bytes: Seq<u8>, n: nat) -> Seq<SectionInfo> {
    Seq::new(n, |i: int| section_info(bytes, row(shoff(bytes), i, shentsize(bytes))))
}

/// Every section header, decoded.
pub open spec fn sections(bytes: Seq<u8>) -> Seq<SectionInfo> {
    if has_sections(bytes) {
        section_infos(bytes, shnum(bytes) as nat)
    } else {
        Seq::empty()
    }
}

/// The section `i` of `secs`, if there is one.
pub open spec fn section_at(secs: Seq<SectionInfo>, i: u64) -> Option<SectionInfo> {
    if i < secs.len() {
        Some(secs[i as int])
    } else {
        None
    }
}

/// A name in a string table; nothing without a table.
pub open spec fn lookup(bytes: Seq<u8>, strtab: Option<SectionInfo>, off: u32) -> Seq<char> {
    match strtab {
        Some(t) => string_at(bytes, span::sat_add(t.offset, off as u64), t.size),
        None => Seq::empty(),
    }
}

/// The name of a section.
pub open spec fn section_name(
    bytes: Seq<u8>,
    secs: Seq<SectionInfo>,
    strndx: u64,
    off: u32,
) -> Seq<char> {
    lookup(bytes, section_at(secs, strndx), off)
}

/// The entry of section header `i` and its fields, as far as they fit.
pub open spec fn section_row(
    s: Seq<ClaimView>,
    bytes: Seq<u8>,
    secs: Seq<SectionInfo>,
    i: int,
    table: ClaimId,
    entry: ClaimId,
) -> Seq<ClaimView> {
    let size = shentsize(bytes);
    let base = row(shoff(bytes), i, size);
    let idx = narrow(i);
    let info = secs[i];
    let kind_name = named(info.sh_type as u64, elf::spec_sht_name(info.sh_type));
    let name = section_name(bytes, secs, shstrndx(bytes), info.name_off);
    let note = if name.len() == 0 {
        kind_name
    } else {
        name + "  "@ + kind_name
    };
    let s = s.push(
        ClaimView::bare(at(base, size), ClaimKind::SectionHeader { idx }).under(table).noted(note),
    );
    let s = fit(
        s,
        4,
        size,
        section_field(entry, idx, "sh_name", base, 0, 4, ValueView::Unsigned(info.name_off as u64)),
    );
    let s = fit(
        s,
        8,
        size,
        section_field(entry, idx, "sh_type", base, 4, 4, ValueView::Unsigned(info.sh_type as u64)),
    );
    let s = fit(
        s,
        16,
        size,
        section_field(
            entry,
            idx,
            "sh_flags",
            base,
            8,
            8,
            ValueView::Flags(reader::le64(bytes, span::sat_add(base, 8) as int)),
        ),
    );
    let s = fit(
        s,
        24,
        size,
        section_field(
            entry,
            idx,
            "sh_addr",
            base,
            16,
            8,
            ValueView::Address(reader::le64(bytes, span::sat_add(base, 16) as int)),
        ),
    );
    let s = fit(
        s,
        32,
        size,
        section_field(entry, idx, "sh_offset", base, 24, 8, ValueView::FileOffset(info.offset)),
    );
    let s = fit(
        s,
        40,
        size,
        section_field(entry, idx, "sh_size", base, 32, 8, ValueView::Unsigned(info.size)),
    );
    let s = fit(
        s,
        44,
        size,
        section_field(entry, idx, "sh_link", base, 40, 4, ValueView::Unsigned(info.link as u64)),
    );
    let s = fit(
        s,
        48,
        size,
        section_field(
            entry,
            idx,
            "sh_info",
            base,
            44,
            4,
            ValueView::Unsigned(reader::le32(bytes, span::sat_add(base, 44) as int) as u64),
        ),
    );
    let s = fit(
        s,
        56,
        size,
        section_field(
            entry,
            idx,
            "sh_addralign",
            base,
            48,
            8,
            ValueView::Unsigned(reader::le64(bytes, span::sat_add(base, 48) as int)),
        ),
    );
    fit(
        s,
        64,
        size,
        section_field(entry, idx, "sh_entsize", base, 56, 8, ValueView::Unsigned(info.entsize)),
    )
}

/// A field of a section header.
pub open spec fn section_field(
    entry: ClaimId,
    idx: u32,
    name: &'static str,
    base: u64,
    off: u64,
    len: u64,
    value: ValueView,
) -> ClaimView {
    field(
        entry,
        ClaimKind::SectionHeaderField { idx, name },
        at(span::sat_add(base, off), len),
        value,
        None,
    )
}

/// The section header table and its first `n` entries; the claims before it number `start`.
pub open spec fn section_rows(
    bytes: Seq<u8>,
    secs: Seq<SectionInfo>,
    n: int,
    start: int,
) -> Seq<ClaimView>
    decreases n,
{
    if n <= 0 {
        seq![
            ClaimView::bare(
                at(shoff(bytes), sat_mul(shnum(bytes), shentsize(bytes))),
                ClaimKind::SectionHeaderTable,
            ).noted("not loaded into memory; `strip` removes most of what it describes"@),
        ]
    } else {
        let s = section_rows(bytes, secs, n - 1, start);
        section_row(s, bytes, secs, n - 1, coverage::mint(start), coverage::mint(start + s.len()))
    }
}

/// What the section header table claims.
pub open spec fn section_table(bytes: Seq<u8>, start: int) -> Seq<ClaimView> {
    if has_sections(bytes) {
        section_rows(bytes, sections(bytes), shnum(bytes) as int, start)
    } else {
        Seq::empty()
    }
}

// The program header table.

/// There is a program header table.
pub open spec fn has_programs(bytes: Seq<u8>) -> bool {
    phoff(bytes) != 0 && phnum(bytes) != 0 && phentsize(bytes) != 0
}

/// The program header table runs past the end of the file.
pub open spec fn programs_cut(bytes: Seq<u8>) -> bool {
    has_programs(bytes) && phoff(bytes) + sat_mul(phnum(bytes), phentsize(bytes)) > bytes.len()
}

/// The program header at `base`, decoded.
pub open spec fn segment(bytes: Seq<u8>, base: u64) -> Segment {
    Segment {
        p_type: reader::le32(bytes, base as int),
        flags: reader::le32(bytes, span::sat_add(base, 4) as int),
        offset: reader::le64(bytes, span::sat_add(base, 8) as int),
        vaddr: reader::le64(bytes, span::sat_add(base, 16) as int),
        filesz: reader::le64(bytes, span::sat_add(base, 32) as int),
        memsz: reader::le64(bytes, span::sat_add(base, 40) as int),
        align: reader::le64(bytes, span::sat_add(base, 48) as int),
    }
}

/// The first `n` program headers, decoded.
pub open spec fn segments(bytes: Seq<u8>, n: nat) -> Seq<Segment> {
    Seq::new(n, |i: int| segment(bytes, row(phoff(bytes), i, phentsize(bytes))))
}

/// A field of a program header.
pub open spec fn program_field(
    entry: ClaimId,
    idx: u32,
    name: &'static str,
    base: u64,
    off: u64,
    len: u64,
    value: ValueView,
    note: Option<Seq<char>>,
) -> ClaimView {
    field(
        entry,
        ClaimKind::ProgramHeaderField { idx, name },
        at(span::sat_add(base, off), len),
        value,
        note,
    )
}

/// What `p_memsz` is worth saying about: the bytes that exist in memory and in no file.
pub open spec fn memsz_note(seg: Segment) -> Option<Seq<char>> {
    if seg.memsz > seg.filesz {
        Some(
            text::dec(seg.memsz - seg.filesz)
                + " bytes beyond p_filesz are zero-filled at load: .bss, present in no file"@,
        )
    } else {
        None
    }
}

/// The entry of program header `i` and its fields, as far as they fit.
pub open spec fn program_row(
    s: Seq<ClaimView>,
    bytes: Seq<u8>,
    i: int,
    table: ClaimId,
    entry: ClaimId,
) -> Seq<ClaimView> {
    let size = phentsize(bytes);
    let base = row(phoff(bytes), i, size);
    let idx = narrow(i);
    let seg = segment(bytes, base);
    let s = s.push(
        ClaimView::bare(at(base, size), ClaimKind::ProgramHeader { idx }).under(table).noted(
            named(seg.p_type as u64, elf::spec_pt_name(seg.p_type)),
        ),
    );
    let s = fit(
        s,
        4,
        size,
        program_field(
            entry,
            idx,
            "p_type",
            base,
            0,
            4,
            ValueView::Unsigned(seg.p_type as u64),
            None,
        ),
    );
    let s = fit(
        s,
        8,
        size,
        program_field(entry, idx, "p_flags", base, 4, 4, ValueView::Flags(seg.flags as u64), None),
    );
    let s = fit(
        s,
        16,
        size,
        program_field(entry, idx, "p_offset", base, 8, 8, ValueView::FileOffset(seg.offset), None),
    );
    let s = fit(
        s,
        24,
        size,
        program_field(entry, idx, "p_vaddr", base, 16, 8, ValueView::Address(seg.vaddr), None),
    );
    let s = fit(
        s,
        32,
        size,
        program_field(
            entry,
            idx,
            "p_paddr",
            base,
            24,
            8,
            ValueView::Address(reader::le64(bytes, span::sat_add(base, 24) as int)),
            None,
        ),
    );
    let s = fit(
        s,
        40,
        size,
        program_field(entry, idx, "p_filesz", base, 32, 8, ValueView::Unsigned(seg.filesz), None),
    );
    let s = fit(
        s,
        48,
        size,
        program_field(
            entry,
            idx,
            "p_memsz",
            base,
            40,
            8,
            ValueView::Unsigned(seg.memsz),
            memsz_note(seg),
        ),
    );
    fit(
        s,
        56,
        size,
        program_field(entry, idx, "p_align", base, 48, 8, ValueView::Unsigned(seg.align), None),
    )
}

/// The program header table and its first `n` entries; the claims before it number `start`.
pub open spec fn program_rows(bytes: Seq<u8>, n: int, start: int) -> Seq<ClaimView>
    decreases n,
{
    if n <= 0 {
        seq![
            ClaimView::bare(
                at(phoff(bytes), sat_mul(phnum(bytes), phentsize(bytes))),
                ClaimKind::ProgramHeaderTable,
            ).noted(
                "what the kernel reads; the section headers below are for tools, not for loading"@,
            ),
        ]
    } else {
        let s = program_rows(bytes, n - 1, start);
        program_row(s, bytes, n - 1, coverage::mint(start), coverage::mint(start + s.len()))
    }
}

/// What the program header table claims.
pub open spec fn program_table(bytes: Seq<u8>, start: int) -> Seq<ClaimView> {
    if has_programs(bytes) {
        program_rows(bytes, phnum(bytes) as int, start)
    } else {
        Seq::empty()
    }
}

/// The interpreter named by the first of the first `n` program headers that names one.
pub open spec fn interp(bytes: Seq<u8>, n: int) -> Option<Seq<char>>
    decreases n,
{
    if n <= 0 {
        None
    } else {
        let seg = segment(bytes, row(phoff(bytes), n - 1, phentsize(bytes)));
        match interp(bytes, n - 1) {
            Some(t) => Some(t),
            None => if seg.p_type == 3 {
                match reader::cstr(bytes, seg.offset as int, seg.filesz as int) {
                    Some(s) => text::utf8(s),
                    None => None,
                }
            } else {
                None
            },
        }
    }
}

/// One of the segments is dynamic.
pub open spec fn any_dynamic(segs: Seq<Segment>) -> bool {
    exists|i: int| 0 <= i < segs.len() && (#[trigger] segs[i]).p_type == 2
}

// String tables.

/// How many bytes the string at `off` of a table takes, its NUL included where it has one.
pub open spec fn string_span(bytes: Seq<u8>, sec: SectionInfo, off: u64) -> u64 {
    let remaining = (sec.size - off) as u64;
    let len = string_bytes(bytes, sec, off).len();
    if len < remaining {
        (len + 1) as u64
    } else {
        remaining
    }
}

/// The bytes of the string at `off` of a table.
pub open spec fn string_bytes(bytes: Seq<u8>, sec: SectionInfo, off: u64) -> Seq<u8> {
    match reader::cstr(bytes, span::sat_add(sec.offset, off) as int, sec.size - off) {
        Some(s) => s,
        None => Seq::empty(),
    }
}

/// The claim of the string at `off` of a table.
pub open spec fn string_claim(
    bytes: Seq<u8>,
    sec: SectionInfo,
    table: u32,
    parent: ClaimId,
    off: u64,
) -> ClaimView {
    let c = ClaimView::bare(
        at(span::sat_add(sec.offset, off), string_span(bytes, sec, off)),
        ClaimKind::StringEntry { table, offset: narrow(off as int) },
    ).under(parent);
    match text::utf8(string_bytes(bytes, sec, off)) {
        Some(t) => if t.len() == 0 {
            c
        } else {
            c.valued(ValueView::Text(t))
        },
        None => c,
    }
}

/// The strings of a table from `off` on.
pub open spec fn strings(
    s: Seq<ClaimView>,
    bytes: Seq<u8>,
    sec: SectionInfo,
    table: u32,
    parent: ClaimId,
    off: u64,
) -> Seq<ClaimView>
    decreases sec.size - off,
{
    if off >= sec.size {
        s
    } else {
        strings(
            s.push(string_claim(bytes, sec, table, parent, off)),
            bytes,
            sec,
            table,
            parent,
            (off + string_span(bytes, sec, off)) as u64,
        )
    }
}

// Symbol tables.

/// The size of a table's entries: what the section says, or what the format says.
pub open spec fn entry_size(sec: SectionInfo, default: u64) -> u64 {
    if sec.entsize == 0 {
        default
    } else {
        sec.entsize
    }
}

/// Symbol `i` of a table.
pub open spec fn symbol(
    bytes: Seq<u8>,
    secs: Seq<SectionInfo>,
    sec: SectionInfo,
    table: u32,
    parent: ClaimId,
    i: int,
) -> ClaimView {
    let size = entry_size(sec, elf::SYM64_SIZE);
    let base = row(sec.offset, i, size);
    let name = lookup(bytes, section_at(secs, sec.link as u64), reader::le32(bytes, base as int));
    let kind = match elf::spec_st_type_name(
        reader::byte_or_zero(bytes, span::sat_add(base, 4) as int),
    ) {
        Some(k) => k@,
        None => "?"@,
    };
    ClaimView::bare(
        at(base, size),
        ClaimKind::SymbolEntry { table, idx: narrow(i) },
    ).under(parent).valued(
        ValueView::Address(reader::le64(bytes, span::sat_add(base, 8) as int)),
    ).noted(
        if name.len() == 0 {
            kind + " (unnamed)"@
        } else {
            kind + " "@ + name
        },
    )
}

/// The first `n` symbols of a table.
pub open spec fn symbols(
    s: Seq<ClaimView>,
    bytes: Seq<u8>,
    secs: Seq<SectionInfo>,
    sec: SectionInfo,
    table: u32,
    parent: ClaimId,
    n: int,
) -> Seq<ClaimView>
    decreases n,
{
    if n <= 0 {
        s
    } else {
        symbols(s, bytes, secs, sec, table, parent, n - 1).push(
            symbol(bytes, secs, sec, table, parent, n - 1),
        )
    }
}

// Relocation tables.

/// Which table a relocation section is. `.rela.plt` is DT_JMPREL: the same entry format,
/// processed in its own pass and, on a lazy binary, not processed at startup at all.
pub open spec fn reloc_kind(rela: bool, name: Seq<char>) -> RelocTableKind {
    if text::ends(name, ".plt"@) {
        RelocTableKind::JmpRel
    } else if rela {
        RelocTableKind::Rela
    } else {
        RelocTableKind::Rel
    }
}

/// The entry size of a relocation section.
pub open spec fn reloc_size(sec: SectionInfo, rela: bool) -> u64 {
    entry_size(
        sec,
        if rela {
            elf::RELA64_SIZE
        } else {
            elf::REL64_SIZE
        },
    )
}

/// Where the symbol that a relocation names stands, if it names one.
pub open spec fn reloc_symbol_at(
    bytes: Seq<u8>,
    secs: Seq<SectionInfo>,
    sec: SectionInfo,
    base: u64,
) -> Option<u64> {
    let sym = reader::le64(bytes, span::sat_add(base, 8) as int) / 0x1_0000_0000;
    match section_at(secs, sec.link as u64) {
        Some(st) => if sym == 0 {
            None
        } else {
            Some(span::sat_add(st.offset, sat_mul(sym, entry_size(st, elf::SYM64_SIZE))))
        },
        None => None,
    }
}

/// The name of the symbol that a relocation names; nothing without one.
pub open spec fn reloc_symbol(
    bytes: Seq<u8>,
    secs: Seq<SectionInfo>,
    sec: SectionInfo,
    base: u64,
) -> Seq<char> {
    match (reloc_symbol_at(bytes, secs, sec, base), section_at(secs, sec.link as u64)) {
        (Some(sym), Some(st)) => lookup(
            bytes,
            section_at(secs, st.link as u64),
            reader::le32(bytes, sym as int),
        ),
        _ => Seq::empty(),
    }
}

/// Relocation `i` of a section, decoded.
pub open spec fn reloc(
    bytes: Seq<u8>,
    secs: Seq<SectionInfo>,
    sec: SectionInfo,
    rela: bool,
    name: Seq<char>,
    i: int,
) -> RelocView {
    let size = reloc_size(sec, rela);
    let base = row(sec.offset, i, size);
    let info = reader::le64(bytes, span::sat_add(base, 8) as int);
    let symbol = reloc_symbol(bytes, secs, sec, base);
    let sym_at = reloc_symbol_at(bytes, secs, sec, base);
    RelocView {
        table: reloc_kind(rela, name),
        offset: reader::le64(bytes, base as int),
        r_type: (info % 0x1_0000_0000) as u32,
        addend: if rela {
            reader::le64(bytes, span::sat_add(base, 16) as int) as i64
        } else {
            0
        },
        symbol: if symbol.len() == 0 {
            None
        } else {
            Some(symbol)
        },
        // The binding is the high half of `st_info`; STB_WEAK is 2.
        weak: symbol.len() != 0 && reader::byte_or_zero(
            bytes,
            span::sat_add(sym_at->0, 4) as int,
        ) / 16 == 2 && reader::le16(bytes, span::sat_add(sym_at->0, 6) as int) == 0,
        file_span: at(base, size),
    }
}

/// The name of a relocation type, or its number.
pub open spec fn reloc_type_text(r_type: u32) -> Seq<char> {
    match elf::spec_r_x86_64_name(r_type) {
        Some(n) => n@,
        None => "type "@ + text::dec(r_type as int),
    }
}

/// The claim of a decoded relocation.
pub open spec fn reloc_claim(r: RelocView, table: u32, parent: ClaimId, i: int) -> ClaimView {
    ClaimView::bare(
        r.file_span,
        ClaimKind::RelocationEntry { table, idx: narrow(i), r_type: r.r_type },
    ).under(parent).valued(ValueView::Address(r.offset)).noted(
        match r.symbol {
            Some(name) => reloc_type_text(r.r_type) + " → "@ + name,
            None => reloc_type_text(r.r_type),
        },
    )
}

/// The first `n` relocations of a section, decoded.
pub open spec fn relocs(
    bytes: Seq<u8>,
    secs: Seq<SectionInfo>,
    sec: SectionInfo,
    rela: bool,
    name: Seq<char>,
    n: nat,
) -> Seq<RelocView> {
    Seq::new(n, |i: int| reloc(bytes, secs, sec, rela, name, i))
}

/// The claims of the first `n` relocations of a section.
pub open spec fn reloc_claims(
    s: Seq<ClaimView>,
    bytes: Seq<u8>,
    secs: Seq<SectionInfo>,
    sec: SectionInfo,
    rela: bool,
    name: Seq<char>,
    table: u32,
    parent: ClaimId,
    n: int,
) -> Seq<ClaimView>
    decreases n,
{
    if n <= 0 {
        s
    } else {
        reloc_claims(s, bytes, secs, sec, rela, name, table, parent, n - 1).push(
            reloc_claim(reloc(bytes, secs, sec, rela, name, n - 1), table, parent, n - 1),
        )
    }
}

// DT_RELR: an even word is an address, an odd word a bitmap of the 63 words that follow it.

/// Word `i` of the bitmap.
pub open spec fn relr_word(bytes: Seq<u8>, sec: SectionInfo, i: int) -> u64 {
    reader::le64(bytes, row(sec.offset, i, elf::RELR64_SIZE) as int)
}

/// Where the words after the first `n` count from.
pub open spec fn relr_cursor(bytes: Seq<u8>, sec: SectionInfo, n: int) -> u64
    decreases n,
{
    if n <= 0 {
        0
    } else {
        let word = relr_word(bytes, sec, n - 1);
        if word % 2 == 0 {
            span::sat_add(word, 8)
        } else {
            span::sat_add(relr_cursor(bytes, sec, n - 1), 504)
        }
    }
}

/// The relative relocation of one address.
pub open spec fn relr_at(offset: u64, file_span: Span) -> RelocView {
    RelocView {
        table: RelocTableKind::Relr,
        offset,
        r_type: 8,
        addend: 0,
        symbol: None,
        weak: false,
        file_span,
    }
}

/// The relocations a bitmap stands for, its lowest bit at `addr`.
pub open spec fn relr_bits(
    s: Seq<RelocView>,
    bits: u64,
    addr: u64,
    file_span: Span,
) -> Seq<RelocView>
    decreases bits,
{
    if bits == 0 {
        s
    } else {
        relr_bits(
            if bits % 2 == 1 {
                s.push(relr_at(addr, file_span))
            } else {
                s
            },
            bits / 2,
            span::sat_add(addr, 8),
            file_span,
        )
    }
}

/// How many bits of `n` are set.
pub open spec fn ones(n: u64) -> nat
    decreases n,
{
    if n == 0 {
        0
    } else {
        (n % 2) as nat + ones(n / 2)
    }
}

/// The relocations the first `n` words stand for.
pub open spec fn relr_relocs(
    s: Seq<RelocView>,
    bytes: Seq<u8>,
    sec: SectionInfo,
    n: int,
) -> Seq<RelocView>
    decreases n,
{
    if n <= 0 {
        s
    } else {
        let word = relr_word(bytes, sec, n - 1);
        let file_span = at(row(sec.offset, n - 1, elf::RELR64_SIZE), elf::RELR64_SIZE);
        let before = relr_relocs(s, bytes, sec, n - 1);
        if word % 2 == 0 {
            before.push(relr_at(word, file_span))
        } else {
            relr_bits(before, word / 2, relr_cursor(bytes, sec, n - 1), file_span)
        }
    }
}

/// The claim of word `i`.
pub open spec fn relr_claim(
    bytes: Seq<u8>,
    sec: SectionInfo,
    table: u32,
    parent: ClaimId,
    i: int,
) -> ClaimView {
    let word = relr_word(bytes, sec, i);
    ClaimView::bare(
        at(row(sec.offset, i, elf::RELR64_SIZE), elf::RELR64_SIZE),
        ClaimKind::RelrWord { table, idx: narrow(i) },
    ).under(parent).valued(ValueView::Unsigned(word)).noted(
        if word % 2 == 0 {
            "base address "@ + text::hex(word as int)
        } else {
            "bitmap, "@ + text::dec(ones(word / 2) as int) + " relocations"@
        },
    )
}

/// The claims of the first `n` words.
pub open spec fn relr_claims(
    s: Seq<ClaimView>,
    bytes: Seq<u8>,
    sec: SectionInfo,
    table: u32,
    parent: ClaimId,
    n: int,
) -> Seq<ClaimView>
    decreases n,
{
    if n <= 0 {
        s
    } else {
        relr_claims(s, bytes, sec, table, parent, n - 1).push(
            relr_claim(bytes, sec, table, parent, n - 1),
        )
    }
}

// The dynamic section.

/// The tag of entry `i`.
pub open spec fn dyn_tag(bytes: Seq<u8>, sec: SectionInfo, i: int) -> u64 {
    reader::le64(bytes, row(sec.offset, i, entry_size(sec, elf::DYN64_SIZE)) as int)
}

/// The value of entry `i`.
pub open spec fn dyn_val(bytes: Seq<u8>, sec: SectionInfo, i: int) -> u64 {
    reader::le64(
        bytes,
        span::sat_add(row(sec.offset, i, entry_size(sec, elf::DYN64_SIZE)), 8) as int,
    )
}

/// The tags whose value is an offset into the string table.
pub open spec fn dyn_names(tag: u64) -> bool {
    tag == elf::DT_NEEDED || tag == elf::DT_SONAME || tag == elf::DT_RPATH || tag
        == elf::DT_RUNPATH
}

/// The name an entry points at.
pub open spec fn dyn_name(
    bytes: Seq<u8>,
    secs: Seq<SectionInfo>,
    sec: SectionInfo,
    i: int,
) -> Seq<char> {
    let val = dyn_val(bytes, sec, i);
    lookup(
        bytes,
        section_at(secs, sec.link as u64),
        if val > u32::MAX {
            0
        } else {
            val as u32
        },
    )
}

/// The table has ended before entry `i`.
pub open spec fn dyn_ended(bytes: Seq<u8>, sec: SectionInfo, i: int) -> bool
    decreases i,
{
    if i <= 0 {
        false
    } else {
        dyn_ended(bytes, sec, i - 1) || dyn_tag(bytes, sec, i - 1) == elf::DT_NULL
    }
}

/// An entry that asks for every symbol to be bound at startup.
pub open spec fn dyn_binds_now(tag: u64, val: u64) -> bool {
    tag == elf::DT_FLAGS && (val & elf::DF_BIND_NOW) != 0
}

/// What entry `i` says.
pub open spec fn dyn_note(
    bytes: Seq<u8>,
    secs: Seq<SectionInfo>,
    sec: SectionInfo,
    i: int,
) -> Seq<char> {
    let tag = dyn_tag(bytes, sec, i);
    let name = match elf::spec_dt_name(tag) {
        Some(n) => n@,
        None => text::hex(tag as int),
    };
    if dyn_names(tag) {
        let s = dyn_name(bytes, secs, sec, i);
        if s.len() == 0 {
            name
        } else {
            name + " "@ + s
        }
    } else if dyn_binds_now(tag, dyn_val(bytes, sec, i)) {
        name + " BIND_NOW"@
    } else if tag == elf::DT_NULL {
        if dyn_ended(bytes, sec, i) {
            name + " (padding past the end)"@
        } else {
            name + " — end of the table"@
        }
    } else {
        name
    }
}

/// The claim of entry `i`.
pub open spec fn dyn_claim(
    bytes: Seq<u8>,
    secs: Seq<SectionInfo>,
    sec: SectionInfo,
    parent: ClaimId,
    i: int,
) -> ClaimView {
    let size = entry_size(sec, elf::DYN64_SIZE);
    ClaimView::bare(
        at(row(sec.offset, i, size), size),
        ClaimKind::DynamicEntry { idx: narrow(i), tag: dyn_tag(bytes, sec, i) },
    ).under(parent).valued(ValueView::Unsigned(dyn_val(bytes, sec, i))).noted(
        dyn_note(bytes, secs, sec, i),
    )
}

/// The claims of the first `n` entries.
pub open spec fn dyn_claims(
    s: Seq<ClaimView>,
    bytes: Seq<u8>,
    secs: Seq<SectionInfo>,
    sec: SectionInfo,
    parent: ClaimId,
    n: int,
) -> Seq<ClaimView>
    decreases n,
{
    if n <= 0 {
        s
    } else {
        dyn_claims(s, bytes, secs, sec, parent, n - 1).push(
            dyn_claim(bytes, secs, sec, parent, n - 1),
        )
    }
}

/// What the first `n` entries add to the summary.
pub open spec fn dyn_facts(
    f: SummaryView,
    bytes: Seq<u8>,
    secs: Seq<SectionInfo>,
    sec: SectionInfo,
    n: int,
) -> SummaryView
    decreases n,
{
    if n <= 0 {
        f
    } else {
        dyn_fact(dyn_facts(f, bytes, secs, sec, n - 1), bytes, secs, sec, n - 1)
    }
}

/// What entry `i` adds to the summary.
pub open spec fn dyn_fact(
    f: SummaryView,
    bytes: Seq<u8>,
    secs: Seq<SectionInfo>,
    sec: SectionInfo,
    i: int,
) -> SummaryView {
    let tag = dyn_tag(bytes, sec, i);
    let val = dyn_val(bytes, sec, i);
    let name = dyn_name(bytes, secs, sec, i);
    if tag == elf::DT_NEEDED && name.len() != 0 {
        SummaryView { needed: f.needed.push(name), ..f }
    } else if tag == elf::DT_SONAME && name.len() != 0 {
        SummaryView { soname: Some(name), ..f }
    } else if dyn_binds_now(tag, val) {
        SummaryView { bind_now: true, ..f }
    } else if tag == elf::DT_INIT {
        SummaryView { init: Some(val), ..f }
    } else if tag == elf::DT_INIT_ARRAY {
        SummaryView {
            init_array: Some(
                (
                    val,
                    match f.init_array {
                        Some((_, size)) => size,
                        None => 0,
                    },
                ),
            ),
            ..f
        }
    } else if tag == elf::DT_INIT_ARRAYSZ {
        SummaryView {
            init_array: Some(
                (
                    match f.init_array {
                        Some((base, _)) => base,
                        None => 0,
                    },
                    val,
                ),
            ),
            ..f
        }
    } else {
        f
    }
}

// Notes.

/// `v` rounded up to a multiple of four.
pub open spec fn round4(v: u64) -> u64 {
    (span::sat_add(v, 3) / 4 * 4) as u64
}

/// How long the note at `base` is.
pub open spec fn note_len(bytes: Seq<u8>, base: u64) -> u64 {
    span::sat_add(
        span::sat_add(12, round4(reader::le32(bytes, base as int) as u64)),
        round4(reader::le32(bytes, span::sat_add(base, 4) as int) as u64),
    )
}

/// The claim of the note at `base`.
pub open spec fn note_claim(bytes: Seq<u8>, base: u64, parent: ClaimId, idx: u32) -> ClaimView {
    let ntype = reader::le32(bytes, span::sat_add(base, 8) as int);
    let name = string_at(bytes, span::sat_add(base, 12), reader::le32(bytes, base as int) as u64);
    ClaimView::bare(at(base, note_len(bytes, base)), ClaimKind::Note { idx }).under(parent).valued(
        ValueView::Unsigned(ntype as u64),
    ).noted(name + " type "@ + text::dec(ntype as int))
}

/// The notes of a section from `off` on; the first of them is number `idx`.
pub open spec fn notes(
    s: Seq<ClaimView>,
    bytes: Seq<u8>,
    sec: SectionInfo,
    parent: ClaimId,
    off: u64,
    idx: u32,
) -> Seq<ClaimView>
    decreases sec.size - off,
{
    let base = span::sat_add(sec.offset, off);
    let total = note_len(bytes, base);
    if span::sat_add(off, 12) > sec.size || span::sat_add(off, total) > sec.size || off >= sec.size
        || total == 0 {
        s
    } else {
        notes(
            s.push(note_claim(bytes, base, parent, idx)),
            bytes,
            sec,
            parent,
            span::sat_add(off, total),
            if idx == u32::MAX {
                idx
            } else {
                (idx + 1) as u32
            },
        )
    }
}

// Section bodies.

/// Sections that occupy no bytes of the file, or claim bytes that it does not have.
pub open spec fn skipped(bytes: Seq<u8>, sec: SectionInfo) -> bool {
    ||| sec.sh_type == elf::SHT_NULL
    ||| sec.sh_type == elf::SHT_NOBITS
    ||| sec.size == 0
    ||| sec.offset + sec.size > bytes.len()
}

/// What a section body is.
pub open spec fn body_kind(sec: SectionInfo, name: Seq<char>, idx: u32) -> ClaimKind {
    let t = sec.sh_type;
    if t == elf::SHT_STRTAB {
        ClaimKind::StringTable { table: idx }
    } else if t == elf::SHT_SYMTAB {
        ClaimKind::SymbolTable { dynamic: false }
    } else if t == elf::SHT_DYNSYM {
        ClaimKind::SymbolTable { dynamic: true }
    } else if t == elf::SHT_RELA {
        ClaimKind::RelocationTable { kind: RelocTableKind::Rela }
    } else if t == elf::SHT_REL {
        ClaimKind::RelocationTable { kind: RelocTableKind::Rel }
    } else if t == elf::SHT_RELR {
        ClaimKind::RelocationTable { kind: RelocTableKind::Relr }
    } else if t == elf::SHT_DYNAMIC {
        ClaimKind::DynamicTable
    } else if t == elf::SHT_HASH {
        ClaimKind::HashTable { gnu: false }
    } else if t == elf::SHT_GNU_HASH {
        ClaimKind::HashTable { gnu: true }
    } else if t == elf::SHT_GNU_VERDEF {
        ClaimKind::VersionTable { kind: VersionTableKind::VerDef }
    } else if t == elf::SHT_GNU_VERNEED {
        ClaimKind::VersionTable { kind: VersionTableKind::VerNeed }
    } else if t == elf::SHT_GNU_VERSYM {
        ClaimKind::VersionTable { kind: VersionTableKind::VerSym }
    } else if name == ".interp"@ {
        ClaimKind::Interp
    } else {
        ClaimKind::SectionBody { idx }
    }
}

/// The number of entries a section has room for.
pub open spec fn entry_count(sec: SectionInfo, size: u64) -> u64 {
    sec.size / size
}

/// What section `i` claims: its body, and the entries in it.
pub open spec fn body(
    s: Seq<ClaimView>,
    bytes: Seq<u8>,
    secs: Seq<SectionInfo>,
    i: int,
    start: int,
) -> Seq<ClaimView> {
    let sec = secs[i];
    let idx = narrow(i);
    let name = section_name(bytes, secs, shstrndx(bytes), sec.name_off);
    let parent = coverage::mint(start + s.len());
    if skipped(bytes, sec) {
        s
    } else {
        let s = s.push(
            ClaimView::bare(at(sec.offset, sec.size), body_kind(sec, name, idx)).noted(
                if name.len() == 0 {
                    "section "@ + text::dec(i)
                } else {
                    name
                },
            ),
        );
        let t = sec.sh_type;
        if t == elf::SHT_STRTAB {
            strings(s, bytes, sec, idx, parent, 0)
        } else if t == elf::SHT_SYMTAB || t == elf::SHT_DYNSYM {
            let size = entry_size(sec, elf::SYM64_SIZE);
            symbols(s, bytes, secs, sec, idx, parent, entry_count(sec, size) as int)
        } else if t == elf::SHT_RELA || t == elf::SHT_REL {
            let rela = t == elf::SHT_RELA;
            let n = entry_count(sec, reloc_size(sec, rela));
            reloc_claims(s, bytes, secs, sec, rela, name, idx, parent, n as int)
        } else if t == elf::SHT_RELR {
            let n = entry_count(sec, elf::RELR64_SIZE);
            relr_claims(s, bytes, sec, idx, parent, n as int)
        } else if t == elf::SHT_DYNAMIC {
            let size = entry_size(sec, elf::DYN64_SIZE);
            dyn_claims(s, bytes, secs, sec, parent, entry_count(sec, size) as int)
        } else if t == elf::SHT_NOTE {
            notes(s, bytes, sec, parent, 0, 0)
        } else {
            s
        }
    }
}

/// What section `i` adds to the summary.
pub open spec fn body_facts(
    f: SummaryView,
    bytes: Seq<u8>,
    secs: Seq<SectionInfo>,
    i: int,
) -> SummaryView {
    let sec = secs[i];
    let name = section_name(bytes, secs, shstrndx(bytes), sec.name_off);
    let t = sec.sh_type;
    if skipped(bytes, sec) {
        f
    } else if t == elf::SHT_RELA || t == elf::SHT_REL {
        let rela = t == elf::SHT_RELA;
        let n = entry_count(sec, reloc_size(sec, rela));
        SummaryView { relocs: f.relocs + relocs(bytes, secs, sec, rela, name, n as nat), ..f }
    } else if t == elf::SHT_RELR {
        let n = entry_count(sec, elf::RELR64_SIZE);
        SummaryView {
            has_relr: true,
            relocs: relr_relocs(f.relocs, bytes, sec, n as int),
            ..f
        }
    } else if t == elf::SHT_DYNAMIC {
        let size = entry_size(sec, elf::DYN64_SIZE);
        dyn_facts(f, bytes, secs, sec, entry_count(sec, size) as int)
    } else {
        f
    }
}

/// What the first `n` sections claim; the claims before them number `start`.
pub open spec fn bodies(bytes: Seq<u8>, secs: Seq<SectionInfo>, n: int, start: int) -> Seq<
    ClaimView,
>
    decreases n,
{
    if n <= 0 {
        Seq::empty()
    } else {
        body(bodies(bytes, secs, n - 1, start), bytes, secs, n - 1, start)
    }
}

/// What the first `n` sections add to the summary.
pub open spec fn all_body_facts(
    f: SummaryView,
    bytes: Seq<u8>,
    secs: Seq<SectionInfo>,
    n: int,
) -> SummaryView
    decreases n,
{
    if n <= 0 {
        f
    } else {
        body_facts(all_body_facts(f, bytes, secs, n - 1), bytes, secs, n - 1)
    }
}

// The whole file.

/// What the headers add to the summary.
pub open spec fn header_facts(bytes: Seq<u8>) -> SummaryView {
    let n = if has_programs(bytes) {
        phnum(bytes)
    } else {
        0
    };
    SummaryView {
        e_type: reader::le16(bytes, 16),
        machine: reader::le16(bytes, 18),
        entry: reader::le64(bytes, 24),
        phnum: phnum(bytes),
        shnum: shnum(bytes),
        interp: interp(bytes, n as int),
        has_dynamic: any_dynamic(segments(bytes, n as nat)),
        segments: segments(bytes, n as nat),
        ..SummaryView::blank()
    }
}

/// The summary of a file.
pub open spec fn facts(bytes: Seq<u8>) -> SummaryView {
    all_body_facts(header_facts(bytes), bytes, sections(bytes), sections(bytes).len() as int)
}

/// `l` with the claims added one after the other, or the first fault among them.
pub open spec fn push_all(l: Ledger, claims: Seq<ClaimView>) -> Result<Ledger, CoverageError>
    decreases claims.len(),
{
    if claims.len() == 0 {
        Ok(l)
    } else {
        match push_all(l, claims.drop_last()) {
            Ok(m) => match m.push_fault(claims.last()) {
                Some(e) => Err(e),
                None => Ok(m.with(claims.last())),
            },
            Err(e) => Err(e),
        }
    }
}

/// The ledger of a file before anything is claimed.
pub open spec fn blank(bytes: Seq<u8>) -> Ledger {
    Ledger { claims: Seq::empty(), files: seq![(FileId(0), bytes.len() as u64)] }
}

/// Why a file is not one that can be parsed at all, judged by its first bytes.
pub open spec fn refused(bytes: Seq<u8>) -> Option<ParseErrorView> {
    if bytes.len() < 64 {
        Some(ParseErrorView::TooSmall { len: bytes.len() as u64 })
    } else if bytes.take(4) != elf::ELF_MAGIC@ {
        Some(ParseErrorView::BadMagic { found: bytes.take(4) })
    } else if bytes[4] != elf::ELFCLASS64 {
        Some(ParseErrorView::UnsupportedClass { class: bytes[4] })
    } else if bytes[5] != elf::ELFDATA2LSB {
        Some(ParseErrorView::UnsupportedData { data: bytes[5] })
    } else {
        None
    }
}

/// Everything the structures of a file claim, the holes not yet named.
pub open spec fn claimed(bytes: Seq<u8>) -> Result<Ledger, ParseErrorView> {
    match push_all(blank(bytes), header(bytes)) {
        Err(e) => Err(ParseErrorView::Coverage(e)),
        Ok(a) => if sections_cut(bytes) {
            Err(
                ParseErrorView::Truncated { what: "the section header table", off: shoff(bytes) },
            )
        } else {
            match push_all(a, section_table(bytes, a.claims.len() as int)) {
                Err(e) => Err(ParseErrorView::Coverage(e)),
                Ok(b) => if programs_cut(bytes) {
                    Err(
                        ParseErrorView::Truncated {
                            what: "the program header table",
                            off: phoff(bytes),
                        },
                    )
                } else {
                    match push_all(b, program_table(bytes, b.claims.len() as int)) {
                        Err(e) => Err(ParseErrorView::Coverage(e)),
                        Ok(c) => match push_all(
                            c,
                            bodies(
                                bytes,
                                sections(bytes),
                                sections(bytes).len() as int,
                                c.claims.len() as int,
                            ),
                        ) {
                            Err(e) => Err(ParseErrorView::Coverage(e)),
                            Ok(d) => Ok(d),
                        },
                    }
                },
            }
        },
    }
}

/// What parsing a file gives.
pub open spec fn outcome(bytes: Seq<u8>) -> Result<(Ledger, SummaryView), ParseErrorView> {
    match refused(bytes) {
        Some(e) => Err(e),
        None => match claimed(bytes) {
            Err(e) => Err(e),
            Ok(l) => match l.filled(1).fault(0) {
                Some(e) => Err(ParseErrorView::Coverage(e)),
                None => Ok((l.filled(1), facts(bytes))),
            },
        },
    }
}

/// Claims that could all be added are added as they are, and nothing else changes.
pub proof fn lemma_push_all_adds(l: Ledger, claims: Seq<ClaimView>)
    ensures
        push_all(l, claims) matches Ok(m) ==> m.files == l.files && m.claims == l.claims + claims,
    decreases claims.len(),
{
    if claims.len() > 0 {
        lemma_push_all_adds(l, claims.drop_last());
        assert(claims =~= claims.drop_last().push(claims.last()));
        if push_all(l, claims) is Ok {
            assert(push_all(l, claims)->Ok_0.claims =~= l.claims + claims);
        }
    } else {
        assert(l.claims =~= l.claims + claims);
    }
}

/// Parsing describes the one file it was given.
pub proof fn lemma_claimed_is_one_file(bytes: Seq<u8>)
    ensures
        claimed(bytes) matches Ok(l) ==> l.files == blank(bytes).files,
{
    lemma_push_all_adds(blank(bytes), header(bytes));
    if let Ok(a) = push_all(blank(bytes), header(bytes)) {
        let t = section_table(bytes, a.claims.len() as int);
        lemma_push_all_adds(a, t);
        if let Ok(b) = push_all(a, t) {
            let t = program_table(bytes, b.claims.len() as int);
            lemma_push_all_adds(b, t);
            if let Ok(c) = push_all(b, t) {
                lemma_push_all_adds(
                    c,
                    bodies(
                        bytes,
                        sections(bytes),
                        sections(bytes).len() as int,
                        c.claims.len() as int,
                    ),
                );
            }
        }
    }
}

proof fn lemma_ones(n: u64, k: nat)
    requires
        n < pow2(k),
    ensures
        ones(n) <= k,
    decreases k,
{
    if k == 0 {
        lemma2_to64();
    } else if n > 0 {
        lemma_pow2_unfold(k);
        lemma_ones(n / 2, (k - 1) as nat);
    }
}

/// A bitmap adds as many relocations as it has bits, behind those before it.
pub proof fn lemma_relr_bits(s: Seq<RelocView>, bits: u64, addr: u64, file_span: Span)
    ensures
        ({
            let r = relr_bits(s, bits, addr, file_span);
            &&& r.len() == s.len() + ones(bits)
            &&& r.take(s.len() as int) == s
        }),
    decreases bits,
{
    if bits > 0 {
        let t = if bits % 2 == 1 {
            s.push(relr_at(addr, file_span))
        } else {
            s
        };
        lemma_relr_bits(t, bits / 2, span::sat_add(addr, 8), file_span);
        let r = relr_bits(s, bits, addr, file_span);
        assert(r.take(s.len() as int) =~= r.take(t.len() as int).take(s.len() as int));
        assert(t.take(s.len() as int) =~= s);
    } else {
        assert(s.take(s.len() as int) =~= s);
    }
}

/// A bitmap word of `DT_RELR` is expanded to one relocation for each bit that is set, of
/// which there are up to 63, and the relocations found before it stay.
pub proof fn law_a_bitmap_word_is_its_set_bits(
    s: Seq<RelocView>,
    word: u64,
    addr: u64,
    file_span: Span,
)
    ensures
        ({
            let r = relr_bits(s, word / 2, addr, file_span);
            &&& r.len() == s.len() + ones(word / 2)
            &&& ones(word / 2) <= 63
            &&& r.take(s.len() as int) == s
        }),
{
    lemma2_to64_rest();
    lemma_ones(word / 2, 63);
    lemma_relr_bits(s, word / 2, addr, file_span);
}

} // verus!
