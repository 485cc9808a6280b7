//! ELF constants and their names.
//!
//! Only what the parser and the CLI need to render a file legibly. Names are returned as
//! `Option<&'static str>` so an unknown value prints as a number rather than as a lie.

use vstd::prelude::*;

verus! {

pub const ELF_MAGIC: [u8; 4] = [0x7f, 0x45, 0x4c, 0x46];

pub const ELFCLASS32: u8 = 1;
pub const ELFCLASS64: u8 = 2;
pub const ELFDATA2LSB: u8 = 1;
pub const ELFDATA2MSB: u8 = 2;

pub const EHDR64_SIZE: u64 = 64;
pub const PHDR64_SIZE: u64 = 56;
pub const SHDR64_SIZE: u64 = 64;
pub const SYM64_SIZE: u64 = 24;
pub const RELA64_SIZE: u64 = 24;
pub const REL64_SIZE: u64 = 16;
pub const DYN64_SIZE: u64 = 16;
pub const RELR64_SIZE: u64 = 8;

/// `e_phnum` sentinel: the real count lives in `shdr[0].sh_info`.
pub const PN_XNUM: u16 = 0xffff;

pub const SHT_NULL: u32 = 0;
pub const SHT_PROGBITS: u32 = 1;
pub const SHT_SYMTAB: u32 = 2;
pub const SHT_STRTAB: u32 = 3;
pub const SHT_RELA: u32 = 4;
pub const SHT_HASH: u32 = 5;
pub const SHT_DYNAMIC: u32 = 6;
pub const SHT_NOTE: u32 = 7;
pub const SHT_NOBITS: u32 = 8;
pub const SHT_REL: u32 = 9;
pub const SHT_DYNSYM: u32 = 11;
pub const SHT_INIT_ARRAY: u32 = 14;
pub const SHT_FINI_ARRAY: u32 = 15;
pub const SHT_PREINIT_ARRAY: u32 = 16;
pub const SHT_RELR: u32 = 19;
pub const SHT_GNU_HASH: u32 = 0x6fff_fff6;
pub const SHT_GNU_VERDEF: u32 = 0x6fff_fffd;
pub const SHT_GNU_VERNEED: u32 = 0x6fff_fffe;
pub const SHT_GNU_VERSYM: u32 = 0x6fff_ffff;

pub const DT_NULL: u64 = 0;
pub const DT_NEEDED: u64 = 1;
pub const DT_STRTAB: u64 = 5;
pub const DT_SONAME: u64 = 14;
pub const DT_RPATH: u64 = 15;
pub const DT_RUNPATH: u64 = 29;
pub const DT_INIT: u64 = 12;
pub const DT_INIT_ARRAY: u64 = 25;
pub const DT_INIT_ARRAYSZ: u64 = 27;
pub const DT_FLAGS: u64 = 30;
pub const PT_GNU_RELRO: u32 = 0x6474_e552;
pub const DF_BIND_NOW: u64 = 0x8;

/// The name of an `e_type`.
pub open spec fn spec_et_name(v: u16) -> Option<&'static str> {
    if v == 0 {
        Some("ET_NONE")
    } else if v == 1 {
        Some("ET_REL")
    } else if v == 2 {
        Some("ET_EXEC")
    } else if v == 3 {
        Some("ET_DYN")
    } else if v == 4 {
        Some("ET_CORE")
    } else {
        None
    }
}

/// The name of an `e_type`.
#[must_use]
pub fn et_name(v: u16) -> (r: Option<&'static str>)
    ensures
        r == spec_et_name(v),
{
    match v {
        0 => Some("ET_NONE"),
        1 => Some("ET_REL"),
        2 => Some("ET_EXEC"),
        3 => Some("ET_DYN"),
        4 => Some("ET_CORE"),
        _ => None,
    }
}

/// The name of an `e_machine`.
pub open spec fn spec_em_name(v: u16) -> Option<&'static str> {
    if v == 3 {
        Some("EM_386")
    } else if v == 40 {
        Some("EM_ARM")
    } else if v == 62 {
        Some("EM_X86_64")
    } else if v == 183 {
        Some("EM_AARCH64")
    } else if v == 243 {
        Some("EM_RISCV")
    } else {
        None
    }
}

/// The name of an `e_machine`.
#[must_use]
pub fn em_name(v: u16) -> (r: Option<&'static str>)
    ensures
        r == spec_em_name(v),
{
    match v {
        3 => Some("EM_386"),
        40 => Some("EM_ARM"),
        62 => Some("EM_X86_64"),
        183 => Some("EM_AARCH64"),
        243 => Some("EM_RISCV"),
        _ => None,
    }
}

/// The name of a `p_type`.
pub open spec fn spec_pt_name(v: u32) -> Option<&'static str> {
    if v == 0 {
        Some("PT_NULL")
    } else if v == 1 {
        Some("PT_LOAD")
    } else if v == 2 {
        Some("PT_DYNAMIC")
    } else if v == 3 {
        Some("PT_INTERP")
    } else if v == 4 {
        Some("PT_NOTE")
    } else if v == 6 {
        Some("PT_PHDR")
    } else if v == 7 {
        Some("PT_TLS")
    } else if v == 0x6474_e550 {
        Some("PT_GNU_EH_FRAME")
    } else if v == 0x6474_e551 {
        Some("PT_GNU_STACK")
    } else if v == 0x6474_e552 {
        Some("PT_GNU_RELRO")
    } else if v == 0x6474_e553 {
        Some("PT_GNU_PROPERTY")
    } else {
        None
    }
}

/// The name of a `p_type`.
#[must_use]
pub fn pt_name(v: u32) -> (r: Option<&'static str>)
    ensures
        r == spec_pt_name(v),
{
    match v {
        0 => Some("PT_NULL"),
        1 => Some("PT_LOAD"),
        2 => Some("PT_DYNAMIC"),
        3 => Some("PT_INTERP"),
        4 => Some("PT_NOTE"),
        6 => Some("PT_PHDR"),
        7 => Some("PT_TLS"),
        0x6474_e550 => Some("PT_GNU_EH_FRAME"),
        0x6474_e551 => Some("PT_GNU_STACK"),
        0x6474_e552 => Some("PT_GNU_RELRO"),
        0x6474_e553 => Some("PT_GNU_PROPERTY"),
        _ => None,
    }
}

/// The name of an `sh_type`.
pub open spec fn spec_sht_name(v: u32) -> Option<&'static str> {
    if v == SHT_NULL {
        Some("SHT_NULL")
    } else if v == SHT_PROGBITS {
        Some("SHT_PROGBITS")
    } else if v == SHT_SYMTAB {
        Some("SHT_SYMTAB")
    } else if v == SHT_STRTAB {
        Some("SHT_STRTAB")
    } else if v == SHT_RELA {
        Some("SHT_RELA")
    } else if v == SHT_HASH {
        Some("SHT_HASH")
    } else if v == SHT_DYNAMIC {
        Some("SHT_DYNAMIC")
    } else if v == SHT_NOTE {
        Some("SHT_NOTE")
    } else if v == SHT_NOBITS {
        Some("SHT_NOBITS")
    } else if v == SHT_REL {
        Some("SHT_REL")
    } else if v == SHT_DYNSYM {
        Some("SHT_DYNSYM")
    } else if v == SHT_INIT_ARRAY {
        Some("SHT_INIT_ARRAY")
    } else if v == SHT_FINI_ARRAY {
        Some("SHT_FINI_ARRAY")
    } else if v == SHT_PREINIT_ARRAY {
        Some("SHT_PREINIT_ARRAY")
    } else if v == SHT_RELR {
        Some("SHT_RELR")
    } else if v == SHT_GNU_HASH {
        Some("SHT_GNU_HASH")
    } else if v == SHT_GNU_VERDEF {
        Some("SHT_GNU_VERDEF")
    } else if v == SHT_GNU_VERNEED {
        Some("SHT_GNU_VERNEED")
    } else if v == SHT_GNU_VERSYM {
        Some("SHT_GNU_VERSYM")
    } else {
        None
    }
}

/// The name of an `sh_type`.
#[must_use]
pub fn sht_name(v: u32) -> (r: Option<&'static str>)
    ensures
        r == spec_sht_name(v),
{
    match v {
        SHT_NULL => Some("SHT_NULL"),
        SHT_PROGBITS => Some("SHT_PROGBITS"),
        SHT_SYMTAB => Some("SHT_SYMTAB"),
        SHT_STRTAB => Some("SHT_STRTAB"),
        SHT_RELA => Some("SHT_RELA"),
        SHT_HASH => Some("SHT_HASH"),
        SHT_DYNAMIC => Some("SHT_DYNAMIC"),
        SHT_NOTE => Some("SHT_NOTE"),
        SHT_NOBITS => Some("SHT_NOBITS"),
        SHT_REL => Some("SHT_REL"),
        SHT_DYNSYM => Some("SHT_DYNSYM"),
        SHT_INIT_ARRAY => Some("SHT_INIT_ARRAY"),
        SHT_FINI_ARRAY => Some("SHT_FINI_ARRAY"),
        SHT_PREINIT_ARRAY => Some("SHT_PREINIT_ARRAY"),
        SHT_RELR => Some("SHT_RELR"),
        SHT_GNU_HASH => Some("SHT_GNU_HASH"),
        SHT_GNU_VERDEF => Some("SHT_GNU_VERDEF"),
        SHT_GNU_VERNEED => Some("SHT_GNU_VERNEED"),
        SHT_GNU_VERSYM => Some("SHT_GNU_VERSYM"),
        _ => None,
    }
}

/// The name of a dynamic tag.
pub open spec fn spec_dt_name(v: u64) -> Option<&'static str> {
    if v == 0 {
        Some("DT_NULL")
    } else if v == 1 {
        Some("DT_NEEDED")
    } else if v == 2 {
        Some("DT_PLTRELSZ")
    } else if v == 3 {
        Some("DT_PLTGOT")
    } else if v == 4 {
        Some("DT_HASH")
    } else if v == 5 {
        Some("DT_STRTAB")
    } else if v == 6 {
        Some("DT_SYMTAB")
    } else if v == 7 {
        Some("DT_RELA")
    } else if v == 8 {
        Some("DT_RELASZ")
    } else if v == 9 {
        Some("DT_RELAENT")
    } else if v == 10 {
        Some("DT_STRSZ")
    } else if v == 11 {
        Some("DT_SYMENT")
    } else if v == 12 {
        Some("DT_INIT")
    } else if v == 13 {
        Some("DT_FINI")
    } else if v == 14 {
        Some("DT_SONAME")
    } else if v == 15 {
        Some("DT_RPATH")
    } else if v == 16 {
        Some("DT_SYMBOLIC")
    } else if v == 17 {
        Some("DT_REL")
    } else if v == 18 {
        Some("DT_RELSZ")
    } else if v == 19 {
        Some("DT_RELENT")
    } else if v == 20 {
        Some("DT_PLTREL")
    } else if v == 21 {
        Some("DT_DEBUG")
    } else if v == 22 {
        Some("DT_TEXTREL")
    } else if v == 23 {
        Some("DT_JMPREL")
    } else if v == 24 {
        Some("DT_BIND_NOW")
    } else if v == 25 {
        Some("DT_INIT_ARRAY")
    } else if v == 26 {
        Some("DT_FINI_ARRAY")
    } else if v == 27 {
        Some("DT_INIT_ARRAYSZ")
    } else if v == 28 {
        Some("DT_FINI_ARRAYSZ")
    } else if v == 29 {
        Some("DT_RUNPATH")
    } else if v == 30 {
        Some("DT_FLAGS")
    } else if v == 32 {
        Some("DT_PREINIT_ARRAY")
    } else if v == 33 {
        Some("DT_PREINIT_ARRAYSZ")
    } else if v == 35 {
        Some("DT_RELRSZ")
    } else if v == 36 {
        Some("DT_RELR")
    } else if v == 37 {
        Some("DT_RELRENT")
    } else if v == 0x6fff_fef5 {
        Some("DT_GNU_HASH")
    } else if v == 0x6fff_fffb {
        Some("DT_FLAGS_1")
    } else if v == 0x6fff_fffe {
        Some("DT_VERNEED")
    } else if v == 0x6fff_ffff {
        Some("DT_VERNEEDNUM")
    } else if v == 0x6fff_fff0 {
        Some("DT_VERSYM")
    } else {
        None
    }
}

/// The name of a dynamic tag.
#[must_use]
pub fn dt_name(v: u64) -> (r: Option<&'static str>)
    ensures
        r == spec_dt_name(v),
{
    match v {
        0 => Some("DT_NULL"),
        1 => Some("DT_NEEDED"),
        2 => Some("DT_PLTRELSZ"),
        3 => Some("DT_PLTGOT"),
        4 => Some("DT_HASH"),
        5 => Some("DT_STRTAB"),
        6 => Some("DT_SYMTAB"),
        7 => Some("DT_RELA"),
        8 => Some("DT_RELASZ"),
        9 => Some("DT_RELAENT"),
        10 => Some("DT_STRSZ"),
        11 => Some("DT_SYMENT"),
        12 => Some("DT_INIT"),
        13 => Some("DT_FINI"),
        14 => Some("DT_SONAME"),
        15 => Some("DT_RPATH"),
        16 => Some("DT_SYMBOLIC"),
        17 => Some("DT_REL"),
        18 => Some("DT_RELSZ"),
        19 => Some("DT_RELENT"),
        20 => Some("DT_PLTREL"),
        21 => Some("DT_DEBUG"),
        22 => Some("DT_TEXTREL"),
        23 => Some("DT_JMPREL"),
        24 => Some("DT_BIND_NOW"),
        25 => Some("DT_INIT_ARRAY"),
        26 => Some("DT_FINI_ARRAY"),
        27 => Some("DT_INIT_ARRAYSZ"),
        28 => Some("DT_FINI_ARRAYSZ"),
        29 => Some("DT_RUNPATH"),
        30 => Some("DT_FLAGS"),
        32 => Some("DT_PREINIT_ARRAY"),
        33 => Some("DT_PREINIT_ARRAYSZ"),
        35 => Some("DT_RELRSZ"),
        36 => Some("DT_RELR"),
        37 => Some("DT_RELRENT"),
        0x6fff_fef5 => Some("DT_GNU_HASH"),
        0x6fff_fffb => Some("DT_FLAGS_1"),
        0x6fff_fffe => Some("DT_VERNEED"),
        0x6fff_ffff => Some("DT_VERNEEDNUM"),
        0x6fff_fff0 => Some("DT_VERSYM"),
        _ => None,
    }
}

/// The name of an x86-64 relocation type; an unrecognised type prints as a number,
/// which is honest.
pub open spec fn spec_r_x86_64_name(v: u32) -> Option<&'static str> {
    if v == 0 {
        Some("R_X86_64_NONE")
    } else if v == 1 {
        Some("R_X86_64_64")
    } else if v == 5 {
        Some("R_X86_64_COPY")
    } else if v == 6 {
        Some("R_X86_64_GLOB_DAT")
    } else if v == 7 {
        Some("R_X86_64_JUMP_SLOT")
    } else if v == 8 {
        Some("R_X86_64_RELATIVE")
    } else if v == 9 {
        Some("R_X86_64_GOTPCREL")
    } else if v == 16 {
        Some("R_X86_64_DTPMOD64")
    } else if v == 17 {
        Some("R_X86_64_DTPOFF64")
    } else if v == 18 {
        Some("R_X86_64_TPOFF64")
    } else if v == 36 {
        Some("R_X86_64_TLSDESC")
    } else if v == 37 {
        Some("R_X86_64_IRELATIVE")
    } else {
        None
    }
}

/// The name of an x86-64 relocation type; an unrecognised type prints as a number,
/// which is honest.
#[must_use]
pub fn r_x86_64_name(v: u32) -> (r: Option<&'static str>)
    ensures
        r == spec_r_x86_64_name(v),
{
    match v {
        0 => Some("R_X86_64_NONE"),
        1 => Some("R_X86_64_64"),
        5 => Some("R_X86_64_COPY"),
        6 => Some("R_X86_64_GLOB_DAT"),
        7 => Some("R_X86_64_JUMP_SLOT"),
        8 => Some("R_X86_64_RELATIVE"),
        9 => Some("R_X86_64_GOTPCREL"),
        16 => Some("R_X86_64_DTPMOD64"),
        17 => Some("R_X86_64_DTPOFF64"),
        18 => Some("R_X86_64_TPOFF64"),
        36 => Some("R_X86_64_TLSDESC"),
        37 => Some("R_X86_64_IRELATIVE"),
        _ => None,
    }
}

/// The name of a symbol type, the low four bits of `st_info`.
pub open spec fn spec_st_type_name(info: u8) -> Option<&'static str> {
    if (info & 0xf) == 0 {
        Some("NOTYPE")
    } else if (info & 0xf) == 1 {
        Some("OBJECT")
    } else if (info & 0xf) == 2 {
        Some("FUNC")
    } else if (info & 0xf) == 3 {
        Some("SECTION")
    } else if (info & 0xf) == 4 {
        Some("FILE")
    } else if (info & 0xf) == 6 {
        Some("TLS")
    } else if (info & 0xf) == 10 {
        Some("GNU_IFUNC")
    } else {
        None
    }
}

/// The name of a symbol type, the low four bits of `st_info`.
#[must_use]
pub fn st_type_name(info: u8) -> (r: Option<&'static str>)
    ensures
        r == spec_st_type_name(info),
{
    match info & 0xf {
        0 => Some("NOTYPE"),
        1 => Some("OBJECT"),
        2 => Some("FUNC"),
        3 => Some("SECTION"),
        4 => Some("FILE"),
        6 => Some("TLS"),
        10 => Some("GNU_IFUNC"),
        _ => None,
    }
}

} // verus!
