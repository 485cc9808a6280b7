//! Whole files: small ELF images built here, parsed, mapped, drawn, loaded and compared.

use elf_anatomy::audit::{audit, regions, Reading, Severity};
use elf_anatomy::claim::{ClaimId, ClaimKind, RelocTableKind, Value};
use elf_anatomy::compare::{bracket, compare, diff, side_by_side, Verdict};
use elf_anatomy::load::{LoadError, Loader, Process, SearchPath};
use elf_anatomy::markup::esc;
use elf_anatomy::model::{MemImage, Prot};
use elf_anatomy::observed::{MapRow, Trace};
use elf_anatomy::parse::{parse, ParseError, Parsed};
use elf_anatomy::player::{player_html, Track};
use elf_anatomy::render::{caption, runs, scene, Class, Frame, StepView};
use elf_anatomy::session::Session;
use elf_anatomy::span::{FileId, Span};
use elf_anatomy::timeline::Timeline;
use elf_anatomy::trace::parse_ld_debug;
use elf_anatomy::{closure_report, report};

const F: FileId = FileId(0);

// A file, section by section.

struct Section {
    name: &'static str,
    kind: u32,
    addr: u64,
    offset: u64,
    data: Vec<u8>,
    /// Memory without file, for a section that has no data.
    zeros: u64,
    link: u32,
    info: u32,
    entsize: u64,
}

fn section(name: &'static str, kind: u32, addr: u64, offset: u64, data: Vec<u8>) -> Section {
    Section {
        name,
        kind,
        addr,
        offset,
        data,
        zeros: 0,
        link: 0,
        info: 0,
        entsize: 0,
    }
}

struct Seg {
    kind: u32,
    flags: u32,
    offset: u64,
    vaddr: u64,
    filesz: u64,
    memsz: u64,
}

fn put(bytes: &mut Vec<u8>, at: usize, data: &[u8]) {
    if bytes.len() < at + data.len() {
        bytes.resize(at + data.len(), 0);
    }
    bytes[at..at + data.len()].copy_from_slice(data);
}

fn words(list: &[u64]) -> Vec<u8> {
    list.iter().flat_map(|w| w.to_le_bytes()).collect()
}

fn image(e_type: u16, entry: u64, segs: &[Seg], secs: &[Section]) -> Vec<u8> {
    let mut b = vec![0u8; 64];
    put(&mut b, 0, b"\x7fELF\x02\x01\x01");
    put(&mut b, 16, &e_type.to_le_bytes());
    put(&mut b, 18, &62u16.to_le_bytes());
    put(&mut b, 20, &1u32.to_le_bytes());
    put(&mut b, 24, &entry.to_le_bytes());
    put(&mut b, 52, &64u16.to_le_bytes());
    put(&mut b, 54, &56u16.to_le_bytes());
    put(&mut b, 56, &(segs.len() as u16).to_le_bytes());
    put(&mut b, 58, &64u16.to_le_bytes());
    if !segs.is_empty() {
        put(&mut b, 32, &64u64.to_le_bytes());
    }
    for (i, s) in segs.iter().enumerate() {
        let at = 64 + 56 * i;
        put(&mut b, at, &s.kind.to_le_bytes());
        put(&mut b, at + 4, &s.flags.to_le_bytes());
        put(
            &mut b,
            at + 8,
            &words(&[s.offset, s.vaddr, s.vaddr, s.filesz, s.memsz, 0x1000]),
        );
    }
    for s in secs {
        if !s.data.is_empty() {
            put(&mut b, s.offset as usize, &s.data);
        }
    }
    if secs.is_empty() {
        return b;
    }
    // Section names, then the section headers, at the end.
    let mut names = vec![0u8];
    let mut at_name = vec![0u32];
    for s in secs {
        at_name.push(names.len() as u32);
        names.extend_from_slice(s.name.as_bytes());
        names.push(0);
    }
    at_name.push(names.len() as u32);
    names.extend_from_slice(b".shstrtab\0");
    let strings = b.len();
    b.extend_from_slice(&names);
    while b.len() % 8 != 0 {
        b.push(0);
    }
    let table = b.len();
    let count = secs.len() + 2;
    put(&mut b, 40, &(table as u64).to_le_bytes());
    put(&mut b, 60, &(count as u16).to_le_bytes());
    put(&mut b, 62, &((count - 1) as u16).to_le_bytes());
    put(&mut b, table, &[0u8; 64]);
    for (i, s) in secs.iter().enumerate() {
        let at = table + 64 * (i + 1);
        put(&mut b, at, &at_name[i + 1].to_le_bytes());
        put(&mut b, at + 4, &s.kind.to_le_bytes());
        let size = s.data.len() as u64 + s.zeros;
        put(&mut b, at + 8, &words(&[0, s.addr, s.offset, size]));
        put(&mut b, at + 40, &s.link.to_le_bytes());
        put(&mut b, at + 44, &s.info.to_le_bytes());
        put(&mut b, at + 48, &words(&[8, s.entsize]));
    }
    let at = table + 64 * (count - 1);
    put(&mut b, at, &at_name[count - 1].to_le_bytes());
    put(&mut b, at + 4, &3u32.to_le_bytes());
    put(&mut b, at + 8, &words(&[0, 0, strings as u64, names.len() as u64]));
    put(&mut b, at + 48, &words(&[1, 0]));
    b
}

fn symbol(name: u32, info: u8) -> Vec<u8> {
    let mut s = name.to_le_bytes().to_vec();
    s.push(info);
    s.extend_from_slice(&[0u8; 19]);
    s
}

fn rela(offset: u64, sym: u64, kind: u64) -> Vec<u8> {
    words(&[offset, (sym << 32) | kind, 0])
}

/// A small dynamic program: one library, one relocation of each table, `.bss`, debug info.
fn hello_dyn() -> Vec<u8> {
    let interp = b"/lib64/ld-linux-x86-64.so.2\0".to_vec();
    let strings = b"\0libc.so.6\0fputs\0__gmon_start__\0".to_vec();
    let mut syms = symbol(0, 0);
    syms.extend(symbol(11, 0x12)); // fputs, global
    syms.extend(symbol(17, 0x20)); // __gmon_start__, weak
    let mut dynrel = rela(0x2f00, 2, 6);
    dynrel.extend(rela(0x2f08, 0, 8));
    let pltrel = rela(0x2f10, 1, 7);
    let dynamic = words(&[1, 1, 30, 8, 0, 0]);
    let mut secs = vec![
        section(".interp", 1, 0x200, 0x200, interp),
        section(".dynsym", 11, 0x240, 0x240, syms),
        section(".dynstr", 3, 0x2a0, 0x2a0, strings),
        section(".rela.dyn", 4, 0x300, 0x300, dynrel),
        section(".rela.plt", 4, 0x340, 0x340, pltrel),
        section(".text", 1, 0x400, 0x400, vec![0x90; 0x40]),
        section(".rodata", 1, 0x440, 0x440, b"hello, world\0".to_vec()),
        section(".dynamic", 6, 0x2e00, 0x1e00, dynamic),
        section(".got", 1, 0x2f00, 0x1f00, vec![0; 0x40]),
        section(".bss", 8, 0x2f40, 0x1f40, Vec::new()),
        section(".debug_info", 1, 0, 0x1f40, vec![0x55; 0x40]),
        section(".comment", 1, 0, 0x1f80, b"GCC\0".to_vec()),
    ];
    secs[1].link = 3;
    secs[1].entsize = 24;
    secs[1].info = 1;
    secs[3].link = 2;
    secs[3].entsize = 24;
    secs[4].link = 2;
    secs[4].entsize = 24;
    secs[7].link = 3;
    secs[7].entsize = 16;
    secs[9].zeros = 0x1200;
    let seg = |kind, flags, offset, vaddr, filesz, memsz| Seg {
        kind,
        flags,
        offset,
        vaddr,
        filesz,
        memsz,
    };
    let segs = [
        seg(3, 4, 0x200, 0x200, 28, 28),
        seg(1, 5, 0, 0, 0x450, 0x450),
        seg(1, 6, 0x1e00, 0x2e00, 0x140, 0x1340),
        seg(2, 6, 0x1e00, 0x2e00, 48, 48),
        seg(0x6474_e552, 4, 0x1e00, 0x2e00, 0x140, 0x200),
    ];
    image(3, 0x400, &segs, &secs)
}

/// A library with many relocations, which names the interpreter among its dependencies.
fn libc(relocations: usize) -> Vec<u8> {
    let strings = b"\0ld-linux-x86-64.so.2\0".to_vec();
    let mut table = Vec::new();
    for i in 0..relocations {
        table.extend(rela(0x2000 + 8 * i as u64, 0, 8));
    }
    let end = 0x400 + table.len() as u64;
    let dynamic = words(&[1, 1, 0, 0]);
    let mut secs = vec![
        section(".dynstr", 3, 0x300, 0x300, strings),
        section(".rela.dyn", 4, 0x400, 0x400, table),
        section(".dynamic", 6, 0x1000 + end, end, dynamic),
    ];
    secs[1].entsize = 24;
    secs[2].link = 1;
    secs[2].entsize = 16;
    let segs = [
        Seg {
            kind: 1,
            flags: 5,
            offset: 0,
            vaddr: 0,
            filesz: 0x400,
            memsz: 0x400,
        },
        Seg {
            kind: 1,
            flags: 6,
            offset: 0x400,
            vaddr: 0x1400,
            filesz: end + 32 - 0x400,
            memsz: 0x4000,
        },
    ];
    image(3, 0, &segs, &secs)
}

/// A program without an interpreter: its relocations call resolvers at startup.
fn hello_static() -> Vec<u8> {
    let mut secs = vec![
        section(".rela.plt", 4, 0x40_0200, 0x200, rela(0x40_1000, 0, 37)),
        section(".text", 1, 0x40_0300, 0x300, vec![0x90; 0x20]),
    ];
    secs[0].entsize = 24;
    let segs = [
        Seg {
            kind: 1,
            flags: 5,
            offset: 0,
            vaddr: 0x40_0000,
            filesz: 0x320,
            memsz: 0x320,
        },
        Seg {
            kind: 1,
            flags: 6,
            offset: 0x320,
            vaddr: 0x40_1320,
            filesz: 0,
            memsz: 0x100,
        },
    ];
    image(2, 0x40_0300, &segs, &secs)
}

fn count_kind(parsed: &Parsed, pred: impl Fn(&ClaimKind) -> bool) -> usize {
    (0..parsed.coverage.len())
        .filter_map(|i| parsed.coverage.claim(ClaimId(i as u32)))
        .filter(|c| pred(&c.kind))
        .count()
}

fn parsed(bytes: &[u8]) -> Parsed {
    parse(bytes).unwrap()
}

fn mem(p: &Parsed) -> MemImage {
    MemImage::for_file(&p.summary.segments, p.coverage.stats().total_bytes)
}

// Parsing.

#[test]
fn every_specimen_is_fully_covered() {
    for bytes in [hello_dyn(), libc(40), hello_static(), image(1, 0, &[], &[])] {
        let parsed = parsed(&bytes);
        let stats = parsed.coverage.stats();
        assert_eq!(stats.total_bytes, bytes.len() as u64);
        assert!(stats.claim_count > 0 && stats.leaf_count > 0);

        // The invariant, checked independently: walk every byte and require exactly one
        // leaf. Slow and deliberately naive: it is the oracle.
        let mut off = 0u64;
        while off < stats.total_bytes {
            let stack = parsed.coverage.claims_at(F, off);
            let leaves = stack
                .iter()
                .filter(|id| parsed.coverage.children(**id).is_empty())
                .count();
            assert_eq!(leaves, 1, "byte {off:#x} covered by {leaves} leaves");
            off += 1;
        }
    }
}

#[test]
fn a_dynamic_binary_reports_its_dependencies() {
    let parsed = parsed(&hello_dyn());
    assert_eq!(
        parsed.summary.interp.as_deref(),
        Some("/lib64/ld-linux-x86-64.so.2")
    );
    assert!(parsed.summary.needed.iter().any(|n| n.starts_with("libc.so")));
    assert!(parsed.summary.bind_now);
    assert!(parsed.summary.has_dynamic);
    let syms: Vec<(Option<&str>, bool)> = parsed
        .summary
        .relocs
        .iter()
        .map(|r| (r.symbol.as_deref(), r.weak))
        .collect();
    assert_eq!(
        syms,
        vec![
            (Some("__gmon_start__"), true),
            (None, false),
            (Some("fputs"), false)
        ]
    );
    assert_eq!(parsed.summary.relocs[2].table, RelocTableKind::JmpRel);
}

#[test]
fn a_static_binary_has_no_interpreter_and_still_has_relocations() {
    let parsed = parsed(&hello_static());
    assert!(parsed.summary.interp.is_none());
    assert!(parsed.summary.needed.is_empty());
    // The point of the file: ifunc resolvers run at startup with no loader present.
    let irelative = count_kind(&parsed, |k| {
        matches!(k, ClaimKind::RelocationEntry { r_type: 37, .. })
    });
    assert!(irelative > 0);
}

#[test]
fn relr_words_are_claimed_when_the_linker_emits_them() {
    // An address, then a bitmap: bit 1 and bit 3 stand for the next word and the third.
    let mut secs = vec![
        section(".relr.dyn", 19, 0x200, 0x200, words(&[0x3000, 0b1011])),
        section(".dynamic", 6, 0x300, 0x300, words(&[36, 0x200, 0, 0])),
    ];
    secs[0].entsize = 8;
    secs[1].entsize = 16;
    let parsed = parsed(&image(3, 0, &[], &secs));
    assert!(parsed.summary.has_relr);
    assert_eq!(count_kind(&parsed, |k| matches!(k, ClaimKind::RelrWord { .. })), 2);
    let at: Vec<u64> = parsed.summary.relocs.iter().map(|r| r.offset).collect();
    assert_eq!(at, vec![0x3000, 0x3008, 0x3018]);
}

#[test]
fn a_bitmap_word_stands_for_up_to_63_places() {
    let mut secs = vec![
        section(".relr.dyn", 19, 0x200, 0x200, words(&[0x3000, u64::MAX, 0b11])),
        section(".dynamic", 6, 0x300, 0x300, words(&[36, 0x200, 0, 0])),
    ];
    secs[0].entsize = 8;
    secs[1].entsize = 16;
    let parsed = parsed(&image(3, 0, &[], &secs));
    let at: Vec<u64> = parsed.summary.relocs.iter().map(|r| r.offset).collect();
    // One, then 63, then the first place past those.
    let expected: Vec<u64> = (0..65).map(|i| 0x3000 + 8 * i).collect();
    assert_eq!(at, expected);
}

#[test]
fn explained_and_filler_make_the_file() {
    for bytes in [hello_dyn(), libc(40), hello_static(), image(1, 0, &[], &[])] {
        let stats = parsed(&bytes).coverage.stats();
        assert_eq!(stats.explained_bytes + stats.filler_bytes, bytes.len() as u64);
    }
}

#[test]
fn a_path_that_is_not_utf8_is_no_path() {
    let mut bytes = hello_dyn();
    put(&mut bytes, 0x205, "\u{e9}".as_bytes());
    assert_eq!(
        parsed(&bytes).summary.interp.as_deref(),
        Some("/lib6\u{e9}ld-linux-x86-64.so.2")
    );
    put(&mut bytes, 0x205, &[0xff]);
    let p = parsed(&bytes);
    assert_eq!(p.summary.interp, None);
    assert_eq!(p.summary.needed, vec!["libc.so.6"]);
}

#[test]
fn malformed_files_are_refused() {
    assert_eq!(parse(b"\x7fELF").unwrap_err(), ParseError::TooSmall { len: 4 });
    let zeros = [0u8; 64];
    assert_eq!(
        parse(&zeros).unwrap_err(),
        ParseError::BadMagic { found: [0, 0, 0, 0] }
    );
    let mut b = image(3, 0, &[], &[]);
    b[4] = 1;
    assert_eq!(
        parse(&b).unwrap_err().to_text(),
        "ELF32 is not supported yet (phase 5)"
    );
    b[4] = 2;
    b[5] = 2;
    assert_eq!(parse(&b).unwrap_err(), ParseError::UnsupportedData { data: 2 });
    // A section header table that runs past the end of the file.
    let mut cut = hello_dyn();
    let len = cut.len() - 64;
    cut.truncate(len);
    match parse(&cut).unwrap_err() {
        ParseError::Truncated { what, .. } => assert_eq!(what, "the section header table"),
        other => panic!("expected truncation, got {other:?}"),
    }
    // Two sections that claim the same bytes.
    let secs = [
        section(".a", 1, 0, 0x100, vec![1; 0x20]),
        section(".b", 1, 0, 0x110, vec![2; 0x20]),
    ];
    match parse(&image(1, 0, &[], &secs)).unwrap_err() {
        ParseError::Coverage(e) => assert!(e.to_text().contains("both cover f0:0x110..0x120 (16)")),
        other => panic!("expected an overlap, got {other:?}"),
    }
}

#[test]
fn truncated_program_headers_are_refused() {
    let mut b = image(2, 0, &[], &[]);
    put(&mut b, 32, &64u64.to_le_bytes());
    put(&mut b, 56, &3u16.to_le_bytes());
    assert_eq!(
        parse(&b).unwrap_err().to_text(),
        "file ends inside the program header table at offset 0x40"
    );
}

// Rendering.

#[test]
fn runs_tile_the_file_exactly() {
    let p = parsed(&hello_dyn());
    let total = p.coverage.stats().total_bytes;
    let mut cursor = 0u64;
    for run in runs(&p.coverage) {
        assert_eq!(run.span.start, cursor, "runs must be contiguous");
        cursor += run.span.len;
    }
    assert_eq!(cursor, total, "runs must cover the whole file");
    // Merging is the point: a thousand leaves must not become a thousand bands.
    assert!(runs(&p.coverage).len() < 60, "too many bands to render legibly");
}

#[test]
fn neighbouring_bands_are_of_different_structures() {
    for bytes in [hello_dyn(), libc(40), hello_static()] {
        let p = parsed(&bytes);
        let top = |off| *p.coverage.ancestry(p.coverage.innermost_at(F, off).unwrap()).last().unwrap();
        let bands = runs(&p.coverage);
        for pair in bands.windows(2) {
            assert_ne!(top(pair[0].span.start), top(pair[1].span.start));
        }
        // Every byte of a band is of the structure that the band starts with.
        for band in &bands {
            for off in band.span.start..band.span.end() {
                assert_eq!(top(off), top(band.span.start));
            }
        }
    }
}

#[test]
fn bands_are_named_and_coloured_by_section() {
    let p = parsed(&hello_dyn());
    let find = |label: &str| {
        runs(&p.coverage)
            .into_iter()
            .find(|r| r.label == label)
            .map(|r| (r.class, r.span.start))
    };
    assert_eq!(find("ELF header"), Some((Class::Header, 0)));
    assert_eq!(find(".text"), Some((Class::Code, 0x400)));
    assert_eq!(find(".rodata"), Some((Class::ReadOnly, 0x440)));
    assert_eq!(find(".got"), Some((Class::Data, 0x1f00)));
    assert_eq!(find(".debug_info"), Some((Class::Debug, 0x1f40)));
    assert_eq!(find(".comment"), Some((Class::Debug, 0x1f80)));
    assert_eq!(Class::ZeroFill.color(), "#00d0c0");
}

#[test]
fn a_static_binary_still_maps() {
    let p = parsed(&hello_static());
    let image = mem(&p);
    assert!(!image.is_empty(), "a static binary has PT_LOADs too");
    assert!(image.zero_filled_bytes() > 0, "and it has .bss");
}

#[test]
fn a_scene_shows_what_is_mapped_so_far() {
    let p = parsed(&hello_dyn());
    let image = mem(&p);
    let base = Frame {
        coverage: &p.coverage,
        image: &image,
        title: "hello-dyn",
        subtitle: "",
        step: None,
    };
    let whole = scene(&base);
    assert_eq!(whole.file_len, p.coverage.stats().total_bytes);
    assert_eq!((whole.low, whole.high), (0, 0x2e00 + 0x1340));
    assert_eq!(whole.never_loaded, whole.file_len - image.resident_bytes());
    // .bss exists in no file; debug info is in the file and never in memory.
    assert_eq!(whole.zero_fill, vec![(0x2f40, 0x4140)]);
    let text = whole.bands.iter().find(|b| b.run.label == ".text").unwrap();
    assert_eq!(text.lands_at, Some(0x400));
    assert!(whole.stripes.is_empty() && whole.pokes.is_empty());

    let timeline = Timeline::plan(&p.summary, &image);
    let first = timeline.state_at(0);
    let start = scene(&Frame {
        step: Some(StepView {
            state: &first,
            narration: "",
            n: 0,
            total: timeline.len() - 1,
        }),
        ..base
    });
    assert!(start.bands.iter().all(|b| b.lands_at.is_none()));
    let last = timeline.state_at(timeline.len());
    let view = StepView {
        state: &last,
        narration: "jump",
        n: 9,
        total: 9,
    };
    let frame = Frame {
        step: Some(view),
        ..base
    };
    let end = scene(&frame);
    // Three writes before main: both tables, PLT included, because of BIND_NOW.
    assert_eq!(end.pokes.len(), 3);
    assert_eq!(end.stripes[0].color, Class::Code.color());
    assert!(end.stripes.iter().any(|s| s.color == Class::Header.color()));
    assert_eq!(
        caption(&frame, "12.5"),
        "step 9 / 9   \u{b7}   jump   \u{b7}   3 addresses written so far"
    );
    assert_eq!(
        caption(&base, "12.5"),
        "12.5% of the file is never loaded   \u{b7}   4608 bytes of memory come from no file"
    );
}

#[test]
fn a_player_holds_every_frame() {
    assert_eq!(esc("a<b>&c"), "a&lt;b&gt;&amp;c");
    let track = |name: &str, n: usize| Track {
        name: name.to_owned(),
        frames: (0..n).map(|i| format!("<svg>{i}</svg>")).collect(),
        captions: Vec::new(),
    };
    let html = player_html("x<y", &[track("one", 3), track("two", 0)]);
    assert!(html.starts_with("<!doctype html>\n<html lang=\"en\">"));
    assert!(html.contains("<title>x&lt;y</title>"));
    assert!(html.contains(
        "<button role=\"tab\" data-track=\"0\" aria-selected=\"true\">one</button><button role=\"tab\" data-track=\"1\" aria-selected=\"false\">two</button>"
    ));
    assert!(html.contains(
        "<div class=\"frame on\"><svg>0</svg></div><div class=\"frame\"><svg>1</svg></div>"
    ));
    assert!(html.contains("max=\"2\" value=\"0\">\n  <span class=\"pos\">0 / 2</span>\n</div></section>\n"));
    assert!(html.contains("max=\"0\" value=\"0\">"));
    assert!(html.ends_with("</script></body></html>\n"));
}

// Loading.

fn search(path: &str) -> SearchPath {
    SearchPath::new(path)
}

/// Loads a program with the files of a small file system.
fn load(program: &str, files: &[(&str, Vec<u8>)]) -> Result<Process, LoadError> {
    let bytes = |path: &str| files.iter().find(|(p, _)| *p == path).map(|(_, b)| b.clone());
    let dirs = search("");
    let mut loader = Loader::begin(program, &bytes(program).unwrap())?;
    while let Some(soname) = loader.wanted() {
        let found = dirs
            .candidates(&soname)
            .into_iter()
            .find(|c| bytes(c).is_some());
        match found {
            Some(path) => loader.supply(&path, &bytes(&path).unwrap())?,
            None => return Err(loader.not_found()),
        }
    }
    Ok(loader.finish())
}

fn hello_files() -> Vec<(&'static str, Vec<u8>)> {
    vec![
        ("/tmp/hello-dyn", hello_dyn()),
        ("/lib/x86_64-linux-gnu/libc.so.6", libc(40)),
    ]
}

#[test]
fn a_dynamic_program_pulls_in_libc() {
    let proc = load("/tmp/hello-dyn", &hello_files()).unwrap();

    assert_eq!(proc.objects.len(), 2, "the program and libc");
    assert_eq!(proc.objects[1].requested, "libc.so.6");
    assert_eq!(proc.objects[1].needed_by, Some(0));

    // Most of a process is not the program. That is the point of following the closure at
    // all.
    let prog = proc.objects[0].startup_relocations();
    let libc = proc.objects[1].startup_relocations();
    assert!(libc > prog * 10, "program {prog}, libc {libc}");
    assert_eq!(proc.total_relocations(), 43);
    assert_eq!(proc.program().unwrap().path, "/tmp/hello-dyn");
    let order: Vec<u32> = proc.relocation_order().iter().map(|o| o.id).collect();
    assert_eq!(order, vec![1, 0]);
    assert_eq!(
        proc.total_mapped(),
        proc.objects[0].image.resident_bytes() + proc.objects[1].image.resident_bytes()
    );
}

#[test]
fn the_interpreter_is_not_followed() {
    let proc = load("/tmp/hello-dyn", &hello_files()).unwrap();
    // libc lists ld-linux in its own DT_NEEDED; following it would loop.
    assert_eq!(
        proc.objects[1].parsed.summary.needed,
        vec!["ld-linux-x86-64.so.2"]
    );
    assert!(!proc.objects.iter().any(|o| o.requested.contains("ld-linux")));
}

#[test]
fn objects_do_not_overlap_in_the_address_space() {
    let proc = load("/tmp/hello-dyn", &hello_files()).unwrap();
    let mut spans: Vec<(u64, u64)> = proc
        .objects
        .iter()
        .filter_map(|o| o.image.extent().map(|(lo, hi)| (o.base + lo, o.base + hi)))
        .collect();
    spans.sort_unstable();
    for w in spans.windows(2) {
        assert!(w[0].1 <= w[1].0, "objects overlap: {spans:?}");
    }
    assert_eq!(proc.objects[1].base, 0x10_4000);
}

#[test]
fn a_static_binary_is_a_closure_of_one() {
    let proc = load("/tmp/hello-static", &[("/tmp/hello-static", hello_static())]).unwrap();
    assert_eq!(proc.objects.len(), 1);
}

#[test]
fn a_missing_library_is_named_with_who_needs_it() {
    let e = load("/tmp/hello-dyn", &[("/tmp/hello-dyn", hello_dyn())]).unwrap_err();
    assert_eq!(
        e.to_text(),
        "libc.so.6: not found on any search path (needed by /tmp/hello-dyn)"
    );
    let bad = load(
        "/tmp/hello-dyn",
        &[
            ("/tmp/hello-dyn", hello_dyn()),
            ("/usr/lib/libc.so.6", b"text".to_vec()),
        ],
    )
    .unwrap_err();
    assert_eq!(
        bad.to_text(),
        "/usr/lib/libc.so.6: file is 4 bytes; an ELF64 header needs 64"
    );
    let read = LoadError::Read {
        path: "/x".to_owned(),
        detail: "gone".to_owned(),
    };
    assert_eq!(read.to_text(), "/x: gone");
}

#[test]
fn the_environment_is_searched_first() {
    let s = search("/a::/b/");
    assert_eq!(s.env, vec!["/a", "/b/"]);
    let c = s.candidates("libm.so.6");
    assert_eq!(c.len(), 8);
    assert_eq!(
        &c[..3],
        &["/a/libm.so.6", "/b/libm.so.6", "/lib/x86_64-linux-gnu/libm.so.6"]
    );
    assert_eq!(c[7], "/usr/lib/libm.so.6");
    assert_eq!(search("").candidates("/abs/x.so")[0], "/abs/x.so");
}

#[test]
fn the_closure_reads_as_a_table() {
    let proc = load("/tmp/hello-dyn", &hello_files()).unwrap();
    let names = vec!["hello-dyn".to_owned(), "libc.so.6".to_owned()];
    let text = closure_report::process("hello-dyn", &proc, &names, Some("7.0"));
    let row = format!("  {:<2} {:<38} {:>10} {:>9}  {}\n", "#", "object", "mapped", "relocs", "needed by");
    assert!(text.contains(&row));
    let mapped = elf_anatomy::audit::commas(proc.objects[1].image.resident_bytes());
    let libc_row = format!("  {:<2} {:<38} {:>10} {:>9}  {}\n", 1, "libc.so.6", mapped, 40, "hello-dyn");
    assert!(text.contains(&libc_row));
    assert!(text.ends_with(
        "\n  relocation order — dependencies first\n    libc.so.6\n    hello-dyn\n\n  the program is 7.0% of the relocations its own startup performs\n\n"
    ));
    let trace = Trace {
        steps: parse_ld_debug(&observed_text(false)),
        ..Trace::default()
    };
    let (ok, line) = closure_report::relocation_check(&proc, &names, &trace);
    assert!(ok);
    assert_eq!(
        line,
        "\n  relocation order      ok    1 dependency edge(s) respected; order [\"/lib/x86_64-linux-gnu/libc.so.6\", \"/tmp/hello-dyn\"]\n"
    );
    let backwards = Trace {
        steps: parse_ld_debug("1:\trelocation processing: /tmp/hello-dyn\n1:\trelocation processing: /lib/libc.so.6\n"),
        ..Trace::default()
    };
    let (ok, line) = closure_report::relocation_check(&proc, &names, &backwards);
    assert!(!ok);
    assert_eq!(
        line,
        "\n  relocation order      DIFF  [\"libc.so.6 after hello-dyn\"]\n"
    );
    let (v, line) = closure_report::resolution(&trace, "libc.so.6", "/usr/lib/libc.so.6", false);
    assert_eq!(v, Verdict::Differ);
    assert_eq!(
        line,
        "    DIFF  libc.so.6                /usr/lib/libc.so.6\n              loader chose /lib/x86_64-linux-gnu/libc.so.6\n"
    );
    let (v, _) = closure_report::resolution(&trace, "libm.so.6", "/usr/lib/libm.so.6", false);
    assert_eq!(v, Verdict::NotModelled);
    assert_eq!(closure_report::close(0), "\n");
    assert_eq!(
        closure_report::close(2),
        "\n  2 divergence(s); see docs/CONFORMANCE.md\n\n"
    );
}

// The model against an observed load.

fn observed_text(lazy: bool) -> String {
    let mark = if lazy { " (lazy)" } else { "" };
    format!(
        "1:\tfile=libc.so.6 [0];  needed by /tmp/hello-dyn [0]\n\
         1:\tfind library=libc.so.6 [0]; searching\n\
         1:\t  trying file=/lib/x86_64-linux-gnu/libc.so.6\n\
         1:\t\n\
         1:\trelocation processing: /lib/x86_64-linux-gnu/libc.so.6\n\
         1:\trelocation processing: /tmp/hello-dyn{mark}\n\
         1:\tbinding file /tmp/hello-dyn [0] to /lib/x86_64-linux-gnu/libc.so.6 [0]: normal symbol `fputs' [X]\n\
         1:\tbinding file /tmp/hello-dyn [0] to /lib/x86_64-linux-gnu/libc.so.6 [0]: normal symbol `malloc' [X]\n\
         1:\tcalling init: /lib/x86_64-linux-gnu/libc.so.6\n\
         1:\tinitialize program: /tmp/hello-dyn\n"
    )
}

fn row(start: u64, end: u64, offset: u64, perms: &str, path: &str) -> MapRow {
    MapRow {
        start,
        end,
        offset,
        perms: perms.to_owned(),
        path: path.to_owned(),
    }
}

fn observed(lazy: bool) -> Trace {
    let base = 0x5555_5555_4000;
    let file = "/tmp/hello-dyn";
    Trace {
        target: file.to_owned(),
        steps: parse_ld_debug(&observed_text(lazy)),
        maps_at_interp: Vec::new(),
        maps_at_entry: vec![
            row(base, base + 0x1000, 0, "r-xp", file),
            row(base + 0x2000, base + 0x3000, 0x1000, "r--p", file),
            // .bss past the last file-backed page has no path.
            row(base + 0x3000, base + 0x5000, 0, "rw-p", ""),
            row(0x7fff_0000, 0x7fff_1000, 0, "rw-p", "[stack]"),
        ],
    }
}

#[test]
fn a_model_that_agrees_with_the_loader_says_so() {
    let mut bytes = hello_dyn();
    // RELRO that covers the whole page.
    put(&mut bytes, 64 + 56 * 4 + 40, &0x200u64.to_le_bytes());
    let p = parsed(&bytes);
    let image = mem(&p);
    let timeline = Timeline::plan(&p.summary, &image);
    let end = timeline.state_at(timeline.len());
    let checks = compare("hello-dyn", &p, &end, &observed(false));
    let text = diff("/tmp/hello-dyn", &checks);
    assert_eq!(
        text,
        "\n/tmp/hello-dyn  model vs observed\n\n\
         \x20 ok    mappings               3 vmas, identical base-relative\n\
         \x20 ok    DT_NEEDED              1 resolved: libc.so.6\n\
         \x20 ok    relocation order       1 object(s) relocated before the program\n\
         \x20 ok    initialiser order      program last, after 1\n\
         \x20 ok    binding mode           BIND_NOW — PLT relocations applied before main\n\
         \x20 ok    symbol binds           all 1 named by relocations were bound; the loader resolved 1 more of its own\n\n"
    );
}

#[test]
fn divergences_are_named() {
    let p = parsed(&hello_dyn());
    let image = mem(&p);
    let timeline = Timeline::plan(&p.summary, &image);
    let end = timeline.state_at(timeline.len());
    let mut trace = observed(true);
    trace.maps_at_entry.pop();
    trace.maps_at_entry.pop();
    let checks = compare("hello-dyn", &p, &end, &trace);
    assert_eq!(checks[0].verdict, Verdict::Differ);
    assert!(checks[0].detail.starts_with("model 3 vmas, observed 2\n\n          0x000000-0x001000 r-x off 0x00000   0x000000-0x001000 r-x off 0x00000\n"));
    assert!(checks[0].detail.ends_with("\n        * 0x003000-0x005000 rw- off anon                                    "));
    assert_eq!(checks[4].verdict, Verdict::Differ);
    assert_eq!(checks[4].detail, "model says BIND_NOW, loader reports lazy");
    assert!(diff("x", &checks).ends_with(
        "\n  2 divergences. A divergence is a fact about loading until it is\n  explained; see docs/CONFORMANCE.md.\n\n"
    ));

    let nothing = Trace::default();
    let silent = compare("hello-dyn", &p, &end, &nothing);
    let verdicts: Vec<Verdict> = silent.iter().map(|c| c.verdict).collect();
    assert_eq!(
        verdicts,
        vec![
            Verdict::NotModelled,
            Verdict::Differ,
            Verdict::NotModelled,
            Verdict::NotModelled,
            Verdict::NotModelled,
            Verdict::NotModelled
        ]
    );
    assert_eq!(silent[1].detail, "never searched for: [\"libc.so.6\"]");
    assert_eq!(
        silent[5].detail,
        "model names 1; the loader attributed no binds to this object"
    );
}

#[test]
fn the_load_base_does_not_matter() {
    let mut bytes = hello_dyn();
    put(&mut bytes, 64 + 56 * 4 + 40, &0x200u64.to_le_bytes());
    let p = parsed(&bytes);
    let timeline = Timeline::plan(&p.summary, &mem(&p));
    let end = timeline.state_at(timeline.len());
    for shift in [0, 0x1000, 0x7_0000_0000] {
        let mut trace = observed(false);
        for r in &mut trace.maps_at_entry {
            r.start += shift;
            r.end += shift;
        }
        let checks = compare("hello-dyn", &p, &end, &trace);
        assert_eq!(checks[0].verdict, Verdict::Match);
        assert_eq!(checks[0].detail, "3 vmas, identical base-relative");
    }
}

#[test]
fn fixed_addresses_are_compared_as_they_are() {
    let p = parsed(&hello_static());
    let timeline = Timeline::plan(&p.summary, &mem(&p));
    let end = timeline.state_at(timeline.len());
    let file = "/tmp/hello-static";
    for (shift, verdict) in [(0, Verdict::Match), (0x1000, Verdict::Differ)] {
        let trace = Trace {
            maps_at_entry: vec![
                row(0x40_0000 + shift, 0x40_1000 + shift, 0, "r-xp", file),
                row(0x40_1000 + shift, 0x40_2000 + shift, 0, "rw-p", ""),
            ],
            ..Trace::default()
        };
        assert_eq!(compare("hello-static", &p, &end, &trace)[0].verdict, verdict);
    }
}

#[test]
fn a_named_symbol_must_be_bound() {
    let p = parsed(&hello_dyn());
    let timeline = Timeline::plan(&p.summary, &mem(&p));
    let end = timeline.state_at(timeline.len());
    let mut trace = observed(false);
    trace.steps = parse_ld_debug(&observed_text(false).replace("fputs", "puts"));
    let checks = compare("hello-dyn", &p, &end, &trace);
    assert_eq!(checks[5].verdict, Verdict::Differ);
    assert!(checks[5].detail.contains("[\"fputs\"]"));
}

#[test]
fn names_are_quoted_in_lists() {
    // A name that has to be escaped shows that the quoting is more than two marks.
    let mut bytes = hello_dyn();
    put(&mut bytes, 0x2a1, b"li\"c");
    let p = parsed(&bytes);
    assert_eq!(p.summary.needed, vec!["li\"c.so.6"]);
    let image = mem(&p);
    let timeline = Timeline::plan(&p.summary, &image);
    let end = timeline.state_at(timeline.len());
    let checks = compare("hello-dyn", &p, &end, &Trace::default());
    assert_eq!(checks[1].detail, "never searched for: [\"li\\\"c.so.6\"]");
    assert_eq!(bracket(&vec!["a".to_owned(), "b".to_owned()]), "[a, b]");
}

#[test]
fn tables_stand_side_by_side() {
    let rw = Prot::from_perms("rw-");
    let a = vec![(0x1000, 0x2000, rw, Some(0x10))];
    let b = Vec::new();
    assert_eq!(
        side_by_side(&a, &b),
        format!("\n        * 0x001000-0x002000 rw- off 0x00010   {}", " ".repeat(33))
    );
    assert_eq!(side_by_side(&b, &b), "");
}

// Auditing.

#[test]
fn appended_data_is_suspicious() {
    let mut bytes = hello_dyn();
    let end = bytes.len();
    bytes.extend_from_slice(b"PK\x03\x04");
    bytes.resize(end + 2048, 7);
    let p = parsed(&bytes);
    let image = mem(&p);
    let spans = regions(&p);
    assert!(spans.contains(&Span::new(F, end as u64, 2048)));
    let readings: Vec<Reading> = spans
        .iter()
        .map(|_| Reading {
            entropy: "0.1".to_owned(),
            high: true,
        })
        .collect();
    let found = audit(&p, &image, &bytes, &readings);
    let first = &found[0];
    assert_eq!(first.severity, Severity::Suspicious);
    assert_eq!(first.title, "data appended past the last structure");
    assert_eq!(
        first.detail,
        format!("2,048 bytes at {end:#x} that no header, section or segment describes, beginning with a zip archive (entropy 0.1)")
    );
    assert!(found
        .iter()
        .any(|f| f.title == "high-entropy region belongs to nothing" && f.severity == Severity::Odd));
    // Worst first.
    assert!(found.windows(2).all(|w| w[0].severity >= w[1].severity));
    let (text, flagged) = report::suspect("x", bytes.len() as u64, "50.0", &found);
    assert_eq!(flagged, 1);
    assert!(text.contains("  suspect  data appended past the last structure\n           2,048 bytes at"));
}

#[test]
fn a_file_that_contradicts_itself_is_reported() {
    let segs = [
        Seg {
            kind: 1,
            flags: 7,
            offset: 0,
            vaddr: 0x1000,
            filesz: 0x100,
            memsz: 0x80,
        },
        Seg {
            kind: 1,
            flags: 4,
            offset: 0x10,
            vaddr: 0x1040,
            filesz: 0x20,
            memsz: 0x20,
        },
    ];
    let bytes = image(2, 0x9000, &segs, &[]);
    let p = parsed(&bytes);
    let found = audit(&p, &mem(&p), &bytes, &[]);
    let said: Vec<(Severity, &str, &str)> = found
        .iter()
        .map(|f| (f.severity, f.title, f.detail.as_str()))
        .collect();
    assert_eq!(
        said,
        vec![
            (
                Severity::Suspicious,
                "segment claims more file than memory",
                "p_filesz 0x100 exceeds p_memsz 0x80; the loader cannot satisfy this"
            ),
            (
                Severity::Suspicious,
                "segment is writable and executable",
                "0x1000..0x1080 is mapped W+X; nothing a modern toolchain emits is"
            ),
            (
                Severity::Suspicious,
                "segment offset and address are not page-congruent",
                "p_offset 0x10 and p_vaddr 0x1040 differ mod 0x1000"
            ),
            (
                Severity::Suspicious,
                "two PT_LOAD segments overlap in memory",
                "0x1000..0x1080 overlaps 0x1040..0x1060; the later mapping wins and the earlier one is partly unreachable"
            ),
            (
                Severity::Suspicious,
                "entry point is not in any mapping",
                "e_entry 0x9000 lies outside every PT_LOAD"
            ),
            (
                Severity::Odd,
                "no section headers",
                "the file is loadable but describes none of itself; packers and hand-built binaries look like this"
            ),
        ]
    );
}

#[test]
fn an_entry_point_that_cannot_run_is_reported() {
    let mut bytes = hello_dyn();
    put(&mut bytes, 24, &0x2e00u64.to_le_bytes());
    // A relocation into the code.
    put(&mut bytes, 0x300, &0x400u64.to_le_bytes());
    let p = parsed(&bytes);
    let readings: Vec<Reading> = regions(&p)
        .iter()
        .map(|_| Reading {
            entropy: "0.0".to_owned(),
            high: false,
        })
        .collect();
    let found = audit(&p, &mem(&p), &bytes, &readings);
    let said: Vec<&str> = found.iter().map(|f| f.detail.as_str()).collect();
    assert_eq!(
        said,
        vec![
            "e_entry 0x2e00 lands in a rw- mapping",
            "1 relocation(s), first at 0x400 — the loader must unprotect the page to apply them"
        ]
    );
}

// Reports.

#[test]
fn the_report_names_the_largest_holes() {
    let p = parsed(&hello_dyn());
    let text = report::report("hello", &p, " 75.0", " 25.0");
    assert!(text.starts_with(
        "hello  ET_DYN EM_X86_64  entry 0x400\n  interp /lib64/ld-linux-x86-64.so.2   needed libc.so.6   BIND_NOW\n\n  coverage      ok — every byte claimed exactly once\n"
    ));
    let stats = p.coverage.stats();
    let line = format!(
        "  explained     {:>12}  {:5.1}%\n",
        elf_anatomy::audit::commas(stats.explained_bytes),
        75.0
    );
    assert!(text.contains(&line));
    // The hole before .dynamic is the largest.
    let hole = format!("\n  largest unexplained regions\n    {:#010x}  {:>10}  after .rodata, before .dynamic\n", 0x44d, "6,579");
    assert!(text.contains(&hole), "{text}");
}

#[test]
fn holes_are_named_by_their_neighbours() {
    let p = parsed(&hello_dyn());
    let at = |off| {
        let id = p.coverage.innermost_at(F, off).unwrap();
        report::context(&p.coverage, id)
    };
    assert_eq!(at(0x21c), "after .interp, before .dynsym");
    assert_eq!(
        at(0x190),
        "after what the kernel reads; the section headers below are for tools, not for loading, before .interp"
    );
    let id = p.coverage.innermost_at(F, 0x400).unwrap();
    assert_eq!(report::top_level_note(&p.coverage, id).as_deref(), Some(".text"));
    // A hole whose end is page-aligned is segment padding.
    let secs = [section(".a", 1, 0, 0x1000, vec![1; 16])];
    let q = parsed(&image(1, 0, &[], &secs));
    let hole = q.coverage.innermost_at(F, 0x800).unwrap();
    assert_eq!(
        report::context(&q.coverage, hole),
        "after the only structure at a fixed location; everything else is found through it, before .a  (page alignment)"
    );
}

#[test]
fn the_tree_is_cut_at_its_depth() {
    let p = parsed(&image(3, 0x1040, &[], &[]));
    let shallow = report::dump(&p.coverage, 0);
    let kids = p.coverage.children(ClaimId(0)).len();
    let line = format!("{:#010x} {:>9}  {:<16} ", 0, 64, "ehdr");
    assert!(shallow.starts_with(&line), "{shallow}");
    assert!(shallow.ends_with(&format!("{:>21}    … {kids} children\n", "")));
    let deep = report::dump(&p.coverage, usize::MAX);
    let entry = format!("{:#010x} {:>9}    {:<16} 0x1040", 24, 8, "e_entry");
    assert!(deep.contains(&entry), "{deep}");
    assert_eq!(deep.lines().count(), p.coverage.len());
}

#[test]
fn one_byte_is_explained_from_the_inside_out() {
    let p = parsed(&image(3, 0x1040, &[], &[]));
    let text = report::at(&p.coverage, 24);
    let inner = format!("byte 0x18, innermost first:\n\n{:<16} {:#010x}..{:#010x}  ", "e_entry", 24, 32);
    assert!(text.starts_with(&inner), "{text}");
    assert!(text.contains(&format!("\n  {:<16} {:#010x}..{:#010x}  ", "ehdr", 0, 64)));
    assert_eq!(report::at(&p.coverage, 64), "0x40 is past the end of the file\n");
}

#[test]
fn offsets_are_typed_in_either_base() {
    assert_eq!(report::parse_offset("0x1f"), Some(31));
    assert_eq!(report::parse_offset("31"), Some(31));
    assert_eq!(report::parse_offset("1f"), None);
    assert_eq!(report::parse_offset("0x"), None);
    assert_eq!(report::parse_offset("18446744073709551616"), None);
}

#[test]
fn the_map_is_page_rounded() {
    let p = parsed(&hello_dyn());
    let image = mem(&p);
    let total = p.coverage.stats().total_bytes;
    let text = report::map("hello", &image, total, " 60.0", " 40.0");
    let head = format!("hello  3 mappings\n\n  {:<20} {:>12}  {:<5} source\n", "vaddr", "size", "prot");
    assert!(text.starts_with(&head));
    let row = format!("  {:<20} {:>12}  {:<5} file 0x1e00..0x1f40\n", "0x00002e00", "320", "rw-");
    assert!(text.contains(&row), "{text}");
    assert!(text.contains("    0x00003000-0x00005000  rw-       8,192 bytes\n"));
    assert!(text.contains("  zero-filled              4,608          .bss — memory with no file behind it\n"));
    assert!(text.ends_with("\n\n"));
}

#[test]
fn steps_can_be_limited_and_filtered() {
    let p = parsed(&hello_dyn());
    let image = mem(&p);
    let t = Timeline::plan(&p.summary, &image);
    let all = report::steps("hello", &t, None, usize::MAX);
    assert!(all.starts_with(&format!("hello  {} steps modelled\n\n  kernel · kernel\n       0  ", t.len())), "{all}");
    assert!(all.ends_with("addresses written before the program ran\n\n"));
    let two = report::steps("hello", &t, None, 2);
    assert!(two.contains(&format!("    … {} more steps\n", t.len() - 2)));
    let some = report::steps("hello", &t, Some("relocate"), usize::MAX);
    assert!(!some.contains("kernel ·"));
    assert!(some.contains("  relocate · "));
}

// A session.

#[test]
fn a_session_answers_from_the_parse() {
    let bytes = hello_dyn();
    let s = Session::new("hello", &bytes).unwrap();
    assert_eq!(s.morph_frames(), 36);
    let (total, never) = s.sizes();
    assert_eq!(total, bytes.len() as u64);
    assert!(never > 0);
    let line = s.summary("12.3");
    assert!(line.contains(" claims   ·   12.3% never loaded   ·   interp /lib64/ld-linux-x86-64.so.2   ·   needs libc.so.6   ·   BIND_NOW"));
    assert_eq!(s.base().title, "hello");
    assert_eq!(
        s.base().subtitle,
        format!("ET_DYN  EM_X86_64  entry 0x400   {total} bytes on disk")
    );
    assert_eq!(s.shown_step(usize::MAX), s.step_count() - 1);
    assert_eq!(s.step_narration(usize::MAX), "");
    assert!(!s.step_narration(0).is_empty());
    assert_eq!(s.state_at(0).mappings.len(), 0);
}

#[test]
fn a_byte_and_its_steps_point_at_each_other() {
    let s = Session::new("hello", &hello_dyn()).unwrap();
    // The relocation that writes 0x2f08 is read from the file at 0x318.
    let n = (0..s.step_count())
        .find(|n| s.step_spans(*n) == "[{\"off\":792,\"len\":24}]")
        .unwrap();
    let reading = s.inspect(0x318);
    assert!(
        reading.starts_with("{\"off\":792,\"len\":24,\"path\":[\"reloc\",\"reloc.table\"],\"detail\":\""),
        "{reading}"
    );
    assert!(reading.ends_with(&format!("\"va\":792,\"steps\":[2,{n}]}}")), "{reading}");
    // The byte it writes knows it too.
    let written = s.inspect(0x1f08);
    assert!(written.ends_with(&format!("\"va\":12040,\"steps\":[3,{n}]}}")), "{written}");
    assert_eq!(s.step_spans(usize::MAX), "[]");
    // Past the end of the file there is nothing.
    let past = s.inspect(1 << 40);
    assert_eq!(
        past,
        "{\"off\":1099511627776,\"len\":0,\"path\":[],\"detail\":\"\",\"va\":null,\"steps\":[]}"
    );
}

#[test]
fn a_file_with_nothing_to_map_is_refused() {
    assert_eq!(
        Session::new("x", &image(1, 0, &[], &[])).unwrap_err(),
        "no PT_LOAD segments — an object file or a core dump has nothing to map"
    );
    assert_eq!(
        Session::new("x", b"no").unwrap_err(),
        "file is 2 bytes; an ELF64 header needs 64"
    );
}

#[test]
fn values_are_decoded() {
    let p = parsed(&hello_dyn());
    let entry = (0..p.coverage.len())
        .filter_map(|i| p.coverage.claim(ClaimId(i as u32)))
        .find(|c| c.kind.field_name() == Some("e_entry"))
        .unwrap();
    assert_eq!(entry.value, Value::Address(0x400));
    assert_eq!(entry.span, Span::new(F, 24, 8));
}
