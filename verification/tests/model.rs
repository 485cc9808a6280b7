//! Memory: what is mapped, and what the loader does to it.

use elf_anatomy::claim::RelocTableKind;
use elf_anatomy::model::{
    is_deferred, MapSource, Mapping, MemImage, Prot, PF_R, PF_W, PF_X, PT_LOAD,
};
use elf_anatomy::parse::{Reloc, Segment, Summary};
use elf_anatomy::span::{FileId, Span};
use elf_anatomy::state::State;
use elf_anatomy::timeline::{Effect, Phase, Timeline};

fn load(offset: u64, vaddr: u64, filesz: u64, memsz: u64) -> Segment {
    Segment {
        p_type: PT_LOAD,
        flags: PF_R | PF_W,
        offset,
        vaddr,
        filesz,
        memsz,
        align: 0x1000,
    }
}

#[test]
fn a_segment_with_memsz_past_filesz_produces_bss() {
    let img = MemImage::from_segments(&[load(0x2db0, 0x3db0, 0x268, 0x690)]);
    assert_eq!(img.mappings().len(), 2);
    assert_eq!(img.zero_filled_bytes(), 0x690 - 0x268);
    assert_eq!(img.mapped_bytes(), 0x268);
    // The zero-filled part begins where the file part ends.
    assert_eq!(img.mappings()[1].vaddr, 0x3db0 + 0x268);
    assert_eq!(img.mappings()[1].source, MapSource::ZeroFill);
}

#[test]
fn file_offsets_outside_any_segment_have_no_address() {
    let img = MemImage::from_segments(&[load(0x1000, 0x1000, 0x175, 0x175)]);
    assert_eq!(img.vaddr_of(0x1000), Some(0x1000));
    assert_eq!(img.vaddr_of(0x1100), Some(0x1100));
    // Section headers, symtab, debug info, padding: all of this.
    assert_eq!(img.vaddr_of(0x2000), None);
    assert_eq!(img.vaddr_of(0), None);
}

#[test]
fn non_load_segments_are_not_mapped_by_the_kernel() {
    let mut dynamic = load(0x2dc8, 0x3dc8, 0x1f0, 0x1f0);
    dynamic.p_type = 2; // PT_DYNAMIC: a view of bytes already inside a PT_LOAD
    let img = MemImage::from_segments(&[dynamic]);
    assert!(img.is_empty());
}

#[test]
fn protection_comes_from_the_flag_bits() {
    assert_eq!(Prot::from_flags(PF_R | PF_X).as_str(), "r-x");
    assert_eq!(Prot::from_flags(PF_R | PF_W).as_str(), "rw-");
}

#[test]
fn protection_is_read_from_a_mapping_table() {
    assert_eq!(Prot::from_perms("rw-p").as_str(), "rw-");
    assert_eq!(Prot::from_perms("r-xp").as_str(), "r-x");
    assert_eq!(Prot::from_perms("---p"), Prot::default());
}

#[test]
fn a_file_page_shared_by_two_segments_is_mapped_twice() {
    // Both segments touch file page 0x2000, as the last two of a hello-world do.
    let mut ro = load(0x2000, 0x2000, 0x100, 0x100);
    ro.flags = PF_R;
    let rw = load(0x2db0, 0x3db0, 0x268, 0x690);
    let img = MemImage::for_file(&[ro, rw], 0x4000);
    assert_eq!(img.double_mapped_bytes(), 0x1000);
    // Past the end of the file part, the last page is cleared for .bss.
    assert_eq!(img.resident_bytes(), 0x1018);
    assert_eq!(img.extent(), Some((0x2000, 0x3db0 + 0x690)));
    // A byte that is only resident because it shares a page has an address too.
    assert_eq!(img.vaddr_of(0x2200), Some(0x2200));
    assert_eq!(img.resident().len(), 2);
}

#[test]
fn resident_bytes_are_those_with_an_address() {
    let file_len = 0x3100;
    let segs = [
        load(0x2000, 0x2000, 0x100, 0x100),
        load(0x2db0, 0x3db0, 0x268, 0x690),
        load(0x10, 0x10, 0x20, 0x20),
    ];
    let img = MemImage::for_file(&segs, file_len);
    let found = (0..file_len).filter(|o| img.vaddr_of(*o).is_some()).count();
    assert_eq!(img.resident_bytes(), found as u64);
    assert!(img.resident_bytes() <= file_len);
    // A segment that the file is too short for.
    let cut = MemImage::for_file(&segs, 0x2100);
    assert_eq!(cut.resident_bytes(), 0x1100);
}

#[test]
fn mapped_bytes_are_the_file_sizes() {
    let a = load(0x2000, 0x9000, 0x100, 0x100);
    let b = load(0x3000, 0x4000, 0x20, 0x80);
    let mut other = load(0x2000, 0x2000, 0x1000, 0x1000);
    other.p_type = 2;
    let of = |segs: &[Segment]| MemImage::from_segments(segs).mapped_bytes();
    assert_eq!(of(&[a, b]), 0x120);
    assert_eq!(of(&[b, a]), 0x120);
    // Another kind of segment adds nothing, and neither does memory.
    assert_eq!(of(&[a, other, b]), 0x120);
    assert_eq!(of(&[a, load(0x3000, 0x4000, 0x20, 0x9000)]), 0x120);
    // The sum stops at the largest number.
    assert_eq!(of(&[a, load(0, 0, u64::MAX, u64::MAX)]), u64::MAX);
    assert_eq!(MemImage::from_segments(&[a, other, b]).zero_filled_bytes(), 0x60);
}

#[test]
fn the_kernel_shows_whole_pages() {
    let img = MemImage::from_segments(&[load(0x2db0, 0x3db0, 0x200, 0x1690)]);
    let vmas = img.vmas();
    assert_eq!(vmas.len(), 2);
    assert_eq!((vmas[0].start, vmas[0].end), (0x3000, 0x4000));
    // .bss past the last file-backed page is anonymous.
    assert_eq!((vmas[0].offset, vmas[1].offset), (Some(0x2000), None));
    assert_eq!((vmas[1].start, vmas[1].end), (0x4000, 0x6000));
}

#[test]
fn the_table_is_of_whole_pages_in_order() {
    let mut code = load(0x800, 0x1800, 0x1234, 0x1234);
    code.flags = PF_R | PF_X;
    let img = MemImage::from_segments(&[
        load(0x3db0, 0x5db0, 0x268, 0x2690),
        code,
        load(0, 0, 0x700, 0x700),
    ]);
    let vmas = img.vmas();
    assert_eq!(
        vmas.iter().map(|v| (v.start, v.end)).collect::<Vec<_>>(),
        vec![(0, 0x1000), (0x1000, 0x3000), (0x5000, 0x7000), (0x7000, 0x9000)]
    );
    for pair in vmas.windows(2) {
        assert!(pair[0].end <= pair[1].start);
    }
}

#[test]
fn a_later_mapping_hides_an_earlier_one() {
    let mut s = State::new();
    for (vaddr, flags) in [(0x1000, PF_R), (0x1000, PF_R | PF_W)] {
        s.mappings.push(Mapping {
            vaddr,
            len: 0x1000,
            prot: Prot::from_flags(flags),
            source: MapSource::FromFile(Span::new(FileId(0), 0x1000, 0x1000)),
            segment: 0,
        });
    }
    assert_eq!(s.prot_at(0x1800), Some(Prot::from_flags(PF_R | PF_W)));
    assert_eq!(s.prot_at(0x3000), None);
    assert_eq!(s.vmas().len(), 1);
}

#[test]
fn protecting_splits_a_mapping() {
    let mut s = State::new();
    s.mappings.push(Mapping {
        vaddr: 0x1000,
        len: 0x3000,
        prot: Prot::from_flags(PF_R | PF_W),
        source: MapSource::FromFile(Span::new(FileId(0), 0, 0x3000)),
        segment: 0,
    });
    s.protect(0x2000, 0x1000, Prot::from_flags(PF_R));
    assert_eq!(s.mappings.len(), 3);
    assert_eq!(s.prot_at(0x1fff), Some(Prot::from_flags(PF_R | PF_W)));
    assert_eq!(s.prot_at(0x2000), Some(Prot::from_flags(PF_R)));
    assert_eq!(s.prot_at(0x3000), Some(Prot::from_flags(PF_R | PF_W)));
}

fn reloc(table: RelocTableKind, offset: u64) -> Reloc {
    Reloc {
        table,
        offset,
        r_type: 7,
        addend: 0,
        symbol: Some("fputs".to_string()),
        weak: false,
        file_span: Span::new(FileId(0), 0x500, 24),
    }
}

fn dynamic_summary(bind_now: bool) -> Summary {
    let mut s = Summary::default();
    s.interp = Some("/lib64/ld-linux-x86-64.so.2".to_string());
    s.has_dynamic = true;
    s.bind_now = bind_now;
    s.needed = vec!["libc.so.6".to_string()];
    s.segments = vec![load(0, 0, 0x4000, 0x4000)];
    s.relocs = vec![
        reloc(RelocTableKind::JmpRel, 0x3018),
        reloc(RelocTableKind::Rela, 0x3008),
    ];
    s.entry = 0x1040;
    s
}

#[test]
fn lazy_binding_writes_no_plt_entry() {
    for bind_now in [true, false] {
        let s = dynamic_summary(bind_now);
        let img = MemImage::from_segments(&s.segments);
        let t = Timeline::plan(&s, &img);
        let end = t.state_at(t.len());
        let addrs: Vec<u64> = end.poked.iter().map(|p| p.addr).collect();
        // DT_RELA is applied before DT_JMPREL, whatever the file says first.
        let want: Vec<u64> = if bind_now { vec![0x3008, 0x3018] } else { vec![0x3008] };
        assert_eq!(addrs, want);
        assert_eq!(is_deferred(&s, &s.relocs[0]), !bind_now);
        assert!(!is_deferred(&s, &s.relocs[1]));
    }
}

#[test]
fn scrubbing_backwards_gives_the_same_memory() {
    let s = dynamic_summary(true);
    let img = MemImage::from_segments(&s.segments);
    let t = Timeline::plan(&s, &img);
    assert!(!t.is_empty());
    let first = t.state_at(0);
    assert_eq!(first.mappings.len(), 0);
    let n = t
        .steps()
        .iter()
        .position(|s| matches!(s.effects.first(), Some(Effect::Mapped(_))))
        .unwrap();
    assert_eq!(t.state_at(n - 1).mappings.len(), 0);
    assert_eq!(t.state_at(n).mappings.len(), 1);
    assert_eq!(t.steps()[n].phase, Phase::Kernel);
    assert_eq!(t.steps().last().unwrap().phase, Phase::Entry);
}

#[test]
fn relro_that_stops_mid_page_protects_only_whole_pages() {
    let mut s = dynamic_summary(true);
    let mut relro = load(0x2db0, 0x2db0, 0x400, 0x400);
    relro.p_type = 0x6474_e552;
    s.segments.push(relro);
    let img = MemImage::from_segments(&s.segments);
    let t = Timeline::plan(&s, &img);
    let end = t.state_at(t.len());
    // 0x2db0..0x31b0 rounds down at both ends: page 0x2000 alone is sealed.
    assert_eq!(end.prot_at(0x2fff), Some(Prot::from_flags(PF_R)));
    assert_eq!(end.prot_at(0x3000), Some(Prot::from_flags(PF_R | PF_W)));
    assert_eq!(end.prot_at(0x1fff), Some(Prot::from_flags(PF_R | PF_W)));
}
