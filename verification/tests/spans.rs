//! Spans, claims, the index and the reader.

use elf_anatomy::claim::{Claim, ClaimId, ClaimKind, PadReason, Value};
use elf_anatomy::index::IntervalIndex;
use elf_anatomy::reader::Reader;
use elf_anatomy::span::{FileId, Span};

const F: FileId = FileId(0);

#[test]
fn end_saturates_instead_of_panicking() {
    let s = Span::new(F, u64::MAX - 4, 1024);
    assert_eq!(s.end(), u64::MAX);
}

#[test]
fn overlap_is_half_open() {
    let a = Span::new(F, 0, 16);
    let b = Span::new(F, 16, 16);
    assert!(!a.overlaps(b));
    assert!(a.overlaps(Span::new(F, 15, 2)));
}

#[test]
fn empty_spans_never_overlap_but_do_nest() {
    let parent = Span::new(F, 0, 64);
    let empty = Span::empty_at(F, 64);
    assert!(!parent.overlaps(empty));
    assert!(parent.contains_span(empty));
}

#[test]
fn different_files_never_interact() {
    let a = Span::new(FileId(0), 0, 64);
    let b = Span::new(FileId(1), 0, 64);
    assert!(!a.overlaps(b));
    assert!(!a.contains_span(b));
    assert_eq!(a.intersection(b), None);
}

#[test]
fn gap_between_headers_and_first_section() {
    let ehdr = Span::new(F, 0, 64);
    let sect = Span::new(F, 0x1000, 32);
    assert_eq!(ehdr.gap_to(sect), Some(Span::new(F, 64, 0x1000 - 64)));
    assert_eq!(sect.gap_to(ehdr), None);
}

#[test]
fn spans_meet_in_what_they_share() {
    let a = Span::new(F, 10, 20);
    let b = Span::new(F, 25, 20);
    assert_eq!(a.intersection(b), Some(Span::new(F, 25, 5)));
    assert!(a.contains(F, 10) && a.contains(F, 29) && !a.contains(F, 30));
    assert!(!a.contains(FileId(1), 10));
    assert!(Span::empty_at(F, 3).is_empty());
    assert_eq!(FileId::primary(), F);
}

#[test]
fn ids_and_spans_are_written_out() {
    assert_eq!(FileId(7).to_text(), "f7");
    assert_eq!(ClaimId(12).to_text(), "#12");
    assert_eq!(Span::new(F, 0x10, 0x20).to_text(), "f0:0x10..0x30 (32)");
}

#[test]
fn builder_methods_compose() {
    let c = Claim::new(
        Span::new(F, 0x18, 8),
        ClaimKind::FileHeaderField { name: "e_entry" },
    )
    .child_of(ClaimId(0))
    .with_value(Value::Address(0x1040))
    .with_note("where the kernel jumps, for a static binary");

    assert_eq!(c.parent, Some(ClaimId(0)));
    assert_eq!(c.value, Value::Address(0x1040));
    assert_eq!(c.kind.label(), "ehdr.field");
    assert!(!c.kind.is_filler());
    assert_eq!(c.note.as_deref(), Some("where the kernel jumps, for a static binary"));
    assert_eq!(c.kind.field_name(), Some("e_entry"));
}

#[test]
fn filler_kinds_are_marked() {
    assert!(ClaimKind::Unclaimed.is_filler());
    assert!(
        ClaimKind::Padding {
            reason: PadReason::LinkerGap
        }
        .is_filler()
    );
    assert!(!ClaimKind::SectionBody { idx: 3 }.is_filler());
}

fn idx() -> IntervalIndex {
    // A miniature ehdr: the header, one field inside it, and a later section body.
    IntervalIndex::build(&[
        (Span::new(F, 0, 64), ClaimId(0)),      // ehdr
        (Span::new(F, 24, 8), ClaimId(1)),      // e_entry
        (Span::new(F, 0x1000, 32), ClaimId(2)), // a section
    ])
}

#[test]
fn nested_claims_come_back_innermost_first() {
    assert_eq!(idx().at(F, 26), vec![ClaimId(1), ClaimId(0)]);
    assert_eq!(idx().innermost(F, 26), Some(ClaimId(1)));
}

#[test]
fn outside_a_field_only_the_parent_matches() {
    assert_eq!(idx().at(F, 8), vec![ClaimId(0)]);
}

#[test]
fn gaps_and_ends_are_empty() {
    assert!(idx().at(F, 0x800).is_empty());
    assert_eq!(idx().innermost(F, 64), None);
    assert!(idx().at(FileId(9), 0).is_empty());
}

#[test]
fn viewport_query_spans_a_range() {
    assert_eq!(
        idx().overlapping(Span::new(F, 0, 0x1010)),
        vec![ClaimId(0), ClaimId(1), ClaimId(2)]
    );
    // A window straddling the gap and the section start: only the section is visible.
    assert_eq!(
        idx().overlapping(Span::new(F, 0xF00, 0x200)),
        vec![ClaimId(2)]
    );
    // A window entirely inside the gap sees nothing at all.
    assert!(idx().overlapping(Span::new(F, 0x900, 0x200)).is_empty());
}

#[test]
fn empty_spans_are_not_indexed() {
    let i = IntervalIndex::build(&[(Span::empty_at(F, 10), ClaimId(0))]);
    assert!(i.is_empty());
    assert!(i.at(F, 10).is_empty());
}

#[test]
fn saturating_spans_do_not_panic() {
    let i = IntervalIndex::build(&[(Span::new(F, u64::MAX - 2, u64::MAX), ClaimId(0))]);
    assert_eq!(i.at(F, u64::MAX - 1), vec![ClaimId(0)]);
}

#[test]
fn an_index_counts_what_it_holds() {
    assert_eq!(idx().len(), 3);
    assert!(!idx().is_empty());
    assert!(IntervalIndex::default().is_empty());
}

#[test]
fn reads_respect_endianness() {
    let data = [0x01, 0x02, 0x03, 0x04];
    assert_eq!(Reader::new(&data, true).u32_at(0), Some(0x0403_0201));
    assert_eq!(Reader::new(&data, false).u32_at(0), Some(0x0102_0304));
}

#[test]
fn out_of_bounds_reads_are_none_not_panics() {
    let r = Reader::new(&[0u8; 4], true);
    assert_eq!(r.u64_at(0), None);
    assert_eq!(r.u32_at(1), None);
    assert_eq!(r.u8_at(u64::MAX), None);
    assert_eq!(r.slice_at(2, u64::MAX), None);
}

#[test]
fn strings_stop_at_nul_and_at_the_cap() {
    let data = b"libc.so.6\0next\0";
    let r = Reader::new(data, true);
    assert_eq!(r.cstr_at(0, 64), Some(&b"libc.so.6"[..]));
    assert_eq!(r.cstr_at(10, 64), Some(&b"next"[..]));
    assert_eq!(r.cstr_at(0, 4), Some(&b"libc"[..]));
    assert_eq!(r.cstr_at(99, 64), None);
}

#[test]
fn an_unterminated_string_yields_what_is_there() {
    let r = Reader::new(b"nonul", true);
    assert_eq!(r.cstr_at(0, 64), Some(&b"nonul"[..]));
}

#[test]
fn every_width_is_read() {
    let data = [0x11u8, 0x22, 0x33, 0x44, 0x55, 0x66, 0x77, 0xff];
    let r = Reader::new(&data, true);
    assert_eq!(r.len(), 8);
    assert!(!r.is_empty());
    assert_eq!(r.u8_at(1), Some(0x22));
    assert_eq!(r.u16_at(1), Some(0x3322));
    assert_eq!(r.u64_at(0), Some(0xff77_6655_4433_2211));
    assert_eq!(r.i64_at(0), Some(0xff77_6655_4433_2211u64 as i64));
    assert_eq!(r.slice_at(2, 3), Some(&[0x33u8, 0x44, 0x55][..]));
}

#[test]
fn byte_order_reverses_the_bytes() {
    let forward = [1u8, 2, 3, 4, 5, 6, 7, 8];
    let backward = [8u8, 7, 6, 5, 4, 3, 2, 1];
    assert_eq!(
        Reader::new(&forward, true).u64_at(0),
        Reader::new(&backward, false).u64_at(0)
    );
}
